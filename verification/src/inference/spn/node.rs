//! Sum-product networks over continuous variables: their nodes, and what
//! they stand for.

use std::rc::Rc;

use vstd::prelude::*;

use super::scope;
use super::scope::sorted_scope;
use crate::inference::lazy_kc::state::clone_numbers;
use crate::utils::epsilon::RealEps;
use crate::utils::reals;
use crate::utils::reals::{Arithmetic, RealOp, NEG_INFINITY, ZERO};

verus! {

/// The families of continuous variables.
#[derive(Debug, Clone, Copy, PartialEq, Eq, Structural)]
pub enum Family {
    Beta,
    Dirichlet,
    Gamma,
    Gaussian,
}

/// A leaf: its family, its variables, and the numbers that describe it. In
/// an evidence network it is a likelihood, in a posterior network a density.
#[derive(Debug)]
pub struct Leaf {
    pub family: Family,
    pub names: Vec<u64>,
    pub numbers: Vec<u64>,
}

pub struct LeafView {
    pub family: Family,
    pub names: Seq<u64>,
    pub numbers: Seq<u64>,
}

impl View for Leaf {
    type V = LeafView;

    open spec fn view(&self) -> LeafView {
        LeafView { family: self.family, names: self.names@, numbers: self.numbers@ }
    }
}

impl Leaf {
    pub fn duplicate(&self) -> (r: Leaf)
        ensures
            r@ == self@,
    {
        Leaf {
            family: self.family,
            names: clone_numbers(&self.names),
            numbers: clone_numbers(&self.numbers),
        }
    }

    pub fn same(&self, other: &Leaf) -> (r: bool)
        ensures
            r == (self@ == other@),
    {
        if self.family != other.family || !same_numbers(&self.names, &other.names) {
            return false;
        }
        same_numbers(&self.numbers, &other.numbers)
    }
}

pub fn same_numbers(a: &Vec<u64>, b: &Vec<u64>) -> (r: bool)
    ensures
        r == (a@ == b@),
{
    if a.len() != b.len() {
        return false;
    }
    let mut i: usize = 0;
    while i < a.len()
        invariant
            i <= a@.len(),
            a@.len() == b@.len(),
            forall|j: int| 0 <= j < i ==> a@[j] == b@[j],
        decreases a@.len() - i,
    {
        if a[i] != b[i] {
            return false;
        }
        i = i + 1;
    }
    assert(a@ =~= b@);
    true
}

/// The kinds of nodes.
#[derive(Debug)]
pub enum SpnKind {
    /// A pure scalar; the value lives in the outer `Spn::log_coeff`.
    Scalar,
    Leaf(Leaf),
    /// A sum of children. Each child's `log_coeff` is its branch weight
    /// divided by the sum of all, which the outer node carries.
    Sum(Vec<Spn>),
    /// A product of children with disjoint scopes. Children carry
    /// the coefficient one; the outer node holds the product of their original
    /// coefficients.
    Product(Vec<Spn>),
}

#[derive(Debug)]
pub struct Spn {
    pub log_coeff: RealEps,
    pub inner: Rc<SpnInner>,
}

#[derive(Debug)]
pub struct SpnInner {
    pub kind: SpnKind,
    /// The variables, in increasing order.
    pub scope: Vec<u64>,
}

/// What a node is.
pub struct Node {
    pub coeff: RealEps,
    pub shape: Shape,
}

/// What a node is but for its coefficient.
pub enum Shape {
    Scalar,
    Leaf(LeafView),
    Sum(Seq<Node>),
    Product(Seq<Node>),
}

impl Spn {
    pub open spec fn node(&self) -> Node
        decreases self,
    {
        Node { coeff: self.log_coeff, shape: self.inner.kind.shape() }
    }

    /// The scope of every node is the set of its variables.
    pub open spec fn laid_out(&self) -> bool
        decreases self,
    {
        &&& scope::increasing(self.inner.scope@)
        &&& self.inner.scope@.to_set() == vars(self.inner.kind.shape())
        &&& self.inner.kind.laid_out()
    }

    /// The node is well-formed and in normal form.
    pub open spec fn wf(&self) -> bool {
        self.laid_out() && normal(self.node())
    }
}

impl SpnKind {
    pub open spec fn shape(&self) -> Shape
        decreases self,
    {
        match self {
            SpnKind::Scalar => Shape::Scalar,
            SpnKind::Leaf(l) => Shape::Leaf(l@),
            SpnKind::Sum(c) => Shape::Sum(nodes(c@)),
            SpnKind::Product(c) => Shape::Product(nodes(c@)),
        }
    }

    pub open spec fn laid_out(&self) -> bool
        decreases self,
    {
        match self {
            SpnKind::Sum(c) => all_laid_out(c@),
            SpnKind::Product(c) => all_laid_out(c@),
            _ => true,
        }
    }
}

pub open spec fn nodes(s: Seq<Spn>) -> Seq<Node>
    decreases s,
{
    if s.len() == 0 {
        Seq::empty()
    } else {
        nodes(s.drop_last()).push(s.last().node())
    }
}

pub open spec fn all_laid_out(s: Seq<Spn>) -> bool
    decreases s,
{
    s.len() == 0 || (all_laid_out(s.drop_last()) && s.last().laid_out())
}

pub proof fn lemma_nodes(s: Seq<Spn>)
    ensures
        nodes(s).len() == s.len(),
        forall|i: int| 0 <= i < s.len() ==> #[trigger] nodes(s)[i] == s[i].node(),
    decreases s.len(),
{
    if s.len() > 0 {
        lemma_nodes(s.drop_last());
        assert forall|i: int| 0 <= i < s.len() implies #[trigger] nodes(s)[i] == s[i].node() by {
            if i < s.len() - 1 {
                assert(nodes(s.drop_last())[i] == s.drop_last()[i].node());
            }
        }
    }
}

pub proof fn lemma_laid_out(s: Seq<Spn>)
    ensures
        all_laid_out(s) <==> forall|i: int| 0 <= i < s.len() ==> (#[trigger] s[i]).laid_out(),
    decreases s.len(),
{
    if s.len() > 0 {
        let p = s.drop_last();
        lemma_laid_out(p);
        if all_laid_out(s) {
            assert forall|i: int| 0 <= i < s.len() implies (#[trigger] s[i]).laid_out() by {
                if i < s.len() - 1 {
                    assert(p[i].laid_out());
                }
            }
        }
        if forall|i: int| 0 <= i < s.len() ==> (#[trigger] s[i]).laid_out() {
            assert forall|i: int| 0 <= i < p.len() implies (#[trigger] p[i]).laid_out() by {
                assert(s[i].laid_out());
            }
            assert(s[s.len() - 1].laid_out());
        }
    }
}

/// The variables below a node.
pub open spec fn vars(shape: Shape) -> Set<u64>
    decreases shape,
{
    match shape {
        Shape::Scalar => Set::empty(),
        Shape::Leaf(l) => l.names.to_set(),
        Shape::Sum(c) => all_vars(c),
        Shape::Product(c) => all_vars(c),
    }
}

pub open spec fn all_vars(s: Seq<Node>) -> Set<u64>
    decreases s,
{
    if s.len() == 0 {
        Set::empty()
    } else {
        all_vars(s.drop_last()).union(vars(s.last().shape))
    }
}

pub proof fn lemma_all_vars(s: Seq<Node>)
    ensures
        forall|n: u64| #[trigger] all_vars(s).contains(n) <==> exists|i: int|
            0 <= i < s.len() && vars((#[trigger] s[i]).shape).contains(n),
    decreases s.len(),
{
    if s.len() > 0 {
        let p = s.drop_last();
        lemma_all_vars(p);
        assert forall|n: u64| #[trigger] all_vars(s).contains(n) <==> exists|i: int|
            0 <= i < s.len() && vars((#[trigger] s[i]).shape).contains(n) by {
            assert(all_vars(s).contains(n) <==> (all_vars(p).contains(n) || vars(s.last().shape).contains(n)));
            if all_vars(p).contains(n) {
                let i = choose|i: int| 0 <= i < p.len() && vars((#[trigger] p[i]).shape).contains(n);
                assert(s[i] == p[i]);
            }
            if vars(s.last().shape).contains(n) {
                assert(s[s.len() - 1] == s.last());
            }
            if exists|i: int| 0 <= i < s.len() && vars((#[trigger] s[i]).shape).contains(n) {
                let i = choose|i: int| 0 <= i < s.len() && vars((#[trigger] s[i]).shape).contains(n);
                if i < s.len() - 1 {
                    assert(p[i] == s[i]);
                }
            }
        }
    }
}

/// No two nodes have a variable in common.
pub open spec fn disjoint_scopes(s: Seq<Node>) -> bool {
    forall|i: int, j: int|
        0 <= i < j < s.len() ==> scope::apart(vars((#[trigger] s[i]).shape), vars((#[trigger] s[j]).shape))
}

/// No two nodes differ only in their coefficient.
pub open spec fn distinct_shapes(s: Seq<Node>) -> bool {
    forall|i: int, j: int| 0 <= i < j < s.len() ==> (#[trigger] s[i]).shape != (#[trigger] s[j]).shape
}

/// A child that a sum can have.
pub open spec fn summand(n: Node) -> bool {
    !n.coeff.none() && !(n.shape is Sum)
}

/// A child that a product can have.
pub open spec fn factor(n: Node) -> bool {
    n.coeff == one_coeff() && !(n.shape is Scalar) && !(n.shape is Product)
}

pub open spec fn one_coeff() -> RealEps {
    RealEps { log_coeff: ZERO, power: 0 }
}

pub open spec fn zero_node() -> Node {
    Node { coeff: RealEps { log_coeff: NEG_INFINITY, power: 0 }, shape: Shape::Scalar }
}

/// The node is in normal form: sums and products have two children or more
/// and are not nested in their own kind, sums have no zero or repeated
/// children, and the children of products have disjoint scopes and carry no
/// coefficients.
pub open spec fn normal(n: Node) -> bool
    decreases n,
{
    match n.shape {
        Shape::Sum(c) => {
            &&& c.len() >= 2
            &&& all_normal(c)
            &&& forall|i: int| 0 <= i < c.len() ==> summand(#[trigger] c[i])
            &&& distinct_shapes(c)
        },
        Shape::Product(c) => {
            &&& c.len() >= 2
            &&& all_normal(c)
            &&& forall|i: int| 0 <= i < c.len() ==> factor(#[trigger] c[i])
            &&& disjoint_scopes(c)
        },
        _ => true,
    }
}

pub open spec fn all_normal(s: Seq<Node>) -> bool
    decreases s,
{
    s.len() == 0 || (all_normal(s.drop_last()) && normal(s.last()))
}

pub proof fn lemma_all_normal(s: Seq<Node>)
    ensures
        all_normal(s) <==> forall|i: int| 0 <= i < s.len() ==> normal(#[trigger] s[i]),
    decreases s.len(),
{
    if s.len() > 0 {
        let p = s.drop_last();
        lemma_all_normal(p);
        if all_normal(s) {
            assert forall|i: int| 0 <= i < s.len() implies normal(#[trigger] s[i]) by {
                if i < s.len() - 1 {
                    assert(normal(p[i]));
                }
            }
        }
        if forall|i: int| 0 <= i < s.len() ==> normal(#[trigger] s[i]) {
            assert forall|i: int| 0 <= i < p.len() implies normal(#[trigger] p[i]) by {
                assert(normal(s[i]));
            }
            assert(normal(s[s.len() - 1]));
        }
    }
}

impl Spn {
    fn new(log_coeff: RealEps, kind: SpnKind, scope: Vec<u64>) -> (r: Self)
        requires
            scope::increasing(scope@),
            scope@.to_set() == vars(kind.shape()),
            kind.laid_out(),
        ensures
            r.laid_out(),
            r.node() == (Node { coeff: log_coeff, shape: kind.shape() }),
    {
        Spn { log_coeff, inner: Rc::new(SpnInner { kind, scope }) }
    }

    /// A pure scalar carrying `exp(log_coeff)` and an empty scope.
    pub fn scalar(log_coeff: u64) -> (r: Self)
        ensures
            r.wf(),
            r.node() == (Node { coeff: RealEps { log_coeff, power: 0 }, shape: Shape::Scalar }),
    {
        Spn::from_coeff(RealEps { log_coeff, power: 0 })
    }

    /// A pure scalar, with its epsilon power.
    pub fn from_coeff(c: RealEps) -> (r: Self)
        ensures
            r.wf(),
            r.node() == (Node { coeff: c, shape: Shape::Scalar }),
    {
        let none: Vec<u64> = Vec::new();
        assert(none@.to_set() =~= Set::<u64>::empty());
        Spn::new(c, SpnKind::Scalar, none)
    }

    pub fn zero() -> (r: Self)
        ensures
            r.wf(),
            r.node() == zero_node(),
    {
        Spn::from_coeff(RealEps::zero())
    }

    pub fn one() -> (r: Self)
        ensures
            r.wf(),
            r.node() == (Node { coeff: one_coeff(), shape: Shape::Scalar }),
    {
        Spn::from_coeff(RealEps::one())
    }

    /// A leaf with the coefficient one.
    pub fn leaf(l: Leaf) -> (r: Self)
        ensures
            r.wf(),
            r.node() == (Node { coeff: one_coeff(), shape: Shape::Leaf(l@) }),
    {
        let scope: Vec<u64> = sorted_scope(&l.names);
        Spn::new(RealEps::one(), SpnKind::Leaf(l), scope)
    }

    pub fn is_zero(&self) -> (r: bool)
        ensures
            r == self.node().coeff.none(),
    {
        self.log_coeff.is_zero()
    }

    pub fn is_one(&self) -> (r: bool)
        ensures
            r == (self.node().coeff.unit() && self.node().shape is Scalar),
    {
        self.log_coeff.is_one() && self.is_scalar()
    }

    /// Is this a pure scalar (empty scope)?
    pub fn is_scalar(&self) -> (r: bool)
        ensures
            r == (self.node().shape is Scalar),
    {
        matches!(self.inner.kind, SpnKind::Scalar)
    }

    pub fn log_coeff(&self) -> (r: RealEps)
        ensures
            r == self.node().coeff,
    {
        self.log_coeff
    }

    pub fn kind(&self) -> (r: &SpnKind)
        ensures
            r.shape() == self.node().shape,
    {
        &self.inner.kind
    }

    /// The variables, in increasing order.
    pub fn scope(&self) -> (r: &Vec<u64>)
        requires
            self.laid_out(),
        ensures
            scope::increasing(r@),
            r@.to_set() == vars(self.node().shape),
    {
        &self.inner.scope
    }

    /// The same node, shared.
    pub fn share(&self) -> (r: Self)
        ensures
            r == *self,
    {
        Spn { log_coeff: self.log_coeff, inner: self.inner.clone() }
    }

    /// The same node with another coefficient, shared.
    pub fn with_coeff(&self, c: RealEps) -> (r: Self)
        ensures
            r.node() == (Node { coeff: c, shape: self.node().shape }),
            self.laid_out() ==> r.laid_out(),
            self.wf() ==> r.wf(),
    {
        Spn { log_coeff: c, inner: self.inner.clone() }
    }

    /// A copy scaled by a plain log-domain scalar. Epsilon power preserved.
    pub fn scalar_mul<F: Fn(RealOp, u64, u64) -> u64>(&self, log_s: u64, reals: &F) -> (r: Self)
        requires
            reals::settled(*reals),
        ensures
            r.node() == rescaled(self.node(), log_s, reals::operations(*reals)),
            self.wf() ==> r.wf(),
    {
        self.with_coeff(self.log_coeff.scale_log(log_s, reals))
    }

    /// A copy scaled by a coefficient.
    pub fn coeff_mul<F: Fn(RealOp, u64, u64) -> u64>(&self, factor: RealEps, reals: &F) -> (r: Self)
        requires
            reals::settled(*reals),
        ensures
            r.node() == scaled(self.node(), factor, reals::operations(*reals)),
            self.wf() ==> r.wf(),
    {
        self.with_coeff(self.log_coeff.product(factor, reals))
    }

    /// Are the two nodes the same but for their coefficients?
    pub fn same_shape(&self, other: &Spn) -> (r: bool)
        ensures
            r == (self.node().shape == other.node().shape),
        decreases self,
    {
        match (&self.inner.kind, &other.inner.kind) {
            (SpnKind::Scalar, SpnKind::Scalar) => true,
            (SpnKind::Leaf(a), SpnKind::Leaf(b)) => a.same(b),
            (SpnKind::Sum(a), SpnKind::Sum(b)) => same_nodes(a, b),
            (SpnKind::Product(a), SpnKind::Product(b)) => same_nodes(a, b),
            _ => false,
        }
    }
}

fn same_nodes(a: &Vec<Spn>, b: &Vec<Spn>) -> (r: bool)
    ensures
        r == (nodes(a@) == nodes(b@)),
    decreases a,
{
    proof {
        lemma_nodes(a@);
        lemma_nodes(b@);
    }
    if a.len() != b.len() {
        return false;
    }
    let mut i: usize = 0;
    while i < a.len()
        invariant
            i <= a@.len(),
            a@.len() == b@.len(),
            forall|j: int| 0 <= j < a@.len() ==> #[trigger] nodes(a@)[j] == a@[j].node(),
            forall|j: int| 0 <= j < b@.len() ==> #[trigger] nodes(b@)[j] == b@[j].node(),
            nodes(a@).len() == a@.len(),
            nodes(b@).len() == b@.len(),
            forall|j: int| 0 <= j < i ==> #[trigger] nodes(a@)[j] == nodes(b@)[j],
        decreases a@.len() - i,
    {
        let same: bool = a[i].log_coeff == b[i].log_coeff && a[i].same_shape(&b[i]);
        if !same {
            assert(nodes(a@)[i as int] != nodes(b@)[i as int]);
            return false;
        }
        assert(nodes(a@)[i as int] == nodes(b@)[i as int]);
        i = i + 1;
    }
    assert(nodes(a@) =~= nodes(b@));
    true
}

/// The node scaled by a coefficient.
pub open spec fn scaled(n: Node, c: RealEps, f: Arithmetic) -> Node {
    Node { coeff: n.coeff.times(c, f), shape: n.shape }
}

/// The node scaled by a plain number, which stands by its logarithm.
pub open spec fn rescaled(n: Node, log_s: u64, f: Arithmetic) -> Node {
    Node {
        coeff: RealEps {
            log_coeff: f(RealOp::Sum, n.coeff.log_coeff, log_s),
            power: n.coeff.power,
        },
        shape: n.shape,
    }
}

} // verus!
