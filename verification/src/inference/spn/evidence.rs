//! Evidence networks: their likelihood under an assignment, and the
//! posterior networks that they lead to.

use std::collections::BTreeSet;

use vstd::prelude::*;

use super::node;
use super::node::{Leaf, LeafView, Node, Shape, Spn, SpnKind};
use super::normal;
use super::product;
use super::scope;
use crate::utils::epsilon::RealEps;
use crate::utils::reals;
use crate::utils::reals::{compute, real_equal, Arithmetic, RealOp, NEG_INFINITY, ZERO};

verus! {

/// What leaves are, as numbers.
pub type Reading = spec_fn(LeafView) -> u64;

/// `g` can be called on all leaves and answers equal calls alike.
pub open spec fn reads<L: Fn(Leaf) -> u64>(g: L) -> bool {
    &&& forall|a: Leaf| #[trigger] call_requires(g, (a,))
    &&& forall|a: Leaf, b: Leaf, r: u64, s: u64|
        a@ == b@ && #[trigger] call_ensures(g, (a,), r) && #[trigger] call_ensures(g, (b,), s) ==> r == s
}

pub open spec fn read_call<L: Fn(Leaf) -> u64>(g: L, x: LeafView, a: Leaf, r: u64) -> bool {
    a@ == x && call_ensures(g, (a,), r)
}

/// What `g` answers.
pub open spec fn reading<L: Fn(Leaf) -> u64>(g: L) -> Reading {
    |x: LeafView|
        {
            let (a, r) = choose|a: Leaf, r: u64| #[trigger] read_call(g, x, a, r);
            r
        }
}

/// Dispatch the per-leaf log-likelihood.
fn leaf_log_likelihood<L: Fn(Leaf) -> u64>(g: &L, l: &Leaf) -> (r: u64)
    requires
        reads(*g),
    ensures
        r == reading(*g)(l@),
{
    let x: Leaf = l.duplicate();
    let ghost gx = x;
    let r: u64 = g(x);
    proof {
        assert(read_call(*g, l@, gx, r));
        let (a, s) = choose|a: Leaf, s: u64| #[trigger] read_call(*g, l@, a, s);
        assert(read_call(*g, l@, a, s));
    }
    r
}

/// The logarithm of the likelihood, given those of the leaves.
pub open spec fn likelihood(n: Node, rd: Reading, f: Arithmetic) -> u64
    decreases n,
{
    if n.coeff.none() {
        NEG_INFINITY
    } else {
        f(RealOp::Sum, inner_likelihood(n.shape, rd, f), n.coeff.log_coeff)
    }
}

pub open spec fn inner_likelihood(shape: Shape, rd: Reading, f: Arithmetic) -> u64
    decreases shape,
{
    match shape {
        Shape::Scalar => ZERO,
        Shape::Leaf(l) => rd(l),
        Shape::Product(c) => match product_likelihood(c, rd, f) {
            Some(v) => v,
            None => NEG_INFINITY,
        },
        Shape::Sum(c) => sum_likelihood(c, rd, f),
    }
}

/// The logarithms added up; none if one of them is negative infinity.
pub open spec fn product_likelihood(s: Seq<Node>, rd: Reading, f: Arithmetic) -> Option<u64>
    decreases s,
{
    if s.len() == 0 {
        Some(ZERO)
    } else {
        match product_likelihood(s.drop_last(), rd, f) {
            Some(t) => {
                let c = likelihood(s.last(), rd, f);
                if reals::equal(c, NEG_INFINITY) {
                    None
                } else {
                    Some(f(RealOp::Sum, t, c))
                }
            },
            None => None,
        }
    }
}

pub open spec fn sum_likelihood(s: Seq<Node>, rd: Reading, f: Arithmetic) -> u64
    decreases s,
{
    if s.len() == 0 {
        NEG_INFINITY
    } else {
        f(
            RealOp::LogSum,
            sum_likelihood(s.drop_last(), rd, f),
            likelihood(s.last(), rd, f),
        )
    }
}

proof fn lemma_dead(s: Seq<Node>, i: int, rd: Reading, f: Arithmetic)
    requires
        0 <= i <= s.len(),
        product_likelihood(s.take(i), rd, f) is None,
    ensures
        product_likelihood(s, rd, f) is None,
    decreases s.len() - i,
{
    if i == s.len() {
        assert(s.take(i) =~= s);
    } else {
        assert(s.take(i + 1).drop_last() =~= s.take(i));
        lemma_dead(s, i + 1, rd, f);
    }
}

impl Spn {
    /// Log-likelihood of the network, given those of its leaves: products
    /// add up their children, sums take a `logsumexp` of theirs.
    pub fn log_likelihood<L: Fn(Leaf) -> u64, F: Fn(RealOp, u64, u64) -> u64>(&self, leaves: &L, reals: &F) -> (r:
        u64)
        requires
            reads(*leaves),
            reals::settled(*reals),
        ensures
            r == likelihood(self.node(), reading(*leaves), reals::operations(*reals)),
        decreases self,
    {
        if self.is_zero() {
            return NEG_INFINITY;
        }
        let inner: u64 = match &self.inner.kind {
            SpnKind::Scalar => ZERO,
            SpnKind::Leaf(l) => leaf_log_likelihood(leaves, l),
            SpnKind::Product(c) => match product_log_likelihood(c, leaves, reals) {
                Some(v) => v,
                None => NEG_INFINITY,
            },
            SpnKind::Sum(c) => sum_log_likelihood(c, leaves, reals),
        };
        compute(reals, RealOp::Sum, inner, self.log_coeff.log_coeff)
    }
}

fn product_log_likelihood<L: Fn(Leaf) -> u64, F: Fn(RealOp, u64, u64) -> u64>(c: &Vec<Spn>, leaves: &L, reals: &F) -> (r:
    Option<u64>)
    requires
        reads(*leaves),
        reals::settled(*reals),
    ensures
        r == product_likelihood(node::nodes(c@), reading(*leaves), reals::operations(*reals)),
    decreases c,
{
    let ghost f = reals::operations(*reals);
    let ghost rd = reading(*leaves);
    let ghost cs = node::nodes(c@);
    let mut total: u64 = ZERO;
    let mut i: usize = 0;
    proof {
        node::lemma_nodes(c@);
        assert(cs.take(0) =~= Seq::<Node>::empty());
    }
    while i < c.len()
        invariant
            i <= c@.len(),
            reads(*leaves),
            reals::settled(*reals),
            f == reals::operations(*reals),
            rd == reading(*leaves),
            cs == node::nodes(c@),
            cs.len() == c@.len(),
            forall|j: int| 0 <= j < c@.len() ==> #[trigger] cs[j] == c@[j].node(),
            product_likelihood(cs.take(i as int), rd, f) == Some(total),
        decreases c@.len() - i,
    {
        proof {
            assert(cs[i as int] == c@[i as int].node());
            assert(cs.take(i + 1).drop_last() =~= cs.take(i as int));
            assert(cs.take(i + 1).last() == cs[i as int]);
        }
        let one: u64 = c[i].log_likelihood(leaves, reals);
        if real_equal(one, NEG_INFINITY) {
            proof {
                lemma_dead(cs, i + 1, rd, f);
            }
            return None;
        }
        total = compute(reals, RealOp::Sum, total, one);
        i = i + 1;
    }
    assert(cs.take(cs.len() as int) =~= cs);
    Some(total)
}

fn sum_log_likelihood<L: Fn(Leaf) -> u64, F: Fn(RealOp, u64, u64) -> u64>(c: &Vec<Spn>, leaves: &L, reals: &F) -> (r:
    u64)
    requires
        reads(*leaves),
        reals::settled(*reals),
    ensures
        r == sum_likelihood(node::nodes(c@), reading(*leaves), reals::operations(*reals)),
    decreases c,
{
    let ghost f = reals::operations(*reals);
    let ghost rd = reading(*leaves);
    let ghost cs = node::nodes(c@);
    let mut total: u64 = NEG_INFINITY;
    let mut i: usize = 0;
    proof {
        node::lemma_nodes(c@);
        assert(cs.take(0) =~= Seq::<Node>::empty());
    }
    while i < c.len()
        invariant
            i <= c@.len(),
            reads(*leaves),
            reals::settled(*reals),
            f == reals::operations(*reals),
            rd == reading(*leaves),
            cs == node::nodes(c@),
            cs.len() == c@.len(),
            forall|j: int| 0 <= j < c@.len() ==> #[trigger] cs[j] == c@[j].node(),
            sum_likelihood(cs.take(i as int), rd, f) == total,
        decreases c@.len() - i,
    {
        proof {
            assert(cs[i as int] == c@[i as int].node());
            assert(cs.take(i + 1).drop_last() =~= cs.take(i as int));
            assert(cs.take(i + 1).last() == cs[i as int]);
        }
        let one: u64 = c[i].log_likelihood(leaves, reals);
        total = compute(reals, RealOp::LogSum, total, one);
        i = i + 1;
    }
    assert(cs.take(cs.len() as int) =~= cs);
    total
}

/// What the evidence of leaves leads to: a posterior leaf, if its variables
/// are asked for, and the marginal likelihood.
pub type Updating = spec_fn(LeafView) -> (Option<LeafView>, RealEps);

pub open spec fn update_view(r: (Option<Leaf>, RealEps)) -> (Option<LeafView>, RealEps) {
    match r.0 {
        Some(l) => (Some(l@), r.1),
        None => (None, r.1),
    }
}

/// The posterior leaf has variables of the evidence leaf only.
pub open spec fn update_within(x: LeafView, r: (Option<LeafView>, RealEps)) -> bool {
    r.0 matches Some(l) ==> forall|n: u64| #[trigger] l.names.contains(n) ==> x.names.contains(n)
}

/// `g` can be called on all leaves and sets of variables, answers equal
/// calls alike, and brings in no new variables.
pub open spec fn updates<P: Fn(Leaf, &BTreeSet<u64>) -> (Option<Leaf>, RealEps)>(g: P) -> bool {
    &&& forall|a: Leaf, q: &BTreeSet<u64>| #[trigger] call_requires(g, (a, q))
    &&& forall|
        a: Leaf,
        b: Leaf,
        q: &BTreeSet<u64>,
        p: &BTreeSet<u64>,
        r: (Option<Leaf>, RealEps),
        s: (Option<Leaf>, RealEps),
    |
        a@ == b@ && q@ == p@ && #[trigger] call_ensures(g, (a, q), r) && #[trigger] call_ensures(
            g,
            (b, p),
            s,
        ) ==> update_view(r) == update_view(s)
    &&& forall|a: Leaf, q: &BTreeSet<u64>, r: (Option<Leaf>, RealEps)| #[trigger]
        call_ensures(g, (a, q), r) ==> update_within(a@, update_view(r))
}

pub open spec fn update_call<P: Fn(Leaf, &BTreeSet<u64>) -> (Option<Leaf>, RealEps)>(
    g: P,
    x: LeafView,
    query: Set<u64>,
    a: Leaf,
    q: BTreeSet<u64>,
    r: (Option<Leaf>, RealEps),
) -> bool {
    a@ == x && q@ == query && call_ensures(g, (a, &q), r)
}

/// What `g` answers when the variables of a set are asked for.
pub open spec fn updating<P: Fn(Leaf, &BTreeSet<u64>) -> (Option<Leaf>, RealEps)>(
    g: P,
    query: Set<u64>,
) -> Updating {
    |x: LeafView|
        {
            let (a, q, r) = choose|a: Leaf, q: BTreeSet<u64>, r: (Option<Leaf>, RealEps)| #[trigger]
                update_call(g, x, query, a, q, r);
            update_view(r)
        }
}

/// The node of an updated leaf: what is not asked for leaves its marginal
/// likelihood behind as a scalar.
pub open spec fn leaf_node(u: (Option<LeafView>, RealEps), f: Arithmetic) -> Node {
    match u.0 {
        Some(l) => node::scaled(product::bare(Shape::Leaf(l)), u.1, f),
        None => Node { coeff: u.1, shape: Shape::Scalar },
    }
}

/// The unnormalised posterior of a node, given what its leaves lead to.
pub open spec fn posterior_of(n: Node, up: Updating, f: Arithmetic) -> Node
    decreases n,
{
    if n.coeff.none() {
        node::zero_node()
    } else if n.shape is Scalar {
        Node { coeff: RealEps { log_coeff: n.coeff.log_coeff, power: 0 }, shape: Shape::Scalar }
    } else {
        node::rescaled(inner_posterior(n.shape, up, f), n.coeff.log_coeff, f)
    }
}

pub open spec fn inner_posterior(shape: Shape, up: Updating, f: Arithmetic) -> Node
    decreases shape,
{
    match shape {
        Shape::Scalar => product::bare(Shape::Scalar),
        Shape::Leaf(l) => leaf_node(up(l), f),
        Shape::Product(c) => normal::multiplied(posteriors(c, up, f), f),
        Shape::Sum(c) => normal::summed(posteriors(c, up, f), f),
    }
}

pub open spec fn posteriors(s: Seq<Node>, up: Updating, f: Arithmetic) -> Seq<Node>
    decreases s,
{
    if s.len() == 0 {
        Seq::empty()
    } else {
        posteriors(s.drop_last(), up, f).push(posterior_of(s.last(), up, f))
    }
}

/// Dispatch the per-leaf posterior.
fn leaf_posterior<P: Fn(Leaf, &BTreeSet<u64>) -> (Option<Leaf>, RealEps), F: Fn(RealOp, u64, u64) -> u64>(
    l: &Leaf,
    query_vars: &BTreeSet<u64>,
    up: &P,
    reals: &F,
) -> (r: Spn)
    requires
        updates(*up),
        reals::settled(*reals),
    ensures
        r.wf(),
        r.node() == leaf_node(updating(*up, query_vars@)(l@), reals::operations(*reals)),
        product::inside(node::vars(r.node().shape), l.names@.to_set()),
{
    let x: Leaf = l.duplicate();
    let ghost gx = x;
    let u: (Option<Leaf>, RealEps) = up(x, query_vars);
    proof {
        assert(update_call(*up, l@, query_vars@, gx, *query_vars, u));
        let (a, q, s) = choose|a: Leaf, q: BTreeSet<u64>, s: (Option<Leaf>, RealEps)| #[trigger]
            update_call(*up, l@, query_vars@, a, q, s);
        assert(update_call(*up, l@, query_vars@, a, q, s));
        assert(update_within(l@, update_view(u)));
    }
    match u.0 {
        Some(p) => {
            proof {
                assert forall|n: u64| #[trigger] p.names@.to_set().contains(n) implies l.names@.to_set().contains(n) by {
                    assert(p@.names.contains(n));
                }
            }
            Spn::leaf(p).coeff_mul(u.1, reals)
        },
        None => Spn::from_coeff(u.1),
    }
}

impl Spn {
    /// Posterior of the network, given the posteriors of its leaves. The
    /// result is unnormalised: its outer coefficient is the marginal
    /// likelihood.
    pub fn posterior<P: Fn(Leaf, &BTreeSet<u64>) -> (Option<Leaf>, RealEps), F: Fn(RealOp, u64, u64) -> u64>(
        &self,
        query_vars: &BTreeSet<u64>,
    up: &P,
        reals: &F,
    ) -> (r: Spn)
        requires
            self.wf(),
            updates(*up),
            reals::settled(*reals),
        ensures
            r.wf(),
            r.node() == posterior_of(self.node(), updating(*up, query_vars@), reals::operations(*reals)),
            product::inside(node::vars(r.node().shape), node::vars(self.node().shape)),
        decreases self,
    {
        let ghost f = reals::operations(*reals);
        let ghost g = updating(*up, query_vars@);
        if self.is_zero() {
            return Spn::zero();
        }
        match &self.inner.kind {
            SpnKind::Scalar => Spn::from_coeff(
                RealEps { log_coeff: self.log_coeff.log_coeff, power: 0 },
            ),
            SpnKind::Leaf(l) => {
                let r: Spn = leaf_posterior(l, query_vars, up, reals);
                r.scalar_mul(self.log_coeff.log_coeff, reals)
            },
            SpnKind::Product(c) => {
                proof {
                    assert forall|i: int| 0 <= i < c@.len() implies (#[trigger] c@[i]).wf() by {
                        normal::lemma_child_wf(self, c@, i);
                    }
                }
                let kids: Vec<Spn> = posterior_children(c, query_vars, up, reals);
                proof {
                    let ks = node::nodes(kids@);
                    let cs = node::nodes(c@);
                    node::lemma_nodes(kids@);
                    node::lemma_nodes(c@);
                    assert forall|i: int, j: int| 0 <= i < j < ks.len() implies scope::apart(
                        node::vars((#[trigger] ks[i]).shape),
                        node::vars((#[trigger] ks[j]).shape),
                    ) by {
                        assert(ks[i] == kids@[i].node() && ks[j] == kids@[j].node());
                        assert(scope::apart(node::vars(cs[i].shape), node::vars(cs[j].shape)));
                        assert forall|n: u64| !(#[trigger] node::vars(ks[i].shape).contains(n) && node::vars(
                            ks[j].shape,
                        ).contains(n)) by {
                            if node::vars(ks[i].shape).contains(n) && node::vars(ks[j].shape).contains(n) {
                                assert(node::vars(c@[i].node().shape).contains(n));
                                assert(node::vars(c@[j].node().shape).contains(n));
                                assert(node::vars(cs[i].shape).contains(n));
                            }
                        }
                    }
                    normal::lemma_multiplied_vars(ks, f);
                    lemma_children_vars(c@, kids@);
                }
                let r: Spn = Spn::product(&kids, reals);
                r.scalar_mul(self.log_coeff.log_coeff, reals)
            },
            SpnKind::Sum(c) => {
                proof {
                    assert forall|i: int| 0 <= i < c@.len() implies (#[trigger] c@[i]).wf() by {
                        normal::lemma_child_wf(self, c@, i);
                    }
                }
                let kids: Vec<Spn> = posterior_children(c, query_vars, up, reals);
                proof {
                    normal::lemma_summed_vars(node::nodes(kids@), f);
                    lemma_children_vars(c@, kids@);
                }
                let r: Spn = Spn::sum(&kids, reals);
                r.scalar_mul(self.log_coeff.log_coeff, reals)
            },
        }
    }
}

/// The posteriors have the variables of the nodes only.
proof fn lemma_children_vars(c: Seq<Spn>, kids: Seq<Spn>)
    requires
        c.len() == kids.len(),
        forall|i: int|
            0 <= i < c.len() ==> product::inside(
                node::vars((#[trigger] kids[i]).node().shape),
                node::vars(c[i].node().shape),
            ),
    ensures
        product::inside(node::all_vars(node::nodes(kids)), node::all_vars(node::nodes(c))),
{
    let ks = node::nodes(kids);
    let cs = node::nodes(c);
    node::lemma_nodes(kids);
    node::lemma_nodes(c);
    node::lemma_all_vars(ks);
    node::lemma_all_vars(cs);
    assert forall|n: u64| #[trigger] node::all_vars(ks).contains(n) implies node::all_vars(cs).contains(n) by {
        let i = choose|i: int| 0 <= i < ks.len() && node::vars((#[trigger] ks[i]).shape).contains(n);
        assert(node::vars(kids[i].node().shape).contains(n));
        assert(node::vars(cs[i].shape).contains(n));
    }
}

fn posterior_children<P: Fn(Leaf, &BTreeSet<u64>) -> (Option<Leaf>, RealEps), F: Fn(RealOp, u64, u64) -> u64>(
    c: &Vec<Spn>,
    query_vars: &BTreeSet<u64>,
    up: &P,
    reals: &F,
) -> (r: Vec<Spn>)
    requires
        normal::all_wf(c@),
        updates(*up),
        reals::settled(*reals),
    ensures
        normal::all_wf(r@),
        r@.len() == c@.len(),
        node::nodes(r@) == posteriors(node::nodes(c@), updating(*up, query_vars@), reals::operations(*reals)),
        forall|i: int|
            0 <= i < c@.len() ==> product::inside(
                node::vars((#[trigger] r@[i]).node().shape),
                node::vars(c@[i].node().shape),
            ),
    decreases c,
{
    let ghost f = reals::operations(*reals);
    let ghost g = updating(*up, query_vars@);
    let ghost cs = node::nodes(c@);
    let mut out: Vec<Spn> = Vec::new();
    let mut i: usize = 0;
    proof {
        node::lemma_nodes(c@);
        assert(cs.take(0) =~= Seq::<Node>::empty());
    }
    while i < c.len()
        invariant
            i <= c@.len(),
            normal::all_wf(c@),
            updates(*up),
            reals::settled(*reals),
            f == reals::operations(*reals),
            g == updating(*up, query_vars@),
            cs == node::nodes(c@),
            cs.len() == c@.len(),
            forall|j: int| 0 <= j < c@.len() ==> #[trigger] cs[j] == c@[j].node(),
            normal::all_wf(out@),
            out@.len() == i,
            node::nodes(out@) == posteriors(cs.take(i as int), g, f),
            forall|j: int|
                0 <= j < i ==> product::inside(
                    node::vars((#[trigger] out@[j]).node().shape),
                    node::vars(c@[j].node().shape),
                ),
        decreases c@.len() - i,
    {
        proof {
            assert(c@[i as int].wf());
            assert(cs[i as int] == c@[i as int].node());
            assert(cs.take(i + 1).drop_last() =~= cs.take(i as int));
            assert(cs.take(i + 1).last() == cs[i as int]);
        }
        let ghost had = out@;
        let x: Spn = c[i].posterior(query_vars, up, reals);
        out.push(x);
        proof {
            normal::lemma_nodes_push(had, x);
            normal::lemma_all_wf_push(had, x);
            assert forall|j: int| 0 <= j < i + 1 implies product::inside(
                node::vars((#[trigger] out@[j]).node().shape),
                node::vars(c@[j].node().shape),
            ) by {
                if j < i {
                    assert(out@[j] == had[j]);
                }
            }
        }
        i = i + 1;
    }
    assert(cs.take(cs.len() as int) =~= cs);
    out
}

} // verus!
