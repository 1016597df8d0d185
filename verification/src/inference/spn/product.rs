//! Products of evidence networks whose scopes may overlap.

use std::rc::Rc;

use vstd::prelude::*;

use super::node;
use super::node::{Leaf, LeafView, Node, Shape, Spn, SpnInner, SpnKind};
use super::normal;
use super::scope;
use super::scope::is_disjoint;
use crate::utils::epsilon::RealEps;
use crate::utils::reals;
use crate::utils::reals::{compute, real_equal, Arithmetic, RealOp, NEG_INFINITY};
use crate::utils::sharing;
use crate::utils::sharing::is_cell;

verus! {

/// How the product of two leaves with variables in common is a leaf, times a
/// number that stands by its logarithm; none, if the two are of different
/// families.
pub type Merging = spec_fn(LeafView, LeafView) -> Option<(LeafView, u64)>;

/// `g` can be called on all leaves, answers equal calls alike, and brings in
/// no new variables.
pub open spec fn merges<M: Fn(Leaf, Leaf) -> Option<(Leaf, u64)>>(g: M) -> bool {
    &&& forall|a: Leaf, b: Leaf| #[trigger] call_requires(g, (a, b))
    &&& forall|
        a: Leaf,
        b: Leaf,
        c: Leaf,
        d: Leaf,
        r: Option<(Leaf, u64)>,
        s: Option<(Leaf, u64)>,
    |
        a@ == c@ && b@ == d@ && #[trigger] call_ensures(g, (a, b), r) && #[trigger] call_ensures(
            g,
            (c, d),
            s,
        ) ==> merged_view(r) == merged_view(s)
    &&& forall|a: Leaf, b: Leaf, r: Option<(Leaf, u64)>| #[trigger]
        call_ensures(g, (a, b), r) ==> within(a@, b@, merged_view(r))
}

/// The merged leaf has variables of the two leaves only.
pub open spec fn within(a: LeafView, b: LeafView, r: Option<(LeafView, u64)>) -> bool {
    r matches Some((l, w)) ==> forall|n: u64| #[trigger]
        l.names.contains(n) ==> a.names.contains(n) || b.names.contains(n)
}

pub open spec fn merged_view(r: Option<(Leaf, u64)>) -> Option<(LeafView, u64)> {
    match r {
        Some((l, w)) => Some((l@, w)),
        None => None,
    }
}

/// A call of `g` on leaves with these views.
pub open spec fn merge_call<M: Fn(Leaf, Leaf) -> Option<(Leaf, u64)>>(
    g: M,
    x: LeafView,
    y: LeafView,
    a: Leaf,
    b: Leaf,
    r: Option<(Leaf, u64)>,
) -> bool {
    a@ == x && b@ == y && call_ensures(g, (a, b), r)
}

/// What `g` answers.
pub open spec fn merging<M: Fn(Leaf, Leaf) -> Option<(Leaf, u64)>>(g: M) -> Merging {
    |x: LeafView, y: LeafView|
        {
            let (a, b, r) = choose|a: Leaf, b: Leaf, r: Option<(Leaf, u64)>| #[trigger]
                merge_call(g, x, y, a, b, r);
            merged_view(r)
        }
}

fn merge_leaves<M: Fn(Leaf, Leaf) -> Option<(Leaf, u64)>>(g: &M, a: &Leaf, b: &Leaf) -> (r: Option<(Leaf, u64)>)
    requires
        merges(*g),
    ensures
        merged_view(r) == merging(*g)(a@, b@),
        within(a@, b@, merged_view(r)),
{
    let x: Leaf = a.duplicate();
    let y: Leaf = b.duplicate();
    let ghost (gx, gy) = (x, y);
    let r: Option<(Leaf, u64)> = g(x, y);
    proof {
        assert(merge_call(*g, a@, b@, gx, gy, r));
        let (p, q, s) = choose|p: Leaf, q: Leaf, s: Option<(Leaf, u64)>| #[trigger]
            merge_call(*g, a@, b@, p, q, s);
        assert(merge_call(*g, a@, b@, p, q, s));
        assert(merged_view(r) == merged_view(s));
    }
    r
}

/// The node without its coefficient.
pub open spec fn bare(shape: Shape) -> Node {
    Node { coeff: node::one_coeff(), shape }
}

/// The product of two nodes, if the recursion goes no deeper than `depth`
/// and all leaves that meet can be merged.
pub open spec fn mul_of(a: Node, b: Node, depth: nat, g: Merging, f: Arithmetic) -> Option<Node>
    decreases depth, 0nat, 0nat,
{
    if a.coeff.none() || b.coeff.none() {
        Some(node::zero_node())
    } else if a.coeff.unit() && a.shape is Scalar {
        Some(b)
    } else if b.coeff.unit() && b.shape is Scalar {
        Some(a)
    } else if a.shape is Scalar {
        Some(node::rescaled(b, a.coeff.log_coeff, f))
    } else if b.shape is Scalar {
        Some(node::rescaled(a, b.coeff.log_coeff, f))
    } else if scope::apart(node::vars(a.shape), node::vars(b.shape)) {
        Some(normal::multiplied(seq![a, b], f))
    } else if depth == 0 {
        None
    } else {
        match over_of(a.shape, b.shape, (depth - 1) as nat, g, f) {
            Some(n) => Some(
                node::rescaled(n, f(RealOp::Sum, a.coeff.log_coeff, b.coeff.log_coeff), f),
            ),
            None => None,
        }
    }
}

/// The product of two nodes with variables in common, but for their
/// coefficients: leaves are merged, sums distributed over, and products
/// multiplied factor by factor.
pub open spec fn over_of(a: Shape, b: Shape, depth: nat, g: Merging, f: Arithmetic) -> Option<Node>
    decreases depth, 2nat, 0nat,
{
    match (a, b) {
        (Shape::Leaf(x), Shape::Leaf(y)) => match g(x, y) {
            Some((l, w)) => if reals::equal(w, NEG_INFINITY) {
                Some(node::zero_node())
            } else {
                Some(node::rescaled(bare(Shape::Leaf(l)), w, f))
            },
            None => None,
        },
        (Shape::Sum(c), _) => match each_left(c, bare(b), depth, g, f) {
            Some(s) => Some(normal::summed(s, f)),
            None => None,
        },
        (_, Shape::Sum(c)) => match each_right(bare(a), c, depth, g, f) {
            Some(s) => Some(normal::summed(s, f)),
            None => None,
        },
        (Shape::Product(_), Shape::Product(c)) => folded(bare(a), c, depth, g, f),
        (Shape::Product(c), Shape::Leaf(_)) => into_product(c, bare(b), depth, g, f),
        (Shape::Leaf(_), Shape::Product(c)) => into_product(c, bare(a), depth, g, f),
        _ => None,
    }
}

pub open spec fn each_left(s: Seq<Node>, b: Node, depth: nat, g: Merging, f: Arithmetic) -> Option<Seq<Node>>
    decreases depth, 0nat, s.len() + 1,
{
    if s.len() == 0 {
        Some(Seq::empty())
    } else {
        match (each_left(s.drop_last(), b, depth, g, f), mul_of(s.last(), b, depth, g, f)) {
            (Some(t), Some(n)) => Some(t.push(n)),
            _ => None,
        }
    }
}

pub open spec fn each_right(a: Node, s: Seq<Node>, depth: nat, g: Merging, f: Arithmetic) -> Option<Seq<Node>>
    decreases depth, 0nat, s.len() + 1,
{
    if s.len() == 0 {
        Some(Seq::empty())
    } else {
        match (each_right(a, s.drop_last(), depth, g, f), mul_of(a, s.last(), depth, g, f)) {
            (Some(t), Some(n)) => Some(t.push(n)),
            _ => None,
        }
    }
}

/// The product of a node with several others, one after the other.
pub open spec fn folded(a: Node, s: Seq<Node>, depth: nat, g: Merging, f: Arithmetic) -> Option<Node>
    decreases depth, 0nat, s.len() + 1,
{
    if s.len() == 0 {
        Some(a)
    } else {
        match folded(a, s.drop_last(), depth, g, f) {
            Some(n) => mul_of(n, s.last(), depth, g, f),
            None => None,
        }
    }
}

/// The nodes that have variables in common with the leaf, or those that have
/// none.
pub open spec fn touching(s: Seq<Node>, leaf: Shape, touch: bool) -> Seq<Node>
    decreases s.len(),
{
    if s.len() == 0 {
        Seq::empty()
    } else {
        let t = touching(s.drop_last(), leaf, touch);
        if scope::apart(node::vars(s.last().shape), node::vars(leaf)) == !touch {
            t.push(s.last())
        } else {
            t
        }
    }
}

/// The product of a leaf with the factors of a product: it is multiplied with
/// those that have variables in common with it, and the others stay.
pub open spec fn into_product(s: Seq<Node>, leaf: Node, depth: nat, g: Merging, f: Arithmetic) -> Option<Node>
    decreases depth, 1nat, 0nat,
{
    match folded(leaf, touching(s, leaf.shape, true), depth, g, f) {
        Some(n) => Some(normal::multiplied(touching(s, leaf.shape, false).push(n), f)),
        None => None,
    }
}

/// Going deeper changes nothing but where the depth was in the way.
pub proof fn lemma_mul_deeper(a: Node, b: Node, d: nat, e: nat, g: Merging, f: Arithmetic)
    requires
        d <= e,
        mul_of(a, b, d, g, f) is Some,
    ensures
        mul_of(a, b, e, g, f) == mul_of(a, b, d, g, f),
    decreases d, 0nat, 0nat,
{
    if d > 0 && over_of(a.shape, b.shape, (d - 1) as nat, g, f) is Some {
        lemma_over_deeper(a.shape, b.shape, (d - 1) as nat, (e - 1) as nat, g, f);
    }
}

proof fn lemma_over_deeper(a: Shape, b: Shape, d: nat, e: nat, g: Merging, f: Arithmetic)
    requires
        d <= e,
        over_of(a, b, d, g, f) is Some,
    ensures
        over_of(a, b, e, g, f) == over_of(a, b, d, g, f),
    decreases d, 2nat, 0nat,
{
    match (a, b) {
        (Shape::Leaf(_), Shape::Leaf(_)) => {},
        (Shape::Sum(c), _) => lemma_left_deeper(c, bare(b), d, e, g, f),
        (_, Shape::Sum(c)) => lemma_right_deeper(bare(a), c, d, e, g, f),
        (Shape::Product(_), Shape::Product(c)) => lemma_folded_deeper(bare(a), c, d, e, g, f),
        (Shape::Product(c), Shape::Leaf(_)) => lemma_folded_deeper(
            bare(b),
            touching(c, b, true),
            d,
            e,
            g,
            f,
        ),
        (Shape::Leaf(_), Shape::Product(c)) => lemma_folded_deeper(
            bare(a),
            touching(c, a, true),
            d,
            e,
            g,
            f,
        ),
        _ => {},
    }
}

proof fn lemma_left_deeper(s: Seq<Node>, b: Node, d: nat, e: nat, g: Merging, f: Arithmetic)
    requires
        d <= e,
        each_left(s, b, d, g, f) is Some,
    ensures
        each_left(s, b, e, g, f) == each_left(s, b, d, g, f),
    decreases d, 0nat, s.len() + 1,
{
    if s.len() > 0 {
        lemma_left_deeper(s.drop_last(), b, d, e, g, f);
        lemma_mul_deeper(s.last(), b, d, e, g, f);
    }
}

proof fn lemma_right_deeper(a: Node, s: Seq<Node>, d: nat, e: nat, g: Merging, f: Arithmetic)
    requires
        d <= e,
        each_right(a, s, d, g, f) is Some,
    ensures
        each_right(a, s, e, g, f) == each_right(a, s, d, g, f),
    decreases d, 0nat, s.len() + 1,
{
    if s.len() > 0 {
        lemma_right_deeper(a, s.drop_last(), d, e, g, f);
        lemma_mul_deeper(a, s.last(), d, e, g, f);
    }
}

proof fn lemma_folded_deeper(a: Node, s: Seq<Node>, d: nat, e: nat, g: Merging, f: Arithmetic)
    requires
        d <= e,
        folded(a, s, d, g, f) is Some,
    ensures
        folded(a, s, e, g, f) == folded(a, s, d, g, f),
    decreases d, 0nat, s.len() + 1,
{
    if s.len() > 0 {
        lemma_folded_deeper(a, s.drop_last(), d, e, g, f);
        lemma_mul_deeper(folded(a, s.drop_last(), d, g, f)->0, s.last(), d, e, g, f);
    }
}

/// Every variable of the first set is in the second.
pub open spec fn inside(a: Set<u64>, b: Set<u64>) -> bool {
    forall|n: u64| #[trigger] a.contains(n) ==> b.contains(n)
}

proof fn lemma_left_none(s: Seq<Node>, i: int, b: Node, d: nat, g: Merging, f: Arithmetic)
    requires
        0 <= i <= s.len(),
        each_left(s.take(i), b, d, g, f) is None,
    ensures
        each_left(s, b, d, g, f) is None,
    decreases s.len() - i,
{
    if i == s.len() {
        assert(s.take(i) =~= s);
    } else {
        assert(s.take(i + 1).drop_last() =~= s.take(i));
        lemma_left_none(s, i + 1, b, d, g, f);
    }
}

proof fn lemma_right_none(a: Node, s: Seq<Node>, i: int, d: nat, g: Merging, f: Arithmetic)
    requires
        0 <= i <= s.len(),
        each_right(a, s.take(i), d, g, f) is None,
    ensures
        each_right(a, s, d, g, f) is None,
    decreases s.len() - i,
{
    if i == s.len() {
        assert(s.take(i) =~= s);
    } else {
        assert(s.take(i + 1).drop_last() =~= s.take(i));
        lemma_right_none(a, s, i + 1, d, g, f);
    }
}

proof fn lemma_folded_none(a: Node, s: Seq<Node>, i: int, d: nat, g: Merging, f: Arithmetic)
    requires
        0 <= i <= s.len(),
        folded(a, s.take(i), d, g, f) is None,
    ensures
        folded(a, s, d, g, f) is None,
    decreases s.len() - i,
{
    if i == s.len() {
        assert(s.take(i) =~= s);
    } else {
        assert(s.take(i + 1).drop_last() =~= s.take(i));
        lemma_folded_none(a, s, i + 1, d, g, f);
    }
}

/// The chosen nodes are among all, and touch the leaf or do not.
proof fn lemma_touching(s: Seq<Node>, leaf: Shape, touch: bool)
    ensures
        forall|i: int|
            0 <= i < touching(s, leaf, touch).len() ==> exists|k: int|
                0 <= k < s.len() && #[trigger] s[k] == #[trigger] touching(s, leaf, touch)[i]
                    && scope::apart(node::vars(s[k].shape), node::vars(leaf)) == !touch,
        node::disjoint_scopes(s) ==> node::disjoint_scopes(touching(s, leaf, touch)),
    decreases s.len(),
{
    if s.len() > 0 {
        let p = s.drop_last();
        let t = touching(p, leaf, touch);
        let u = touching(s, leaf, touch);
        lemma_touching(p, leaf, touch);
        assert forall|i: int| 0 <= i < u.len() implies exists|k: int|
            0 <= k < s.len() && #[trigger] s[k] == #[trigger] u[i] && scope::apart(
                node::vars(s[k].shape),
                node::vars(leaf),
            ) == !touch by {
            if i < t.len() {
                assert(u[i] == t[i]);
                let k = choose|k: int|
                    0 <= k < p.len() && #[trigger] p[k] == t[i] && scope::apart(
                        node::vars(p[k].shape),
                        node::vars(leaf),
                    ) == !touch;
                assert(s[k] == p[k]);
            } else {
                assert(s[s.len() - 1] == u[i]);
            }
        }
        if node::disjoint_scopes(s) {
            assert forall|i: int, j: int| 0 <= i < j < p.len() implies scope::apart(
                node::vars((#[trigger] p[i]).shape),
                node::vars((#[trigger] p[j]).shape),
            ) by {
                assert(scope::apart(node::vars(s[i].shape), node::vars(s[j].shape)));
            }
            assert forall|i: int, j: int| 0 <= i < j < u.len() implies scope::apart(
                node::vars((#[trigger] u[i]).shape),
                node::vars((#[trigger] u[j]).shape),
            ) by {
                assert(u[i] == t[i]);
                if j < t.len() {
                    assert(u[j] == t[j]);
                    assert(scope::apart(node::vars(t[i].shape), node::vars(t[j].shape)));
                } else {
                    let k = choose|k: int| 0 <= k < p.len() && #[trigger] p[k] == t[i];
                    assert(s[k] == p[k]);
                    assert(scope::apart(
                        node::vars(s[k].shape),
                        node::vars(s[s.len() - 1].shape),
                    ));
                }
            }
        }
    }
}

/// What stays is apart from the leaf and from what is multiplied with it.
proof fn lemma_kept_apart(s: Seq<Node>, leaf: Shape, i: int, seen: Set<u64>)
    requires
        node::disjoint_scopes(s),
        0 <= i < touching(s, leaf, false).len(),
        inside(
            seen,
            node::vars(leaf).union(node::all_vars(touching(s, leaf, true))),
        ),
    ensures
        scope::apart(node::vars(touching(s, leaf, false)[i].shape), seen),
{
    let kept = touching(s, leaf, false);
    let met = touching(s, leaf, true);
    lemma_touching(s, leaf, false);
    lemma_touching(s, leaf, true);
    node::lemma_all_vars(met);
    let k = choose|k: int|
        0 <= k < s.len() && #[trigger] s[k] == kept[i] && scope::apart(
            node::vars(s[k].shape),
            node::vars(leaf),
        ) == true;
    assert forall|n: u64| !(#[trigger] node::vars(kept[i].shape).contains(n) && seen.contains(n)) by {
        if node::vars(kept[i].shape).contains(n) && seen.contains(n) {
            assert(node::vars(s[k].shape).contains(n));
            assert(!node::vars(leaf).contains(n));
            assert(node::all_vars(met).contains(n));
            let j = choose|j: int| 0 <= j < met.len() && node::vars((#[trigger] met[j]).shape).contains(n);
            let h = choose|h: int|
                0 <= h < s.len() && #[trigger] s[h] == met[j] && scope::apart(
                    node::vars(s[h].shape),
                    node::vars(leaf),
                ) == false;
            assert(node::vars(s[h].shape).contains(n));
            if h < k {
                assert(scope::apart(node::vars(s[h].shape), node::vars(s[k].shape)));
            } else if k < h {
                assert(scope::apart(node::vars(s[k].shape), node::vars(s[h].shape)));
            }
        }
    }
}

/// A product that was computed before.
pub struct MulEntry {
    pub left: Rc<SpnInner>,
    pub right: Rc<SpnInner>,
    pub depth: usize,
    pub result: Spn,
}

/// The products that were computed before, by their operands.
pub struct MulCache {
    pub entries: Vec<MulEntry>,
}

impl MulEntry {
    pub open spec fn right(&self, g: Merging, f: Arithmetic) -> bool {
        &&& self.result.wf()
        &&& over_of(
            self.left.kind.shape(),
            self.right.kind.shape(),
            self.depth as nat,
            g,
            f,
        ) == Some(self.result.node())
        &&& inside(
            node::vars(self.result.node().shape),
            node::vars(self.left.kind.shape()).union(node::vars(self.right.kind.shape())),
        )
    }
}

impl MulCache {
    /// Every entry holds the product of its operands.
    pub open spec fn right(&self, g: Merging, f: Arithmetic) -> bool {
        forall|i: int| 0 <= i < self.entries@.len() ==> (#[trigger] self.entries@[i]).right(g, f)
    }

    pub fn new() -> (r: Self)
        ensures
            r.entries@.len() == 0,
            forall|g: Merging, f: Arithmetic| #[trigger] r.right(g, f),
    {
        MulCache { entries: Vec::new() }
    }

    /// The product of the operands, if it was computed no deeper than now.
    fn find(&self, a: &Spn, b: &Spn, depth: usize) -> (r: Option<usize>)
        ensures
            match r {
                Some(i) => i < self.entries@.len() && self.entries@[i as int].left == a.inner
                    && self.entries@[i as int].right == b.inner && self.entries@[i as int].depth
                    <= depth && sharing::told(self.entries@[i as int].left, a.inner, true)
                    && sharing::told(self.entries@[i as int].right, b.inner, true),
                None => forall|i: int|
                    0 <= i < self.entries@.len() ==> other_operands(
                        #[trigger] self.entries@[i],
                        *a,
                        *b,
                        depth,
                    ),
            },
    {
        let mut i: usize = 0;
        while i < self.entries.len()
            invariant
                i <= self.entries@.len(),
                forall|j: int|
                    0 <= j < i ==> other_operands(#[trigger] self.entries@[j], *a, *b, depth),
            decreases self.entries@.len() - i,
        {
            if self.entries[i].depth <= depth && is_cell(&self.entries[i].left, &a.inner)
                && is_cell(&self.entries[i].right, &b.inner) {
                return Some(i);
            }
            i = i + 1;
        }
        None
    }
}

/// The product was computed deeper than now, or is that of other operands.
pub open spec fn other_operands(e: MulEntry, a: Spn, b: Spn, depth: usize) -> bool {
    e.depth > depth || sharing::told(e.left, a.inner, false) || sharing::told(
        e.right,
        b.inner,
        false,
    )
}

/// Clear the multiplication computed table (call once per top-level query).
pub fn clear_mul_cache(cache: &mut MulCache)
    ensures
        final(cache).entries@.len() == 0,
        forall|g: Merging, f: Arithmetic| #[trigger] final(cache).right(g, f),
{
    cache.entries = Vec::new();
}

/// The product of two networks is right, and brings in no new variables.
pub open spec fn product_right(r: Option<Spn>, want: Option<Node>, seen: Set<u64>) -> bool {
    match r {
        Some(x) => x.wf() && want == Some(x.node()) && inside(node::vars(x.node().shape), seen),
        None => want is None,
    }
}

/// Multiply two networks. Handles both disjoint and overlapping scopes. None
/// if the recursion would go deeper than `depth`, or if leaves of different
/// families have a variable in common.
#[verifier::rlimit(30)]
pub fn spn_mul<M: Fn(Leaf, Leaf) -> Option<(Leaf, u64)>, F: Fn(RealOp, u64, u64) -> u64>(
    a: &Spn,
    b: &Spn,
    depth: usize,
    merge: &M,
    reals: &F,
    cache: &mut MulCache,
) -> (r: Option<Spn>)
    requires
        a.wf(),
        b.wf(),
        merges(*merge),
        reals::settled(*reals),
        old(cache).right(merging(*merge), reals::operations(*reals)),
    ensures
        final(cache).right(merging(*merge), reals::operations(*reals)),
        product_right(
            r,
            mul_of(a.node(), b.node(), depth as nat, merging(*merge), reals::operations(*reals)),
            node::vars(a.node().shape).union(node::vars(b.node().shape)),
        ),
    decreases depth, 0nat,
{
    let ghost f = reals::operations(*reals);
    let ghost g = merging(*merge);
    if a.is_zero() || b.is_zero() {
        return Some(Spn::zero());
    }
    if a.is_one() {
        return Some(b.share());
    }
    if b.is_one() {
        return Some(a.share());
    }
    if a.is_scalar() {
        return Some(b.scalar_mul(a.log_coeff.log_coeff, reals));
    }
    if b.is_scalar() {
        return Some(a.scalar_mul(b.log_coeff.log_coeff, reals));
    }
    if is_disjoint(a.scope(), b.scope()) {
        let mut both: Vec<Spn> = Vec::new();
        both.push(a.share());
        both.push(b.share());
        let ghost pair = seq![a.node(), b.node()];
        proof {
            node::lemma_nodes(both@);
            assert(node::nodes(both@) =~= pair);
            normal::lemma_multiplied_vars(pair, f);
            node::lemma_all_vars(pair);
        }
        return Some(Spn::product(&both, reals));
    }
    if depth == 0 {
        return None;
    }
    match mul_overlapping(a, b, depth - 1, merge, reals, cache) {
        Some(n) => {
            let c: u64 = compute(
                reals,
                RealOp::Sum,
                a.log_coeff.log_coeff,
                b.log_coeff.log_coeff,
            );
            Some(n.scalar_mul(c, reals))
        },
        None => None,
    }
}

/// Multiply two networks with variables in common, but for their
/// coefficients.
#[verifier::rlimit(60)]
fn mul_overlapping<M: Fn(Leaf, Leaf) -> Option<(Leaf, u64)>, F: Fn(RealOp, u64, u64) -> u64>(
    a: &Spn,
    b: &Spn,
    depth: usize,
    merge: &M,
    reals: &F,
    cache: &mut MulCache,
) -> (r: Option<Spn>)
    requires
        a.wf(),
        b.wf(),
        !(a.node().shape is Scalar),
        !(b.node().shape is Scalar),
        merges(*merge),
        reals::settled(*reals),
        old(cache).right(merging(*merge), reals::operations(*reals)),
    ensures
        final(cache).right(merging(*merge), reals::operations(*reals)),
        product_right(
            r,
            over_of(
                a.node().shape,
                b.node().shape,
                depth as nat,
                merging(*merge),
                reals::operations(*reals),
            ),
            node::vars(a.node().shape).union(node::vars(b.node().shape)),
        ),
    decreases depth, 3nat,
{
    let ghost f = reals::operations(*reals);
    let ghost g = merging(*merge);
    let ghost seen = node::vars(a.node().shape).union(node::vars(b.node().shape));
    match cache.find(a, b, depth) {
        Some(i) => {
            proof {
                let e = cache.entries@[i as int];
                assert(e.right(g, f));
                lemma_over_deeper(
                    a.node().shape,
                    b.node().shape,
                    e.depth as nat,
                    depth as nat,
                    g,
                    f,
                );
            }
            return Some(cache.entries[i].result.share());
        },
        None => {},
    }
    let bare_a: Spn = a.with_coeff(RealEps::one());
    let bare_b: Spn = b.with_coeff(RealEps::one());
    let r: Option<Spn> = match (&a.inner.kind, &b.inner.kind) {
        (SpnKind::Leaf(x), SpnKind::Leaf(y)) => mul_leaf_into_leaf(x, y, merge, reals),
        (SpnKind::Sum(c), _) => {
            match mul_each(a, c, &bare_b, true, depth, merge, reals, cache) {
                Some(s) => {
                    proof {
                        normal::lemma_summed_vars(node::nodes(s@), f);
                    }
                    Some(Spn::sum(&s, reals))
                },
                None => None,
            }
        },
        (_, SpnKind::Sum(c)) => {
            match mul_each(b, c, &bare_a, false, depth, merge, reals, cache) {
                Some(s) => {
                    proof {
                        normal::lemma_summed_vars(node::nodes(s@), f);
                    }
                    Some(Spn::sum(&s, reals))
                },
                None => None,
            }
        },
        (SpnKind::Product(_), SpnKind::Product(c)) => {
            proof {
                assert forall|i: int| 0 <= i < c@.len() implies (#[trigger] c@[i]).wf() by {
                    normal::lemma_child_wf(b, c@, i);
                }
            }
            mul_fold(&bare_a, c, depth, merge, reals, cache)
        },
        (SpnKind::Product(c), SpnKind::Leaf(_)) => mul_leaf_into_product(
            a,
            c,
            &bare_b,
            depth,
            merge,
            reals,
            cache,
        ),
        (SpnKind::Leaf(_), SpnKind::Product(c)) => mul_leaf_into_product(
            b,
            c,
            &bare_a,
            depth,
            merge,
            reals,
            cache,
        ),
        _ => None,
    };
    match &r {
        Some(x) => {
            let ghost had = cache.entries@;
            cache.entries.push(
                MulEntry {
                    left: a.inner.clone(),
                    right: b.inner.clone(),
                    depth,
                    result: x.share(),
                },
            );
            proof {
                assert forall|i: int| 0 <= i < cache.entries@.len() implies (#[trigger] cache.entries@[i]).right(
                    g,
                    f,
                ) by {
                    if i < had.len() {
                        assert(had[i].right(g, f));
                    }
                }
            }
        },
        None => {},
    }
    r
}

/// Multiply two leaves with variables in common.
fn mul_leaf_into_leaf<M: Fn(Leaf, Leaf) -> Option<(Leaf, u64)>, F: Fn(RealOp, u64, u64) -> u64>(
    l1: &Leaf,
    l2: &Leaf,
    merge: &M,
    reals: &F,
) -> (r: Option<Spn>)
    requires
        merges(*merge),
        reals::settled(*reals),
    ensures
        product_right(
            r,
            over_of(
                Shape::Leaf(l1@),
                Shape::Leaf(l2@),
                0,
                merging(*merge),
                reals::operations(*reals),
            ),
            l1.names@.to_set().union(l2.names@.to_set()),
        ),
        forall|d: nat|
            over_of(
                Shape::Leaf(l1@),
                Shape::Leaf(l2@),
                0,
                merging(*merge),
                reals::operations(*reals),
            ) == #[trigger] over_of(
                Shape::Leaf(l1@),
                Shape::Leaf(l2@),
                d,
                merging(*merge),
                reals::operations(*reals),
            ),
{
    match merge_leaves(merge, l1, l2) {
        Some((l, w)) => {
            if real_equal(w, NEG_INFINITY) {
                Some(Spn::zero())
            } else {
                proof {
                    assert forall|n: u64| #[trigger] l.names@.to_set().contains(n) implies l1.names@.to_set().union(
                        l2.names@.to_set(),
                    ).contains(n) by {
                        assert(l@.names.contains(n));
                    }
                }
                Some(Spn::leaf(l).scalar_mul(w, reals))
            }
        },
        None => None,
    }
}

/// Multiply each child of a sum with a network, from the one side or the
/// other.
#[verifier::rlimit(40)]
fn mul_each<M: Fn(Leaf, Leaf) -> Option<(Leaf, u64)>, F: Fn(RealOp, u64, u64) -> u64>(
    parent: &Spn,
    c: &Vec<Spn>,
    other: &Spn,
    left: bool,
    depth: usize,
    merge: &M,
    reals: &F,
    cache: &mut MulCache,
) -> (r: Option<Vec<Spn>>)
    requires
        parent.wf(),
        parent.inner.kind matches SpnKind::Sum(v) && v@ == c@,
        other.wf(),
        merges(*merge),
        reals::settled(*reals),
        old(cache).right(merging(*merge), reals::operations(*reals)),
    ensures
        final(cache).right(merging(*merge), reals::operations(*reals)),
        ({
            let want = if left {
                each_left(
                    node::nodes(c@),
                    other.node(),
                    depth as nat,
                    merging(*merge),
                    reals::operations(*reals),
                )
            } else {
                each_right(
                    other.node(),
                    node::nodes(c@),
                    depth as nat,
                    merging(*merge),
                    reals::operations(*reals),
                )
            };
            match r {
                Some(s) => normal::all_wf(s@) && want == Some(node::nodes(s@)) && inside(
                    node::all_vars(node::nodes(s@)),
                    node::vars(parent.node().shape).union(node::vars(other.node().shape)),
                ),
                None => want is None,
            }
        }),
    decreases depth, 1nat,
{
    let ghost f = reals::operations(*reals);
    let ghost g = merging(*merge);
    let ghost cs = node::nodes(c@);
    let ghost d = depth as nat;
    let ghost seen = node::vars(parent.node().shape).union(node::vars(other.node().shape));
    let mut out: Vec<Spn> = Vec::new();
    let mut i: usize = 0;
    proof {
        node::lemma_nodes(c@);
        node::lemma_all_vars(cs);
        assert(cs.take(0) =~= Seq::<Node>::empty());
    }
    while i < c.len()
        invariant
            i <= c@.len(),
            parent.wf(),
            parent.inner.kind matches SpnKind::Sum(v) && v@ == c@,
            other.wf(),
            merges(*merge),
            reals::settled(*reals),
            f == reals::operations(*reals),
            g == merging(*merge),
            cs == node::nodes(c@),
            cs.len() == c@.len(),
            d == depth,
            parent.node().shape == Shape::Sum(cs),
            seen == node::vars(parent.node().shape).union(node::vars(other.node().shape)),
            cache.right(g, f),
            normal::all_wf(out@),
            left ==> each_left(cs.take(i as int), other.node(), d, g, f) == Some(node::nodes(out@)),
            !left ==> each_right(other.node(), cs.take(i as int), d, g, f) == Some(node::nodes(out@)),
            inside(node::all_vars(node::nodes(out@)), seen),
        decreases c@.len() - i,
    {
        proof {
            normal::lemma_child_wf(parent, c@, i as int);
            assert(cs[i as int] == c@[i as int].node());
            assert(cs.take(i + 1).drop_last() =~= cs.take(i as int));
            assert(cs.take(i + 1).last() == cs[i as int]);
            node::lemma_all_vars(cs);
        }
        let one: Option<Spn> = if left {
            spn_mul(&c[i], other, depth, merge, reals, cache)
        } else {
            spn_mul(other, &c[i], depth, merge, reals, cache)
        };
        match one {
            Some(x) => {
                let ghost had = out@;
                let ghost n = x.node();
                out.push(x);
                proof {
                    normal::lemma_nodes_push(had, x);
                    normal::lemma_all_wf_push(had, x);
                    assert(node::nodes(out@).drop_last() =~= node::nodes(had));
                    assert forall|m: u64| #[trigger] node::all_vars(node::nodes(out@)).contains(m) implies seen.contains(
                        m,
                    ) by {
                        if node::vars(n.shape).contains(m) {
                            if node::vars(cs[i as int].shape).contains(m) {
                                assert(node::all_vars(cs).contains(m));
                            }
                        } else {
                            assert(node::all_vars(node::nodes(had)).contains(m));
                        }
                    }
                }
            },
            None => {
                proof {
                    if left {
                        lemma_left_none(cs, i + 1, other.node(), d, g, f);
                    } else {
                        lemma_right_none(other.node(), cs, i + 1, d, g, f);
                    }
                }
                return None;
            },
        }
        i = i + 1;
    }
    assert(cs.take(cs.len() as int) =~= cs);
    Some(out)
}

/// Multiply a network with several others, one after the other.
#[verifier::rlimit(40)]
fn mul_fold<M: Fn(Leaf, Leaf) -> Option<(Leaf, u64)>, F: Fn(RealOp, u64, u64) -> u64>(
    first: &Spn,
    c: &Vec<Spn>,
    depth: usize,
    merge: &M,
    reals: &F,
    cache: &mut MulCache,
) -> (r: Option<Spn>)
    requires
        first.wf(),
        normal::all_wf(c@),
        merges(*merge),
        reals::settled(*reals),
        old(cache).right(merging(*merge), reals::operations(*reals)),
    ensures
        final(cache).right(merging(*merge), reals::operations(*reals)),
        product_right(
            r,
            folded(
                first.node(),
                node::nodes(c@),
                depth as nat,
                merging(*merge),
                reals::operations(*reals),
            ),
            node::vars(first.node().shape).union(node::all_vars(node::nodes(c@))),
        ),
    decreases depth, 1nat,
{
    let ghost f = reals::operations(*reals);
    let ghost g = merging(*merge);
    let ghost cs = node::nodes(c@);
    let ghost d = depth as nat;
    let ghost seen = node::vars(first.node().shape).union(node::all_vars(cs));
    let mut acc: Spn = first.share();
    let mut i: usize = 0;
    proof {
        node::lemma_nodes(c@);
        assert(cs.take(0) =~= Seq::<Node>::empty());
    }
    while i < c.len()
        invariant
            i <= c@.len(),
            normal::all_wf(c@),
            merges(*merge),
            reals::settled(*reals),
            f == reals::operations(*reals),
            g == merging(*merge),
            cs == node::nodes(c@),
            cs.len() == c@.len(),
            forall|j: int| 0 <= j < c@.len() ==> #[trigger] cs[j] == c@[j].node(),
            d == depth,
            seen == node::vars(first.node().shape).union(node::all_vars(cs)),
            cache.right(g, f),
            acc.wf(),
            folded(first.node(), cs.take(i as int), d, g, f) == Some(acc.node()),
            inside(node::vars(acc.node().shape), seen),
        decreases c@.len() - i,
    {
        proof {
            assert(c@[i as int].wf());
            assert(cs[i as int] == c@[i as int].node());
            assert(cs.take(i + 1).drop_last() =~= cs.take(i as int));
            assert(cs.take(i + 1).last() == cs[i as int]);
            node::lemma_all_vars(cs);
        }
        match spn_mul(&acc, &c[i], depth, merge, reals, cache) {
            Some(x) => {
                proof {
                    assert forall|m: u64| #[trigger] node::vars(x.node().shape).contains(m) implies seen.contains(m) by {
                        if node::vars(cs[i as int].shape).contains(m) {
                            assert(node::all_vars(cs).contains(m));
                        } else {
                            assert(node::vars(acc.node().shape).contains(m));
                        }
                    }
                }
                acc = x;
            },
            None => {
                proof {
                    lemma_folded_none(first.node(), cs, i + 1, d, g, f);
                }
                return None;
            },
        }
        i = i + 1;
    }
    assert(cs.take(cs.len() as int) =~= cs);
    Some(acc)
}

/// Multiply a product node by a leaf whose scope may straddle multiple
/// product children. Children disjoint from the leaf pass through unchanged;
/// the others are folded into the leaf.
#[verifier::rlimit(40)]
fn mul_leaf_into_product<M: Fn(Leaf, Leaf) -> Option<(Leaf, u64)>, F: Fn(RealOp, u64, u64) -> u64>(
    parent: &Spn,
    c: &Vec<Spn>,
    leaf: &Spn,
    depth: usize,
    merge: &M,
    reals: &F,
    cache: &mut MulCache,
) -> (r: Option<Spn>)
    requires
        parent.wf(),
        parent.inner.kind matches SpnKind::Product(v) && v@ == c@,
        leaf.wf(),
        merges(*merge),
        reals::settled(*reals),
        old(cache).right(merging(*merge), reals::operations(*reals)),
    ensures
        final(cache).right(merging(*merge), reals::operations(*reals)),
        product_right(
            r,
            into_product(
                node::nodes(c@),
                leaf.node(),
                depth as nat,
                merging(*merge),
                reals::operations(*reals),
            ),
            node::vars(parent.node().shape).union(node::vars(leaf.node().shape)),
        ),
    decreases depth, 2nat,
{
    let ghost f = reals::operations(*reals);
    let ghost g = merging(*merge);
    let ghost cs = node::nodes(c@);
    let ghost d = depth as nat;
    let ghost shape = leaf.node().shape;
    let mut kept: Vec<Spn> = Vec::new();
    let mut met: Vec<Spn> = Vec::new();
    let mut i: usize = 0;
    proof {
        node::lemma_nodes(c@);
        assert(cs.take(0) =~= Seq::<Node>::empty());
    }
    while i < c.len()
        invariant
            i <= c@.len(),
            parent.wf(),
            parent.inner.kind matches SpnKind::Product(v) && v@ == c@,
            leaf.wf(),
            cs == node::nodes(c@),
            cs.len() == c@.len(),
            shape == leaf.node().shape,
            normal::all_wf(kept@),
            normal::all_wf(met@),
            node::nodes(kept@) == touching(cs.take(i as int), shape, false),
            node::nodes(met@) == touching(cs.take(i as int), shape, true),
        decreases c@.len() - i,
    {
        proof {
            normal::lemma_child_wf(parent, c@, i as int);
            assert(cs[i as int] == c@[i as int].node());
            assert(cs.take(i + 1).drop_last() =~= cs.take(i as int));
            assert(cs.take(i + 1).last() == cs[i as int]);
        }
        let x: Spn = c[i].share();
        if is_disjoint(c[i].scope(), leaf.scope()) {
            let ghost had = kept@;
            kept.push(x);
            proof {
                normal::lemma_nodes_push(had, x);
                normal::lemma_all_wf_push(had, x);
            }
        } else {
            let ghost had = met@;
            met.push(x);
            proof {
                normal::lemma_nodes_push(had, x);
                normal::lemma_all_wf_push(had, x);
            }
        }
        i = i + 1;
    }
    proof {
        assert(cs.take(cs.len() as int) =~= cs);
    }
    match mul_fold(leaf, &met, depth, merge, reals, cache) {
        Some(acc) => {
            let ghost had = kept@;
            let ghost n = acc.node();
            kept.push(acc);
            proof {
                normal::lemma_nodes_push(had, acc);
                normal::lemma_all_wf_push(had, acc);
                let ks = node::nodes(had);
                let all = ks.push(n);
                lemma_touching(cs, shape, false);
                assert forall|p: int, q: int| 0 <= p < q < all.len() implies scope::apart(
                    node::vars((#[trigger] all[p]).shape),
                    node::vars((#[trigger] all[q]).shape),
                ) by {
                    if q < ks.len() {
                        assert(scope::apart(node::vars(ks[p].shape), node::vars(ks[q].shape)));
                    } else {
                        lemma_kept_apart(cs, shape, p, node::vars(n.shape));
                    }
                }
                normal::lemma_multiplied_vars(all, f);
                lemma_chosen_vars(cs, shape, n, node::vars(parent.node().shape));
            }
            Some(Spn::product(&kept, reals))
        },
        None => None,
    }
}

/// The variables of what stays and of what is multiplied with the leaf.
proof fn lemma_chosen_vars(cs: Seq<Node>, leaf: Shape, n: Node, parent: Set<u64>)
    requires
        inside(
            node::vars(n.shape),
            node::vars(leaf).union(node::all_vars(touching(cs, leaf, true))),
        ),
        parent == node::all_vars(cs),
    ensures
        inside(
            node::all_vars(touching(cs, leaf, false).push(n)),
            parent.union(node::vars(leaf)),
        ),
{
    let kept = touching(cs, leaf, false);
    let met = touching(cs, leaf, true);
    lemma_touching(cs, leaf, false);
    lemma_touching(cs, leaf, true);
    node::lemma_all_vars(cs);
    node::lemma_all_vars(kept);
    node::lemma_all_vars(met);
    assert(kept.push(n).drop_last() =~= kept);
    assert forall|m: u64| #[trigger] node::all_vars(kept.push(n)).contains(m) implies parent.union(
        node::vars(leaf),
    ).contains(m) by {
        if node::all_vars(kept).contains(m) {
            let i = choose|i: int| 0 <= i < kept.len() && node::vars((#[trigger] kept[i]).shape).contains(m);
            let k = choose|k: int| 0 <= k < cs.len() && #[trigger] cs[k] == kept[i];
            assert(node::vars(cs[k].shape).contains(m));
        } else {
            assert(node::vars(n.shape).contains(m));
            if node::all_vars(met).contains(m) {
                let i = choose|i: int| 0 <= i < met.len() && node::vars((#[trigger] met[i]).shape).contains(m);
                let k = choose|k: int| 0 <= k < cs.len() && #[trigger] cs[k] == met[i];
                assert(node::vars(cs[k].shape).contains(m));
            }
        }
    }
}

/// Add two networks.
pub fn spn_add<F: Fn(RealOp, u64, u64) -> u64>(a: &Spn, b: &Spn, reals: &F) -> (r: Spn)
    requires
        a.wf(),
        b.wf(),
        reals::settled(*reals),
    ensures
        r.wf(),
        r.node() == (if a.node().shape is Scalar && b.node().shape is Scalar {
            Node {
                coeff: a.node().coeff.plus(b.node().coeff, reals::operations(*reals)),
                shape: Shape::Scalar,
            }
        } else {
            normal::summed(seq![a.node(), b.node()], reals::operations(*reals))
        }),
{
    if a.is_scalar() && b.is_scalar() {
        return Spn::from_coeff(a.log_coeff.logsumexp(b.log_coeff, reals));
    }
    let mut both: Vec<Spn> = Vec::new();
    both.push(a.share());
    both.push(b.share());
    proof {
        node::lemma_nodes(both@);
        assert(node::nodes(both@) =~= seq![a.node(), b.node()]);
    }
    Spn::sum(&both, reals)
}

} // verus!
