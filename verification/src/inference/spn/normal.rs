//! Sums and products of networks, in normal form.

use vstd::prelude::*;

use super::node;
use super::node::{Node, Shape, Spn, SpnInner, SpnKind};
use super::scope;
use super::scope::merge_scopes;
use crate::utils::epsilon::RealEps;
use crate::utils::reals;
use crate::utils::reals::{Arithmetic, RealOp};
use std::rc::Rc;

verus! {

/// The nodes that are not zero.
pub open spec fn live(s: Seq<Node>) -> Seq<Node>
    decreases s.len(),
{
    if s.len() == 0 {
        Seq::empty()
    } else if s.last().coeff.none() {
        live(s.drop_last())
    } else {
        live(s.drop_last()).push(s.last())
    }
}

/// Every node scaled by a coefficient.
pub open spec fn scaled_all(s: Seq<Node>, c: RealEps, f: Arithmetic) -> Seq<Node> {
    Seq::new(s.len(), |i: int| node::scaled(s[i], c, f))
}

/// What a summand adds to a sum: its own summands, if it is a sum itself.
pub open spec fn spliced(n: Node, f: Arithmetic) -> Seq<Node> {
    if n.coeff.none() {
        Seq::empty()
    } else {
        match n.shape {
            Shape::Sum(c) => live(scaled_all(c, n.coeff, f)),
            _ => seq![n],
        }
    }
}

pub open spec fn flat(s: Seq<Node>, f: Arithmetic) -> Seq<Node>
    decreases s.len(),
{
    if s.len() == 0 {
        Seq::empty()
    } else {
        flat(s.drop_last(), f) + spliced(s.last(), f)
    }
}

/// Where the shape stands.
pub open spec fn place(s: Seq<Node>, shape: Shape) -> Option<int>
    decreases s.len(),
{
    if s.len() == 0 {
        None
    } else {
        match place(s.drop_last(), shape) {
            Some(i) => Some(i),
            None => if s.last().shape == shape {
                Some(s.len() - 1)
            } else {
                None
            },
        }
    }
}

/// The nodes with one more: its coefficient is added to that of a node with
/// the same shape.
pub open spec fn joined(s: Seq<Node>, n: Node, f: Arithmetic) -> Seq<Node> {
    match place(s, n.shape) {
        Some(i) => s.update(i, Node { coeff: s[i].coeff.plus(n.coeff, f), shape: n.shape }),
        None => s.push(n),
    }
}

/// The nodes, with equal shapes merged.
pub open spec fn merged(s: Seq<Node>, f: Arithmetic) -> Seq<Node>
    decreases s.len(),
{
    if s.len() == 0 {
        Seq::empty()
    } else {
        joined(merged(s.drop_last(), f), s.last(), f)
    }
}

/// The sum of the coefficients.
pub open spec fn total(s: Seq<Node>, f: Arithmetic) -> RealEps
    decreases s.len(),
{
    if s.len() == 0 {
        node::zero_node().coeff
    } else {
        total(s.drop_last(), f).plus(s.last().coeff, f)
    }
}

/// The nodes with their coefficients divided by `z`.
pub open spec fn weighted(s: Seq<Node>, z: RealEps, f: Arithmetic) -> Seq<Node> {
    Seq::new(s.len(), |i: int| Node { coeff: s[i].coeff.over(z, f), shape: s[i].shape })
}

/// The sum of nodes: nested sums are flattened, zeros dropped and equal
/// shapes merged, and the sum of the coefficients is factored out.
pub open spec fn summed(s: Seq<Node>, f: Arithmetic) -> Node {
    let m = live(merged(flat(s, f), f));
    let z = total(m, f);
    let w = live(weighted(m, z, f));
    if m.len() == 0 {
        node::zero_node()
    } else if m.len() == 1 {
        m[0]
    } else if z.none() || w.len() == 0 {
        node::zero_node()
    } else if w.len() == 1 {
        Node { coeff: z.times(w[0].coeff, f), shape: w[0].shape }
    } else {
        Node { coeff: z, shape: Shape::Sum(w) }
    }
}

/// What is factored out of a product, and the factors that stay.
pub struct Pulled {
    pub coeff: RealEps,
    pub factors: Seq<Node>,
}

/// One more factor: its coefficient is factored out, and nothing stays of a
/// scalar.
pub open spec fn pulled_one(p: Pulled, n: Node, f: Arithmetic) -> Pulled {
    Pulled {
        coeff: p.coeff.times(n.coeff, f),
        factors: if n.shape is Scalar {
            p.factors
        } else {
            p.factors.push(Node { coeff: node::one_coeff(), shape: n.shape })
        },
    }
}

pub open spec fn pulled_all(p: Pulled, s: Seq<Node>, f: Arithmetic) -> Pulled
    decreases s.len(),
{
    if s.len() == 0 {
        p
    } else {
        pulled_one(pulled_all(p, s.drop_last(), f), s.last(), f)
    }
}

/// One more factor; if it is a product itself, its own factors.
pub open spec fn pulled(p: Pulled, n: Node, f: Arithmetic) -> Pulled {
    match n.shape {
        Shape::Product(c) => pulled_all(
            Pulled { coeff: p.coeff.times(n.coeff, f), factors: p.factors },
            c,
            f,
        ),
        _ => pulled_one(p, n, f),
    }
}

pub open spec fn factored(s: Seq<Node>, f: Arithmetic) -> Pulled
    decreases s.len(),
{
    if s.len() == 0 {
        Pulled { coeff: node::one_coeff(), factors: Seq::empty() }
    } else {
        pulled(factored(s.drop_last(), f), s.last(), f)
    }
}

pub open spec fn any_zero(s: Seq<Node>) -> bool {
    exists|i: int| 0 <= i < s.len() && (#[trigger] s[i]).coeff.none()
}

/// The product of nodes: zero if one of them is; else nested products are
/// flattened, scalars dropped, and all coefficients factored out.
pub open spec fn multiplied(s: Seq<Node>, f: Arithmetic) -> Node {
    let p = factored(s, f);
    if any_zero(s) {
        node::zero_node()
    } else if p.factors.len() == 0 {
        Node { coeff: p.coeff, shape: Shape::Scalar }
    } else if p.factors.len() == 1 {
        node::scaled(p.factors[0], p.coeff, f)
    } else {
        Node { coeff: p.coeff, shape: Shape::Product(p.factors) }
    }
}

/// Every node is well-formed.
pub open spec fn all_wf(s: Seq<Spn>) -> bool {
    forall|i: int| 0 <= i < s.len() ==> (#[trigger] s[i]).wf()
}

pub proof fn lemma_nodes_push(s: Seq<Spn>, n: Spn)
    ensures
        node::nodes(s.push(n)) == node::nodes(s).push(n.node()),
{
    assert(s.push(n).drop_last() =~= s);
}

pub proof fn lemma_all_wf_push(s: Seq<Spn>, n: Spn)
    requires
        all_wf(s),
        n.wf(),
    ensures
        all_wf(s.push(n)),
{
    assert forall|i: int| 0 <= i < s.push(n).len() implies (#[trigger] s.push(n)[i]).wf() by {
        if i < s.len() {
            assert(s[i].wf());
        }
    }
}

/// The children of a well-formed node are well-formed.
pub proof fn lemma_child_wf(parent: &Spn, c: Seq<Spn>, i: int)
    requires
        parent.wf(),
        match parent.inner.kind {
            SpnKind::Sum(v) => v@ == c,
            SpnKind::Product(v) => v@ == c,
            _ => false,
        },
        0 <= i < c.len(),
    ensures
        c[i].wf(),
        node::nodes(c)[i] == c[i].node(),
{
    node::lemma_nodes(c);
    node::lemma_laid_out(c);
    node::lemma_all_normal(node::nodes(c));
    assert(node::nodes(c)[i] == c[i].node());
}

pub proof fn lemma_place(s: Seq<Node>, shape: Shape)
    ensures
        match place(s, shape) {
            Some(i) => 0 <= i < s.len() && s[i].shape == shape,
            None => forall|i: int| 0 <= i < s.len() ==> (#[trigger] s[i]).shape != shape,
        },
    decreases s.len(),
{
    if s.len() > 0 {
        let p = s.drop_last();
        lemma_place(p, shape);
        match place(p, shape) {
            Some(i) => {
                assert(s[i] == p[i]);
            },
            None => {
                assert forall|i: int| 0 <= i < s.len() && s.last().shape != shape implies (#[trigger] s[i]).shape
                    != shape by {
                    if i < s.len() - 1 {
                        assert(p[i].shape != shape);
                    }
                }
            },
        }
    }
}

/// The first place of a shape.
proof fn lemma_first_place(s: Seq<Node>, shape: Shape, i: int)
    requires
        0 <= i < s.len(),
        s[i].shape == shape,
        forall|j: int| 0 <= j < i ==> (#[trigger] s[j]).shape != shape,
    ensures
        place(s, shape) == Some(i),
    decreases s.len(),
{
    let p = s.drop_last();
    if i < s.len() - 1 {
        assert(p[i] == s[i]);
        assert forall|j: int| 0 <= j < i implies (#[trigger] p[j]).shape != shape by {
            assert(s[j].shape != shape);
        }
        lemma_first_place(p, shape, i);
    } else {
        lemma_place(p, shape);
        match place(p, shape) {
            Some(j) => {
                assert(s[j] == p[j]);
            },
            None => {},
        }
    }
}

pub proof fn lemma_live(s: Seq<Node>)
    ensures
        forall|i: int|
            0 <= i < live(s).len() ==> !(#[trigger] live(s)[i]).coeff.none() && s.contains(live(s)[i]),
        live(s).len() <= s.len(),
    decreases s.len(),
{
    if s.len() > 0 {
        let p = s.drop_last();
        lemma_live(p);
        assert forall|i: int| 0 <= i < live(s).len() implies !(#[trigger] live(s)[i]).coeff.none()
            && s.contains(live(s)[i]) by {
            if i < live(p).len() {
                assert(live(s)[i] == live(p)[i]);
                let k = choose|k: int| 0 <= k < p.len() && p[k] == live(p)[i];
                assert(s[k] == live(s)[i]);
            } else {
                assert(s[s.len() - 1] == live(s)[i]);
            }
        }
    }
}

pub proof fn lemma_live_distinct(s: Seq<Node>)
    requires
        node::distinct_shapes(s),
    ensures
        node::distinct_shapes(live(s)),
    decreases s.len(),
{
    if s.len() > 0 {
        let p = s.drop_last();
        assert(node::distinct_shapes(p)) by {
            assert forall|i: int, j: int| 0 <= i < j < p.len() implies (#[trigger] p[i]).shape != (#[trigger] p[j]).shape by {
                assert(s[i].shape != s[j].shape);
            }
        }
        lemma_live_distinct(p);
        lemma_live(p);
        assert forall|i: int, j: int| 0 <= i < j < live(s).len() implies (#[trigger] live(s)[i]).shape != (
        #[trigger] live(s)[j]).shape by {
            if j < live(p).len() {
                assert(live(p)[i].shape != live(p)[j].shape);
            } else {
                assert(live(s)[i] == live(p)[i]);
                let k = choose|k: int| 0 <= k < p.len() && p[k] == live(p)[i];
                assert(s[k].shape != s[s.len() - 1].shape);
            }
        }
    }
}

impl Spn {
    /// Create a sum node. Nested sums are flattened, zero children dropped,
    /// and children that differ only in their coefficients merged, in
    /// evidence and posterior networks alike; what is left is normalised so
    /// that the outer node carries the sum of the coefficients.
    #[verifier::rlimit(40)]
    pub fn sum<F: Fn(RealOp, u64, u64) -> u64>(children: &Vec<Spn>, reals: &F) -> (r: Spn)
        requires
            all_wf(children@),
            reals::settled(*reals),
        ensures
            r.wf(),
            r.node() == summed(node::nodes(children@), reals::operations(*reals)),
    {
        let ghost f = reals::operations(*reals);
        let flat: Vec<Spn> = flatten(children, reals);
        let merged: Vec<Spn> = merge(&flat, reals);
        let kept: Vec<Spn> = drop_zeros(&merged);
        let ghost m = node::nodes(kept@);
        proof {
            node::lemma_nodes(kept@);
            node::lemma_nodes(merged@);
            lemma_live(node::nodes(merged@));
            lemma_live_distinct(node::nodes(merged@));
        }
        if kept.len() == 0 {
            return Spn::zero();
        }
        if kept.len() == 1 {
            return kept[0].share();
        }
        let log_z: RealEps = sum_of_coeffs(&kept, reals);
        if log_z.is_zero() {
            return Spn::zero();
        }
        let weights: Vec<Spn> = divide_all(&kept, log_z, reals);
        let last: Vec<Spn> = drop_zeros(&weights);
        let ghost w = node::nodes(last@);
        proof {
            node::lemma_nodes(last@);
            node::lemma_nodes(weights@);
        }
        if last.len() == 0 {
            return Spn::zero();
        }
        if last.len() == 1 {
            let c: RealEps = log_z.product(last[0].log_coeff, reals);
            return last[0].with_coeff(c);
        }
        let scope: Vec<u64> = scope_of_all(&last);
        proof {
            let ws = node::nodes(weights@);
            lemma_live(ws);
            assert forall|i: int, j: int| 0 <= i < j < ws.len() implies (#[trigger] ws[i]).shape != (#[trigger] ws[j]).shape by {
                assert(m[i].shape != m[j].shape);
            }
            lemma_live_distinct(ws);
            assert forall|i: int| 0 <= i < w.len() implies node::summand(#[trigger] w[i]) by {
                let k = choose|k: int| 0 <= k < ws.len() && ws[k] == live(ws)[i];
                assert(ws[k].shape == m[k].shape);
                assert(m[k] == live(node::nodes(merged@))[k]);
                let j = choose|j: int| 0 <= j < merged@.len() && node::nodes(merged@)[j] == m[k];
                assert(node::nodes(merged@)[j] == merged@[j].node());
                assert(!(m[k].shape is Sum));
            }
            node::lemma_all_normal(w);
            assert forall|i: int| 0 <= i < w.len() implies node::normal(#[trigger] w[i]) by {
                assert(last@[i].wf());
            }
            node::lemma_laid_out(last@);
        }
        let kind: SpnKind = SpnKind::Sum(last);
        Spn { log_coeff: log_z, inner: Rc::new(SpnInner { kind, scope }) }
    }
}

/// Flatten nested sums.
fn flatten<F: Fn(RealOp, u64, u64) -> u64>(children: &Vec<Spn>, reals: &F) -> (r: Vec<Spn>)
    requires
        all_wf(children@),
        reals::settled(*reals),
    ensures
        all_wf(r@),
        node::nodes(r@) == flat(node::nodes(children@), reals::operations(*reals)),
        forall|i: int| 0 <= i < r@.len() ==> !((#[trigger] r@[i]).node().shape is Sum),
{
    let ghost f = reals::operations(*reals);
    let mut out: Vec<Spn> = Vec::new();
    let mut i: usize = 0;
    proof {
        node::lemma_nodes(children@);
        assert(node::nodes(children@).take(0) =~= Seq::<Node>::empty());
    }
    while i < children.len()
        invariant
            i <= children@.len(),
            all_wf(children@),
            reals::settled(*reals),
            f == reals::operations(*reals),
            node::nodes(children@).len() == children@.len(),
            forall|j: int|
                0 <= j < children@.len() ==> #[trigger] node::nodes(children@)[j] == children@[j].node(),
            all_wf(out@),
            node::nodes(out@) == flat(node::nodes(children@).take(i as int), f),
            forall|j: int| 0 <= j < out@.len() ==> !((#[trigger] out@[j]).node().shape is Sum),
        decreases children@.len() - i,
    {
        let ghost start = node::nodes(out@);
        let ghost n = children@[i as int].node();
        let child: &Spn = &children[i];
        proof {
            assert(node::nodes(children@)[i as int] == n);
            assert(children@[i as int].wf());
            let t = node::nodes(children@).take(i + 1);
            assert(t.drop_last() =~= node::nodes(children@).take(i as int));
            assert(t.last() == n);
        }
        if !child.is_zero() {
            match &child.inner.kind {
                SpnKind::Sum(gs) => {
                    let ghost all = scaled_all(node::nodes(gs@), n.coeff, f);
                    let mut k: usize = 0;
                    proof {
                        node::lemma_nodes(gs@);
                        assert(all.take(0) =~= Seq::<Node>::empty());
                        assert(start + live(all.take(0)) =~= start);
                    }
                    while k < gs.len()
                        invariant
                            k <= gs@.len(),
                            child.wf(),
                            child.inner.kind == SpnKind::Sum(*gs),
                            n == child.node(),
                            reals::settled(*reals),
                            f == reals::operations(*reals),
                            all == scaled_all(node::nodes(gs@), n.coeff, f),
                            node::nodes(gs@).len() == gs@.len(),
                            all_wf(out@),
                            node::nodes(out@) == start + live(all.take(k as int)),
                            forall|j: int|
                                0 <= j < out@.len() ==> !((#[trigger] out@[j]).node().shape is Sum),
                        decreases gs@.len() - k,
                    {
                        proof {
                            lemma_child_wf(child, gs@, k as int);
                            assert(all.take(k + 1).drop_last() =~= all.take(k as int));
                            assert(all.take(k + 1).last() == all[k as int]);
                            assert(node::summand(node::nodes(gs@)[k as int]));
                        }
                        let g: Spn = gs[k].coeff_mul(child.log_coeff, reals);
                        assert(g.node() == all[k as int]);
                        if !g.is_zero() {
                            let ghost had = out@;
                            out.push(g);
                            proof {
                                lemma_nodes_push(had, g);
                                lemma_all_wf_push(had, g);
                                assert(start + live(all.take(k + 1)) =~= (start + live(
                                    all.take(k as int),
                                )).push(g.node()));
                            }
                        }
                        k = k + 1;
                    }
                    assert(all.take(all.len() as int) =~= all);
                },
                _ => {
                    let ghost had = out@;
                    let c: Spn = child.share();
                    out.push(c);
                    proof {
                        lemma_nodes_push(had, c);
                        lemma_all_wf_push(had, c);
                        assert(start + seq![n] =~= start.push(n));
                    }
                },
            }
        } else {
            assert(start + Seq::<Node>::empty() =~= start);
        }
        i = i + 1;
    }
    assert(node::nodes(children@).take(children@.len() as int) =~= node::nodes(children@));
    out
}

/// Merge children that differ only in their coefficients.
fn merge<F: Fn(RealOp, u64, u64) -> u64>(flat: &Vec<Spn>, reals: &F) -> (r: Vec<Spn>)
    requires
        all_wf(flat@),
        reals::settled(*reals),
        forall|i: int| 0 <= i < flat@.len() ==> !((#[trigger] flat@[i]).node().shape is Sum),
    ensures
        all_wf(r@),
        node::nodes(r@) == merged(node::nodes(flat@), reals::operations(*reals)),
        node::distinct_shapes(node::nodes(r@)),
        forall|i: int| 0 <= i < r@.len() ==> !((#[trigger] r@[i]).node().shape is Sum),
{
    let ghost f = reals::operations(*reals);
    let ghost all = node::nodes(flat@);
    let mut out: Vec<Spn> = Vec::new();
    let mut i: usize = 0;
    proof {
        node::lemma_nodes(flat@);
        assert(all.take(0) =~= Seq::<Node>::empty());
    }
    while i < flat.len()
        invariant
            i <= flat@.len(),
            all_wf(flat@),
            reals::settled(*reals),
            f == reals::operations(*reals),
            all == node::nodes(flat@),
            all.len() == flat@.len(),
            forall|j: int| 0 <= j < flat@.len() ==> #[trigger] all[j] == flat@[j].node(),
            forall|j: int| 0 <= j < flat@.len() ==> !((#[trigger] flat@[j]).node().shape is Sum),
            all_wf(out@),
            node::nodes(out@) == merged(all.take(i as int), f),
            node::distinct_shapes(node::nodes(out@)),
            forall|j: int| 0 <= j < out@.len() ==> !((#[trigger] out@[j]).node().shape is Sum),
        decreases flat@.len() - i,
    {
        let ghost had = out@;
        let ghost ns = node::nodes(had);
        let ghost n = flat@[i as int].node();
        proof {
            assert(all[i as int] == n);
            assert(flat@[i as int].wf());
            assert(all.take(i + 1).drop_last() =~= all.take(i as int));
            assert(all.take(i + 1).last() == n);
            node::lemma_nodes(had);
        }
        let mut k: usize = 0;
        while k < out.len() && !out[k].same_shape(&flat[i])
            invariant
                k <= out@.len(),
                i < flat@.len(),
                out@ == had,
                n == flat@[i as int].node(),
                forall|j: int| 0 <= j < k ==> (#[trigger] had[j]).node().shape != n.shape,
            decreases out@.len() - k,
        {
            k = k + 1;
        }
        if k < out.len() {
            let c: RealEps = out[k].log_coeff.logsumexp(flat[i].log_coeff, reals);
            let new: Spn = out[k].with_coeff(c);
            proof {
                assert forall|j: int| 0 <= j < k implies (#[trigger] ns[j]).shape != n.shape by {
                    assert(ns[j] == had[j].node());
                }
                assert(ns[k as int] == had[k as int].node());
                lemma_first_place(ns, n.shape, k as int);
                assert(had[k as int].wf());
            }
            out.set(k, new);
            proof {
                node::lemma_nodes(out@);
                assert(node::nodes(out@) =~= joined(ns, n, f));
                assert forall|j: int| 0 <= j < out@.len() implies (#[trigger] out@[j]).wf() by {
                    if j != k {
                        assert(had[j].wf());
                    }
                }
                assert forall|a: int, b: int| 0 <= a < b < out@.len() implies (#[trigger] node::nodes(out@)[a]).shape
                    != (#[trigger] node::nodes(out@)[b]).shape by {
                    assert(ns[a].shape != ns[b].shape);
                }
            }
        } else {
            let c: Spn = flat[i].share();
            out.push(c);
            proof {
                lemma_nodes_push(had, c);
                lemma_all_wf_push(had, c);
                lemma_place(ns, n.shape);
                assert forall|j: int| 0 <= j < ns.len() implies (#[trigger] ns[j]).shape != n.shape by {
                    assert(ns[j] == had[j].node());
                }
                assert(place(ns, n.shape) is None);
                assert forall|a: int, b: int| 0 <= a < b < ns.push(n).len() implies (#[trigger] ns.push(n)[a]).shape
                    != (#[trigger] ns.push(n)[b]).shape by {
                    if b < ns.len() {
                        assert(ns[a].shape != ns[b].shape);
                    }
                }
            }
        }
        i = i + 1;
    }
    assert(all.take(all.len() as int) =~= all);
    out
}

/// The children that are not zero.
fn drop_zeros(s: &Vec<Spn>) -> (r: Vec<Spn>)
    requires
        all_wf(s@),
    ensures
        all_wf(r@),
        node::nodes(r@) == live(node::nodes(s@)),
        r@.len() <= s@.len(),
{
    let ghost all = node::nodes(s@);
    let mut out: Vec<Spn> = Vec::new();
    let mut i: usize = 0;
    proof {
        node::lemma_nodes(s@);
        assert(all.take(0) =~= Seq::<Node>::empty());
    }
    while i < s.len()
        invariant
            i <= s@.len(),
            all_wf(s@),
            all == node::nodes(s@),
            all.len() == s@.len(),
            forall|j: int| 0 <= j < s@.len() ==> #[trigger] all[j] == s@[j].node(),
            all_wf(out@),
            node::nodes(out@) == live(all.take(i as int)),
            out@.len() <= i,
        decreases s@.len() - i,
    {
        proof {
            assert(all[i as int] == s@[i as int].node());
            assert(s@[i as int].wf());
            assert(all.take(i + 1).drop_last() =~= all.take(i as int));
            assert(all.take(i + 1).last() == all[i as int]);
        }
        if !s[i].is_zero() {
            let ghost had = out@;
            let c: Spn = s[i].share();
            out.push(c);
            proof {
                lemma_nodes_push(had, c);
                lemma_all_wf_push(had, c);
            }
        }
        i = i + 1;
    }
    assert(all.take(all.len() as int) =~= all);
    out
}

fn sum_of_coeffs<F: Fn(RealOp, u64, u64) -> u64>(s: &Vec<Spn>, reals: &F) -> (r: RealEps)
    requires
        reals::settled(*reals),
    ensures
        r == total(node::nodes(s@), reals::operations(*reals)),
{
    let ghost f = reals::operations(*reals);
    let ghost all = node::nodes(s@);
    let mut z: RealEps = RealEps::zero();
    let mut i: usize = 0;
    proof {
        node::lemma_nodes(s@);
        assert(all.take(0) =~= Seq::<Node>::empty());
    }
    while i < s.len()
        invariant
            i <= s@.len(),
            reals::settled(*reals),
            f == reals::operations(*reals),
            all == node::nodes(s@),
            all.len() == s@.len(),
            forall|j: int| 0 <= j < s@.len() ==> #[trigger] all[j] == s@[j].node(),
            z == total(all.take(i as int), f),
        decreases s@.len() - i,
    {
        proof {
            assert(all[i as int] == s@[i as int].node());
            assert(all.take(i + 1).drop_last() =~= all.take(i as int));
            assert(all.take(i + 1).last() == all[i as int]);
        }
        z = z.logsumexp(s[i].log_coeff, reals);
        i = i + 1;
    }
    assert(all.take(all.len() as int) =~= all);
    z
}

fn divide_all<F: Fn(RealOp, u64, u64) -> u64>(s: &Vec<Spn>, z: RealEps, reals: &F) -> (r: Vec<Spn>)
    requires
        all_wf(s@),
        reals::settled(*reals),
    ensures
        all_wf(r@),
        node::nodes(r@) == weighted(node::nodes(s@), z, reals::operations(*reals)),
{
    let ghost f = reals::operations(*reals);
    let mut out: Vec<Spn> = Vec::new();
    let mut i: usize = 0;
    while i < s.len()
        invariant
            i <= s@.len(),
            all_wf(s@),
            reals::settled(*reals),
            f == reals::operations(*reals),
            all_wf(out@),
            out@.len() == i,
            forall|j: int|
                0 <= j < i ==> (#[trigger] out@[j]).node() == (Node {
                    coeff: s@[j].node().coeff.over(z, f),
                    shape: s@[j].node().shape,
                }),
        decreases s@.len() - i,
    {
        assert(s@[i as int].wf());
        let ghost had = out@;
        let c: RealEps = s[i].log_coeff.divide(z, reals);
        let n: Spn = s[i].with_coeff(c);
        out.push(n);
        proof {
            lemma_all_wf_push(had, n);
        }
        i = i + 1;
    }
    proof {
        node::lemma_nodes(out@);
        node::lemma_nodes(s@);
        assert(node::nodes(out@) =~= weighted(node::nodes(s@), z, f));
    }
    out
}

/// The variables of all nodes.
fn scope_of_all(s: &Vec<Spn>) -> (r: Vec<u64>)
    requires
        all_wf(s@),
    ensures
        scope::increasing(r@),
        r@.to_set() == node::all_vars(node::nodes(s@)),
{
    let ghost all = node::nodes(s@);
    let mut out: Vec<u64> = Vec::new();
    let mut i: usize = 0;
    proof {
        node::lemma_nodes(s@);
        assert(all.take(0) =~= Seq::<Node>::empty());
        assert(out@.to_set() =~= Set::<u64>::empty());
    }
    while i < s.len()
        invariant
            i <= s@.len(),
            all_wf(s@),
            all == node::nodes(s@),
            all.len() == s@.len(),
            forall|j: int| 0 <= j < s@.len() ==> #[trigger] all[j] == s@[j].node(),
            scope::increasing(out@),
            out@.to_set() == node::all_vars(all.take(i as int)),
        decreases s@.len() - i,
    {
        proof {
            assert(s@[i as int].wf());
            assert(all[i as int] == s@[i as int].node());
            assert(all.take(i + 1).drop_last() =~= all.take(i as int));
            assert(all.take(i + 1).last() == all[i as int]);
        }
        out = merge_scopes(&out, s[i].scope());
        i = i + 1;
    }
    assert(all.take(all.len() as int) =~= all);
    out
}

/// The factors of a product so far: their scopes are disjoint, and within
/// those of the children.
spec fn factors_fit(factors: Seq<Node>, seen: Set<u64>) -> bool {
    &&& node::disjoint_scopes(factors)
    &&& forall|i: int| 0 <= i < factors.len() ==> node::factor(#[trigger] factors[i])
    &&& forall|n: u64| #[trigger] node::all_vars(factors).contains(n) <==> seen.contains(n)
}

/// A factor with new variables fits.
proof fn lemma_factor_fits(factors: Seq<Node>, seen: Set<u64>, n: Node)
    requires
        factors_fit(factors, seen),
        node::factor(n),
        scope::apart(seen, node::vars(n.shape)),
    ensures
        factors_fit(factors.push(n), seen.union(node::vars(n.shape))),
{
    let t = factors.push(n);
    node::lemma_all_vars(factors);
    assert(t.drop_last() =~= factors);
    assert forall|i: int, j: int| 0 <= i < j < t.len() implies scope::apart(
        node::vars((#[trigger] t[i]).shape),
        node::vars((#[trigger] t[j]).shape),
    ) by {
        if j < factors.len() {
            assert(scope::apart(node::vars(factors[i].shape), node::vars(factors[j].shape)));
        } else {
            assert forall|m: u64| !(#[trigger] node::vars(t[i].shape).contains(m) && node::vars(
                t[j].shape,
            ).contains(m)) by {
                if node::vars(t[i].shape).contains(m) {
                    assert(node::vars(factors[i].shape).contains(m));
                    assert(node::all_vars(factors).contains(m));
                    assert(seen.contains(m));
                }
            }
        }
    }
    assert forall|i: int| 0 <= i < t.len() implies node::factor(#[trigger] t[i]) by {
        if i < factors.len() {
            assert(node::factor(factors[i]));
        }
    }
    let now = seen.union(node::vars(n.shape));
    assert forall|m: u64| #[trigger] node::all_vars(t).contains(m) <==> now.contains(m) by {
        assert(node::all_vars(t) == node::all_vars(factors).union(node::vars(n.shape)));
        assert(node::all_vars(factors).contains(m) <==> seen.contains(m));
    }
}

impl Spn {
    /// Create a product node. Children must have disjoint scopes. Nested
    /// products are flattened, and every coefficient is pulled into the outer
    /// one.
    #[verifier::rlimit(40)]
    pub fn product<F: Fn(RealOp, u64, u64) -> u64>(children: &Vec<Spn>, reals: &F) -> (r: Spn)
        requires
            all_wf(children@),
            node::disjoint_scopes(node::nodes(children@)),
            reals::settled(*reals),
        ensures
            r.wf(),
            r.node() == multiplied(node::nodes(children@), reals::operations(*reals)),
    {
        let ghost f = reals::operations(*reals);
        let ghost all = node::nodes(children@);
        let mut flat: Vec<Spn> = Vec::new();
        let mut accum: RealEps = RealEps::one();
        let mut i: usize = 0;
        proof {
            node::lemma_nodes(children@);
            assert(all.take(0) =~= Seq::<Node>::empty());
        }
        while i < children.len()
            invariant
                i <= children@.len(),
                all_wf(children@),
                reals::settled(*reals),
                f == reals::operations(*reals),
                all == node::nodes(children@),
                all.len() == children@.len(),
                node::disjoint_scopes(all),
                forall|j: int| 0 <= j < children@.len() ==> #[trigger] all[j] == children@[j].node(),
                forall|j: int| 0 <= j < i ==> !(#[trigger] all[j]).coeff.none(),
                all_wf(flat@),
                factored(all.take(i as int), f) == (Pulled {
                    coeff: accum,
                    factors: node::nodes(flat@),
                }),
                factors_fit(node::nodes(flat@), node::all_vars(all.take(i as int))),
            decreases children@.len() - i,
        {
            let child: &Spn = &children[i];
            let ghost n = child.node();
            let ghost seen = node::all_vars(all.take(i as int));
            let ghost start = Pulled { coeff: accum, factors: node::nodes(flat@) };
            proof {
                assert(all[i as int] == n);
                assert(children@[i as int].wf());
                assert(all.take(i + 1).drop_last() =~= all.take(i as int));
                assert(all.take(i + 1).last() == n);
                lemma_apart_from_before(all, i as int);
            }
            if child.is_zero() {
                assert(any_zero(all));
                return Spn::zero();
            }
            match &child.inner.kind {
                SpnKind::Product(gs) => {
                    accum = accum.product(child.log_coeff, reals);
                    let ghost base = Pulled { coeff: accum, factors: start.factors };
                    let ghost cs = node::nodes(gs@);
                    let mut k: usize = 0;
                    proof {
                        node::lemma_nodes(gs@);
                        assert(cs.take(0) =~= Seq::<Node>::empty());
                        assert(seen.union(node::all_vars(cs.take(0))) =~= seen);
                    }
                    while k < gs.len()
                        invariant
                            k <= gs@.len(),
                            child.wf(),
                            child.inner.kind == SpnKind::Product(*gs),
                            n == child.node(),
                            reals::settled(*reals),
                            f == reals::operations(*reals),
                            cs == node::nodes(gs@),
                            cs.len() == gs@.len(),
                            n.shape == Shape::Product(cs),
                            scope::apart(seen, node::all_vars(cs)),
                            all_wf(flat@),
                            pulled_all(base, cs.take(k as int), f) == (Pulled {
                                coeff: accum,
                                factors: node::nodes(flat@),
                            }),
                            factors_fit(
                                node::nodes(flat@),
                                seen.union(node::all_vars(cs.take(k as int))),
                            ),
                        decreases gs@.len() - k,
                    {
                        let ghost had = flat@;
                        let ghost within = seen.union(node::all_vars(cs.take(k as int)));
                        let ghost part = cs[k as int];
                        proof {
                            lemma_child_wf(child, gs@, k as int);
                            assert(node::factor(cs[k as int]));
                            assert(cs.take(k + 1).drop_last() =~= cs.take(k as int));
                            assert(cs.take(k + 1).last() == part);
                            node::lemma_all_vars(cs);
                            lemma_apart_from_before(cs, k as int);
                            assert forall|m: u64| !(#[trigger] within.contains(m) && node::vars(
                                part.shape,
                            ).contains(m)) by {
                                if node::vars(part.shape).contains(m) {
                                    assert(node::all_vars(cs).contains(m));
                                }
                            }
                        }
                        accum = accum.product(gs[k].log_coeff, reals);
                        let c: Spn = gs[k].with_coeff(RealEps::one());
                        flat.push(c);
                        proof {
                            lemma_nodes_push(had, c);
                            lemma_all_wf_push(had, c);
                            lemma_factor_fits(node::nodes(had), within, c.node());
                            assert(within.union(node::vars(part.shape)) =~= seen.union(
                                node::all_vars(cs.take(k + 1)),
                            ));
                        }
                        k = k + 1;
                    }
                    assert(cs.take(cs.len() as int) =~= cs);
                },
                kind => {
                    accum = accum.product(child.log_coeff, reals);
                    if !child.is_scalar() {
                        let ghost had = flat@;
                        let c: Spn = child.with_coeff(RealEps::one());
                        flat.push(c);
                        proof {
                            lemma_nodes_push(had, c);
                            lemma_all_wf_push(had, c);
                            lemma_factor_fits(node::nodes(had), seen, c.node());
                        }
                    } else {
                        assert(seen.union(node::vars(n.shape)) =~= seen);
                    }
                },
            }
            i = i + 1;
        }
        proof {
            assert(all.take(all.len() as int) =~= all);
            node::lemma_nodes(flat@);
            assert(!any_zero(all));
        }
        if flat.len() == 0 {
            return Spn::from_coeff(accum);
        }
        if flat.len() == 1 {
            return flat[0].coeff_mul(accum, reals);
        }
        let scope: Vec<u64> = scope_of_all(&flat);
        proof {
            let w = node::nodes(flat@);
            node::lemma_all_normal(w);
            assert forall|j: int| 0 <= j < w.len() implies node::normal(#[trigger] w[j]) by {
                assert(flat@[j].wf());
            }
            node::lemma_laid_out(flat@);
        }
        let kind: SpnKind = SpnKind::Product(flat);
        Spn { log_coeff: accum, inner: Rc::new(SpnInner { kind, scope }) }
    }
}

/// A node has no variable in common with those before it.
proof fn lemma_apart_from_before(s: Seq<Node>, i: int)
    requires
        node::disjoint_scopes(s),
        0 <= i < s.len(),
    ensures
        scope::apart(node::all_vars(s.take(i)), node::vars(s[i].shape)),
{
    let p = s.take(i);
    node::lemma_all_vars(p);
    assert forall|n: u64| !(#[trigger] node::all_vars(p).contains(n) && node::vars(s[i].shape).contains(n)) by {
        if node::all_vars(p).contains(n) {
            let k = choose|k: int| 0 <= k < p.len() && node::vars((#[trigger] p[k]).shape).contains(n);
            assert(p[k] == s[k]);
            assert(scope::apart(node::vars(s[k].shape), node::vars(s[i].shape)));
        }
    }
}

/// The variables of one list of nodes are among those of another.
pub open spec fn vars_within(s: Seq<Node>, t: Set<u64>) -> bool {
    forall|n: u64| #[trigger] node::all_vars(s).contains(n) ==> t.contains(n)
}

proof fn lemma_vars_each(s: Seq<Node>, t: Set<u64>)
    requires
        forall|i: int, n: u64|
            0 <= i < s.len() && #[trigger] node::vars(s[i].shape).contains(n) ==> t.contains(n),
    ensures
        vars_within(s, t),
{
    node::lemma_all_vars(s);
}

proof fn lemma_vars_member(s: Seq<Node>, i: int, n: u64)
    requires
        0 <= i < s.len(),
        node::vars(s[i].shape).contains(n),
    ensures
        node::all_vars(s).contains(n),
{
    node::lemma_all_vars(s);
}

proof fn lemma_live_vars(s: Seq<Node>)
    ensures
        vars_within(live(s), node::all_vars(s)),
{
    lemma_live(s);
    let t = live(s);
    assert forall|i: int, n: u64| 0 <= i < t.len() && #[trigger] node::vars(t[i].shape).contains(n) implies node::all_vars(
        s,
    ).contains(n) by {
        assert(s.contains(t[i]));
        let k = choose|k: int| 0 <= k < s.len() && s[k] == t[i];
        lemma_vars_member(s, k, n);
    }
    lemma_vars_each(t, node::all_vars(s));
}

proof fn lemma_flat_vars(s: Seq<Node>, f: Arithmetic)
    ensures
        vars_within(flat(s, f), node::all_vars(s)),
    decreases s.len(),
{
    if s.len() > 0 {
        let p = flat(s.drop_last(), f);
        let q = spliced(s.last(), f);
        let whole = p + q;
        let all = node::all_vars(s);
        lemma_flat_vars(s.drop_last(), f);
        assert forall|i: int, n: u64| 0 <= i < whole.len() && #[trigger] node::vars(whole[i].shape).contains(n) implies all.contains(
            n,
        ) by {
            if i < p.len() {
                assert(whole[i] == p[i]);
                lemma_vars_member(p, i, n);
            } else {
                assert(whole[i] == q[i - p.len()]);
                match s.last().shape {
                    Shape::Sum(c) => {
                        let t = scaled_all(c, s.last().coeff, f);
                        lemma_live(t);
                        assert(t.contains(q[i - p.len()]));
                        let k = choose|k: int| 0 <= k < t.len() && t[k] == q[i - p.len()];
                        assert(t[k].shape == c[k].shape);
                        lemma_vars_member(c, k, n);
                    },
                    _ => {},
                }
                assert(node::vars(s.last().shape).contains(n));
            }
        }
        lemma_vars_each(whole, all);
    }
}

proof fn lemma_merged_vars(s: Seq<Node>, f: Arithmetic)
    ensures
        vars_within(merged(s, f), node::all_vars(s)),
    decreases s.len(),
{
    if s.len() > 0 {
        let p = merged(s.drop_last(), f);
        let n = s.last();
        let t = joined(p, n, f);
        let all = node::all_vars(s);
        lemma_merged_vars(s.drop_last(), f);
        lemma_place(p, n.shape);
        assert forall|i: int, m: u64| 0 <= i < t.len() && #[trigger] node::vars(t[i].shape).contains(m) implies all.contains(
            m,
        ) by {
            if i < p.len() {
                assert(t[i].shape == p[i].shape);
                lemma_vars_member(p, i, m);
            } else {
                assert(t[i] == n);
            }
        }
        lemma_vars_each(t, all);
    }
}

/// A sum has the variables of its summands only.
pub proof fn lemma_summed_vars(s: Seq<Node>, f: Arithmetic)
    ensures
        forall|n: u64| #[trigger]
            node::vars(summed(s, f).shape).contains(n) ==> node::all_vars(s).contains(n),
{
    let a = flat(s, f);
    let b = merged(a, f);
    let m = live(b);
    let z = total(m, f);
    let v = weighted(m, z, f);
    let w = live(v);
    lemma_flat_vars(s, f);
    lemma_merged_vars(a, f);
    lemma_live_vars(b);
    lemma_live_vars(v);
    assert forall|i: int, n: u64| 0 <= i < v.len() && #[trigger] node::vars(v[i].shape).contains(n) implies node::all_vars(
        m,
    ).contains(n) by {
        assert(v[i].shape == m[i].shape);
        lemma_vars_member(m, i, n);
    }
    lemma_vars_each(v, node::all_vars(m));
    assert forall|n: u64| #[trigger] node::vars(summed(s, f).shape).contains(n) implies node::all_vars(s).contains(
        n,
    ) by {
        let r = summed(s, f);
        if m.len() == 1 {
            lemma_vars_member(m, 0, n);
        } else if m.len() > 1 && !z.none() && w.len() > 0 {
            if w.len() == 1 {
                lemma_vars_member(w, 0, n);
            } else {
                assert(node::all_vars(w).contains(n));
            }
            assert(node::all_vars(v).contains(n));
        }
        assert(node::all_vars(m).contains(n));
        assert(node::all_vars(b).contains(n));
        assert(node::all_vars(a).contains(n));
    }
}

proof fn lemma_pulled_one_vars(p: Pulled, n: Node, f: Arithmetic, t: Set<u64>)
    requires
        vars_within(p.factors, t),
        forall|m: u64| #[trigger] node::vars(n.shape).contains(m) ==> t.contains(m),
    ensures
        vars_within(pulled_one(p, n, f).factors, t),
{
    if !(n.shape is Scalar) {
        let q = p.factors.push(Node { coeff: node::one_coeff(), shape: n.shape });
        assert(q.drop_last() =~= p.factors);
        assert forall|m: u64| #[trigger] node::all_vars(q).contains(m) implies t.contains(m) by {
            assert(node::all_vars(q) == node::all_vars(p.factors).union(node::vars(n.shape)));
            if node::all_vars(p.factors).contains(m) {
            } else {
                assert(node::vars(n.shape).contains(m));
            }
        }
    }
}

proof fn lemma_pulled_all_vars(p: Pulled, s: Seq<Node>, f: Arithmetic, t: Set<u64>)
    requires
        vars_within(p.factors, t),
        vars_within(s, t),
    ensures
        vars_within(pulled_all(p, s, f).factors, t),
    decreases s.len(),
{
    if s.len() > 0 {
        let q = s.drop_last();
        assert forall|n: u64| #[trigger] node::all_vars(q).contains(n) implies t.contains(n) by {
            assert(node::all_vars(s).contains(n));
        }
        lemma_pulled_all_vars(p, q, f, t);
        assert forall|m: u64| #[trigger] node::vars(s.last().shape).contains(m) implies t.contains(m) by {
            assert(node::all_vars(s).contains(m));
        }
        lemma_pulled_one_vars(pulled_all(p, q, f), s.last(), f, t);
    }
}

proof fn lemma_factored_vars(s: Seq<Node>, f: Arithmetic)
    ensures
        vars_within(factored(s, f).factors, node::all_vars(s)),
    decreases s.len(),
{
    if s.len() > 0 {
        let t = node::all_vars(s);
        let q = factored(s.drop_last(), f);
        let n = s.last();
        lemma_factored_vars(s.drop_last(), f);
        assert forall|m: u64| #[trigger] node::all_vars(q.factors).contains(m) implies t.contains(m) by {
            assert(node::all_vars(s.drop_last()).contains(m));
        }
        match n.shape {
            Shape::Product(c) => {
                let base = Pulled { coeff: q.coeff.times(n.coeff, f), factors: q.factors };
                assert forall|m: u64| #[trigger] node::all_vars(c).contains(m) implies t.contains(m) by {
                    assert(node::vars(n.shape).contains(m));
                }
                lemma_pulled_all_vars(base, c, f, t);
            },
            _ => lemma_pulled_one_vars(q, n, f, t),
        }
    }
}

/// A product has the variables of its factors only.
pub proof fn lemma_multiplied_vars(s: Seq<Node>, f: Arithmetic)
    ensures
        forall|n: u64| #[trigger]
            node::vars(multiplied(s, f).shape).contains(n) ==> node::all_vars(s).contains(n),
{
    let p = factored(s, f);
    lemma_factored_vars(s, f);
    assert forall|n: u64| #[trigger] node::vars(multiplied(s, f).shape).contains(n) implies node::all_vars(s).contains(
        n,
    ) by {
        if !any_zero(s) && p.factors.len() == 1 {
            lemma_vars_member(p.factors, 0, n);
        }
        if !any_zero(s) && p.factors.len() > 0 {
            assert(node::all_vars(p.factors).contains(n));
        }
    }
}

} // verus!
