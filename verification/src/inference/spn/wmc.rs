//! Weighted model counting of boolean functions into networks.

use vstd::prelude::*;

use super::meaning;
use super::meaning::Meaning;
use super::node;
use super::node::{Leaf, Node, Shape, Spn};
use super::normal;
use super::product;
use super::product::{spn_add, spn_mul, Merging, MulCache};
use crate::discrete_factorizations::BooleanFunction;
use crate::utils::reals;
use crate::utils::reals::{Arithmetic, RealOp};

verus! {

/// The weights of the two branches at a variable.
pub type EdgeWeights = spec_fn(u64) -> (Node, Node);

/// `w` can be called on all labels, answers equal calls alike, and gives
/// well-formed networks.
pub open spec fn weighs<W: Fn(u64) -> (Spn, Spn)>(w: W) -> bool {
    &&& forall|l: u64| #[trigger] call_requires(w, (l,))
    &&& forall|l: u64, r: (Spn, Spn), s: (Spn, Spn)| #[trigger]
        call_ensures(w, (l,), r) && #[trigger] call_ensures(w, (l,), s) ==> r.0.node() == s.0.node()
            && r.1.node() == s.1.node()
    &&& forall|l: u64, r: (Spn, Spn)| #[trigger]
        call_ensures(w, (l,), r) ==> r.0.wf() && r.1.wf()
}

/// What `w` answers.
pub open spec fn edge_weights<W: Fn(u64) -> (Spn, Spn)>(w: W) -> EdgeWeights {
    |l: u64|
        {
            let r = choose|r: (Spn, Spn)| #[trigger] call_ensures(w, (l,), r);
            (r.0.node(), r.1.node())
        }
}

/// The sum of two nodes.
pub open spec fn add_of(a: Node, b: Node, f: Arithmetic) -> Node {
    if a.shape is Scalar && b.shape is Scalar {
        Node { coeff: a.coeff.plus(b.coeff, f), shape: Shape::Scalar }
    } else {
        normal::summed(seq![a, b], f)
    }
}

/// The weighted count of the assignments that satisfy a function: at every
/// variable the counts of the two branches are weighted and added.
pub open spec fn count_of(
    bf: &BooleanFunction,
    w: EdgeWeights,
    depth: nat,
    g: Merging,
    f: Arithmetic,
) -> Option<Node>
    decreases bf,
{
    match bf {
        BooleanFunction::True => Some(product::bare(Shape::Scalar)),
        BooleanFunction::False => Some(node::zero_node()),
        BooleanFunction::Node { var, low, high } => match (
            count_of(&**low, w, depth, g, f),
            count_of(&**high, w, depth, g, f),
        ) {
            (Some(l), Some(h)) => match (
                product::mul_of(w(var.0).0, l, depth, g, f),
                product::mul_of(w(var.0).1, h, depth, g, f),
            ) {
                (Some(x), Some(y)) => Some(add_of(x, y, f)),
                _ => None,
            },
            _ => None,
        },
    }
}

/// Compute the weighted model count as a network. None where a product of
/// networks has none.
pub fn wmc_spn<
    W: Fn(u64) -> (Spn, Spn),
    M: Fn(Leaf, Leaf) -> Option<(Leaf, u64)>,
    F: Fn(RealOp, u64, u64) -> u64,
>(
    bf: &BooleanFunction,
    weights: &W,
    depth: usize,
    merge: &M,
    reals: &F,
    cache: &mut MulCache,
) -> (r: Option<Spn>)
    requires
        weighs(*weights),
        product::merges(*merge),
        reals::settled(*reals),
        old(cache).right(product::merging(*merge), reals::operations(*reals)),
    ensures
        final(cache).right(product::merging(*merge), reals::operations(*reals)),
        ({
            let want = count_of(
                bf,
                edge_weights(*weights),
                depth as nat,
                product::merging(*merge),
                reals::operations(*reals),
            );
            match r {
                Some(n) => n.wf() && want == Some(n.node()),
                None => want is None,
            }
        }),
    decreases bf,
{
    match bf {
        BooleanFunction::True => Some(Spn::one()),
        BooleanFunction::False => Some(Spn::zero()),
        BooleanFunction::Node { var, low, high } => {
            let l: Spn = match wmc_spn(low, weights, depth, merge, reals, cache) {
                Some(n) => n,
                None => {
                    return None;
                },
            };
            let h: Spn = match wmc_spn(high, weights, depth, merge, reals, cache) {
                Some(n) => n,
                None => {
                    return None;
                },
            };
            let w: (Spn, Spn) = weights(var.0);
            proof {
                let r = choose|r: (Spn, Spn)| #[trigger] call_ensures(*weights, (var.0,), r);
                assert(call_ensures(*weights, (var.0,), w));
                assert(call_ensures(*weights, (var.0,), r));
            }
            let x: Spn = match spn_mul(&w.0, &l, depth, merge, reals, cache) {
                Some(n) => n,
                None => {
                    return None;
                },
            };
            let y: Spn = match spn_mul(&w.1, &h, depth, merge, reals, cache) {
                Some(n) => n,
                None => {
                    return None;
                },
            };
            Some(spn_add(&x, &y, reals))
        },
    }
}

/// The weighted count as a value.
pub open spec fn count_value<V>(m: Meaning<V>, bf: &BooleanFunction, w: EdgeWeights) -> V
    decreases bf,
{
    match bf {
        BooleanFunction::True => m.one,
        BooleanFunction::False => m.zero,
        BooleanFunction::Node { var, low, high } => (m.plus)(
            (m.times)(m.value(w(var.0).0), count_value(m, &**low, w)),
            (m.times)(m.value(w(var.0).1), count_value(m, &**high, w)),
        ),
    }
}

/// No weight carries an epsilon power.
pub open spec fn plain_weights(w: EdgeWeights) -> bool {
    forall|l: u64| meaning::plain((#[trigger] w(l)).0) && meaning::plain(w(l).1)
}

proof fn lemma_add_value<V>(m: Meaning<V>, a: Node, b: Node, f: Arithmetic)
    requires
        m.exact(f),
        meaning::plain(a),
        meaning::plain(b),
    ensures
        m.value(add_of(a, b, f)) == (m.plus)(m.value(a), m.value(b)),
        meaning::plain(add_of(a, b, f)),
{
    meaning::exact_ring(m, f);
    let s = seq![a, b];
    let p = s.drop_last();
    if a.shape is Scalar && b.shape is Scalar {
        let r = add_of(a, b, f);
        meaning::value_def(m, a);
        meaning::value_def(m, b);
        meaning::value_def(m, r);
        meaning::inner_def(m, a.shape);
        meaning::inner_def(m, b.shape);
        meaning::inner_def(m, r.shape);
        meaning::times_one(m, (m.number)(a.coeff.log_coeff));
        meaning::times_one(m, (m.number)(b.coeff.log_coeff));
        meaning::times_one(m, (m.number)(r.coeff.log_coeff));
        meaning::lemma_plus(m, a.coeff, b.coeff, f);
    } else {
        assert(p =~= seq![a]);
        assert(p.drop_last() =~= Seq::<Node>::empty());
        meaning::sum_def(m, s);
        meaning::sum_def(m, p);
        meaning::sum_def(m, p.drop_last());
        meaning::plus_zero(m, m.value(a));
        meaning::lemma_all_plain(s);
        assert forall|i: int| 0 <= i < s.len() implies meaning::plain(#[trigger] s[i]) by {}
        meaning::lemma_sum_value(m, s, f);
    }
}

/// The network of a weighted count has the value of the count.
pub proof fn lemma_count_value<V>(
    m: Meaning<V>,
    bf: &BooleanFunction,
    w: EdgeWeights,
    depth: nat,
    g: Merging,
    f: Arithmetic,
)
    requires
        m.exact(f),
        m.merges(g),
        plain_weights(w),
        count_of(bf, w, depth, g, f) is Some,
    ensures
        m.value(count_of(bf, w, depth, g, f)->0) == count_value(m, bf, w),
        meaning::plain(count_of(bf, w, depth, g, f)->0),
    decreases bf,
{
    meaning::exact_ring(m, f);
    match bf {
        BooleanFunction::True => {
            meaning::bare_def(m, Shape::Scalar, f);
            meaning::inner_def(m, Shape::Scalar);
        },
        BooleanFunction::False => meaning::lemma_zero_node(m, f),
        BooleanFunction::Node { var, low, high } => {
            let l = count_of(&**low, w, depth, g, f)->0;
            let h = count_of(&**high, w, depth, g, f)->0;
            let (a, b) = w(var.0);
            lemma_count_value(m, &**low, w, depth, g, f);
            lemma_count_value(m, &**high, w, depth, g, f);
            assert(meaning::plain(w(var.0).0) && meaning::plain(w(var.0).1));
            meaning::lemma_mul_value(m, a, l, depth, g, f);
            meaning::lemma_mul_value(m, b, h, depth, g, f);
            lemma_add_value(
                m,
                product::mul_of(a, l, depth, g, f)->0,
                product::mul_of(b, h, depth, g, f)->0,
                f,
            );
        },
    }
}

} // verus!
