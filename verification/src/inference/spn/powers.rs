//! Sums of coefficients that may be infinitesimal: next to coefficients of a
//! lesser power those of a greater one do not count.

use vstd::prelude::*;

use super::meaning;
use super::meaning::Meaning;
use super::node;
use super::node::{Node, Shape};
use super::normal;
use crate::utils::epsilon::RealEps;
use crate::utils::reals;
use crate::utils::reals::{Arithmetic, NEG_INFINITY};

verus! {

/// Only the coefficient 0 has the value zero.
pub open spec fn strict<V>(m: Meaning<V>) -> bool {
    forall|a: u64| #[trigger] (m.number)(a) == m.zero ==> reals::equal(a, NEG_INFINITY)
}

/// What a coefficient counts for if powers up to `p` do.
pub open spec fn counted<V>(m: Meaning<V>, c: RealEps, p: u32) -> V {
    if c.power > p {
        m.zero
    } else {
        (m.number)(c.log_coeff)
    }
}

/// The coefficients of powers up to `p`, added up.
pub open spec fn up_to<V>(m: Meaning<V>, s: Seq<RealEps>, p: u32) -> V
    decreases s.len(),
{
    if s.len() == 0 {
        m.zero
    } else {
        (m.plus)(up_to(m, s.drop_last(), p), counted(m, s.last(), p))
    }
}

/// Nothing counts below the power.
pub open spec fn nothing_below<V>(m: Meaning<V>, s: Seq<RealEps>, p: u32) -> bool {
    forall|q: u32| q < p ==> #[trigger] up_to(m, s, q) == m.zero
}

/// The sum of coefficients.
pub open spec fn added(s: Seq<RealEps>, f: Arithmetic) -> RealEps
    decreases s.len(),
{
    if s.len() == 0 {
        RealEps { log_coeff: NEG_INFINITY, power: 0 }
    } else {
        added(s.drop_last(), f).plus(s.last(), f)
    }
}

/// The coefficients of nodes.
pub open spec fn coeffs(s: Seq<Node>) -> Seq<RealEps> {
    Seq::new(s.len(), |i: int| s[i].coeff)
}

/// The children of a sum are not infinitesimal, and their coefficients add up
/// to one.
pub open spec fn level<V>(m: Meaning<V>, n: Node) -> bool {
    n.shape matches Shape::Sum(c) ==> meaning::weights(m, c) == m.one && forall|i: int|
        0 <= i < c.len() ==> (#[trigger] c[i]).coeff.power == 0
}

proof fn lemma_push<V>(m: Meaning<V>, s: Seq<RealEps>, c: RealEps, p: u32)
    ensures
        up_to(m, s.push(c), p) == (m.plus)(up_to(m, s, p), counted(m, c, p)),
{
    assert(s.push(c).drop_last() =~= s);
}

proof fn lemma_counted_none<V>(m: Meaning<V>, c: RealEps, p: u32, f: Arithmetic)
    requires
        m.exact(f),
        c.none(),
    ensures
        counted(m, c, p) == m.zero,
{
    meaning::exact_ring(m, f);
    meaning::number_none(m, c.log_coeff, f);
}

/// The sum of coefficients has the least power that counts, and the value of
/// the coefficients of that power.
pub proof fn lemma_added<V>(m: Meaning<V>, s: Seq<RealEps>, f: Arithmetic)
    requires
        m.exact(f),
        strict(m),
    ensures
        added(s, f).none() ==> forall|q: u32| #[trigger] up_to(m, s, q) == m.zero,
        !added(s, f).none() ==> nothing_below(m, s, added(s, f).power),
        up_to(m, s, added(s, f).power) == (m.number)(added(s, f).log_coeff),
    decreases s.len(),
{
    meaning::exact_ring(m, f);
    if s.len() == 0 {
        meaning::number_none(m, NEG_INFINITY, f);
    } else {
        let p = s.drop_last();
        let (t, w, r) = (added(p, f), s.last(), added(s, f));
        lemma_added(m, p, f);
        assert forall|q: u32| #[trigger] up_to(m, s, q) == (m.plus)(
            up_to(m, p, q),
            counted(m, w, q),
        ) by {}
        assert forall|q: u32| w.none() implies #[trigger] counted(m, w, q) == m.zero by {
            lemma_counted_none(m, w, q, f);
        }
        assert forall|q: u32| #![trigger up_to(m, p, q)]
            (m.plus)(up_to(m, p, q), m.zero) == up_to(m, p, q) by {
            meaning::plus_zero(m, up_to(m, p, q));
        }
        assert forall|q: u32| #![trigger counted(m, w, q)]
            (m.plus)(m.zero, counted(m, w, q)) == counted(m, w, q) by {
            meaning::plus_zero(m, counted(m, w, q));
        }
        if !t.none() && !w.none() && t.power == w.power {
            meaning::number_plus(m, t.log_coeff, w.log_coeff, f);
            if r.none() {
                meaning::number_none(m, r.log_coeff, f);
                meaning::plus_free(m, (m.number)(t.log_coeff), (m.number)(w.log_coeff));
            }
        }
        assert forall|q: u32| r.none() implies #[trigger] up_to(m, s, q) == m.zero by {
            assert(counted(m, w, q) == counted(m, w, q));
        }
        assert forall|q: u32| !r.none() && q < r.power implies #[trigger] up_to(m, s, q) == m.zero by {
            assert(counted(m, w, q) == counted(m, w, q));
            assert(up_to(m, p, q) == m.zero);
        }
        let q = r.power;
        assert(up_to(m, s, q) == (m.plus)(up_to(m, p, q), counted(m, w, q)));
    }
}

proof fn lemma_total_added(s: Seq<Node>, f: Arithmetic)
    ensures
        normal::total(s, f) == added(coeffs(s), f),
    decreases s.len(),
{
    if s.len() > 0 {
        lemma_total_added(s.drop_last(), f);
        assert(coeffs(s).drop_last() =~= coeffs(s.drop_last()));
    }
}

/// Where nothing counts in the sum, nothing counts in its parts.
proof fn lemma_nothing<V>(m: Meaning<V>, s: Seq<RealEps>, i: int, p: u32)
    requires
        m.semiring(),
        0 <= i < s.len(),
        up_to(m, s, p) == m.zero,
    ensures
        counted(m, s[i], p) == m.zero,
    decreases s.len(),
{
    meaning::plus_free(m, up_to(m, s.drop_last(), p), counted(m, s.last(), p));
    if i < s.len() - 1 {
        lemma_nothing(m, s.drop_last(), i, p);
    }
}

proof fn lemma_update<V>(m: Meaning<V>, s: Seq<RealEps>, i: int, c: RealEps, extra: V, p: u32)
    requires
        m.semiring(),
        0 <= i < s.len(),
        counted(m, c, p) == (m.plus)(counted(m, s[i], p), extra),
    ensures
        up_to(m, s.update(i, c), p) == (m.plus)(up_to(m, s, p), extra),
    decreases s.len(),
{
    let t = s.update(i, c);
    let q = s.drop_last();
    let v = counted(m, s.last(), p);
    if i == s.len() - 1 {
        assert(t.drop_last() =~= q);
        meaning::plus_assoc(m, up_to(m, q, p), v, extra);
    } else {
        lemma_update(m, q, i, c, extra, p);
        assert(t.drop_last() =~= q.update(i, c));
        meaning::plus_assoc(m, up_to(m, q, p), extra, v);
        meaning::plus_comm(m, extra, v);
        meaning::plus_assoc(m, up_to(m, q, p), v, extra);
    }
}

/// Adding one coefficient to another keeps the sum up to the least power that
/// counts.
proof fn lemma_joined<V>(m: Meaning<V>, s: Seq<RealEps>, i: int, b: RealEps, p: u32, f: Arithmetic)
    requires
        m.exact(f),
        strict(m),
        0 <= i < s.len(),
        nothing_below(m, s.push(b), p),
    ensures
        up_to(m, s.update(i, s[i].plus(b, f)), p) == up_to(m, s.push(b), p),
{
    let a = s[i];
    let c = a.plus(b, f);
    let all = s.push(b);
    meaning::exact_ring(m, f);
    lemma_push(m, s, b, p);
    let (x, y) = (counted(m, a, p), counted(m, b, p));
    meaning::plus_zero(m, x);
    meaning::plus_zero(m, y);
    meaning::plus_zero(m, m.zero);
    if a.none() {
        lemma_counted_none(m, a, p, f);
    } else if b.none() {
        lemma_counted_none(m, b, p, f);
    } else {
        if a.power < p {
            assert(up_to(m, all, a.power) == m.zero);
            lemma_nothing(m, all, i, a.power);
            assert((m.number)(a.log_coeff) == m.zero);
        }
        if b.power < p {
            assert(up_to(m, all, b.power) == m.zero);
            lemma_nothing(m, all, s.len() as int, b.power);
            assert((m.number)(b.log_coeff) == m.zero);
        }
        if a.power == b.power {
            meaning::number_plus(m, a.log_coeff, b.log_coeff, f);
        }
    }
    lemma_update(m, s, i, c, y, p);
}

proof fn lemma_merged<V>(m: Meaning<V>, s: Seq<Node>, p: u32, f: Arithmetic)
    requires
        m.exact(f),
        strict(m),
        nothing_below(m, coeffs(s), p),
    ensures
        forall|q: u32|
            q <= p ==> #[trigger] up_to(m, coeffs(normal::merged(s, f)), q) == up_to(
                m,
                coeffs(s),
                q,
            ),
    decreases s.len(),
{
    meaning::exact_ring(m, f);
    if s.len() > 0 {
        let (rest, n) = (s.drop_last(), s.last());
        let g = normal::merged(rest, f);
        let r = normal::merged(s, f);
        let one = coeffs(g).push(n.coeff);
        assert(coeffs(s) =~= coeffs(rest).push(n.coeff));
        assert forall|q: u32| #[trigger] up_to(m, coeffs(s), q) == (m.plus)(
            up_to(m, coeffs(rest), q),
            counted(m, n.coeff, q),
        ) by {
            lemma_push(m, coeffs(rest), n.coeff, q);
        }
        assert forall|q: u32| q < p implies #[trigger] up_to(m, coeffs(rest), q) == m.zero by {
            assert(up_to(m, coeffs(s), q) == m.zero);
            meaning::plus_free(m, up_to(m, coeffs(rest), q), counted(m, n.coeff, q));
        }
        lemma_merged(m, rest, p, f);
        assert forall|q: u32| q <= p implies #[trigger] up_to(m, one, q) == up_to(m, coeffs(s), q) by {
            lemma_push(m, coeffs(g), n.coeff, q);
            assert(up_to(m, coeffs(g), q) == up_to(m, coeffs(rest), q));
        }
        normal::lemma_place(g, n.shape);
        match normal::place(g, n.shape) {
            Some(i) => {
                let c = g[i].coeff.plus(n.coeff, f);
                assert(coeffs(r) =~= coeffs(g).update(i, c));
                assert forall|q: u32| q <= p implies #[trigger] up_to(m, coeffs(r), q) == up_to(
                    m,
                    coeffs(s),
                    q,
                ) by {
                    assert forall|k: u32| k < q implies #[trigger] up_to(m, one, k) == m.zero by {
                        assert(up_to(m, coeffs(s), k) == m.zero);
                    }
                    lemma_joined(m, coeffs(g), i, n.coeff, q, f);
                    assert(up_to(m, one, q) == up_to(m, coeffs(s), q));
                }
            },
            None => {
                assert(coeffs(r) =~= one);
            },
        }
    }
}

proof fn lemma_live<V>(m: Meaning<V>, s: Seq<Node>, p: u32, f: Arithmetic)
    requires
        m.exact(f),
    ensures
        up_to(m, coeffs(normal::live(s)), p) == up_to(m, coeffs(s), p),
    decreases s.len(),
{
    if s.len() > 0 {
        let rest = s.drop_last();
        meaning::exact_ring(m, f);
        lemma_live(m, rest, p, f);
        assert(coeffs(s).drop_last() =~= coeffs(rest));
        if s.last().coeff.none() {
            lemma_counted_none(m, s.last().coeff, p, f);
            meaning::plus_zero(m, up_to(m, coeffs(rest), p));
        } else {
            assert(coeffs(normal::live(s)) =~= coeffs(normal::live(rest)).push(s.last().coeff));
            lemma_push(m, coeffs(normal::live(rest)), s.last().coeff, p);
        }
    }
}

proof fn lemma_scaled<V>(m: Meaning<V>, s: Seq<Node>, c: RealEps, p: u32, f: Arithmetic)
    requires
        m.exact(f),
        forall|i: int| 0 <= i < s.len() ==> (#[trigger] s[i]).coeff.power == 0,
    ensures
        up_to(m, coeffs(normal::scaled_all(s, c, f)), p) == (if c.power > p {
            m.zero
        } else {
            (m.times)((m.number)(c.log_coeff), meaning::weights(m, s))
        }),
    decreases s.len(),
{
    let t = normal::scaled_all(s, c, f);
    let k = (m.number)(c.log_coeff);
    meaning::exact_ring(m, f);
    if s.len() > 0 {
        let rest = s.drop_last();
        let a = (m.number)(s.last().coeff.log_coeff);
        assert forall|i: int| 0 <= i < rest.len() implies (#[trigger] rest[i]).coeff.power == 0 by {
            assert(s[i].coeff.power == 0);
        }
        assert(s[s.len() - 1].coeff.power == 0);
        lemma_scaled(m, rest, c, p, f);
        assert(coeffs(t).drop_last() =~= coeffs(normal::scaled_all(rest, c, f)));
        meaning::number_times(m, s.last().coeff.log_coeff, c.log_coeff, f);
        meaning::times_comm(m, a, k);
        meaning::times_plus(m, k, meaning::weights(m, rest), a);
        meaning::plus_zero(m, m.zero);
    } else {
        meaning::times_zero(m, k);
    }
}

proof fn lemma_concat<V>(m: Meaning<V>, s: Seq<RealEps>, t: Seq<RealEps>, p: u32)
    requires
        m.semiring(),
    ensures
        up_to(m, s + t, p) == (m.plus)(up_to(m, s, p), up_to(m, t, p)),
    decreases t.len(),
{
    if t.len() == 0 {
        assert(s + t =~= s);
        meaning::plus_zero(m, up_to(m, s, p));
    } else {
        lemma_concat(m, s, t.drop_last(), p);
        assert((s + t).drop_last() =~= s + t.drop_last());
        meaning::plus_assoc(m, up_to(m, s, p), up_to(m, t.drop_last(), p), counted(m, t.last(), p));
    }
}

proof fn lemma_flat<V>(m: Meaning<V>, s: Seq<Node>, p: u32, f: Arithmetic)
    requires
        m.exact(f),
        forall|i: int| 0 <= i < s.len() ==> level(m, #[trigger] s[i]),
    ensures
        up_to(m, coeffs(normal::flat(s, f)), p) == up_to(m, coeffs(s), p),
    decreases s.len(),
{
    if s.len() > 0 {
        let rest = s.drop_last();
        let n = s[s.len() - 1];
        let t = normal::spliced(n, f);
        meaning::exact_ring(m, f);
        assert forall|i: int| 0 <= i < rest.len() implies level(m, #[trigger] rest[i]) by {
            assert(level(m, s[i]));
        }
        lemma_flat(m, rest, p, f);
        assert(coeffs(s).drop_last() =~= coeffs(rest));
        assert(coeffs(normal::flat(s, f)) =~= coeffs(normal::flat(rest, f)) + coeffs(t));
        lemma_concat(m, coeffs(normal::flat(rest, f)), coeffs(t), p);
        assert(level(m, n));
        if n.coeff.none() {
            lemma_counted_none(m, n.coeff, p, f);
        } else {
            match n.shape {
                Shape::Sum(c) => {
                    lemma_scaled(m, c, n.coeff, p, f);
                    lemma_live(m, normal::scaled_all(c, n.coeff, f), p, f);
                    meaning::times_one(m, (m.number)(n.coeff.log_coeff));
                },
                _ => {
                    assert(coeffs(t) =~= Seq::<RealEps>::empty().push(n.coeff));
                    lemma_push(m, Seq::<RealEps>::empty(), n.coeff, p);
                    meaning::plus_zero(m, counted(m, n.coeff, p));
                },
            }
        }
    }
}

/// Divided by a coefficient, what counts up to its power comes back.
proof fn lemma_divided<V>(m: Meaning<V>, s: Seq<Node>, z: RealEps, f: Arithmetic)
    requires
        m.exact(f),
        !z.none(),
    ensures
        (m.times)((m.number)(z.log_coeff), meaning::weights(m, normal::weighted(s, z, f))) == up_to(
            m,
            coeffs(s),
            z.power,
        ),
    decreases s.len(),
{
    let k = (m.number)(z.log_coeff);
    let w = normal::weighted(s, z, f);
    meaning::exact_ring(m, f);
    if s.len() > 0 {
        let rest = s.drop_last();
        lemma_divided(m, rest, z, f);
        assert(w.drop_last() =~= normal::weighted(rest, z, f));
        assert(coeffs(s).drop_last() =~= coeffs(rest));
        let a = (m.number)(w.last().coeff.log_coeff);
        meaning::times_plus(m, k, meaning::weights(m, w.drop_last()), a);
        if s.last().coeff.power > z.power {
            meaning::number_none(m, NEG_INFINITY, f);
            meaning::times_zero(m, k);
        } else {
            meaning::number_over(m, s.last().coeff.log_coeff, z.log_coeff, f);
        }
    } else {
        meaning::times_zero(m, k);
    }
}

/// The sum of what is left of the summands is the sum of the summands.
proof fn lemma_same_total<V>(m: Meaning<V>, s: Seq<Node>, f: Arithmetic)
    requires
        m.exact(f),
        strict(m),
        forall|i: int| 0 <= i < s.len() ==> level(m, #[trigger] s[i]),
    ensures
        ({
            let t = added(coeffs(s), f);
            let k = normal::live(normal::merged(normal::flat(s, f), f));
            let z = normal::total(k, f);
            &&& z == added(coeffs(k), f)
            &&& t.none() == (k.len() == 0)
            &&& k.len() > 0 ==> !z.none() && z.power == t.power && (m.number)(z.log_coeff)
                == (m.number)(t.log_coeff)
        }),
{
    let t = added(coeffs(s), f);
    let flat = normal::flat(s, f);
    let g = normal::merged(flat, f);
    let k = normal::live(g);
    let z = added(coeffs(k), f);
    meaning::exact_ring(m, f);
    lemma_total_added(k, f);
    lemma_added(m, coeffs(s), f);
    lemma_added(m, coeffs(k), f);
    normal::lemma_live(g);
    assert forall|q: u32| #[trigger] up_to(m, coeffs(flat), q) == up_to(m, coeffs(s), q) by {
        lemma_flat(m, s, q, f);
    }
    assert forall|q: u32| #[trigger] up_to(m, coeffs(k), q) == up_to(m, coeffs(g), q) by {
        lemma_live(m, g, q, f);
    }
    assert forall|p: u32| #[trigger] nothing_below(m, coeffs(s), p) implies up_to(m, coeffs(k), p)
        == up_to(m, coeffs(s), p) && nothing_below(m, coeffs(k), p) by {
        assert forall|q: u32| q < p implies #[trigger] up_to(m, coeffs(flat), q) == m.zero by {
            assert(up_to(m, coeffs(s), q) == m.zero);
        }
        lemma_merged(m, flat, p, f);
        assert(up_to(m, coeffs(g), p) == up_to(m, coeffs(flat), p));
        assert forall|q: u32| q < p implies #[trigger] up_to(m, coeffs(k), q) == m.zero by {
            assert(up_to(m, coeffs(g), q) == up_to(m, coeffs(flat), q));
            assert(up_to(m, coeffs(s), q) == m.zero);
        }
    }
    if t.none() {
        if k.len() > 0 {
            let c = k[0].coeff;
            assert(nothing_below(m, coeffs(s), c.power));
            assert(up_to(m, coeffs(s), c.power) == m.zero);
            assert(up_to(m, coeffs(k), c.power) == m.zero);
            lemma_nothing(m, coeffs(k), 0, c.power);
            assert((m.number)(c.log_coeff) == m.zero);
        }
    } else {
        let p = t.power;
        assert(nothing_below(m, coeffs(s), p));
        assert(up_to(m, coeffs(k), p) == (m.number)(t.log_coeff));
        assert((m.number)(t.log_coeff) != m.zero);
        assert(!z.none());
        if z.power < p {
            assert(up_to(m, coeffs(k), z.power) == m.zero);
            assert((m.number)(z.log_coeff) == m.zero);
        }
        if p < z.power {
            assert(up_to(m, coeffs(k), p) == m.zero);
        }
        if k.len() == 0 {
            assert(coeffs(k).len() == 0);
        }
    }
}

/// What a sum of networks is, whatever the powers of the coefficients. If
/// the coefficients of the summands add up to 0, it is zero. Otherwise its
/// coefficient is their sum, in power and in value; and where two or more
/// summands are left it is a sum whose children are not zero, not
/// infinitesimal, no sums, and of different shapes, and whose coefficients
/// add up to one.
pub proof fn lemma_sum_with_powers<V>(m: Meaning<V>, s: Seq<Node>, f: Arithmetic)
    requires
        m.exact(f),
        strict(m),
        forall|i: int| 0 <= i < s.len() ==> node::normal(#[trigger] s[i]) && level(m, s[i]),
    ensures
        ({
            let r = normal::summed(s, f);
            let t = added(coeffs(s), f);
            let k = normal::live(normal::merged(normal::flat(s, f), f));
            &&& t.none() == (k.len() == 0)
            &&& t.none() ==> r == node::zero_node()
            &&& !t.none() ==> r.coeff.power == t.power && (m.number)(r.coeff.log_coeff) == (
            m.number)(t.log_coeff)
            &&& k.len() == 1 ==> r == k[0]
            &&& level(m, r)
            &&& r.shape matches Shape::Sum(c) ==> {
                &&& c.len() >= 2
                &&& node::distinct_shapes(c)
                &&& forall|i: int| 0 <= i < c.len() ==> node::summand(#[trigger] c[i])
            }
            &&& !t.none() && !(r.shape is Sum) ==> meaning::among(r, k)
        }),
{
    let t = added(coeffs(s), f);
    let flat = normal::flat(s, f);
    let g = normal::merged(flat, f);
    let k = normal::live(g);
    let z = normal::total(k, f);
    let ws = normal::weighted(k, z, f);
    let w = normal::live(ws);
    let r = normal::summed(s, f);
    meaning::exact_ring(m, f);
    assert forall|i: int| 0 <= i < s.len() implies level(m, #[trigger] s[i]) by {
        assert(node::normal(s[i]));
    }
    lemma_same_total(m, s, f);
    lemma_added(m, coeffs(k), f);
    meaning::lemma_merged_shapes(flat, f);
    meaning::lemma_flat_unnested(s, f);
    normal::lemma_live(g);
    normal::lemma_live_distinct(g);
    normal::lemma_live(ws);
    assert forall|i: int| 0 <= i < k.len() implies !((#[trigger] k[i]).shape is Sum) by {
        let j = choose|j: int| 0 <= j < g.len() && g[j] == k[i];
        assert(meaning::among(g[j], flat));
    }
    assert(node::distinct_shapes(ws)) by {
        assert forall|i: int, j: int| 0 <= i < j < ws.len() implies (#[trigger] ws[i]).shape != (
        #[trigger] ws[j]).shape by {
            assert(k[i].shape != k[j].shape);
        }
    }
    normal::lemma_live_distinct(ws);
    assert forall|i: int| 0 <= i < w.len() implies node::summand(#[trigger] w[i])
        && meaning::among(w[i], k) && w[i].coeff.power == 0 by {
        let j = choose|j: int| 0 <= j < ws.len() && ws[j] == w[i];
        assert(k[j].shape == w[i].shape);
    }
    if k.len() == 1 {
        assert(k.drop_last() =~= Seq::<Node>::empty());
        assert(normal::total(k.drop_last(), f) == node::zero_node().coeff);
        assert(z == normal::total(k.drop_last(), f).plus(k.last().coeff, f));
        assert(node::zero_node().coeff.none());
        assert(k[0].shape == r.shape);
    } else if k.len() > 1 {
        let c = (m.number)(z.log_coeff);
        lemma_divided(m, k, z, f);
        meaning::lemma_weights_live(m, ws, f);
        meaning::lemma_cancel(m, z.log_coeff, meaning::weights(m, w), f);
        if w.len() == 0 {
            meaning::times_zero(m, c);
        } else if w.len() == 1 {
            assert(w.drop_last() =~= Seq::<Node>::empty());
            assert(meaning::weights(m, w.drop_last()) == m.zero);
            meaning::plus_zero(m, (m.number)(w[0].coeff.log_coeff));
            meaning::number_times(m, z.log_coeff, w[0].coeff.log_coeff, f);
            meaning::times_one(m, c);
            assert(meaning::among(w[0], k));
            let j = choose|j: int| 0 <= j < k.len() && (#[trigger] k[j]).shape == w[0].shape;
            assert(k[j].shape == r.shape);
        }
    }
}

} // verus!
