//! What random choices are for: each outcome comes with its probability.

use vstd::arithmetic::{div_mod, power2};
use vstd::prelude::*;

use super::semantics;
use super::semantics::{Event, Model};
use crate::inference::int_dists;
use crate::language::pexpr::{Const, Weight};
use crate::language::primitives::Primitive;
use crate::language::values::{Datum, Outcome};
use crate::utils::exact;
use crate::utils::exact::Field;
use crate::utils::reals;
use crate::utils::reals::RealOp;

verus! {

/// The numbers from `i` on, added up.
pub open spec fn rest<V>(k: Field<V>, ps: Seq<V>, i: int) -> V
    decreases ps.len() - i,
{
    if i < 0 || i >= ps.len() {
        k.zero
    } else {
        (k.plus)(ps[i], rest(k, ps, i + 1))
    }
}

/// The probability that none of the first `i` choices happens.
pub open spec fn passed<V>(k: Field<V>, qs: Seq<V>, i: int) -> V
    decreases i,
{
    if i <= 0 {
        k.one
    } else {
        (k.times)(passed(k, qs, i - 1), (k.minus)(k.one, qs[i - 1]))
    }
}

/// The probability that of choices made one after the other `i` is the first
/// to happen; behind the last, that none happens.
pub open spec fn first_chance<V>(k: Field<V>, qs: Seq<V>, i: int) -> V {
    if i < qs.len() {
        (k.times)(passed(k, qs, i), qs[i])
    } else {
        passed(k, qs, i)
    }
}

/// Where each choice is made with its share of what is left, what is passed
/// by is what is left.
proof fn lemma_passed<V>(k: Field<V>, ps: Seq<V>, qs: Seq<V>, i: int)
    requires
        k.laws(),
        0 <= i <= qs.len(),
        qs.len() < ps.len(),
        forall|j: int|
            0 <= j < qs.len() ==> (k.times)(#[trigger] qs[j], rest(k, ps, j)) == ps[j],
    ensures
        (k.times)(passed(k, qs, i), rest(k, ps, 0)) == rest(k, ps, i),
    decreases i,
{
    if i == 0 {
        exact::times_one(k, rest(k, ps, 0));
    } else {
        let j = i - 1;
        lemma_passed(k, ps, qs, j);
        let (a, q) = (passed(k, qs, j), qs[j]);
        let (all, r, n) = (rest(k, ps, 0), rest(k, ps, j), rest(k, ps, i));
        let m = (k.minus)(k.one, q);
        exact::times_swap(k, a, m, all);
        // (1 - q) r + q r == r, and q r == p, so (1 - q) r is what is left.
        exact::times_minus(k, k.one, q, r);
        exact::times_one(k, r);
        exact::plus_comm(k, ps[j], n);
        assert((k.times)(q, r) == ps[j]);
        exact::plus_cancel(k, (k.times)(m, r), n, ps[j]);
        exact::times_comm(k, r, m);
    }
}

/// Choices that are made one after the other, each with its share of what is
/// left, come to each outcome with its share of the whole.
pub proof fn lemma_shares_of_the_rest<V>(k: Field<V>, ps: Seq<V>, qs: Seq<V>, i: int)
    requires
        k.laws(),
        0 <= i < ps.len(),
        qs.len() + 1 == ps.len(),
        forall|j: int|
            0 <= j < qs.len() ==> (k.times)(#[trigger] qs[j], rest(k, ps, j)) == ps[j],
    ensures
        (k.times)(first_chance(k, qs, i), rest(k, ps, 0)) == ps[i],
{
    let all = rest(k, ps, 0);
    lemma_passed(k, ps, qs, i);
    if i < qs.len() {
        let (a, q) = (passed(k, qs, i), qs[i]);
        exact::times_swap(k, a, q, all);
        exact::times_comm(k, rest(k, ps, i), q);
        assert((k.times)(q, rest(k, ps, i)) == ps[i]);
    } else {
        exact::plus_zero(k, ps[i]);
        assert(rest(k, ps, i + 1) == k.zero);
    }
}

/// The values of numbers.
pub open spec fn values<V>(k: Field<V>, fs: Seq<u64>) -> Seq<V> {
    Seq::new(fs.len(), |i: int| (k.value)(fs[i]))
}

/// What is left at a category is positive, and the share of a category in
/// what is left is at most one, as it is for positive probabilities. These
/// two are told apart from other values by their bits.
pub open spec fn sensible<V>(k: Field<V>, ps: Seq<V>) -> bool {
    forall|i: int, b: u64|
        0 <= i < ps.len() ==> {
            &&& rest(k, ps, i) != k.zero
            &&& #[trigger] (k.value)(b) == #[trigger] rest(k, ps, i) ==> reals::below(0, b)
            &&& (k.times)((k.value)(b), rest(k, ps, i)) == ps[i] ==> reals::at_most(0, b)
                && reals::at_most(b, 0x3ff0_0000_0000_0000u64)
        }
}

proof fn lemma_left_over<V>(k: Field<V>, x: Model, fs: Seq<u64>, i: int)
    requires
        k.exact(x.arith),
        rest(k, values(k, fs), 0) == k.one,
        0 <= i <= fs.len(),
    ensures
        (k.value)(semantics::left_over(x, fs, i)) == rest(k, values(k, fs), i),
    decreases i,
{
    exact::exact_laws(k, x.arith);
    if i > 0 {
        let ps = values(k, fs);
        lemma_left_over(k, x, fs, i - 1);
        let l = semantics::left_over(x, fs, i - 1);
        exact::exact_difference(k, l, fs[i - 1], x.arith);
        exact::plus_comm(k, ps[i - 1], rest(k, ps, i));
        exact::minus_plus(k, rest(k, ps, i), ps[i - 1]);
    }
}

/// The probability of the event of a flip, if that is known.
pub open spec fn chance<V>(k: Field<V>, e: Event) -> V {
    match e {
        Event::Constant(p) => (k.value)(p),
        _ => k.zero,
    }
}

pub open spec fn chances<V>(k: Field<V>, events: Seq<Event>) -> Seq<V> {
    Seq::new(events.len(), |i: int| chance(k, events[i]))
}

/// In a categorical choice from probabilities that add up to one, category
/// `i` is drawn with its probability: the choices are flips of known
/// probabilities, and the probability that choice `i` is the first to happen,
/// or that none does for the last category, is the one that was given.
pub proof fn lemma_categories_by_probability<V>(
    k: Field<V>,
    x: Model,
    vals: Seq<Datum>,
    fs: Seq<u64>,
    i: int,
)
    requires
        k.exact(x.arith),
        vals == Seq::new(fs.len(), |j: int| Datum::Native(Const::Float(fs[j]))),
        rest(k, values(k, fs), 0) == k.one,
        sensible(k, values(k, fs)),
        0 <= i < fs.len(),
        semantics::categories(x, vals) is Ok,
    ensures
        semantics::categories(x, vals)->Ok_0.len() + 1 == fs.len(),
        forall|j: int|
            0 <= j < fs.len() - 1 ==> (#[trigger] semantics::categories(x, vals)->Ok_0[j]) is Constant,
        first_chance(k, chances(k, semantics::categories(x, vals)->Ok_0), i) == (k.value)(fs[i]),
{
    let ps = values(k, fs);
    let events = semantics::categories(x, vals)->Ok_0;
    let qs = chances(k, events);
    exact::exact_laws(k, x.arith);
    lemma_floats(vals, fs);
    assert forall|j: int| 0 <= j < qs.len() implies (k.times)(#[trigger] qs[j], rest(k, ps, j))
        == ps[j] by {
        let l = semantics::left_over(x, fs, j);
        let q = (x.arith)(RealOp::Quotient, fs[j], l);
        lemma_left_over(k, x, fs, j);
        assert((k.value)(l) == rest(k, ps, j));
        assert(reals::below(0, l));
        exact::exact_quotient(k, fs[j], l, x.arith);
        assert((k.value)(q) == (k.value)(q) && rest(k, ps, j) == rest(k, ps, j));
        assert(semantics::clamped(q) == q);
        assert(events[j] == Event::Constant(semantics::stick(x, fs, j)));
    }
    lemma_shares_of_the_rest(k, ps, qs, i);
    exact::times_one(k, first_chance(k, qs, i));
}

proof fn lemma_floats(vals: Seq<Datum>, fs: Seq<u64>)
    requires
        vals == Seq::new(fs.len(), |j: int| Datum::Native(Const::Float(fs[j]))),
    ensures
        semantics::floats(vals) == Some(fs),
    decreases fs.len(),
{
    if fs.len() > 0 {
        let (v, g) = (vals.drop_last(), fs.drop_last());
        assert(v =~= Seq::new(g.len(), |j: int| Datum::Native(Const::Float(g[j]))));
        lemma_floats(v, g);
        assert(g.push(fs.last()) =~= fs);
    } else {
        assert(fs =~= Seq::<u64>::empty());
    }
}

/// Category `i` is drawn exactly if none of the choices before it happens and
/// its own does, which each stand at their own place.
pub proof fn lemma_category_drawn(x: Model, cs: Seq<i32>, events: Seq<Event>, from: int, i: int)
    requires
        0 <= from <= i <= events.len(),
    ensures
        semantics::first_hit(x, cs, events, from) == i <==> {
            &&& forall|j: int|
                from <= j < i ==> !(x.flips)(cs.push(j as i32), (#[trigger] events[j]).code())
            &&& i < events.len() ==> (x.flips)(cs.push(i as i32), events[i].code())
        },
    decreases i - from,
{
    lemma_first_hit_range(x, cs, events, from);
    if from < events.len() {
        let here = (x.flips)(cs.push(from as i32), events[from].code());
        if from < i {
            lemma_category_drawn(x, cs, events, from + 1, i);
            if here {
                assert(!forall|j: int|
                    from <= j < i ==> !(x.flips)(cs.push(j as i32), (#[trigger] events[j]).code()));
            }
        } else if !here {
            lemma_first_hit_range(x, cs, events, from + 1);
        }
    }
}

proof fn lemma_first_hit_range(x: Model, cs: Seq<i32>, events: Seq<Event>, from: int)
    requires
        0 <= from <= events.len(),
    ensures
        from <= semantics::first_hit(x, cs, events, from) <= events.len(),
    decreases events.len() - from,
{
    if from < events.len() {
        lemma_first_hit_range(x, cs, events, from + 1);
    }
}

/// A categorical choice is the number of the category that is drawn.
pub proof fn lemma_categorical_drawn(x: Model, cs: Seq<i32>, vals: Seq<Datum>, got: Seq<Datum>, i: int)
    requires
        semantics::categories(x, vals) is Ok,
        semantics::categories(x, vals)->Ok_0.len() < i32::MAX,
        0 <= i <= semantics::categories(x, vals)->Ok_0.len(),
    ensures
        ({
            let events = semantics::categories(x, vals)->Ok_0;
            semantics::settled(Primitive::Categorical, vals, got, cs, x) == Outcome::Done(
                Datum::Native(Const::Int(i as i64)),
            ) <==> {
                &&& forall|j: int|
                    0 <= j < i ==> !(x.flips)(cs.push(j as i32), (#[trigger] events[j]).code())
                &&& i < events.len() ==> (x.flips)(cs.push(i as i32), events[i].code())
            }
        }),
{
    let events = semantics::categories(x, vals)->Ok_0;
    lemma_category_drawn(x, cs, events, 0, i);
    lemma_first_hit_range(x, cs, events, 0);
}

/// A choice from a Dirichlet vector is made by one event per category but the
/// last, each that this category is drawn if none before it is.
pub proof fn lemma_categories_of_vector(x: Model, name: u64, categories: usize)
    requires
        categories > 0,
    ensures
        semantics::categories(x, seq![Datum::DirichletVector { name, categories }]) matches Ok(es)
            && es.len() + 1 == categories && forall|i: int|
            0 <= i < es.len() ==> (#[trigger] es[i]) == (Event::Stick { name, index: i as usize }),
{
    let vals = seq![Datum::DirichletVector { name, categories }];
    assert(semantics::floats(vals) is None);
}

/// The probability of a category, if none before it is drawn, makes the whole
/// vector come out: with these probabilities of the events, category `i` is
/// drawn with the element `i` of the vector.
pub proof fn lemma_vector_by_elements<V>(k: Field<V>, ps: Seq<V>, qs: Seq<V>, i: int)
    requires
        k.laws(),
        0 <= i < ps.len(),
        qs.len() + 1 == ps.len(),
        rest(k, ps, 0) == k.one,
        forall|j: int|
            0 <= j < qs.len() ==> (k.times)(#[trigger] qs[j], rest(k, ps, j)) == ps[j],
    ensures
        first_chance(k, qs, i) == ps[i],
{
    lemma_shares_of_the_rest(k, ps, qs, i);
    exact::times_one(k, first_chance(k, qs, i));
}

/// The weight of an alternative: a number, or one part in `n`.
pub open spec fn is_weight<V>(k: Field<V>, w: Weight, v: V) -> bool {
    match w {
        Weight::Real(b) => v == (k.value)(b),
        Weight::OneIn(n) => (k.times)(v, k.count(n as nat)) == k.one,
    }
}

proof fn lemma_weight<V>(k: Field<V>, x: Model, w: Weight)
    requires
        k.exact(x.arith),
        w matches Weight::OneIn(n) ==> n <= i64::MAX && k.count(n as nat) != k.zero,
    ensures
        is_weight(k, w, (k.value)(semantics::weight(x, w))),
{
    exact::exact_laws(k, x.arith);
    if let Weight::OneIn(n) = w {
        let d = (x.arith)(RealOp::OfInt, n as u64, 0);
        assert(n as u64 == n as i64 as u64);
        exact::exact_integer(k, n as i64, 0, x.arith);
        exact::exact_quotient(k, 0x3ff0_0000_0000_0000u64, d, x.arith);
    }
}

/// The weights have these values.
pub open spec fn weigh<V>(k: Field<V>, ws: Seq<Weight>, vs: Seq<V>) -> bool {
    vs.len() == ws.len() && forall|i: int|
        0 <= i < ws.len() ==> is_weight(k, #[trigger] ws[i], vs[i]) && (ws[i] matches Weight::OneIn(n)
            ==> n <= i64::MAX && k.count(n as nat) != k.zero)
}

/// The numbers before `i`, added up.
spec fn before<V>(k: Field<V>, ps: Seq<V>, i: int) -> V
    decreases i,
{
    if i <= 0 {
        k.zero
    } else {
        (k.plus)(before(k, ps, i - 1), ps[i - 1])
    }
}

proof fn lemma_before<V>(k: Field<V>, ps: Seq<V>, i: int)
    requires
        k.laws(),
        0 <= i <= ps.len(),
    ensures
        (k.plus)(before(k, ps, i), rest(k, ps, i)) == rest(k, ps, 0),
    decreases i,
{
    if i == 0 {
        exact::plus_zero(k, rest(k, ps, 0));
    } else {
        lemma_before(k, ps, i - 1);
        exact::plus_assoc(k, before(k, ps, i - 1), ps[i - 1], rest(k, ps, i));
    }
}

proof fn lemma_weight_value<V>(k: Field<V>, x: Model, ws: Seq<Weight>, vs: Seq<V>, i: int)
    requires
        k.exact(x.arith),
        weigh(k, ws, vs),
        0 <= i < ws.len(),
    ensures
        (k.value)(semantics::weight(x, ws[i])) == vs[i],
{
    exact::exact_laws(k, x.arith);
    lemma_weight(k, x, ws[i]);
    assert(is_weight(k, ws[i], vs[i]));
    if let Weight::OneIn(n) = ws[i] {
        exact::times_cancel(
            k,
            (k.value)(semantics::weight(x, ws[i])),
            vs[i],
            k.count(n as nat),
        );
    }
}

proof fn lemma_total<V>(k: Field<V>, x: Model, ws: Seq<Weight>, vs: Seq<V>, i: int)
    requires
        k.exact(x.arith),
        weigh(k, ws, vs),
        0 <= i <= ws.len(),
    ensures
        (k.value)(semantics::total(x, ws.take(i))) == before(k, vs, i),
    decreases i,
{
    exact::exact_laws(k, x.arith);
    if i > 0 {
        lemma_total(k, x, ws, vs, i - 1);
        assert(ws.take(i).drop_last() =~= ws.take(i - 1));
        assert(ws.take(i).last() == ws[i - 1]);
        lemma_weight_value(k, x, ws, vs, i - 1);
        exact::exact_sum(
            k,
            semantics::total(x, ws.take(i - 1)),
            semantics::weight(x, ws[i - 1]),
            x.arith,
        );
    }
}

/// The share of the first of some weights, times all of them, is the first.
pub proof fn lemma_share_of_weights<V>(k: Field<V>, x: Model, ws: Seq<Weight>, vs: Seq<V>)
    requires
        k.exact(x.arith),
        weigh(k, ws, vs),
        ws.len() > 0,
        rest(k, vs, 0) != k.zero,
    ensures
        semantics::constant(x, Const::Share(ws)) matches Outcome::Done(
            Datum::Native(Const::Float(b)),
        ) && (k.times)((k.value)(b), rest(k, vs, 0)) == vs[0],
{
    exact::exact_laws(k, x.arith);
    let n = ws.len() as int;
    assert(ws.take(n) =~= ws);
    lemma_total(k, x, ws, vs, n);
    lemma_before(k, vs, n);
    exact::plus_zero(k, before(k, vs, n));
    lemma_weight_value(k, x, ws, vs, 0);
    exact::exact_quotient(k, semantics::weight(x, ws[0]), semantics::total(x, ws), x.arith);
}

/// The sum of probabilities, as it is computed.
proof fn lemma_sum_of<V>(k: Field<V>, x: Model, fs: Seq<u64>, i: int)
    requires
        k.exact(x.arith),
        0 <= i <= fs.len(),
    ensures
        (k.value)(semantics::sum_of(x, fs.take(i))) == before(k, values(k, fs), i),
    decreases i,
{
    exact::exact_laws(k, x.arith);
    if i > 0 {
        lemma_sum_of(k, x, fs, i - 1);
        assert(fs.take(i).drop_last() =~= fs.take(i - 1));
        exact::exact_sum(k, semantics::sum_of(x, fs.take(i - 1)), fs[i - 1], x.arith);
    }
}

/// Probabilities that add up to one are accepted, given that numbers with the
/// value zero are not greater than 10⁻⁹ in magnitude; those whose sum is
/// further from one are not.
pub proof fn lemma_categories_accepted<V>(k: Field<V>, x: Model, vals: Seq<Datum>, fs: Seq<u64>)
    requires
        k.exact(x.arith),
        fs.len() > 0,
        vals == Seq::new(fs.len(), |j: int| Datum::Native(Const::Float(fs[j]))),
        forall|b: u64| (#[trigger] (k.value)(b) == k.zero) ==> !reals::nan(b) && !far(b),
        forall|b: u64| far(b) ==> (#[trigger] (k.value)(b)) != k.zero,
    ensures
        rest(k, values(k, fs), 0) == k.one ==> semantics::categories(x, vals) is Ok,
        semantics::categories(x, vals) is Err ==> semantics::categories(x, vals)
            == Err::<Seq<Event>, Outcome>(Outcome::Fail) && rest(k, values(k, fs), 0) != k.one,
{
    exact::exact_laws(k, x.arith);
    lemma_floats(vals, fs);
    let n = fs.len() as int;
    let ps = values(k, fs);
    assert(fs.take(n) =~= fs);
    lemma_sum_of(k, x, fs, n);
    lemma_before(k, ps, n);
    exact::plus_zero(k, before(k, ps, n));
    let s = semantics::sum_of(x, fs);
    exact::exact_difference(k, s, 0x3ff0_0000_0000_0000u64, x.arith);
    if rest(k, ps, 0) == k.one {
        exact::plus_zero(k, k.one);
        exact::minus_plus(k, k.zero, k.one);
        let off = (x.arith)(RealOp::Difference, s, 0x3ff0_0000_0000_0000u64);
        assert((k.value)(off) == k.zero);
    }
}

/// The number is greater than 10⁻⁹ in magnitude.
pub open spec fn far(b: u64) -> bool {
    !reals::nan(b) && reals::magnitude_of(b) > 0x3e11_2e0b_e826_d695u64
}

/// One step of a walk: the flip with this event at this place under the
/// callstack, and which way it goes.
pub struct Step {
    pub place: int,
    pub event: Event,
    pub low: bool,
}

/// The steps of the walk by halves through a range that ends at `n`.
pub open spec fn walk(x: Model, lo: int, hi: int, depth: int, n: int) -> Seq<Step>
    decreases hi - lo,
{
    if hi <= lo {
        Seq::empty()
    } else {
        let mid = lo + (hi - lo) / 2;
        let event = Event::Constant(semantics::half_weight(x, lo, mid, hi));
        if n <= mid {
            seq![Step { place: depth, event, low: true }] + walk(x, lo, mid, depth + 1, n)
        } else {
            seq![Step { place: depth, event, low: false }] + walk(x, mid + 1, hi, depth + 1, n)
        }
    }
}

/// The flips go as the steps say.
pub open spec fn goes(x: Model, cs: Seq<i32>, s: Seq<Step>) -> bool {
    forall|i: int|
        0 <= i < s.len() ==> (x.flips)(
            cs.push((#[trigger] s[i]).place as i32),
            s[i].event.code(),
        ) == s[i].low
}

/// The probability that independent flips go as the steps say.
pub open spec fn along<V>(k: Field<V>, s: Seq<Step>) -> V
    decreases s.len(),
{
    if s.len() == 0 {
        k.one
    } else {
        (k.times)(
            if s[0].low {
                chance(k, s[0].event)
            } else {
                (k.minus)(k.one, chance(k, s[0].event))
            },
            along(k, s.skip(1)),
        )
    }
}

/// The walk ends at a number of the range exactly if the flips go as its
/// steps say, and no two of these stand at one place.
pub proof fn lemma_walk_ends(x: Model, cs: Seq<i32>, lo: int, hi: int, depth: int, n: int)
    requires
        lo <= n <= hi,
    ensures
        (semantics::landed(x, cs, lo, hi, depth) == n) <==> goes(x, cs, walk(x, lo, hi, depth, n)),
        forall|i: int|
            0 <= i < walk(x, lo, hi, depth, n).len() ==> (#[trigger] walk(x, lo, hi, depth, n)[i]).place
                == depth + i,
    decreases hi - lo,
{
    if lo < hi {
        let mid = lo + (hi - lo) / 2;
        let s = walk(x, lo, hi, depth, n);
        let e = Event::Constant(semantics::half_weight(x, lo, mid, hi));
        let (l, h) = if n <= mid {
            (lo, mid)
        } else {
            (mid + 1, hi)
        };
        let t = walk(x, l, h, depth + 1, n);
        assert(s == seq![Step { place: depth, event: e, low: n <= mid }] + t);
        lemma_walk_ends(x, cs, l, h, depth + 1, n);
        lemma_landed_in_range(x, cs, lo, mid, depth + 1);
        lemma_landed_in_range(x, cs, mid + 1, hi, depth + 1);
        assert forall|i: int| 0 <= i < s.len() implies (#[trigger] s[i]).place == depth + i by {
            if i > 0 {
                assert(t[i - 1].place == depth + 1 + (i - 1));
            }
        }
        if goes(x, cs, s) {
            assert forall|i: int| 0 <= i < t.len() implies (x.flips)(
                cs.push((#[trigger] t[i]).place as i32),
                t[i].event.code(),
            ) == t[i].low by {
                assert(s[i + 1] == t[i]);
            }
            assert(s[0].low == (n <= mid));
        }
        if goes(x, cs, t) && (x.flips)(cs.push(depth as i32), e.code()) == (n <= mid) {
            assert forall|i: int| 0 <= i < s.len() implies (x.flips)(
                cs.push((#[trigger] s[i]).place as i32),
                s[i].event.code(),
            ) == s[i].low by {
                if i > 0 {
                    assert(s[i] == t[i - 1]);
                }
            }
        }
    }
}

proof fn lemma_landed_in_range(x: Model, cs: Seq<i32>, lo: int, hi: int, depth: int)
    requires
        lo <= hi,
    ensures
        lo <= semantics::landed(x, cs, lo, hi, depth) <= hi,
    decreases hi - lo,
{
    if lo < hi {
        let mid = lo + (hi - lo) / 2;
        lemma_landed_in_range(x, cs, lo, mid, depth + 1);
        lemma_landed_in_range(x, cs, mid + 1, hi, depth + 1);
    }
}

/// Every number of a range is equally probable: the probability of the steps
/// that end at it, times the size of the range, is one.
pub proof fn lemma_uniform_range<V>(k: Field<V>, x: Model, lo: int, hi: int, depth: int, n: int)
    requires
        k.exact(x.arith),
        lo <= n <= hi,
        hi - lo < i64::MAX,
        forall|m: nat| 0 < m <= hi - lo + 1 ==> #[trigger] k.count(m) != k.zero,
    ensures
        (k.times)(along(k, walk(x, lo, hi, depth, n)), k.count((hi - lo + 1) as nat)) == k.one,
    decreases hi - lo,
{
    exact::exact_laws(k, x.arith);
    let size = (hi - lo + 1) as nat;
    if lo == hi {
        assert(k.count(1) == (k.plus)(k.count(0), k.one));
        exact::plus_zero(k, k.one);
        exact::times_one(k, k.one);
    } else {
        let mid = lo + (hi - lo) / 2;
        let s = walk(x, lo, hi, depth, n);
        let low = (mid - lo + 1) as nat;
        let high = (hi - mid) as nat;
        let (a, b, c) = (k.count(low), k.count(high), k.count(size));
        let lb = (x.arith)(RealOp::OfInt, (mid - lo + 1) as i64 as u64, 0);
        let ub = (x.arith)(RealOp::OfInt, (hi - mid) as i64 as u64, 0);
        let p = semantics::half_weight(x, lo, mid, hi);
        let v = (k.value)(p);
        exact::exact_integer(k, (mid - lo + 1) as i64, 0, x.arith);
        exact::exact_integer(k, (hi - mid) as i64, 0, x.arith);
        exact::exact_sum(k, lb, ub, x.arith);
        exact::count_plus(k, low, high);
        assert(low + high == size);
        assert(c != k.zero);
        exact::exact_quotient(k, lb, (x.arith)(RealOp::Sum, lb, ub), x.arith);
        assert((k.times)(v, c) == a);
        if n <= mid {
            let t = walk(x, lo, mid, depth + 1, n);
            lemma_uniform_range(k, x, lo, mid, depth + 1, n);
            assert(s.skip(1) =~= t);
            exact::times_swap(k, v, along(k, t), c);
            exact::times_comm(k, a, along(k, t));
        } else {
            let t = walk(x, mid + 1, hi, depth + 1, n);
            let w = (k.minus)(k.one, v);
            lemma_uniform_range(k, x, mid + 1, hi, depth + 1, n);
            assert(s.skip(1) =~= t);
            exact::times_minus(k, k.one, v, c);
            exact::times_one(k, c);
            exact::plus_comm(k, a, b);
            exact::plus_cancel(k, (k.times)(w, c), b, a);
            exact::times_swap(k, w, along(k, t), c);
            exact::times_comm(k, b, along(k, t));
            assert((hi - (mid + 1) + 1) as nat == high);
        }
    }
}

/// The number that bits stand for is the number modulo two to their number.
pub proof fn lemma_bits_of_number(v: u64, width: nat)
    requires
        width <= 64,
    ensures
        semantics::bits_of_number(v, width).len() == width,
        int_dists::value(semantics::bits_of_number(v, width)) == v as nat % power2::pow2(
            width,
        ),
    decreases width,
{
    let s = semantics::bits_of_number(v, width);
    power2::lemma2_to64();
    if width > 0 {
        let w = (width - 1) as nat;
        lemma_bits_of_number(v, w);
        assert(s.drop_last() =~= semantics::bits_of_number(v, w));
        let p = power2::pow2(w);
        power2::lemma_pow2_pos(w);
        power2::lemma_pow2_unfold(width);
        vstd::bits::lemma_u64_shr_is_div(v, w as u64);
        let q = v >> (w as u64);
        assert(q == v as nat / p);
        assert(q & 1 == q % 2) by (bit_vector);
        let x = v as int;
        let r = p as int;
        div_mod::lemma_mod_breakdown(x, r, 2);
        assert(x % (r * 2) == r * ((x / r) % 2) + x % r);
        let bit = (x / r) % 2;
        assert(r * bit == (if bit == 1 {
            r
        } else {
            0
        })) by (nonlinear_arith)
            requires
                bit == 0 || bit == 1,
        ;
        assert(s.last() == (q & 1 == 1));
        assert(r * 2 == power2::pow2(width));
    } else {
        assert(power2::pow2(0) == 1);
    }
}

} // verus!
