//! What operations on integers of bounded width are for.

use vstd::arithmetic::{div_mod, power2};
use vstd::prelude::*;

use super::chance_laws;
use super::chance_laws::Step;
use super::semantics;
use super::semantics::{Event, Model};
use super::test_laws;
use crate::inference::int_dists;
use crate::language::pexpr::Const;
use crate::language::primitives::Primitive;
use crate::language::values::{Datum, Outcome};
use crate::utils::exact;
use crate::utils::exact::Field;

verus! {

/// The integer of the given width that stands for a number, whose excess over
/// the width is cut off.
pub open spec fn is_number(o: Outcome, width: nat, n: int) -> bool {
    o matches Outcome::Done(Datum::Int(bits)) && bits.len() == width && int_dists::value(bits) as int
        == n % power2::pow2(width) as int
}

/// Integers of one width are added and subtracted modulo the width, compared
/// as the numbers that they stand for, and equal exactly if these are.
pub proof fn lemma_integers_computed(x: Model, cs: Seq<i32>, a: Seq<bool>, b: Seq<bool>, got: Seq<Datum>)
    requires
        a.len() == b.len(),
    ensures
        ({
            let v = seq![Datum::Int(a), Datum::Int(b)];
            let (m, n) = (int_dists::value(a) as int, int_dists::value(b) as int);
            &&& is_number(semantics::settled(Primitive::IntAdd, v, got, cs, x), a.len(), m + n)
            &&& is_number(semantics::settled(Primitive::IntSub, v, got, cs, x), a.len(), m - n)
            &&& test_laws::says(semantics::settled(Primitive::IntLt, v, got, cs, x), x, m < n)
            &&& test_laws::says(semantics::settled(Primitive::IntDistEq, v, got, cs, x), x, m == n)
        }),
{
    int_dists::lemma_sum_wraps(a, b);
    int_dists::lemma_difference_wraps(a, b);
    let p = power2::pow2(a.len()) as int;
    let d = int_dists::value(a) - int_dists::value(b);
    power2::lemma_pow2_pos(a.len());
    div_mod::lemma_mod_add_multiples_vanish(d, p);
    assert(int_dists::value(a) + p - int_dists::value(b) == p + d);
    if int_dists::value(a) == int_dists::value(b) {
        int_dists::lemma_value_injective(a, b);
    }
}

/// An integer that is made from a width and a number stands for the number.
pub proof fn lemma_integer_made(x: Model, cs: Seq<i32>, w: i64, v: i64, got: Seq<Datum>)
    requires
        0 <= w <= 64,
    ensures
        is_number(
            semantics::settled(
                Primitive::MkInt,
                seq![Datum::Native(Const::Int(w)), Datum::Native(Const::Int(v))],
                got,
                cs,
                x,
            ),
            w as nat,
            v as u64 as int,
        ),
        v >= 0 ==> v as u64 as int == v,
{
    chance_laws::lemma_bits_of_number(v as u64, w as nat);
}

/// A uniform draw from a range is the number at which the walk by halves
/// ends; each number of the range comes with one part in its size.
pub proof fn lemma_range_drawn<V>(
    k: Field<V>,
    x: Model,
    cs: Seq<i32>,
    w: i64,
    lo: i64,
    hi: i64,
    n: i64,
    got: Seq<Datum>,
)
    requires
        k.exact(x.arith),
        0 <= w <= 64,
        lo <= n <= hi,
        hi - lo < i64::MAX,
        forall|m: nat| 0 < m <= hi - lo + 1 ==> #[trigger] k.count(m) != k.zero,
        chance_laws::goes(x, cs, chance_laws::walk(x, lo as int, hi as int, 0, n as int)),
    ensures
        is_number(
            semantics::settled(
                Primitive::UniformIntRange,
                seq![
                    Datum::Native(Const::Int(w)),
                    Datum::Native(Const::Int(lo)),
                    Datum::Native(Const::Int(hi)),
                ],
                got,
                cs,
                x,
            ),
            w as nat,
            n as u64 as int,
        ),
        (k.times)(
            chance_laws::along(k, chance_laws::walk(x, lo as int, hi as int, 0, n as int)),
            k.count((hi - lo + 1) as nat),
        ) == k.one,
{
    chance_laws::lemma_walk_ends(x, cs, lo as int, hi as int, 0, n as int);
    chance_laws::lemma_uniform_range(k, x, lo as int, hi as int, 0, n as int);
    chance_laws::lemma_bits_of_number(n as u64, w as nat);
}

/// One flip with an even chance for each bit.
pub open spec fn even_flips(bits: Seq<bool>) -> Seq<Step> {
    Seq::new(
        bits.len(),
        |i: int|
            Step { place: i, event: Event::Constant(0x3fe0_0000_0000_0000u64), low: bits[i] },
    )
}

proof fn lemma_even<V>(k: Field<V>, s: Seq<Step>)
    requires
        k.laws(),
        (k.plus)(
            (k.value)(0x3fe0_0000_0000_0000u64),
            (k.value)(0x3fe0_0000_0000_0000u64),
        ) == k.one,
        forall|i: int|
            0 <= i < s.len() ==> (#[trigger] s[i]).event == Event::Constant(
                0x3fe0_0000_0000_0000u64,
            ),
    ensures
        (k.times)(chance_laws::along(k, s), k.count(power2::pow2(s.len()))) == k.one,
    decreases s.len(),
{
    if s.len() == 0 {
        power2::lemma2_to64();
        assert(k.count(1) == (k.plus)(k.count(0), k.one));
        exact::plus_zero(k, k.one);
        exact::times_one(k, k.one);
    } else {
        let t = s.skip(1);
        let h = (k.value)(0x3fe0_0000_0000_0000u64);
        assert forall|i: int| 0 <= i < t.len() implies (#[trigger] t[i]).event == Event::Constant(
            0x3fe0_0000_0000_0000u64,
        ) by {
            assert(t[i] == s[i + 1]);
        }
        lemma_even(k, t);
        let (a, n) = (chance_laws::along(k, t), power2::pow2(t.len()));
        power2::lemma_pow2_unfold(s.len());
        exact::count_plus(k, n, n);
        assert(power2::pow2(s.len()) == n + n);
        exact::minus_plus(k, h, h);
        assert(s[0].event == Event::Constant(0x3fe0_0000_0000_0000u64));
        let c = k.count(n);
        // (h a)(c + c) == (h + h)(a c) == 1.
        exact::times_plus(k, c, c, (k.times)(h, a));
        exact::times_assoc(k, h, a, c);
        exact::times_one(k, h);
    }
}

/// A uniform draw of a width has the bits that flips with an even chance say,
/// one at a place of its own for each; so each number comes with one part in
/// two to the width.
pub proof fn lemma_uniform_drawn<V>(
    k: Field<V>,
    x: Model,
    cs: Seq<i32>,
    w: i64,
    bits: Seq<bool>,
    got: Seq<Datum>,
)
    requires
        k.exact(x.arith),
        0 <= w <= i32::MAX,
        bits.len() == w,
    ensures
        semantics::settled(
            Primitive::UniformInt,
            seq![Datum::Native(Const::Int(w))],
            got,
            cs,
            x,
        ) == Outcome::Done(Datum::Int(bits)) <==> chance_laws::goes(x, cs, even_flips(bits)),
        (k.times)(
            chance_laws::along(k, even_flips(bits)),
            k.count(power2::pow2(w as nat)),
        ) == k.one,
{
    let s = even_flips(bits);
    exact::exact_laws(k, x.arith);
    lemma_even(k, s);
    let o = semantics::settled(
        Primitive::UniformInt,
        seq![Datum::Native(Const::Int(w))],
        got,
        cs,
        x,
    );
    let made = o->Done_0->Int_0;
    assert(made.len() == w);
    if chance_laws::goes(x, cs, s) {
        assert forall|i: int| 0 <= i < w implies made[i] == bits[i] by {
            assert(s[i].low == bits[i]);
        }
        assert(made =~= bits);
    }
    if made == bits {
        assert forall|i: int| 0 <= i < s.len() implies (x.flips)(
            cs.push((#[trigger] s[i]).place as i32),
            s[i].event.code(),
        ) == s[i].low by {
            assert(made[i] == bits[i]);
        }
    }
}

} // verus!
