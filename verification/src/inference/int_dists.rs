//! Fixed-width integers whose bits are boolean functions, least significant
//! bit first.

use vstd::arithmetic::power2;
use vstd::prelude::*;

use crate::discrete_factorizations::{BooleanFunction, Factorizer, Worlds};
use crate::language::values;

verus! {

/// The number that bits stand for.
pub open spec fn value(bits: Seq<bool>) -> nat
    decreases bits.len(),
{
    if bits.len() == 0 {
        0
    } else {
        value(bits.drop_last()) + if bits.last() {
            power2::pow2((bits.len() - 1) as nat)
        } else {
            0
        }
    }
}

/// The carry into the place `i` of a sum.
pub open spec fn carry(a: Seq<bool>, b: Seq<bool>, first: bool, i: int) -> bool
    decreases i,
{
    if i <= 0 {
        first
    } else {
        let c = carry(a, b, first, i - 1);
        (a[i - 1] && b[i - 1]) || (c && (a[i - 1] != b[i - 1]))
    }
}

/// The sum of two numbers of one width, and of the first carry, without the
/// last carry.
pub open spec fn sum(a: Seq<bool>, b: Seq<bool>, first: bool) -> Seq<bool> {
    Seq::new(a.len(), |i: int| (a[i] != b[i]) != carry(a, b, first, i))
}

pub open spec fn complement(b: Seq<bool>) -> Seq<bool> {
    Seq::new(b.len(), |i: int| !b[i])
}

/// The difference of two numbers of one width, modulo the width.
pub open spec fn difference(a: Seq<bool>, b: Seq<bool>) -> Seq<bool> {
    sum(a, complement(b), true)
}

/// A number fits its width.
pub proof fn lemma_value_bound(bits: Seq<bool>)
    ensures
        value(bits) < power2::pow2(bits.len()),
    decreases bits.len(),
{
    if bits.len() == 0 {
        power2::lemma2_to64();
    } else {
        lemma_value_bound(bits.drop_last());
        power2::lemma_pow2_unfold(bits.len());
    }
}

/// Numbers of one width are equal exactly if their bits are.
pub proof fn lemma_value_injective(a: Seq<bool>, b: Seq<bool>)
    requires
        a.len() == b.len(),
        value(a) == value(b),
    ensures
        a == b,
    decreases a.len(),
{
    if a.len() > 0 {
        lemma_value_bound(a.drop_last());
        lemma_value_bound(b.drop_last());
        lemma_value_injective(a.drop_last(), b.drop_last());
        assert(a =~= a.drop_last().push(a.last()));
        assert(b =~= b.drop_last().push(b.last()));
    }
    assert(a =~= b);
}

proof fn lemma_carry_prefix(a: Seq<bool>, b: Seq<bool>, first: bool, n: int, i: int)
    requires
        0 <= i <= n <= a.len(),
        a.len() == b.len(),
    ensures
        carry(a.take(n), b.take(n), first, i) == carry(a, b, first, i),
    decreases i,
{
    if i > 0 {
        lemma_carry_prefix(a, b, first, n, i - 1);
    }
}

/// The sum is the sum of the numbers, up to the last carry.
pub proof fn lemma_sum(a: Seq<bool>, b: Seq<bool>, first: bool)
    requires
        a.len() == b.len(),
    ensures
        value(sum(a, b, first)) + (if carry(a, b, first, a.len() as int) {
            power2::pow2(a.len())
        } else {
            0
        }) == value(a) + value(b) + (if first {
            1nat
        } else {
            0
        }),
    decreases a.len(),
{
    if a.len() == 0 {
        power2::lemma2_to64();
    } else {
        let n = a.len() - 1;
        let p = a.drop_last();
        let q = b.drop_last();
        lemma_sum(p, q, first);
        let s = sum(a, b, first);
        assert(p =~= a.take(n as int) && q =~= b.take(n as int));
        assert forall|i: int| 0 <= i < n implies s.drop_last()[i] == sum(p, q, first)[i] by {
            lemma_carry_prefix(a, b, first, n as int, i);
        }
        assert(s.drop_last() =~= sum(p, q, first));
        lemma_carry_prefix(a, b, first, n as int, n as int);
        power2::lemma_pow2_unfold(a.len());
    }
}

/// The sum is taken modulo the width.
pub proof fn lemma_sum_wraps(a: Seq<bool>, b: Seq<bool>)
    requires
        a.len() == b.len(),
    ensures
        value(sum(a, b, false)) == (value(a) + value(b)) % power2::pow2(a.len()),
{
    lemma_sum(a, b, false);
    lemma_value_bound(sum(a, b, false));
    lemma_value_bound(a);
    lemma_value_bound(b);
    let m = power2::pow2(a.len()) as int;
    let s = value(sum(a, b, false)) as int;
    let t = (value(a) + value(b)) as int;
    if carry(a, b, false, a.len() as int) {
        assert(t == s + m);
        assert(t % m == s) by (nonlinear_arith)
            requires
                t == s + m,
                0 <= s < m,
        ;
    } else {
        assert(t % m == s) by (nonlinear_arith)
            requires
                t == s,
                0 <= s < m,
        ;
    }
}

proof fn lemma_complement(b: Seq<bool>)
    ensures
        value(complement(b)) + value(b) + 1 == power2::pow2(b.len()),
    decreases b.len(),
{
    if b.len() == 0 {
        power2::lemma2_to64();
    } else {
        lemma_complement(b.drop_last());
        assert(complement(b).drop_last() =~= complement(b.drop_last()));
        power2::lemma_pow2_unfold(b.len());
    }
}

/// The difference is taken modulo the width.
pub proof fn lemma_difference_wraps(a: Seq<bool>, b: Seq<bool>)
    requires
        a.len() == b.len(),
    ensures
        value(difference(a, b)) == (value(a) + power2::pow2(a.len()) - value(b)) % (power2::pow2(
            a.len(),
        ) as int),
{
    let c = complement(b);
    lemma_complement(b);
    lemma_sum(a, c, true);
    lemma_value_bound(difference(a, b));
    let m = power2::pow2(a.len()) as int;
    let s = value(difference(a, b)) as int;
    let t = value(a) + m - value(b);
    if carry(a, c, true, a.len() as int) {
        assert(t == s + m);
        assert(t % m == s) by (nonlinear_arith)
            requires
                t == s + m,
                0 <= s < m,
        ;
    } else {
        assert(t % m == s) by (nonlinear_arith)
            requires
                t == s,
                0 <= s < m,
        ;
    }
}

/// A fixed-width integer.
#[derive(Debug)]
pub struct IntDist {
    pub bits: Vec<BooleanFunction>,
}

impl IntDist {
    pub fn new(bits: Vec<BooleanFunction>) -> (r: Self)
        ensures
            r.bits == bits,
    {
        IntDist { bits }
    }

    /// The bits under an assignment.
    pub open spec fn at(self, a: Worlds) -> Seq<bool> {
        values::bits_at(self.bits@, a)
    }

    pub open spec fn over(self, fac: Factorizer) -> bool {
        values::bits_over(self.bits@, fac.vars())
    }
}

/// Where the functions differ.
fn differ(f: &BooleanFunction, g: &BooleanFunction, fac: &Factorizer) -> (r: BooleanFunction)
    requires
        fac.wf(),
        fac.owns(*f),
        fac.owns(*g),
    ensures
        fac.owns(r),
        forall|a: Worlds| #[trigger] r.eval(a) == (f.eval(a) != g.eval(a)),
{
    let not_f: BooleanFunction = fac.negate(f);
    let not_g: BooleanFunction = fac.negate(g);
    let one: BooleanFunction = fac.and(f, &not_g);
    let two: BooleanFunction = fac.and(&not_f, g);
    fac.or(&one, &two)
}

/// Where the functions agree.
pub fn iff(f: &BooleanFunction, g: &BooleanFunction, fac: &Factorizer) -> (r: BooleanFunction)
    requires
        fac.wf(),
        fac.owns(*f),
        fac.owns(*g),
    ensures
        fac.owns(r),
        forall|a: Worlds| #[trigger] r.eval(a) == (f.eval(a) == g.eval(a)),
{
    let d: BooleanFunction = differ(f, g, fac);
    fac.negate(&d)
}

/// Where the two numbers are equal.
pub fn int_dist_eq(x: &IntDist, y: &IntDist, fac: &Factorizer) -> (r: BooleanFunction)
    requires
        fac.wf(),
        x.over(*fac),
        y.over(*fac),
        x.bits@.len() == y.bits@.len(),
    ensures
        fac.owns(r),
        forall|a: Worlds| #[trigger] r.eval(a) == (x.at(a) == y.at(a)),
{
    let mut r: BooleanFunction = BooleanFunction::true_ptr();
    let mut i: usize = 0;
    while i < x.bits.len()
        invariant
            i <= x.bits@.len(),
            fac.wf(),
            x.over(*fac),
            y.over(*fac),
            x.bits@.len() == y.bits@.len(),
            fac.owns(r),
            forall|a: Worlds| #[trigger]
                r.eval(a) == (forall|j: int| 0 <= j < i ==> x.at(a)[j] == y.at(a)[j]),
        decreases x.bits@.len() - i,
    {
        let same: BooleanFunction = iff(&x.bits[i], &y.bits[i], fac);
        let ghost before = r;
        r = fac.and(&r, &same);
        proof {
            assert forall|a: Worlds| #[trigger]
                r.eval(a) == (forall|j: int| 0 <= j < i + 1 ==> x.at(a)[j] == y.at(a)[j]) by {
                assert(r.eval(a) == (before.eval(a) && same.eval(a)));
                assert(same.eval(a) == (x.at(a)[i as int] == y.at(a)[i as int]));
            }
        }
        i = i + 1;
    }
    proof {
        assert forall|a: Worlds| #[trigger] r.eval(a) == (x.at(a) == y.at(a)) by {
            if r.eval(a) {
                assert(x.at(a) =~= y.at(a));
            }
        }
    }
    r
}

/// The sum, bit by bit.
fn ripple(x: &IntDist, y: &IntDist, first: bool, fac: &Factorizer) -> (r: IntDist)
    requires
        fac.wf(),
        x.over(*fac),
        y.over(*fac),
        x.bits@.len() == y.bits@.len(),
    ensures
        r.over(*fac),
        forall|a: Worlds| #[trigger] r.at(a) == sum(x.at(a), y.at(a), first),
{
    let mut bits: Vec<BooleanFunction> = Vec::new();
    let mut c: BooleanFunction = if first {
        BooleanFunction::true_ptr()
    } else {
        BooleanFunction::false_ptr()
    };
    let mut i: usize = 0;
    while i < x.bits.len()
        invariant
            i <= x.bits@.len(),
            fac.wf(),
            x.over(*fac),
            y.over(*fac),
            x.bits@.len() == y.bits@.len(),
            fac.owns(c),
            bits@.len() == i,
            values::bits_over(bits@, fac.vars()),
            forall|a: Worlds| #[trigger] c.eval(a) == carry(x.at(a), y.at(a), first, i as int),
            forall|a: Worlds, j: int|
                0 <= j < i ==> #[trigger] bits@[j].eval(a) == sum(x.at(a), y.at(a), first)[j],
        decreases x.bits@.len() - i,
    {
        let half: BooleanFunction = differ(&x.bits[i], &y.bits[i], fac);
        let bit: BooleanFunction = differ(&half, &c, fac);
        let both: BooleanFunction = fac.and(&x.bits[i], &y.bits[i]);
        let through: BooleanFunction = fac.and(&c, &half);
        let ghost old_c = c;
        let ghost old_bits = bits@;
        c = fac.or(&both, &through);
        bits.push(bit);
        proof {
            assert forall|a: Worlds| #[trigger] c.eval(a) == carry(x.at(a), y.at(a), first, i + 1) by {
                assert(old_c.eval(a) == carry(x.at(a), y.at(a), first, i as int));
                assert(both.eval(a) == (x.at(a)[i as int] && y.at(a)[i as int]));
                assert(half.eval(a) == (x.at(a)[i as int] != y.at(a)[i as int]));
                assert(through.eval(a) == (old_c.eval(a) && half.eval(a)));
            }
            assert forall|a: Worlds, j: int| 0 <= j < i + 1 implies #[trigger] bits@[j].eval(a) == sum(
                x.at(a),
                y.at(a),
                first,
            )[j] by {
                if j < i {
                    assert(bits@[j] == old_bits[j]);
                } else {
                    assert(half.eval(a) == (x.at(a)[i as int] != y.at(a)[i as int]));
                    assert(bit.eval(a) == (half.eval(a) != old_c.eval(a)));
                    assert(old_c.eval(a) == carry(x.at(a), y.at(a), first, i as int));
                }
            }
        }
        i = i + 1;
    }
    let r = IntDist { bits };
    proof {
        assert forall|a: Worlds| #[trigger] r.at(a) == sum(x.at(a), y.at(a), first) by {
            assert(r.at(a) =~= sum(x.at(a), y.at(a), first));
        }
    }
    r
}

/// The sum, modulo the width.
pub fn int_dist_add(x: &IntDist, y: &IntDist, fac: &Factorizer) -> (r: IntDist)
    requires
        fac.wf(),
        x.over(*fac),
        y.over(*fac),
        x.bits@.len() == y.bits@.len(),
    ensures
        r.over(*fac),
        forall|a: Worlds| #[trigger] r.at(a) == sum(x.at(a), y.at(a), false),
{
    ripple(x, y, false, fac)
}

/// The difference, modulo the width.
pub fn int_dist_sub(x: &IntDist, y: &IntDist, fac: &Factorizer) -> (r: IntDist)
    requires
        fac.wf(),
        x.over(*fac),
        y.over(*fac),
        x.bits@.len() == y.bits@.len(),
    ensures
        r.over(*fac),
        forall|a: Worlds| #[trigger] r.at(a) == difference(x.at(a), y.at(a)),
{
    let mut flipped: Vec<BooleanFunction> = Vec::new();
    let mut i: usize = 0;
    while i < y.bits.len()
        invariant
            i <= y.bits@.len(),
            y.over(*fac),
            flipped@.len() == i,
            values::bits_over(flipped@, fac.vars()),
            forall|a: Worlds, j: int|
                0 <= j < i ==> #[trigger] flipped@[j].eval(a) == !y.bits@[j].eval(a),
        decreases y.bits@.len() - i,
    {
        let ghost before = flipped@;
        let bit: BooleanFunction = fac.negate(&y.bits[i]);
        flipped.push(bit);
        proof {
            assert forall|a: Worlds, j: int| 0 <= j < i + 1 implies #[trigger] flipped@[j].eval(a)
                == !y.bits@[j].eval(a) by {
                if j < i {
                    assert(flipped@[j] == before[j]);
                } else {
                    assert(bit.eval(a) == !y.bits@[i as int].eval(a));
                }
            }
        }
        i = i + 1;
    }
    let z = IntDist { bits: flipped };
    let r: IntDist = ripple(x, &z, true, fac);
    proof {
        assert forall|a: Worlds| #[trigger] r.at(a) == difference(x.at(a), y.at(a)) by {
            assert(z.at(a) =~= complement(y.at(a)));
        }
    }
    r
}

/// Where the first number is less than the second.
pub fn int_dist_lt(x: &IntDist, y: &IntDist, fac: &Factorizer) -> (r: BooleanFunction)
    requires
        fac.wf(),
        x.over(*fac),
        y.over(*fac),
        x.bits@.len() == y.bits@.len(),
    ensures
        fac.owns(r),
        forall|a: Worlds| #[trigger] r.eval(a) == (value(x.at(a)) < value(y.at(a))),
{
    let mut r: BooleanFunction = BooleanFunction::false_ptr();
    let mut i: usize = 0;
    while i < x.bits.len()
        invariant
            i <= x.bits@.len(),
            fac.wf(),
            x.over(*fac),
            y.over(*fac),
            x.bits@.len() == y.bits@.len(),
            fac.owns(r),
            forall|a: Worlds| #[trigger]
                r.eval(a) == (value(x.at(a).take(i as int)) < value(y.at(a).take(i as int))),
        decreases x.bits@.len() - i,
    {
        let not_x: BooleanFunction = fac.negate(&x.bits[i]);
        let here: BooleanFunction = fac.and(&not_x, &y.bits[i]);
        let same: BooleanFunction = iff(&x.bits[i], &y.bits[i], fac);
        let lower: BooleanFunction = fac.and(&same, &r);
        let ghost before = r;
        r = fac.or(&here, &lower);
        proof {
            assert forall|a: Worlds| #[trigger]
                r.eval(a) == (value(x.at(a).take(i + 1)) < value(y.at(a).take(i + 1))) by {
                let p = x.at(a).take(i + 1);
                let q = y.at(a).take(i + 1);
                assert(p.drop_last() =~= x.at(a).take(i as int));
                assert(q.drop_last() =~= y.at(a).take(i as int));
                lemma_value_bound(p.drop_last());
                lemma_value_bound(q.drop_last());
                assert(before.eval(a) == (value(p.drop_last()) < value(q.drop_last())));
                assert(not_x.eval(a) == !x.at(a)[i as int]);
                assert(here.eval(a) == (not_x.eval(a) && y.at(a)[i as int]));
                assert(same.eval(a) == (x.at(a)[i as int] == y.at(a)[i as int]));
                assert(lower.eval(a) == (same.eval(a) && before.eval(a)));
            }
        }
        i = i + 1;
    }
    proof {
        assert forall|a: Worlds| #[trigger] r.eval(a) == (value(x.at(a)) < value(y.at(a))) by {
            assert(x.at(a).take(x.bits@.len() as int) =~= x.at(a));
            assert(y.at(a).take(y.bits@.len() as int) =~= y.at(a));
        }
    }
    r
}

/// The values that the bits from `i` on can take where `guard` holds, each
/// with where it does; the bits before `i` are `known`.
fn enumerate_from(
    x: &IntDist,
    i: usize,
    known: Vec<bool>,
    guard: BooleanFunction,
    fac: &Factorizer,
    out: &mut Vec<(Vec<bool>, BooleanFunction)>,
)
    requires
        fac.wf(),
        x.over(*fac),
        fac.owns(guard),
        i <= x.bits@.len(),
        known@.len() == i,
        forall|a: Worlds| #[trigger] guard.eval(a) ==> x.at(a).take(i as int) == known@,
        forall|k: int| 0 <= k < old(out)@.len() ==> enumerated(x, #[trigger] old(out)@[k], fac),
    ensures
        forall|k: int| 0 <= k < final(out)@.len() ==> enumerated(x, #[trigger] final(out)@[k], fac),
        forall|a: Worlds| #[trigger]
            hits(final(out)@, a) == hits(old(out)@, a) + (if guard.eval(a) {
                1nat
            } else {
                0
            }),
    decreases x.bits@.len() - i,
{
    if guard.is_false() {
        return;
    }
    if i == x.bits.len() {
        proof {
            assert forall|a: Worlds| #[trigger] guard.eval(a) implies x.at(a) == known@ by {
                assert(x.at(a).take(i as int) =~= x.at(a));
            }
        }
        let ghost before = out@;
        out.push((known, guard));
        assert(out@.drop_last() =~= before);
        return;
    }
    let neg: BooleanFunction = fac.negate(&x.bits[i]);
    let off: BooleanFunction = fac.and(&guard, &neg);
    let on: BooleanFunction = fac.and(&guard, &x.bits[i]);
    let mut zero: Vec<bool> = known.clone();
    let mut one: Vec<bool> = known.clone();
    zero.push(false);
    one.push(true);
    proof {
        assert forall|a: Worlds| #[trigger] off.eval(a) implies x.at(a).take(i + 1) == zero@ by {
            assert(neg.eval(a) == !x.bits@[i as int].eval(a));
            assert(guard.eval(a));
            assert(x.at(a).take(i + 1) =~= x.at(a).take(i as int).push(false));
        }
        assert forall|a: Worlds| #[trigger] on.eval(a) implies x.at(a).take(i + 1) == one@ by {
            assert(guard.eval(a));
            assert(x.at(a).take(i + 1) =~= x.at(a).take(i as int).push(true));
        }
    }
    enumerate_from(x, i + 1, zero, off, fac, out);
    enumerate_from(x, i + 1, one, on, fac, out);
    proof {
        assert forall|a: Worlds| #[trigger]
            hits(out@, a) == hits(old(out)@, a) + (if guard.eval(a) {
            1nat
        } else {
            0
        }) by {
            assert(neg.eval(a) == !x.bits@[i as int].eval(a));
            assert(off.eval(a) == (guard.eval(a) && neg.eval(a)));
            assert(on.eval(a) == (guard.eval(a) && x.bits@[i as int].eval(a)));
        }
    }
}

/// The value that the integer has where the guard holds; it holds somewhere.
pub open spec fn enumerated(x: &IntDist, e: (Vec<bool>, BooleanFunction), fac: &Factorizer) -> bool {
    &&& fac.owns(e.1)
    &&& e.1 != BooleanFunction::False
    &&& e.0@.len() == x.bits@.len()
    &&& forall|a: Worlds| #[trigger] e.1.eval(a) ==> x.at(a) == e.0@
}

/// How many of the guards hold.
pub open spec fn hits(s: Seq<(Vec<bool>, BooleanFunction)>, a: Worlds) -> nat
    decreases s.len(),
{
    if s.len() == 0 {
        0
    } else {
        hits(s.drop_last(), a) + (if s.last().1.eval(a) {
            1nat
        } else {
            0
        })
    }
}

/// The values that an integer can take where `guard` holds, each with where
/// it has that value: exactly one of them wherever `guard` holds.
pub fn enumerate_int_dist(x: &IntDist, guard: &BooleanFunction, fac: &Factorizer) -> (r: Vec<
    (Vec<bool>, BooleanFunction),
>)
    requires
        fac.wf(),
        x.over(*fac),
        fac.owns(*guard),
    ensures
        forall|k: int| 0 <= k < r@.len() ==> enumerated(x, #[trigger] r@[k], fac),
        forall|a: Worlds| #[trigger]
            hits(r@, a) == (if guard.eval(a) {
                1nat
            } else {
                0
            }),
{
    let mut out: Vec<(Vec<bool>, BooleanFunction)> = Vec::new();
    let known: Vec<bool> = Vec::new();
    proof {
        assert forall|a: Worlds| #[trigger] guard.eval(a) implies x.at(a).take(0) == known@ by {
            assert(x.at(a).take(0) =~= known@);
        }
    }
    enumerate_from(x, 0, known, guard.clone(), fac, &mut out);
    out
}

} // verus!
