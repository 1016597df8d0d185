//! Numbers without rounding: the values that bits of numbers stand for when
//! the arithmetic on them is exact.

use vstd::prelude::*;

use super::reals;
use super::reals::{Arithmetic, RealOp, ONE, ZERO};

verus! {

/// Values with addition, subtraction and multiplication, and what the bits of
/// numbers stand for among them.
#[verifier::reject_recursive_types(V)]
pub struct Field<V> {
    pub zero: V,
    pub one: V,
    pub plus: spec_fn(V, V) -> V,
    pub minus: spec_fn(V, V) -> V,
    pub times: spec_fn(V, V) -> V,
    pub value: spec_fn(u64) -> V,
}

impl<V> Field<V> {
    /// Sums and products come out the same in any order, a product of sums is
    /// the sum of products, and what is subtracted can be added again.
    #[verifier::opaque]
    pub open spec fn laws(self) -> bool {
        &&& forall|a: V, b: V| #[trigger] (self.plus)(a, b) == (self.plus)(b, a)
        &&& forall|a: V, b: V, c: V|
            #[trigger] (self.plus)((self.plus)(a, b), c) == (self.plus)(a, (self.plus)(b, c))
        &&& forall|a: V| #[trigger] (self.plus)(a, self.zero) == a
        &&& forall|a: V, b: V| #[trigger] (self.plus)((self.minus)(a, b), b) == a
        &&& forall|a: V, b: V| #[trigger] (self.minus)((self.plus)(a, b), b) == a
        &&& forall|a: V, b: V| #[trigger] (self.times)(a, b) == (self.times)(b, a)
        &&& forall|a: V, b: V, c: V|
            #[trigger] (self.times)((self.times)(a, b), c) == (self.times)(a, (self.times)(b, c))
        &&& forall|a: V| #[trigger] (self.times)(a, self.one) == a
        &&& forall|a: V, b: V, c: V|
            #[trigger] (self.times)((self.plus)(a, b), c) == (self.plus)(
                (self.times)(a, c),
                (self.times)(b, c),
            )
        &&& forall|a: V, b: V, c: V|
            c != self.zero && #[trigger] (self.times)(a, c) == #[trigger] (self.times)(b, c) ==> a == b
    }

    /// A natural number.
    pub open spec fn count(self, n: nat) -> V
        decreases n,
    {
        if n == 0 {
            self.zero
        } else {
            (self.plus)(self.count((n - 1) as nat), self.one)
        }
    }

    /// An integer.
    pub open spec fn integer(self, i: int) -> V {
        if i >= 0 {
            self.count(i as nat)
        } else {
            (self.minus)(self.zero, self.count((-i) as nat))
        }
    }

    /// Operations on bits do what they do on the values. The bits of 0, 1, -1
    /// and ½ are those of double-precision numbers.
    #[verifier::opaque]
    pub open spec fn exact(self, f: Arithmetic) -> bool {
        &&& self.laws()
        &&& (self.value)(0x3ff0_0000_0000_0000u64) == self.one
        &&& (self.value)(0xbff0_0000_0000_0000u64) == (self.minus)(self.zero, self.one)
        &&& (self.plus)(
            (self.value)(0x3fe0_0000_0000_0000u64),
            (self.value)(0x3fe0_0000_0000_0000u64),
        ) == self.one
        &&& (self.value)(0u64) == self.zero
        &&& (self.value)(0x8000_0000_0000_0000u64) == self.zero
        &&& forall|a: u64, b: u64|
            (self.value)(#[trigger] f(RealOp::Sum, a, b)) == (self.plus)(
                (self.value)(a),
                (self.value)(b),
            )
        &&& forall|a: u64, b: u64|
            (self.value)(#[trigger] f(RealOp::Difference, a, b)) == (self.minus)(
                (self.value)(a),
                (self.value)(b),
            )
        &&& forall|a: u64, b: u64|
            (self.value)(#[trigger] f(RealOp::Product, a, b)) == (self.times)(
                (self.value)(a),
                (self.value)(b),
            )
        &&& forall|a: u64, b: u64|
            (self.value)(b) != self.zero ==> (self.times)(
                (self.value)(#[trigger] f(RealOp::Quotient, a, b)),
                (self.value)(b),
            ) == (self.value)(a)
        &&& forall|i: i64, b: u64|
            (self.value)(#[trigger] f(RealOp::OfInt, i as u64, b)) == self.integer(i as int)
    }
}

pub proof fn plus_comm<V>(k: Field<V>, a: V, b: V)
    requires
        k.laws(),
    ensures
        (k.plus)(a, b) == (k.plus)(b, a),
{
    reveal(Field::laws);
}

pub proof fn plus_assoc<V>(k: Field<V>, a: V, b: V, c: V)
    requires
        k.laws(),
    ensures
        (k.plus)((k.plus)(a, b), c) == (k.plus)(a, (k.plus)(b, c)),
{
    reveal(Field::laws);
}

pub proof fn plus_zero<V>(k: Field<V>, a: V)
    requires
        k.laws(),
    ensures
        (k.plus)(a, k.zero) == a,
        (k.plus)(k.zero, a) == a,
{
    reveal(Field::laws);
    assert((k.plus)(k.zero, a) == (k.plus)(a, k.zero));
}

/// Sums of sums in another order.
pub proof fn plus_swap<V>(k: Field<V>, a: V, b: V, c: V, d: V)
    requires
        k.laws(),
    ensures
        (k.plus)((k.plus)(a, b), (k.plus)(c, d)) == (k.plus)((k.plus)(a, c), (k.plus)(b, d)),
{
    plus_assoc(k, a, b, (k.plus)(c, d));
    plus_assoc(k, b, c, d);
    plus_comm(k, b, c);
    plus_assoc(k, c, b, d);
    plus_assoc(k, a, c, (k.plus)(b, d));
}

pub proof fn minus_plus<V>(k: Field<V>, a: V, b: V)
    requires
        k.laws(),
    ensures
        (k.plus)((k.minus)(a, b), b) == a,
        (k.plus)(b, (k.minus)(a, b)) == a,
        (k.minus)((k.plus)(a, b), b) == a,
{
    reveal(Field::laws);
    plus_comm(k, (k.minus)(a, b), b);
}

/// What is added on both sides can be left out.
pub proof fn plus_cancel<V>(k: Field<V>, a: V, b: V, c: V)
    requires
        k.laws(),
        (k.plus)(a, c) == (k.plus)(b, c),
    ensures
        a == b,
{
    minus_plus(k, a, c);
    minus_plus(k, b, c);
}

pub proof fn times_comm<V>(k: Field<V>, a: V, b: V)
    requires
        k.laws(),
    ensures
        (k.times)(a, b) == (k.times)(b, a),
{
    reveal(Field::laws);
}

pub proof fn times_assoc<V>(k: Field<V>, a: V, b: V, c: V)
    requires
        k.laws(),
    ensures
        (k.times)((k.times)(a, b), c) == (k.times)(a, (k.times)(b, c)),
{
    reveal(Field::laws);
}

/// Factors in another order.
pub proof fn times_swap<V>(k: Field<V>, a: V, b: V, c: V)
    requires
        k.laws(),
    ensures
        (k.times)((k.times)(a, b), c) == (k.times)((k.times)(a, c), b),
{
    times_assoc(k, a, b, c);
    times_comm(k, b, c);
    times_assoc(k, a, c, b);
}

pub proof fn times_one<V>(k: Field<V>, a: V)
    requires
        k.laws(),
    ensures
        (k.times)(a, k.one) == a,
        (k.times)(k.one, a) == a,
{
    reveal(Field::laws);
    assert((k.times)(k.one, a) == (k.times)(a, k.one));
}

pub proof fn times_plus<V>(k: Field<V>, a: V, b: V, c: V)
    requires
        k.laws(),
    ensures
        (k.times)((k.plus)(a, b), c) == (k.plus)((k.times)(a, c), (k.times)(b, c)),
        (k.times)(c, (k.plus)(a, b)) == (k.plus)((k.times)(c, a), (k.times)(c, b)),
{
    reveal(Field::laws);
    times_comm(k, c, (k.plus)(a, b));
    times_comm(k, c, a);
    times_comm(k, c, b);
}

pub proof fn times_zero<V>(k: Field<V>, a: V)
    requires
        k.laws(),
    ensures
        (k.times)(k.zero, a) == k.zero,
        (k.times)(a, k.zero) == k.zero,
{
    let z = (k.times)(k.zero, a);
    plus_zero(k, k.zero);
    times_plus(k, k.zero, k.zero, a);
    plus_zero(k, z);
    plus_cancel(k, z, k.zero, z);
    times_comm(k, k.zero, a);
}

/// A product of a difference.
pub proof fn times_minus<V>(k: Field<V>, a: V, b: V, c: V)
    requires
        k.laws(),
    ensures
        (k.plus)((k.times)((k.minus)(a, b), c), (k.times)(b, c)) == (k.times)(a, c),
{
    minus_plus(k, a, b);
    times_plus(k, (k.minus)(a, b), b, c);
}

/// A factor that is not zero can be left out.
pub proof fn times_cancel<V>(k: Field<V>, a: V, b: V, c: V)
    requires
        k.laws(),
        c != k.zero,
        (k.times)(a, c) == (k.times)(b, c),
    ensures
        a == b,
{
    reveal(Field::laws);
}

pub proof fn exact_laws<V>(k: Field<V>, f: Arithmetic)
    requires
        k.exact(f),
    ensures
        k.laws(),
        (k.value)(ONE) == k.one,
        (k.value)(ZERO) == k.zero,
        (k.value)(0xbff0_0000_0000_0000u64) == (k.minus)(k.zero, k.one),
        (k.plus)((k.value)(0x3fe0_0000_0000_0000u64), (k.value)(0x3fe0_0000_0000_0000u64)) == k.one,
{
    reveal(Field::exact);
}

pub proof fn exact_equal<V>(k: Field<V>, a: u64, f: Arithmetic)
    requires
        k.exact(f),
    ensures
        reals::equal(a, ZERO) ==> (k.value)(a) == k.zero,
        reals::equal(a, ONE) ==> (k.value)(a) == k.one,
{
    reveal(Field::exact);
}

pub proof fn exact_sum<V>(k: Field<V>, a: u64, b: u64, f: Arithmetic)
    requires
        k.exact(f),
    ensures
        (k.value)(f(RealOp::Sum, a, b)) == (k.plus)((k.value)(a), (k.value)(b)),
{
    reveal(Field::exact);
}

pub proof fn exact_difference<V>(k: Field<V>, a: u64, b: u64, f: Arithmetic)
    requires
        k.exact(f),
    ensures
        (k.value)(f(RealOp::Difference, a, b)) == (k.minus)((k.value)(a), (k.value)(b)),
{
    reveal(Field::exact);
}

pub proof fn exact_product<V>(k: Field<V>, a: u64, b: u64, f: Arithmetic)
    requires
        k.exact(f),
    ensures
        (k.value)(f(RealOp::Product, a, b)) == (k.times)((k.value)(a), (k.value)(b)),
{
    reveal(Field::exact);
}

pub proof fn exact_quotient<V>(k: Field<V>, a: u64, b: u64, f: Arithmetic)
    requires
        k.exact(f),
        (k.value)(b) != k.zero,
    ensures
        (k.times)((k.value)(f(RealOp::Quotient, a, b)), (k.value)(b)) == (k.value)(a),
{
    reveal(Field::exact);
}

pub proof fn exact_integer<V>(k: Field<V>, i: i64, b: u64, f: Arithmetic)
    requires
        k.exact(f),
    ensures
        (k.value)(f(RealOp::OfInt, i as u64, b)) == k.integer(i as int),
{
    reveal(Field::exact);
}

/// The natural numbers add up.
pub proof fn count_plus<V>(k: Field<V>, m: nat, n: nat)
    requires
        k.laws(),
    ensures
        (k.plus)(k.count(m), k.count(n)) == k.count(m + n),
    decreases n,
{
    if n == 0 {
        plus_zero(k, k.count(m));
    } else {
        count_plus(k, m, (n - 1) as nat);
        plus_assoc(k, k.count(m), k.count((n - 1) as nat), k.one);
        assert((m + n - 1) as nat == m + (n - 1) as nat);
    }
}

} // verus!
