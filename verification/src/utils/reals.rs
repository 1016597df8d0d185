//! Double-precision numbers by their bits: the order of the numbers, and
//! arithmetic that the caller brings along.

use vstd::prelude::*;

verus! {

/// The bits of 1.
pub const ONE: u64 = 0x3ff0_0000_0000_0000;

/// The bits of 0.
pub const ZERO: u64 = 0;

/// The bits of 10⁻¹⁵.
pub const TINY: u64 = 0x3cd2_03af_9ee7_5616;

/// The sign bit.
pub const SIGN: u64 = 0x8000_0000_0000_0000;

/// The bits of infinity; a number with a greater magnitude is not a number.
pub const INFINITY: u64 = 0x7ff0_0000_0000_0000;

/// The bits of negative infinity, the logarithm of 0.
pub const NEG_INFINITY: u64 = 0xfff0_0000_0000_0000;

/// The bits without the sign.
pub open spec fn magnitude_of(b: u64) -> int {
    if b >= SIGN {
        b - SIGN
    } else {
        b as int
    }
}

pub open spec fn nan(b: u64) -> bool {
    magnitude_of(b) > INFINITY
}

/// The place of a number in the order of the numbers; both zeros have one.
pub open spec fn rank(b: u64) -> int {
    if b >= SIGN {
        -magnitude_of(b)
    } else {
        magnitude_of(b)
    }
}

/// `a == b` as numbers.
pub open spec fn equal(a: u64, b: u64) -> bool {
    !nan(a) && !nan(b) && rank(a) == rank(b)
}

/// `a < b` as numbers.
pub open spec fn below(a: u64, b: u64) -> bool {
    !nan(a) && !nan(b) && rank(a) < rank(b)
}

/// `a <= b` as numbers.
pub open spec fn at_most(a: u64, b: u64) -> bool {
    !nan(a) && !nan(b) && rank(a) <= rank(b)
}

/// `|a| < b` as numbers.
pub open spec fn smaller(a: u64, b: u64) -> bool {
    !nan(a) && !nan(b) && magnitude_of(a) < rank(b)
}

fn magnitude(b: u64) -> (r: u64)
    ensures
        r == magnitude_of(b),
{
    if b >= SIGN {
        b - SIGN
    } else {
        b
    }
}

pub fn real_equal(a: u64, b: u64) -> (r: bool)
    ensures
        r == equal(a, b),
{
    let m: u64 = magnitude(a);
    let n: u64 = magnitude(b);
    m <= INFINITY && m == n && ((a >= SIGN) == (b >= SIGN) || m == 0)
}

pub fn real_below(a: u64, b: u64) -> (r: bool)
    ensures
        r == below(a, b),
{
    let m: u64 = magnitude(a);
    let n: u64 = magnitude(b);
    if m > INFINITY || n > INFINITY {
        false
    } else if a >= SIGN {
        if b >= SIGN {
            m > n
        } else {
            m != 0 || n != 0
        }
    } else {
        b < SIGN && m < n
    }
}

pub fn real_at_most(a: u64, b: u64) -> (r: bool)
    ensures
        r == at_most(a, b),
{
    real_below(a, b) || real_equal(a, b)
}

pub fn real_smaller(a: u64, b: u64) -> (r: bool)
    ensures
        r == smaller(a, b),
{
    let m: u64 = magnitude(a);
    m <= INFINITY && b < SIGN && b <= INFINITY && m < b
}

/// The place of a number in the order of the numbers.
pub fn real_rank(b: u64) -> (r: i64)
    ensures
        r == rank(b),
{
    if b >= SIGN {
        -((b - SIGN) as i64)
    } else {
        b as i64
    }
}

/// Of two numbers one is less, or they are equal; what is less than a number
/// is less than all that are not less than it. The sign turns the order
/// around, a positive number is above zero, and anything with a magnitude
/// above that of infinity is no number and not comparable.
pub proof fn lemma_order(a: u64, b: u64, c: u64)
    ensures
        a <= 0x7ff0_0000_0000_0000 <==> !nan(a) && a < 0x8000_0000_0000_0000,
        nan(a) || nan(b) ==> !below(a, b) && !equal(a, b) && !at_most(a, b),
        !nan(a) && !nan(b) ==> below(a, b) || equal(a, b) || below(b, a),
        !(below(a, b) && below(b, a)) && !(below(a, b) && equal(a, b)),
        below(a, b) && at_most(b, c) ==> below(a, c),
        at_most(a, b) <==> below(a, b) || equal(a, b),
        a < b < 0x8000_0000_0000_0000 && !nan(b) ==> below(a, b),
        0x8000_0000_0000_0000 <= a < b && !nan(b) ==> below(b, a),
        0x8000_0000_0000_0000 < a && !nan(a) ==> below(a, 0),
        equal(0, 0x8000_0000_0000_0000),
        smaller(a, b) && a < 0x8000_0000_0000_0000 ==> below(a, b),
        a < 0x8000_0000_0000_0000 ==> (smaller(a, b) <==> smaller(
            (a + 0x8000_0000_0000_0000) as u64,
            b,
        )),
{
}

/// The operations on numbers that the library takes from its caller.
#[derive(Debug, Clone, Copy, PartialEq, Eq, Structural)]
pub enum RealOp {
    Sum,
    Difference,
    Product,
    Quotient,
    /// The number nearest to an integer, which stands in the first operand
    /// in two's complement.
    OfInt,
    /// The logarithm of the sum of two numbers, from their logarithms.
    LogSum,
    /// The natural logarithm of the first operand.
    Log,
    /// The integer that the first operand is when its fraction is dropped, in
    /// two's complement.
    ToInt,
}

/// The operations as a function of their operands.
pub type Arithmetic = spec_fn(RealOp, u64, u64) -> u64;

/// `f` can be called on all operands and answers equal calls alike.
pub open spec fn settled<F: Fn(RealOp, u64, u64) -> u64>(f: F) -> bool {
    &&& forall|op: RealOp, a: u64, b: u64| #[trigger] call_requires(f, (op, a, b))
    &&& forall|op: RealOp, a: u64, b: u64, r: u64, s: u64|
        #[trigger] call_ensures(f, (op, a, b), r) && #[trigger] call_ensures(f, (op, a, b), s)
            ==> r == s
}

/// What `f` computes.
pub open spec fn operations<F: Fn(RealOp, u64, u64) -> u64>(f: F) -> Arithmetic {
    |op: RealOp, a: u64, b: u64| choose|r: u64| call_ensures(f, (op, a, b), r)
}

/// Apply an operation.
pub fn compute<F: Fn(RealOp, u64, u64) -> u64>(f: &F, op: RealOp, a: u64, b: u64) -> (r: u64)
    requires
        settled(*f),
    ensures
        r == operations(*f)(op, a, b),
{
    let r: u64 = f(op, a, b);
    assert(call_ensures(*f, (op, a, b), r));
    r
}

/// How numbers are written, by their bits.
pub type Spelling = spec_fn(u64) -> Seq<char>;

/// `g` can be called on all numbers and writes a number the same way each
/// time.
pub open spec fn spells<G: Fn(u64) -> String>(g: G) -> bool {
    &&& forall|b: u64| #[trigger] call_requires(g, (b,))
    &&& forall|b: u64, r: String, s: String| #[trigger]
        call_ensures(g, (b,), r) && #[trigger] call_ensures(g, (b,), s) ==> r@ == s@
}

/// How `g` writes numbers.
pub open spec fn spelling<G: Fn(u64) -> String>(g: G) -> Spelling {
    |b: u64| (choose|r: String| call_ensures(g, (b,), r))@
}

/// Write a number.
pub fn spell<G: Fn(u64) -> String>(g: &G, b: u64) -> (r: String)
    requires
        spells(*g),
    ensures
        r@ == spelling(*g)(b),
{
    let r: String = g(b);
    assert(call_ensures(*g, (b,), r));
    r
}

} // verus!
