//! What tests of continuous values are for: a test comes out as it does for
//! the number that is drawn.

use vstd::prelude::*;

use super::semantics;
use super::semantics::{Depth, Event, Model};
use crate::language::pexpr::Const;
use crate::language::primitives::Primitive;
use crate::language::values::{Datum, Outcome};
use crate::utils::reals;

verus! {

/// The value says `True` or `False`.
pub open spec fn says(o: Outcome, x: Model, b: bool) -> bool {
    o == Outcome::Done(
        Datum::Value {
            constructor: if b {
                x.yes
            } else {
                x.no
            },
            args: Seq::empty(),
        },
    )
}

/// `True` if it holds, else nothing.
pub open spec fn confirms(o: Outcome, x: Model, b: bool) -> bool {
    if b {
        says(o, x, true)
    } else {
        o == Outcome::Fail
    }
}

/// The events at the callstack on a Poisson draw of a rate at a scale happen
/// as they do when the draw is `count`: an interval below a bound when it is less, one from a
/// bound on when it is not, and an equality when it is that number.
pub open spec fn counts_as(
    x: Model,
    cs: Seq<i32>,
    name: u64,
    gamma: u64,
    scale: u64,
    count: nat,
) -> bool {
    &&& forall|below: bool, bound: u64|
        #[trigger] (x.flips)(
            cs.push(2),
            Event::PoissonInterval { gamma, draw: name, below, bound, scale }.code(),
        ) == ((count < bound) == below)
    &&& forall|n: u64|
        #[trigger] (x.flips)(
            cs.push(2),
            Event::PoissonEq { gamma, draw: name, count: n, scale }.code(),
        ) == (count == n)
}

/// A Poisson draw compared with a number is compared as the number that is
/// drawn: with `native_leq`, `native_geq` and `native_eq`, on either side.
pub proof fn lemma_poisson_compared(
    x: Model,
    cs: Seq<i32>,
    name: u64,
    gamma: u64,
    scale: u64,
    n: i64,
    other: Datum,
    got: Seq<Datum>,
    count: nat,
)
    requires
        counts_as(x, cs, name, gamma, scale, count),
        !(other is Poisson),
        got.len() == 1,
        got[0] == Datum::Native(Const::Int(n)),
    ensures
        ({
            let d = Datum::Poisson { name, gamma, scale };
            let (left, right) = (seq![d, other], seq![other, d]);
            let wanted = seq![(Depth::Number, other)];
            &&& semantics::wants(Primitive::NativeLeq, left) == wanted
            &&& semantics::wants(Primitive::NativeGeq, left) == wanted
            &&& semantics::wants(Primitive::NativeEq, left) == wanted
            &&& semantics::wants(Primitive::NativeLeq, right) == wanted
            &&& semantics::wants(Primitive::NativeGeq, right) == wanted
            &&& semantics::wants(Primitive::NativeEq, right) == wanted
            &&& says(semantics::settled(Primitive::NativeLeq, left, got, cs, x), x, count <= n)
            &&& says(semantics::settled(Primitive::NativeGeq, left, got, cs, x), x, count >= n)
            &&& says(semantics::settled(Primitive::NativeEq, left, got, cs, x), x, count == n)
            &&& says(semantics::settled(Primitive::NativeLeq, right, got, cs, x), x, n <= count)
            &&& says(semantics::settled(Primitive::NativeGeq, right, got, cs, x), x, n >= count)
            &&& says(semantics::settled(Primitive::NativeEq, right, got, cs, x), x, n == count)
        }),
{
    let e = Event::PoissonInterval {
        gamma,
        draw: name,
        below: true,
        bound: (n + 1) as u64,
        scale,
    };
    let h = Event::PoissonInterval { gamma, draw: name, below: false, bound: n as u64, scale };
    let q = Event::PoissonEq { gamma, draw: name, count: n as u64, scale };
    if n >= 0 {
        assert((x.flips)(cs.push(2), e.code()) == ((count < (n + 1) as u64) == true));
        assert((x.flips)(cs.push(2), h.code()) == ((count < n as u64) == false));
        assert((x.flips)(cs.push(2), q.code()) == (count == n as u64));
    }
}

/// Pinning a Poisson draw to a number confirms it exactly if it is that
/// number.
pub proof fn lemma_poisson_pinned(
    x: Model,
    cs: Seq<i32>,
    name: u64,
    gamma: u64,
    scale: u64,
    n: i64,
    count: nat,
    fuel: nat,
)
    requires
        counts_as(x, cs, name, gamma, scale, count),
    ensures
        confirms(
            semantics::pin(
                Datum::Poisson { name, gamma, scale },
                Datum::Native(Const::Int(n)),
                cs,
                x,
                fuel,
            ),
            x,
            count == n,
        ),
{
    let q = Event::PoissonEq { gamma, draw: name, count: n as u64, scale };
    if n >= 0 {
        assert((x.flips)(cs.push(2), q.code()) == (count == n as u64));
    }
}

/// The events at the callstack on an exponential draw of a rate at a scale
/// happen as they do when the draw is `t`.
pub open spec fn lasts(
    x: Model,
    cs: Seq<i32>,
    name: u64,
    gamma: u64,
    scale: u64,
    t: u64,
) -> bool {
    &&& forall|below: bool, bound: u64|
        #[trigger] (x.flips)(
            cs.push(2),
            Event::ExpInterval { gamma, draw: name, below, bound, scale }.code(),
        ) == (reals::below(t, bound) == below)
    &&& forall|value: u64|
        #[trigger] (x.flips)(
            cs.push(2),
            Event::ExpEq { gamma, draw: name, value, scale }.code(),
        ) == reals::equal(t, value)
}

/// An exponential draw tested against a number is tested as the time that is
/// drawn, which is not negative.
pub proof fn lemma_exponential_tested(
    x: Model,
    cs: Seq<i32>,
    name: u64,
    gamma: u64,
    scale: u64,
    c: u64,
    t: u64,
    got: Seq<Datum>,
    fuel: nat,
)
    requires
        lasts(x, cs, name, gamma, scale, t),
        reals::at_most(0, t),
        !reals::nan(c),
    ensures
        ({
            let d = Datum::Exponential { name, gamma, scale };
            let v = seq![d, Datum::Native(Const::Float(c))];
            &&& says(semantics::settled(Primitive::RealLt, v, got, cs, x), x, reals::below(t, c))
            &&& says(
                semantics::settled(Primitive::RealGeq, v, got, cs, x),
                x,
                reals::at_most(c, t),
            )
            &&& says(semantics::settled(Primitive::RealEq, v, got, cs, x), x, reals::equal(t, c))
            &&& confirms(
                semantics::pin(d, Datum::Native(Const::Float(c)), cs, x, fuel),
                x,
                reals::equal(t, c),
            )
        }),
{
    let lt = Event::ExpInterval { gamma, draw: name, below: true, bound: c, scale };
    let ge = Event::ExpInterval { gamma, draw: name, below: false, bound: c, scale };
    let eq = Event::ExpEq { gamma, draw: name, value: c, scale };
    assert((x.flips)(cs.push(2), lt.code()) == (reals::below(t, c) == true));
    assert((x.flips)(cs.push(2), ge.code()) == (reals::below(t, c) == false));
    assert((x.flips)(cs.push(2), eq.code()) == reals::equal(t, c));
}

/// A known number tested against a number: below it, from it on, and equal to
/// it, which means closer than 10⁻¹⁵.
pub proof fn lemma_number_tested(x: Model, cs: Seq<i32>, b: u64, c: u64, got: Seq<Datum>)
    ensures
        ({
            let v = seq![Datum::Native(Const::Float(b)), Datum::Native(Const::Float(c))];
            &&& says(semantics::settled(Primitive::RealLt, v, got, cs, x), x, reals::below(b, c))
            &&& says(
                semantics::settled(Primitive::RealGeq, v, got, cs, x),
                x,
                reals::at_most(c, b),
            )
            &&& says(
                semantics::settled(Primitive::RealEq, v, got, cs, x),
                x,
                near((x.arith)(reals::RealOp::Difference, b, c)),
            )
            &&& says(
                semantics::settled(Primitive::ProbEq, v, got, cs, x),
                x,
                near((x.arith)(reals::RealOp::Difference, b, c)),
            )
        }),
{
}

/// The number is less than 10⁻¹⁵ in magnitude.
pub open spec fn near(b: u64) -> bool {
    reals::smaller(b, 0x3cd2_03af_9ee7_5616u64)
}

/// The events at the callstack on a rate happen as they do when the rate is
/// `g`: it is observed to be a number if its scaled rate is that number.
pub open spec fn rates_as(x: Model, cs: Seq<i32>, name: u64, g: u64) -> bool {
    forall|value: u64, scale: u64|
        #[trigger] (x.flips)(cs.push(2), Event::RatePin { name, value, scale }.code())
            == reals::equal((x.arith)(reals::RealOp::Product, scale, g), value)
}

/// A rate tested for being a number, or pinned to it, is tested as the scaled
/// rate that is drawn, which is positive.
pub proof fn lemma_rate_tested(
    x: Model,
    cs: Seq<i32>,
    name: u64,
    scale: u64,
    c: u64,
    g: u64,
    got: Seq<Datum>,
    fuel: nat,
)
    requires
        rates_as(x, cs, name, g),
        reals::below(0, (x.arith)(reals::RealOp::Product, scale, g)),
    ensures
        ({
            let d = Datum::Gamma { name, scale };
            let rate = (x.arith)(reals::RealOp::Product, scale, g);
            &&& says(
                semantics::settled(
                    Primitive::RealEq,
                    seq![d, Datum::Native(Const::Float(c))],
                    got,
                    cs,
                    x,
                ),
                x,
                reals::equal(rate, c),
            )
            &&& confirms(
                semantics::pin(d, Datum::Native(Const::Float(c)), cs, x, fuel),
                x,
                reals::equal(rate, c),
            )
        }),
{
    let e = Event::RatePin { name, value: c, scale };
    assert((x.flips)(cs.push(2), e.code()) == reals::equal(
        (x.arith)(reals::RealOp::Product, scale, g),
        c,
    ));
}

/// Observing a Gaussian expression, with `real_eq` or by a pin, is the event
/// that this expression has this value; and for a Beta variable the event
/// that it has this value. An expression without variables is its constant.
pub proof fn lemma_observed(
    x: Model,
    cs: Seq<i32>,
    constant: u64,
    coefficients: Seq<(u64, u64)>,
    name: u64,
    c: u64,
    got: Seq<Datum>,
    fuel: nat,
)
    requires
        coefficients.len() > 0,
    ensures
        ({
            let d = Datum::Gaussian { constant, coefficients };
            let p = Datum::Probability(name);
            let v = Datum::Native(Const::Float(c));
            let here = (x.flips)(
                cs.push(2),
                Event::GaussianObs { constant, coefficients, observed: c }.code(),
            );
            let there = (x.flips)(cs.push(2), Event::ProbPin(name, c).code());
            &&& says(semantics::settled(Primitive::RealEq, seq![d, v], got, cs, x), x, here)
            &&& confirms(semantics::pin(d, v, cs, x, fuel), x, here)
            &&& says(semantics::settled(Primitive::ProbEq, seq![p, v], got, cs, x), x, there)
            &&& confirms(semantics::pin(p, v, cs, x, fuel), x, there)
        }),
        ({
            let d = Datum::Gaussian { constant, coefficients: Seq::empty() };
            let v = Datum::Native(Const::Float(c));
            let b = near((x.arith)(reals::RealOp::Difference, constant, c));
            &&& says(semantics::settled(Primitive::RealEq, seq![d, v], got, cs, x), x, b)
            &&& confirms(semantics::pin(d, v, cs, x, fuel), x, b)
        }),
{
}

/// Integers are compared as integers, natural numbers with them as the
/// integers that they are.
pub proof fn lemma_numbers_compared(
    x: Model,
    cs: Seq<i32>,
    p: Datum,
    q: Datum,
    a: i64,
    b: i64,
    got: Seq<Datum>,
)
    requires
        !(p is Poisson),
        !(q is Poisson),
        got == seq![Datum::Native(Const::Int(a)), Datum::Native(Const::Int(b))],
    ensures
        ({
            let vals = seq![p, q];
            let wanted = seq![(Depth::Number, p), (Depth::Number, q)];
            &&& semantics::wants(Primitive::NativeLeq, vals) == wanted
            &&& semantics::wants(Primitive::NativeGeq, vals) == wanted
            &&& says(semantics::settled(Primitive::NativeLeq, vals, got, cs, x), x, a <= b)
            &&& says(semantics::settled(Primitive::NativeGeq, vals, got, cs, x), x, b <= a)
        }),
{
    let vals = seq![p, q];
    assert(vals[0] == p && vals[1] == q);
}

/// Native values are equal if they are of one kind and the same, and floats
/// if they are so as numbers: no number that is not one is equal to itself,
/// and both zeros are equal. Other values are never equal.
pub proof fn lemma_native_equality(x: Model, cs: Seq<i32>, p: Datum, q: Datum, got: Seq<Datum>)
    requires
        !(p is Poisson),
        !(q is Poisson),
    ensures
        ({
            let o = semantics::settled(Primitive::NativeEq, seq![p, q], got, cs, x);
            says(
                o,
                x,
                match (p, q) {
                    (
                        Datum::Native(Const::Float(a)),
                        Datum::Native(Const::Float(b)),
                    ) => reals::at_most(a, b) && reals::at_most(b, a),
                    (Datum::Native(a), Datum::Native(b)) => a == b,
                    _ => false,
                },
            )
        }),
{
    let vals = seq![p, q];
    assert(vals[0] == p && vals[1] == q);
}

} // verus!
