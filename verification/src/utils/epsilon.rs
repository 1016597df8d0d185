//! Real numbers with infinitesimal tracking.

use vstd::prelude::*;

use super::reals;
use super::reals::{
    compute, real_at_most, real_equal, real_smaller, Arithmetic, RealOp, NEG_INFINITY, TINY, ZERO,
};

verus! {

/// A value of the form `exp(log_coeff) * eps^power`, used for marginal
/// probability computation when events of probability zero are observed.
/// The logarithm stands by its bits.
#[derive(Debug, Clone, Copy, PartialEq, Eq, Structural)]
pub struct RealEps {
    pub log_coeff: u64,
    pub power: u32,
}

impl RealEps {
    /// The number is 0.
    pub open spec fn none(self) -> bool {
        reals::equal(self.log_coeff, NEG_INFINITY)
    }

    /// The number is 1, up to rounding.
    pub open spec fn unit(self) -> bool {
        self.power == 0 && reals::smaller(self.log_coeff, TINY)
    }

    /// The sum: of numbers with different powers the one with the lesser
    /// power, next to which the other is infinitesimal.
    pub open spec fn plus(self, rhs: RealEps, f: Arithmetic) -> RealEps {
        if self.none() {
            rhs
        } else if rhs.none() {
            self
        } else if self.power == rhs.power {
            RealEps {
                log_coeff: f(RealOp::LogSum, self.log_coeff, rhs.log_coeff),
                power: self.power,
            }
        } else if self.power < rhs.power {
            self
        } else {
            rhs
        }
    }

    /// The product. Powers above the greatest that can be held stay at it.
    pub open spec fn times(self, rhs: RealEps, f: Arithmetic) -> RealEps {
        RealEps {
            log_coeff: f(RealOp::Sum, self.log_coeff, rhs.log_coeff),
            power: if self.power + rhs.power <= u32::MAX {
                (self.power + rhs.power) as u32
            } else {
                u32::MAX
            },
        }
    }

    /// The quotient: 0 if it is infinitesimal. A dividend of a lesser power
    /// than that of the divisor keeps power 0.
    pub open spec fn over(self, rhs: RealEps, f: Arithmetic) -> RealEps {
        if self.power > rhs.power {
            RealEps { log_coeff: NEG_INFINITY, power: 0 }
        } else {
            RealEps {
                log_coeff: f(RealOp::Difference, self.log_coeff, rhs.log_coeff),
                power: 0,
            }
        }
    }

    pub fn zero() -> (r: Self)
        ensures
            r == (RealEps { log_coeff: NEG_INFINITY, power: 0 }),
            r.none(),
    {
        RealEps { log_coeff: NEG_INFINITY, power: 0 }
    }

    pub fn one() -> (r: Self)
        ensures
            r == (RealEps { log_coeff: ZERO, power: 0 }),
            r.unit(),
    {
        RealEps { log_coeff: ZERO, power: 0 }
    }

    /// An ordinary number; one that is not positive counts as 0.
    pub fn scalar<F: Fn(RealOp, u64, u64) -> u64>(v: u64, reals: &F) -> (r: Self)
        requires
            reals::settled(*reals),
        ensures
            r.power == 0,
            r.log_coeff == (if reals::at_most(v, ZERO) {
                NEG_INFINITY
            } else {
                reals::operations(*reals)(RealOp::Log, v, 0)
            }),
    {
        RealEps {
            log_coeff: if real_at_most(v, ZERO) {
                NEG_INFINITY
            } else {
                compute(reals, RealOp::Log, v, 0)
            },
            power: 0,
        }
    }

    pub fn from_log(log_coeff: u64, power: u32) -> (r: Self)
        ensures
            r == (RealEps { log_coeff, power }),
    {
        RealEps { log_coeff, power }
    }

    pub fn is_zero(&self) -> (r: bool)
        ensures
            r == self.none(),
    {
        real_equal(self.log_coeff, NEG_INFINITY)
    }

    pub fn is_one(&self) -> (r: bool)
        ensures
            r == self.unit(),
    {
        self.power == 0 && real_smaller(self.log_coeff, TINY)
    }

    /// Multiply by a log-domain scalar (no change to epsilon power).
    pub fn scale_log<F: Fn(RealOp, u64, u64) -> u64>(&self, log_s: u64, reals: &F) -> (r: Self)
        requires
            reals::settled(*reals),
        ensures
            r.log_coeff == reals::operations(*reals)(RealOp::Sum, self.log_coeff, log_s),
            r.power == self.power,
    {
        RealEps {
            log_coeff: compute(reals, RealOp::Sum, self.log_coeff, log_s),
            power: self.power,
        }
    }

    /// Addition.
    pub fn logsumexp<F: Fn(RealOp, u64, u64) -> u64>(self, rhs: Self, reals: &F) -> (r: Self)
        requires
            reals::settled(*reals),
        ensures
            r == self.plus(rhs, reals::operations(*reals)),
    {
        if self.is_zero() {
            return rhs;
        }
        if rhs.is_zero() {
            return self;
        }
        if self.power == rhs.power {
            RealEps {
                log_coeff: compute(reals, RealOp::LogSum, self.log_coeff, rhs.log_coeff),
                power: self.power,
            }
        } else if self.power < rhs.power {
            self
        } else {
            rhs
        }
    }

    /// Multiplication.
    pub fn product<F: Fn(RealOp, u64, u64) -> u64>(self, rhs: Self, reals: &F) -> (r: Self)
        requires
            reals::settled(*reals),
        ensures
            r == self.times(rhs, reals::operations(*reals)),
    {
        RealEps {
            log_coeff: compute(reals, RealOp::Sum, self.log_coeff, rhs.log_coeff),
            power: self.power.saturating_add(rhs.power),
        }
    }

    /// Division.
    pub fn divide<F: Fn(RealOp, u64, u64) -> u64>(self, rhs: Self, reals: &F) -> (r: Self)
        requires
            reals::settled(*reals),
        ensures
            r == self.over(rhs, reals::operations(*reals)),
    {
        if self.power > rhs.power {
            RealEps::zero()
        } else {
            RealEps {
                log_coeff: compute(reals, RealOp::Difference, self.log_coeff, rhs.log_coeff),
                power: 0,
            }
        }
    }
}

/// Zero leaves every number as it is.
pub proof fn lemma_zero_plus(a: RealEps, z: RealEps, f: Arithmetic)
    requires
        z.none(),
    ensures
        z.plus(a, f) == a,
        a.none() || a.plus(z, f) == a,
{
}

/// A sum takes the lesser power of its nonzero parts.
pub proof fn lemma_plus_power(a: RealEps, b: RealEps, f: Arithmetic)
    requires
        !a.none(),
        !b.none(),
    ensures
        a.plus(b, f).power == (if a.power <= b.power {
            a.power
        } else {
            b.power
        }),
{
}

} // verus!
