//! Pinning a value to another one, where neither has parts.

use vstd::prelude::*;

use super::ctx::CompilerCtx;
use super::monad;
use super::monad::{program_error_worlds, pure_monad, GuardedWorlds, World};
use super::semantics;
use super::semantics::Model;
use super::settle::{clone_bits, native_equal, Ans};
use super::state::FlipWeight;
use crate::discrete_factorizations::{BooleanFunction, Worlds};
use crate::inference::int_dists::{int_dist_eq, IntDist};
use crate::language::pexpr::NativeVal;
use crate::language::values;
use crate::language::values::{clone_pairs, Outcome, PluckVal, PluckValue};
use crate::utils::reals;
use crate::utils::reals::{
    compute, real_at_most, real_below, real_smaller, RealOp, TINY, ZERO,
};

verus! {

/// Neither value is pinned part by part.
pub open spec fn leafy(s: PluckValue, t: PluckValue) -> bool {
    &&& !(s is Value && t is Value)
    &&& !(s is FloatMatrix && t is FloatMatrix)
    &&& !(s is DirichletVector && (t is Value || t is FloatMatrix))
}

/// Whether a pin holds, where that shows without evaluating a part.
pub open spec fn verdict(s: PluckValue, t: PluckValue) -> Option<bool> {
    match (s, t) {
        (PluckValue::Native(m), PluckValue::Native(n)) => Some(semantics::native_equal(m@, n@)),
        (
            PluckValue::Value { constructor: c, args: p },
            PluckValue::Value { constructor: d, args: q },
        ) => if c == d && p@.len() == q@.len() {
            None
        } else {
            Some(false)
        },
        (
            PluckValue::FloatMatrix { entries: p, shape: c },
            PluckValue::FloatMatrix { entries: q, shape: d },
        ) => if c@ == d@ && p@.len() == q@.len() {
            None
        } else {
            Some(false)
        },
        _ => None,
    }
}

/// One world that is always the case, or none.
pub open spec fn decided(w: Seq<World>, b: bool) -> bool {
    if b {
        w.len() == 1 && w[0].1 == BooleanFunction::True
    } else {
        w.len() == 0
    }
}

/// What pinning one value to another comes to, where no part of them is to be
/// evaluated.
pub open spec fn leaf_pin(s: PluckVal, t: PluckVal, cs: Seq<i32>) -> Ans {
    |a: Worlds, x: Model|
        match (s.at(a), t.at(a)) {
            (Some(d), Some(e)) => Some(semantics::pin(d, e, cs, x, 0)),
            _ => None,
        }
}

/// How deep the evaluation may go plays no role there.
pub proof fn lemma_leafy(s: &PluckValue, t: &PluckValue, a: Worlds, cs: Seq<i32>, x: Model, f: nat)
    requires
        values::is_head(*s),
        values::is_head(*t),
        leafy(*s, *t),
        s.at(a) is Some,
        t.at(a) is Some,
    ensures
        semantics::pin(s.at(a)->0, t.at(a)->0, cs, x, f) == semantics::pin(
            s.at(a)->0,
            t.at(a)->0,
            cs,
            x,
            0,
        ),
{
}

impl<'a, F: Fn(RealOp, u64, u64) -> u64, G: Fn(usize, Vec<u64>) -> bool> CompilerCtx<'a, F, G> {
    /// `True` where the event happens, else nothing.
    fn pin_event(&mut self, weight: FlipWeight) -> (r: GuardedWorlds)
        requires
            old(self).wf(),
        ensures
            old(self).moved(final(self)),
            final(self).answers(
                Some(r),
                |a: Worlds, x: Model|
                    Some(semantics::held(x, old(self).state.callstack@, weight@)),
            ),
            monad::all_true(r.0@, final(self).true_sym),
    {
        let ghost start = *self;
        let ghost cs = self.state.callstack@;
        let var: BooleanFunction = self.state.with_callstack_index(2, weight);
        proof {
            start.lemma_moved(self);
        }
        let r: GuardedWorlds = self.pin_holds_when(var);
        proof {
            let s = |a: Worlds, x: Model| Some(semantics::held(x, cs, weight@));
            let t = |a: Worlds, x: Model| Some(semantics::holds(x, var.eval(a)));
            assert forall|a: Worlds, x: Model| #[trigger] self.allows(a, x) implies s(a, x) == t(a, x) by {
                assert(self.state.fits(a, x));
                assert(var.eval(a) == (x.flips)(cs.push(2), weight@.code()));
            }
        }
        r
    }

    /// `True`, or nothing.
    fn pin_constant(&self, b: bool) -> (r: GuardedWorlds)
        ensures
            self.answers(Some(r), |a: Worlds, x: Model| Some(semantics::holds(x, b))),
            monad::all_true(r.0@, self.true_sym),
            decided(r.0@, b),
    {
        let ghost s = |a: Worlds, x: Model| Some(semantics::holds(x, b));
        if b {
            let v: PluckVal = self.bool_val(true);
            let w: GuardedWorlds = pure_monad(v);
            proof {
                assert(v.over(self.vars()));
                self.lemma_gives(v, w, s);
            }
            w
        } else {
            let w: GuardedWorlds = program_error_worlds();
            proof {
                self.lemma_fails(w, s);
            }
            w
        }
    }

    /// The event that pins a symbolic value to a number, if the number is
    /// possible: `Ok(None)` if it is not.
    fn pin_weight(&self, sym: &PluckValue, concrete: &PluckValue) -> (r: Option<Option<FlipWeight>>)
        requires
            values::is_head(*sym),
            values::is_head(*concrete),
        ensures
            r matches Some(Some(w)) ==> forall|a: Worlds, x: Model, cs: Seq<i32>|
                sym.at(a) is Some && concrete.at(a) is Some ==> #[trigger] semantics::pin(
                    sym.at(a)->0,
                    concrete.at(a)->0,
                    cs,
                    x,
                    0,
                ) == semantics::held(x, cs, w@),
            r matches Some(None) ==> forall|a: Worlds, x: Model, cs: Seq<i32>|
                sym.at(a) is Some && concrete.at(a) is Some ==> #[trigger] semantics::pin(
                    sym.at(a)->0,
                    concrete.at(a)->0,
                    cs,
                    x,
                    0,
                ) == Outcome::Fail,
            r is None <==> !weighed(*sym, *concrete),
    {
        match (sym, concrete) {
            (PluckValue::Probability(name), PluckValue::Native(NativeVal::Float(r))) => Some(
                Some(FlipWeight::ProbPin(*name, *r)),
            ),
            (PluckValue::Gamma { name, scale }, PluckValue::Native(NativeVal::Float(r))) => {
                if real_at_most(*r, ZERO) {
                    Some(None)
                } else {
                    Some(Some(FlipWeight::RatePin { name: *name, value: *r, scale: *scale }))
                }
            },
            (
                PluckValue::Exponential { name, gamma, scale },
                PluckValue::Native(NativeVal::Float(r)),
            ) => {
                if real_below(*r, ZERO) {
                    Some(None)
                } else {
                    Some(
                        Some(
                            FlipWeight::ExpEq {
                                gamma: *gamma,
                                draw: *name,
                                value: *r,
                                scale: *scale,
                            },
                        ),
                    )
                }
            },
            (
                PluckValue::Poisson { name, gamma, scale },
                PluckValue::Native(NativeVal::Int(k)),
            ) => {
                if *k < 0 {
                    Some(None)
                } else {
                    Some(
                        Some(
                            FlipWeight::PoissonEq {
                                gamma: *gamma,
                                draw: *name,
                                count: *k as u64,
                                scale: *scale,
                            },
                        ),
                    )
                }
            },
            (
                PluckValue::GaussianExpr { constant, coefficients },
                PluckValue::Native(NativeVal::Float(r)),
            ) => {
                if coefficients.len() == 0 {
                    None
                } else {
                    Some(
                        Some(
                            FlipWeight::GaussianObs {
                                constant: *constant,
                                coefficients: clone_pairs(coefficients),
                                observed: *r,
                            },
                        ),
                    )
                }
            },
            _ => None,
        }
    }

    /// Pin a value to another one, neither of which is pinned part by part.
    #[verifier::rlimit(40)]
    pub(crate) fn pin_leaf(&mut self, sym: &PluckVal, concrete: &PluckVal) -> (r: Option<GuardedWorlds>)
        requires
            old(self).wf(),
            sym.over(old(self).vars()),
            concrete.over(old(self).vars()),
            values::is_head(**sym),
            values::is_head(**concrete),
            leafy(**sym, **concrete),
        ensures
            old(self).moved(final(self)),
            final(self).answers(r, leaf_pin(*sym, *concrete, old(self).state.callstack@)),
            r matches Some(w) ==> monad::all_true(w.0@, final(self).true_sym),
            verdict(**sym, **concrete) matches Some(b) ==> (r matches Some(w) && decided(w.0@, b)),
    {
        let ghost cs = self.state.callstack@;
        let ghost s = leaf_pin(*sym, *concrete, cs);
        proof {
            self.lemma_step_refl();
        }
        match self.pin_weight(sym, concrete) {
            Some(Some(weight)) => {
                return Some(self.pin_event(weight));
            },
            Some(None) => {
                let w: GuardedWorlds = program_error_worlds();
                proof {
                    self.lemma_fails(w, s);
                }
                return Some(w);
            },
            None => {},
        }
        match (&**sym, &**concrete) {
            (PluckValue::IntDist { bits: bs }, PluckValue::IntDist { bits: bc }) => {
                if bs.len() != bc.len() {
                    let w: GuardedWorlds = program_error_worlds();
                    proof {
                        self.lemma_fails(w, s);
                    }
                    return Some(w);
                }
                let x: IntDist = IntDist::new(clone_bits(bs));
                let y: IntDist = IntDist::new(clone_bits(bc));
                let eq: BooleanFunction = int_dist_eq(&x, &y, &self.state.factorizer);
                let w: GuardedWorlds = self.pin_holds_when(eq);
                proof {
                    assert forall|a: Worlds, m: Model| #[trigger]
                        self.allows(a, m) && s(a, m) is Some implies s(a, m) == Some(
                        semantics::holds(m, eq.eval(a)),
                    ) by {
                        assert(eq.eval(a) == (x.at(a) == y.at(a)));
                    }
                }
                Some(w)
            },
            (PluckValue::Native(m), PluckValue::Native(n)) => {
                let b: bool = native_equal(m, n);
                Some(self.pin_constant(b))
            },
            (
                PluckValue::GaussianExpr { constant, coefficients },
                PluckValue::Native(NativeVal::Float(r)),
            ) => {
                let off: u64 = compute(self.reals, RealOp::Difference, *constant, *r);
                let b: bool = real_smaller(off, TINY);
                let w: GuardedWorlds = self.pin_constant(b);
                proof {
                    assert forall|a: Worlds, m: Model| #[trigger]
                        self.allows(a, m) && s(a, m) is Some implies s(a, m) == Some(
                        semantics::holds(m, b),
                    ) by {
                        assert(coefficients@.len() == 0);
                    }
                }
                Some(w)
            },
            (
                PluckValue::DirichletProbability { .. },
                PluckValue::Native(NativeVal::Float(_)),
            ) => None,
            _ => {
                let w: GuardedWorlds = program_error_worlds();
                proof {
                    self.lemma_fails(w, s);
                }
                Some(w)
            },
        }
    }
}

/// A symbolic value and a number that it may be.
spec fn weighed(sym: PluckValue, concrete: PluckValue) -> bool {
    match (sym, concrete) {
        (PluckValue::Probability(_), PluckValue::Native(NativeVal::Float(_))) => true,
        (PluckValue::Gamma { .. }, PluckValue::Native(NativeVal::Float(_))) => true,
        (PluckValue::Exponential { .. }, PluckValue::Native(NativeVal::Float(_))) => true,
        (PluckValue::Poisson { .. }, PluckValue::Native(NativeVal::Int(_))) => true,
        (
            PluckValue::GaussianExpr { coefficients, .. },
            PluckValue::Native(NativeVal::Float(_)),
        ) => coefficients@.len() > 0,
        _ => false,
    }
}

} // verus!
