//! One sample of a value: every thunk in it is evaluated, and every symbolic
//! part is replaced by its sampled value.

use vstd::prelude::*;

use super::assignment;
use super::assignment::Assignment;
use super::lazy_kc::ctx;
use super::lazy_kc::ctx::{CompilerCtx, Sem};
use super::lazy_kc::floats::clone_shape;
use super::lazy_kc::kont;
use super::lazy_kc::monad;
use super::lazy_kc::monad::{GuardedWorlds, World};
use super::lazy_kc::semantics;
use super::lazy_kc::semantics::Model;
use super::lazy_kc::state::FlipWeight;
use super::sampling;
use super::sampling::{extend_constraint_over, select_world, SampleState};
use crate::discrete_factorizations as factorizations;
use crate::discrete_factorizations::{BooleanFunction, Worlds};
use crate::language::types::Symbol;
use crate::language::values;
use crate::language::values::{
    extract_nat, mk_float_matrix, mk_int_dist, mk_value, Datum, Outcome, PluckVal, PluckValue,
};
use crate::utils::reals::{Arithmetic, RealOp};

verus! {

/// What the sample of a value comes to.
pub enum Forced {
    /// A value without thunks and symbolic parts.
    Value(PluckVal),
    /// The program fails on the sampled path.
    Failed,
    /// A limit was reached.
    Limit,
    /// A continuous variable has no sampled value.
    Missing(u64),
    /// Thunks stand deeper in the values of thunks than was allowed.
    Unfinished,
}

/// A datum with every thunk in it evaluated, and every symbolic part
/// replaced by its value.
pub open spec fn realized(d: Datum, asg: Assignment, x: Model, f: nat) -> Outcome
    decreases f, d,
{
    match d {
        Datum::Thunk { .. } => if f == 0 {
            Outcome::Stuck
        } else {
            match semantics::force(d, x, f) {
                Outcome::Done(e) => realized(e, asg, x, (f - 1) as nat),
                o => o,
            }
        },
        Datum::Value { constructor, args } => match realized_all(args, asg, x, f) {
            Ok(ds) => Outcome::Done(Datum::Value { constructor, args: ds }),
            Err(o) => o,
        },
        Datum::Matrix { entries, shape } => match realized_all(entries, asg, x, f) {
            Ok(ds) => Outcome::Done(Datum::Matrix { entries: ds, shape }),
            Err(o) => o,
        },
        _ => match assignment::value_of(d, asg, x.yes, x.arith) {
            Some(Ok(e)) => Outcome::Done(e),
            Some(Err(_)) => Outcome::Stuck,
            None => Outcome::Done(d),
        },
    }
}

/// Data one after the other, up to the first that has no value.
pub open spec fn realized_all(s: Seq<Datum>, asg: Assignment, x: Model, f: nat) -> Result<
    Seq<Datum>,
    Outcome,
>
    decreases f, s,
{
    if s.len() == 0 {
        Ok(Seq::empty())
    } else {
        match realized_all(s.drop_last(), asg, x, f) {
            Ok(t) => match realized(s.last(), asg, x, f) {
                Outcome::Done(e) => Ok(t.push(e)),
                o => Err(o),
            },
            Err(o) => Err(o),
        }
    }
}

/// Going deeper changes nothing but where the limit was in the way.
pub proof fn lemma_realized_deeper(d: Datum, asg: Assignment, x: Model, f: nat, g: nat)
    requires
        f <= g,
    ensures
        semantics::kept(realized(d, asg, x, f), realized(d, asg, x, g)),
    decreases f, d,
{
    match d {
        Datum::Thunk { .. } => {
            if f > 0 {
                semantics::lemma_force_deeper(d, x, f, g);
                match semantics::force(d, x, f) {
                    Outcome::Done(e) => lemma_realized_deeper(
                        e,
                        asg,
                        x,
                        (f - 1) as nat,
                        (g - 1) as nat,
                    ),
                    _ => {},
                }
            }
        },
        Datum::Value { args, .. } => lemma_realized_all_deeper(args, asg, x, f, g),
        Datum::Matrix { entries, .. } => lemma_realized_all_deeper(entries, asg, x, f, g),
        _ => {},
    }
}

pub proof fn lemma_realized_all_deeper(s: Seq<Datum>, asg: Assignment, x: Model, f: nat, g: nat)
    requires
        f <= g,
    ensures
        realized_all(s, asg, x, f) == Err::<Seq<Datum>, Outcome>(Outcome::Stuck) || realized_all(
            s,
            asg,
            x,
            f,
        ) == realized_all(s, asg, x, g),
    decreases f, s,
{
    if s.len() > 0 {
        lemma_realized_all_deeper(s.drop_last(), asg, x, f, g);
        lemma_realized_deeper(s.last(), asg, x, f, g);
    }
}

/// The sample of a value.
pub open spec fn realizing(v: PluckVal, asg: Assignment) -> Sem {
    |a: Worlds, x: Model, f: nat|
        match v.at(a) {
            Some(d) => Some(realized(d, asg, x, f)),
            None => None,
        }
}

/// The samples of values one after the other end so, if they may go deep
/// enough.
pub open spec fn realize_all(s: Seq<Datum>, asg: Assignment, x: Model, r: Result<Seq<Datum>, Outcome>) -> bool {
    r != Err::<Seq<Datum>, Outcome>(Outcome::Stuck) && exists|f: nat| #[trigger]
        realized_all(s, asg, x, f) == r
}

/// What comes of the parts of a value.
enum Parts {
    Values(Vec<PluckVal>),
    Stopped(Forced),
}

impl<'a, F: Fn(RealOp, u64, u64) -> u64, G: Fn(usize, Vec<u64>) -> bool> CompilerCtx<'a, F, G> {
    /// What the sample of a value comes to where the constraint holds.
    pub open spec fn forced(&self, r: Forced, c: BooleanFunction, v: PluckVal, asg: Assignment, levels: usize) -> bool {
        let s = realizing(v, asg);
        match r {
            Forced::Value(w) => !self.state.hit_limit && self.landed(Some(w), c, s) && values::concrete(
                *w,
            ),
            Forced::Failed => !self.state.hit_limit && self.landed(None, c, s),
            Forced::Limit => self.state.hit_limit && self.landed(None, c, s),
            Forced::Missing(n) => !self.state.hit_limit && self.stuck(c, s) && lacks(asg, n),
            Forced::Unfinished => !self.state.hit_limit && self.short(c, s, levels as nat),
        }
    }

    /// Somewhere under the condition the evaluation goes deeper than that.
    pub open spec fn short(&self, c: BooleanFunction, s: Sem, f: nat) -> bool {
        exists|a: Worlds, x: Model| #[trigger]
            self.allows(a, x) && c.eval(a) && s(a, x, f) == Some(Outcome::Stuck)
    }

    /// The parts come to the values where the constraint holds.
    pub open spec fn parts_give(
        &self,
        parts: Seq<PluckVal>,
        got: Seq<PluckVal>,
        c: BooleanFunction,
        asg: Assignment,
    ) -> bool {
        forall|a: Worlds, x: Model| #[trigger]
            self.allows(a, x) && c.eval(a) && values::all_at(parts, a) is Some ==> values::all_at(
                got,
                a,
            ) is Some && realize_all(
                values::all_at(parts, a)->0,
                asg,
                x,
                Ok(values::all_at(got, a)->0),
            )
    }

    /// One of the parts stops the sample.
    pub open spec fn parts_stop(
        &self,
        r: Forced,
        parts: Seq<PluckVal>,
        c: BooleanFunction,
        asg: Assignment,
        levels: usize,
    ) -> bool {
        match r {
            Forced::Value(_) => false,
            Forced::Failed => !self.state.hit_limit && forall|a: Worlds, x: Model| #[trigger]
                self.allows(a, x) && c.eval(a) && values::all_at(parts, a) is Some ==> realize_all(
                    values::all_at(parts, a)->0,
                    asg,
                    x,
                    Err(Outcome::Fail),
                ),
            Forced::Limit => self.state.hit_limit && self.parts_stuck(parts, c, asg, self.fuel()),
            Forced::Missing(n) => !self.state.hit_limit && self.parts_stuck(parts, c, asg, self.fuel()) && lacks(
                asg,
                n,
            ),
            Forced::Unfinished => !self.state.hit_limit && self.parts_stuck(
                parts,
                c,
                asg,
                levels as nat,
            ),
        }
    }

    /// Somewhere under the condition a part cannot be evaluated that deep.
    pub open spec fn parts_stuck(
        &self,
        parts: Seq<PluckVal>,
        c: BooleanFunction,
        asg: Assignment,
        f: nat,
    ) -> bool {
        exists|a: Worlds, x: Model| #[trigger]
            self.allows(a, x) && c.eval(a) && values::all_at(parts, a) is Some && realized_all(
                values::all_at(parts, a)->0,
                asg,
                x,
                f,
            ) == Err::<Seq<Datum>, Outcome>(Outcome::Stuck)
    }

    /// The values of parts are kept when more is known and settled.
    proof fn lemma_parts_kept(
        &self,
        next: &Self,
        parts: Seq<PluckVal>,
        got: Seq<PluckVal>,
        c: BooleanFunction,
        d: BooleanFunction,
        asg: Assignment,
    )
        requires
            self.step(next),
            sampling::narrows(c, d),
            self.parts_give(parts, got, c, asg),
        ensures
            next.parts_give(parts, got, d, asg),
    {
        assert forall|a: Worlds, x: Model| #[trigger]
            next.allows(a, x) && d.eval(a) && values::all_at(parts, a) is Some implies values::all_at(
            got,
            a,
        ) is Some && realize_all(
            values::all_at(parts, a)->0,
            asg,
            x,
            Ok(values::all_at(got, a)->0),
        ) by {
            assert(next.state.fits(a, x));
            assert(self.allows(a, x));
            assert(c.eval(a));
        }
    }

    /// One more part comes to a value.
    proof fn lemma_parts_push(
        &self,
        parts: Seq<PluckVal>,
        got: Seq<PluckVal>,
        v: PluckVal,
        w: PluckVal,
        c: BooleanFunction,
        asg: Assignment,
    )
        requires
            self.parts_give(parts, got, c, asg),
            self.gives(w, c, realizing(v, asg)),
        ensures
            self.parts_give(parts.push(v), got.push(w), c, asg),
    {
        let s = realizing(v, asg);
        let (ps, gs) = (parts.push(v), got.push(w));
        assert(ps.drop_last() =~= parts);
        assert(gs.drop_last() =~= got);
        assert forall|a: Worlds, x: Model| #[trigger]
            self.allows(a, x) && c.eval(a) && values::all_at(ps, a) is Some implies values::all_at(gs, a) is Some
            && realize_all(values::all_at(ps, a)->0, asg, x, Ok(values::all_at(gs, a)->0)) by {
            let ds = values::all_at(parts, a)->0;
            let d = v.at(a)->0;
            assert(s(a, x, 0) is Some);
            assert(ctx::reached(s, a, x, Outcome::Done(w.at(a)->0)));
            let f = choose|f: nat| #[trigger] s(a, x, f) == Some(Outcome::Done(w.at(a)->0));
            let rest = Ok::<Seq<Datum>, Outcome>(values::all_at(got, a)->0);
            assert(realize_all(ds, asg, x, rest));
            let g = choose|g: nat| #[trigger] realized_all(ds, asg, x, g) == rest;
            let m = if f <= g {
                g
            } else {
                f
            };
            lemma_realized_all_deeper(ds, asg, x, g, m);
            lemma_realized_deeper(d, asg, x, f, m);
            assert(ds.push(d).drop_last() =~= ds);
            assert(realized_all(ds.push(d), asg, x, m) == Ok::<Seq<Datum>, Outcome>(
                values::all_at(gs, a)->0,
            ));
        }
    }

    /// A part that stops the sample after others that do not.
    proof fn lemma_parts_stop(
        &self,
        parts: Seq<PluckVal>,
        i: int,
        got: Seq<PluckVal>,
        r: Forced,
        c: BooleanFunction,
        asg: Assignment,
        levels: usize,
    )
        requires
            0 <= i < parts.len(),
            self.parts_give(parts.take(i), got, c, asg),
            !(r is Value),
            self.forced(r, c, parts[i], asg, levels),
            forall|a: Worlds, x: Model| #[trigger]
                self.allows(a, x) && c.eval(a) ==> values::all_at(parts, a) is Some,
        ensures
            self.parts_stop(r, parts, c, asg, levels),
    {
        let s = realizing(parts[i], asg);
        match r {
            Forced::Failed => {
                assert forall|a: Worlds, x: Model| #[trigger]
                    self.allows(a, x) && c.eval(a) && values::all_at(parts, a) is Some implies realize_all(
                    values::all_at(parts, a)->0,
                    asg,
                    x,
                    Err(Outcome::Fail),
                ) by {
                    let all = values::all_at(parts, a)->0;
                    values::lemma_all_at(parts, a);
                    lemma_prefix_at(parts, i, a);
                    assert(s(a, x, 0) is Some);
                    assert(ctx::reached(s, a, x, Outcome::Fail));
                    let f = choose|f: nat| #[trigger] s(a, x, f) == Some(Outcome::Fail);
                    let rest = Ok::<Seq<Datum>, Outcome>(values::all_at(got, a)->0);
                    assert(realize_all(all.take(i), asg, x, rest));
                    let g = choose|g: nat| #[trigger] realized_all(all.take(i), asg, x, g) == rest;
                    let m = if f <= g {
                        g
                    } else {
                        f
                    };
                    lemma_realized_all_deeper(all.take(i), asg, x, g, m);
                    lemma_realized_deeper(all[i], asg, x, f, m);
                    lemma_stopped(all, i, asg, x, m, Outcome::Fail);
                    assert(realized_all(all, asg, x, m) == Err::<Seq<Datum>, Outcome>(Outcome::Fail));
                }
            },
            _ => {
                let n: nat = if r is Unfinished {
                    levels as nat
                } else {
                    self.fuel()
                };
                let (a, x) = choose|a: Worlds, x: Model| #[trigger]
                    self.allows(a, x) && c.eval(a) && s(a, x, n) == Some(Outcome::Stuck);
                let all = values::all_at(parts, a)->0;
                values::lemma_all_at(parts, a);
                lemma_prefix_at(parts, i, a);
                let rest = Ok::<Seq<Datum>, Outcome>(values::all_at(got, a)->0);
                assert(realize_all(all.take(i), asg, x, rest));
                let g = choose|g: nat| #[trigger] realized_all(all.take(i), asg, x, g) == rest;
                if n <= g {
                    lemma_realized_all_deeper(all.take(i), asg, x, n, g);
                } else {
                    lemma_realized_all_deeper(all.take(i), asg, x, g, n);
                }
                lemma_stopped(all, i, asg, x, n, Outcome::Stuck);
                assert(self.parts_stuck(parts, c, asg, n));
            },
        }
    }

    /// The parts of a value, one after the other.
    #[verifier::rlimit(40)]
    fn force_parts<C: Fn(FlipWeight) -> bool>(
        &mut self,
        parts: &Vec<PluckVal>,
        st: &mut SampleState,
        asg: &Assignment,
        levels: usize,
        coin: &C,
    ) -> (r: Parts)
        requires
            old(self).wf(),
            !old(self).state.hit_limit,
            old(self).drawing(*old(st)),
            values::all_over(parts@, old(self).vars()),
            forall|a: Worlds, x: Model| #[trigger]
                old(self).allows(a, x) && old(st).constraint.eval(a) ==> values::all_at(parts@, a) is Some,
            sampling::tossed(*coin),
        ensures
            old(self).step(final(self)),
            final(self).drawing(*final(st)),
            sampling::narrows(old(st).constraint, final(st).constraint),
            sampling::drawn_by(
                final(self).state,
                old(st).constraint,
                final(st).constraint,
                *coin,
            ),
            match r {
                Parts::Values(got) => {
                    &&& !final(self).state.hit_limit
                    &&& values::all_over(got@, final(self).vars())
                    &&& got@.len() == parts@.len()
                    &&& forall|i: int| 0 <= i < got@.len() ==> values::is_head(*(#[trigger] got@[i]))
                    &&& values::all_concrete(got@)
                    &&& final(self).parts_give(parts@, got@, final(st).constraint, *asg)
                },
                Parts::Stopped(o) => final(self).parts_stop(
                    o,
                    parts@,
                    final(st).constraint,
                    *asg,
                    levels,
                ),
            },
        decreases levels, 1nat, parts,
    {
        let ghost start = *self;
        let ghost before = *st;
        let mut got: Vec<PluckVal> = Vec::new();
        let mut i: usize = 0;
        proof {
            self.lemma_step_refl();
            assert(parts@.take(0) =~= Seq::<PluckVal>::empty());
            assert(got@ =~= Seq::<PluckVal>::empty());
            assert forall|a: Worlds, x: Model| #[trigger]
                self.allows(a, x) && st.constraint.eval(a) && values::all_at(parts@.take(0), a) is Some implies values::all_at(
                got@,
                a,
            ) is Some && realize_all(
                values::all_at(parts@.take(0), a)->0,
                *asg,
                x,
                Ok(values::all_at(got@, a)->0),
            ) by {
                assert(realized_all(Seq::<Datum>::empty(), *asg, x, 0) == Ok::<Seq<Datum>, Outcome>(
                    Seq::<Datum>::empty(),
                ));
            }
        }
        while i < parts.len()
            invariant
                i <= parts@.len(),
                start == *old(self),
                before == *old(st),
                start.step(self),
                !self.state.hit_limit,
                self.drawing(*st),
                sampling::narrows(before.constraint, st.constraint),
                values::all_over(parts@, start.vars()),
                forall|a: Worlds, x: Model| #[trigger]
                    start.allows(a, x) && before.constraint.eval(a) ==> values::all_at(parts@, a) is Some,
                sampling::tossed(*coin),
                got@.len() == i,
                values::all_over(got@, self.vars()),
                forall|j: int| 0 <= j < got@.len() ==> values::is_head(*(#[trigger] got@[j])),
                values::all_concrete(got@),
                sampling::drawn_by(self.state, before.constraint, st.constraint, *coin),
                self.parts_give(parts@.take(i as int), got@, st.constraint, *asg),
            decreases parts@.len() - i,
        {
            let ghost now = *self;
            let ghost here = *st;
            let ghost had = got@;
            proof {
                values::lemma_all_over(parts@, start.vars());
                assert(parts@[i as int].over(start.vars()));
                let v = parts@[i as int];
                values::lemma_over_grows(&*v, start.vars(), self.vars());
                assert forall|a: Worlds, x: Model| #[trigger]
                    self.allows(a, x) && st.constraint.eval(a) implies v.at(a) is Some && values::all_at(
                    parts@,
                    a,
                ) is Some by {
                    assert(self.state.fits(a, x));
                    assert(start.allows(a, x));
                    assert(before.constraint.eval(a));
                    values::lemma_all_at(parts@, a);
                }
            }
            let one: Forced = self.force_value(&parts[i], st, asg, levels, coin);
            proof {
                start.lemma_step_trans(&now, self);
                sampling::lemma_drawn_on(
                    now.state,
                    self.state,
                    before.constraint,
                    here.constraint,
                    st.constraint,
                    *coin,
                );
                now.lemma_parts_kept(
                    self,
                    parts@.take(i as int),
                    had,
                    here.constraint,
                    st.constraint,
                    *asg,
                );
                assert forall|a: Worlds| #[trigger] st.constraint.eval(a) implies before.constraint.eval(a) by {
                    assert(here.constraint.eval(a));
                }
                assert forall|a: Worlds, x: Model| #[trigger]
                    self.allows(a, x) && st.constraint.eval(a) implies values::all_at(parts@, a) is Some by {
                    assert(self.state.fits(a, x));
                    assert(start.allows(a, x));
                    assert(before.constraint.eval(a));
                }
            }
            match one {
                Forced::Value(w) => {
                    proof {
                        values::lemma_all_over_grows(had, now.vars(), self.vars());
                    }
                    got.push(w);
                    proof {
                        assert(got@.drop_last() =~= had);
                        let v = parts@[i as int];
                        self.lemma_parts_push(
                            parts@.take(i as int),
                            had,
                            v,
                            w,
                            st.constraint,
                            *asg,
                        );
                        assert(parts@.take(i + 1) =~= parts@.take(i as int).push(v));
                        assert(got@ =~= had.push(w));
                    }
                },
                stop => {
                    proof {
                        self.lemma_parts_stop(
                            parts@,
                            i as int,
                            had,
                            stop,
                            st.constraint,
                            *asg,
                            levels,
                        );
                    }
                    return Parts::Stopped(stop);
                },
            }
            i = i + 1;
        }
        proof {
            assert(parts@.take(parts@.len() as int) =~= parts@);
        }
        Parts::Values(got)
    }

    /// Settle the bits of an integer.
    fn settle_bits<C: Fn(FlipWeight) -> bool>(&self, bits: &Vec<BooleanFunction>, st: &mut SampleState, coin: &C) -> (r:
        Vec<BooleanFunction>)
        requires
            self.wf(),
            self.drawing(*old(st)),
            values::bits_over(bits@, self.vars()),
            sampling::tossed(*coin),
        ensures
            self.drawing(*final(st)),
            sampling::narrows(old(st).constraint, final(st).constraint),
            sampling::drawn_by(self.state, old(st).constraint, final(st).constraint, *coin),
            r@.len() == bits@.len(),
            forall|i: int| 0 <= i < r@.len() ==> (#[trigger] r@[i]) is True || r@[i] is False,
            forall|a: Worlds| #[trigger]
                final(st).constraint.eval(a) ==> values::bits_at(r@, a) == values::bits_at(bits@, a),
    {
        let ghost before = *st;
        let mut out: Vec<BooleanFunction> = Vec::new();
        let mut i: usize = 0;
        proof {
            self.lemma_step_refl();
        }
        while i < bits.len()
            invariant
                i <= bits@.len(),
                before == *old(st),
                self.wf(),
                self.step(self),
                self.drawing(*st),
                values::bits_over(bits@, self.vars()),
                sampling::tossed(*coin),
                sampling::narrows(before.constraint, st.constraint),
                sampling::drawn_by(self.state, before.constraint, st.constraint, *coin),
                out@.len() == i,
                forall|j: int| 0 <= j < i ==> (#[trigger] out@[j]) is True || out@[j] is False,
                forall|a: Worlds, j: int|
                    st.constraint.eval(a) && 0 <= j < i ==> #[trigger] out@[j].eval(a) == bits@[j].eval(a),
            decreases bits@.len() - i,
        {
            let ghost here = *st;
            let ghost g = bits@[i as int];
            assert(bits@[i as int].wf(self.vars()));
            extend_constraint_over(&self.state, &mut st.constraint, &bits[i], coin);
            proof {
                self.lemma_memo_kept(self, here.memo@, here.constraint, st.constraint);
                sampling::lemma_drawn_on(
                    self.state,
                    self.state,
                    before.constraint,
                    here.constraint,
                    st.constraint,
                    *coin,
                );
                sampling::lemma_determined(st.constraint, &g);
                factorizations::lemma_is_false(&st.constraint, self.vars());
            }
            let known: bool = match self.state.implies(&st.constraint, &bits[i]) {
                Some(b) => b,
                None => false,
            };
            let ghost had = out@;
            out.push(
                if known {
                    BooleanFunction::true_ptr()
                } else {
                    BooleanFunction::false_ptr()
                },
            );
            proof {
                assert forall|a: Worlds, j: int|
                    st.constraint.eval(a) && 0 <= j < i + 1 implies #[trigger] out@[j].eval(a)
                    == bits@[j].eval(a) by {
                    assert(here.constraint.eval(a));
                    if j < i {
                        assert(out@[j] == had[j]);
                    } else {
                        assert(g.eval(a) == known);
                    }
                }
                assert forall|j: int| 0 <= j < i + 1 implies (#[trigger] out@[j]) is True || out@[j] is False by {
                    if j < i {
                        assert(out@[j] == had[j]);
                    }
                }
            }
            i = i + 1;
        }
        proof {
            assert forall|a: Worlds| #[trigger] st.constraint.eval(a) implies values::bits_at(out@, a)
                == values::bits_at(bits@, a) by {
                assert(values::bits_at(out@, a) =~= values::bits_at(bits@, a));
            }
        }
        out
    }

    /// A value that is there already, or stands for one.
    proof fn lemma_forced_value(&self, w: PluckVal, v: PluckVal, c: BooleanFunction, asg: Assignment)
        requires
            !self.state.hit_limit,
            w.over(self.vars()),
            values::is_head(*w),
            forall|a: Worlds, x: Model| #[trigger]
                self.allows(a, x) && c.eval(a) && v.at(a) is Some ==> w.at(a) is Some && realized(
                    v.at(a)->0,
                    asg,
                    x,
                    0,
                ) == Outcome::Done(w.at(a)->0),
        ensures
            self.landed(Some(w), c, realizing(v, asg)),
    {
        self.lemma_landed_value(w, c, realizing(v, asg));
    }

    /// Force every thunk in `val` and resolve every symbolic leaf against the
    /// sampled world, returning a value with no thunks, unions or symbolic
    /// parts, whose integers are constants. `levels` bounds how deep thunks
    /// may stand in the values of thunks.
    #[verifier::rlimit(60)]
    pub fn force_value<C: Fn(FlipWeight) -> bool>(
        &mut self,
        val: &PluckVal,
        st: &mut SampleState,
        asg: &Assignment,
        levels: usize,
        coin: &C,
    ) -> (r: Forced)
        requires
            old(self).wf(),
            !old(self).state.hit_limit,
            old(self).drawing(*old(st)),
            val.over(old(self).vars()),
            old(self).total(old(st).constraint, realizing(*val, *asg)),
            sampling::tossed(*coin),
        ensures
            old(self).step(final(self)),
            final(self).drawing(*final(st)),
            sampling::narrows(old(st).constraint, final(st).constraint),
            sampling::drawn_by(
                final(self).state,
                old(st).constraint,
                final(st).constraint,
                *coin,
            ),
            final(self).forced(r, final(st).constraint, *val, *asg, levels),
        decreases levels, 1nat, val,
    {
        let ghost start = *self;
        let ghost before = *st;
        let ghost s = realizing(*val, *asg);
        proof {
            self.lemma_step_refl();
        }
        match &**val {
            PluckValue::Thunk(_) => self.force_thunk(val, st, asg, levels, coin),
            PluckValue::ThunkUnion(u) => {
                proof {
                    assert forall|a: Worlds| #[trigger] st.constraint.eval(a) implies values::pick(
                        u.thunks@,
                        a,
                    ) != Outcome::Stuck by {
                        let x = self.lemma_some_model(a);
                        assert(self.allows(a, x));
                        assert(s(a, x, 0) is Some);
                    }
                    values::lemma_entries_over(u.thunks@, self.vars());
                }
                let chosen: Option<PluckVal> = select_world(
                    &self.state,
                    &mut st.constraint,
                    &u.thunks,
                    coin,
                );
                let ghost after = *st;
                proof {
                    self.lemma_memo_kept(self, before.memo@, before.constraint, st.constraint);
                }
                match chosen {
                    None => {
                        proof {
                            assert forall|a: Worlds| #[trigger] st.constraint.eval(a) implies false by {
                                assert(before.constraint.eval(a));
                                let x = self.lemma_some_model(a);
                                assert(self.allows(a, x));
                                assert(s(a, x, 0) is Some);
                            }
                        }
                        Forced::Failed
                    },
                    Some(v) => {
                        proof {
                            let i = choose|i: int|
                                0 <= i < u.thunks@.len() && (#[trigger] u.thunks@[i]).0 == v;
                            assert(u.thunks@[i].0.over(self.vars()));
                            assert(decreases_to!(u.thunks@ => u.thunks@[i]));
                            assert(decreases_to!(val => u.thunks@[i].0));
                            let t = realizing(v, *asg);
                            assert forall|a: Worlds, x: Model| #[trigger]
                                self.allows(a, x) && st.constraint.eval(a) implies t(a, x, 0) is Some by {
                                assert(v.at(a) is Some);
                            }
                        }
                        let r: Forced = self.force_value(&v, st, asg, levels, coin);
                        proof {
                            sampling::lemma_drawn_on(
                                start.state,
                                self.state,
                                before.constraint,
                                after.constraint,
                                st.constraint,
                                *coin,
                            );
                            assert forall|a: Worlds| #[trigger] st.constraint.eval(a) implies before.constraint.eval(
                                a,
                            ) by {
                                assert(after.constraint.eval(a));
                            }
                            self.lemma_chosen_forced(
                                *val,
                                v,
                                r,
                                after.constraint,
                                st.constraint,
                                *asg,
                                levels,
                            );
                        }
                        r
                    },
                }
            },
            PluckValue::Value { constructor, args } => {
                proof {
                    assert forall|a: Worlds, x: Model| #[trigger]
                        self.allows(a, x) && st.constraint.eval(a) implies values::all_at(args@, a) is Some by {
                        assert(s(a, x, 0) is Some);
                    }
                }
                match self.force_parts(args, st, asg, levels, coin) {
                    Parts::Values(got) => {
                        let ghost seen = got@;
                        let w: PluckVal = mk_value(*constructor, got);
                        proof {
                            let c = st.constraint;
                            assert forall|a: Worlds, x: Model| #[trigger]
                                self.allows(a, x) && c.eval(a) && s(a, x, 0) is Some implies w.at(a) is Some
                                && ctx::reached(s, a, x, Outcome::Done(w.at(a)->0)) by {
                                let ds = values::all_at(args@, a)->0;
                                let es = values::all_at(seen, a)->0;
                                assert(realize_all(ds, *asg, x, Ok(es)));
                                let f = choose|f: nat| #[trigger]
                                    realized_all(ds, *asg, x, f) == Ok::<Seq<Datum>, Outcome>(es);
                                assert(s(a, x, f) == Some(Outcome::Done(w.at(a)->0)));
                            }
                        }
                        Forced::Value(w)
                    },
                    Parts::Stopped(stop) => {
                        proof {
                            let c = st.constraint;
                            if stop is Failed {
                                assert forall|a: Worlds, x: Model| #[trigger]
                                    self.allows(a, x) && c.eval(a) && s(a, x, 0) is Some implies ctx::reached(
                                    s,
                                    a,
                                    x,
                                    Outcome::Fail,
                                ) by {
                                    let ds = values::all_at(args@, a)->0;
                                    assert(realize_all(ds, *asg, x, Err(Outcome::Fail)));
                                    let f = choose|f: nat| #[trigger]
                                        realized_all(ds, *asg, x, f) == Err::<Seq<Datum>, Outcome>(
                                            Outcome::Fail,
                                        );
                                    assert(s(a, x, f) == Some(Outcome::Fail));
                                }
                            } else {
                                let n: nat = if stop is Unfinished {
                                    levels as nat
                                } else {
                                    self.fuel()
                                };
                                let (a, x) = choose|a: Worlds, x: Model| #[trigger]
                                    self.allows(a, x) && c.eval(a) && values::all_at(args@, a) is Some
                                        && realized_all(
                                        values::all_at(args@, a)->0,
                                        *asg,
                                        x,
                                        n,
                                    ) == Err::<Seq<Datum>, Outcome>(Outcome::Stuck);
                                assert(s(a, x, n) == Some(Outcome::Stuck));
                                assert(self.short(c, s, n));
                                if !(stop is Unfinished) {
                                    assert(self.stuck(c, s));
                                }
                            }
                        }
                        stop
                    },
                }
            },
            PluckValue::FloatMatrix { entries, shape } => {
                proof {
                    assert forall|a: Worlds, x: Model| #[trigger]
                        self.allows(a, x) && st.constraint.eval(a) implies values::all_at(entries@, a) is Some by {
                        assert(s(a, x, 0) is Some);
                    }
                }
                match self.force_parts(entries, st, asg, levels, coin) {
                    Parts::Values(got) => {
                        let ghost seen = got@;
                        let w: PluckVal = mk_float_matrix(got, clone_shape(shape));
                        proof {
                            let c = st.constraint;
                            assert forall|a: Worlds, x: Model| #[trigger]
                                self.allows(a, x) && c.eval(a) && s(a, x, 0) is Some implies w.at(a) is Some
                                && ctx::reached(s, a, x, Outcome::Done(w.at(a)->0)) by {
                                let ds = values::all_at(entries@, a)->0;
                                let es = values::all_at(seen, a)->0;
                                assert(realize_all(ds, *asg, x, Ok(es)));
                                let f = choose|f: nat| #[trigger]
                                    realized_all(ds, *asg, x, f) == Ok::<Seq<Datum>, Outcome>(es);
                                assert(s(a, x, f) == Some(Outcome::Done(w.at(a)->0)));
                            }
                        }
                        Forced::Value(w)
                    },
                    Parts::Stopped(stop) => {
                        proof {
                            let c = st.constraint;
                            if stop is Failed {
                                assert forall|a: Worlds, x: Model| #[trigger]
                                    self.allows(a, x) && c.eval(a) && s(a, x, 0) is Some implies ctx::reached(
                                    s,
                                    a,
                                    x,
                                    Outcome::Fail,
                                ) by {
                                    let ds = values::all_at(entries@, a)->0;
                                    assert(realize_all(ds, *asg, x, Err(Outcome::Fail)));
                                    let f = choose|f: nat| #[trigger]
                                        realized_all(ds, *asg, x, f) == Err::<Seq<Datum>, Outcome>(
                                            Outcome::Fail,
                                        );
                                    assert(s(a, x, f) == Some(Outcome::Fail));
                                }
                            } else {
                                let n: nat = if stop is Unfinished {
                                    levels as nat
                                } else {
                                    self.fuel()
                                };
                                let (a, x) = choose|a: Worlds, x: Model| #[trigger]
                                    self.allows(a, x) && c.eval(a) && values::all_at(entries@, a) is Some
                                        && realized_all(
                                        values::all_at(entries@, a)->0,
                                        *asg,
                                        x,
                                        n,
                                    ) == Err::<Seq<Datum>, Outcome>(Outcome::Stuck);
                                assert(s(a, x, n) == Some(Outcome::Stuck));
                                assert(self.short(c, s, n));
                                if !(stop is Unfinished) {
                                    assert(self.stuck(c, s));
                                }
                            }
                        }
                        stop
                    },
                }
            },
            PluckValue::IntDist { bits } => {
                let fixed: Vec<BooleanFunction> = self.settle_bits(bits, st, coin);
                let ghost seen = fixed@;
                let w: PluckVal = mk_int_dist(fixed);
                proof {
                    self.lemma_forced_value(w, *val, st.constraint, *asg);
                }
                Forced::Value(w)
            },
            _ => match val.force_symbolic(asg, self.true_sym, self.reals) {
                Some(Ok(w)) => {
                    proof {
                        lemma_symbol(*val);
                        assert(w.over(self.vars()));
                        assert forall|a: Worlds, x: Model| #[trigger]
                            self.allows(a, x) && st.constraint.eval(a) && val.at(a) is Some implies w.at(a) is Some
                            && realized(val.at(a)->0, *asg, x, 0) == Outcome::Done(w.at(a)->0) by {
                            assert(self.suits(x));
                        }
                        self.lemma_forced_value(w, *val, st.constraint, *asg);
                    }
                    Forced::Value(w)
                },
                Some(Err(n)) => {
                    proof {
                        lemma_symbol(*val);
                        factorizations::lemma_is_false(&st.constraint, self.vars());
                        let a = choose|a: Worlds| #[trigger] st.constraint.eval(a);
                        let x = self.lemma_some_model(a);
                        assert(self.suits(x));
                        assert(self.allows(a, x));
                        assert(s(a, x, self.fuel()) == Some(Outcome::Stuck));
                        assert(self.stuck(st.constraint, s));
                        assert(assignment::value_of(
                            values::symbol_of(**val)->0,
                            *asg,
                            x.yes,
                            x.arith,
                        ) == Some(Err::<Datum, u64>(n)));
                    }
                    Forced::Missing(n)
                },
                None => {
                    proof {
                        assert forall|a: Worlds, x: Model| #[trigger]
                            self.allows(a, x) && st.constraint.eval(a) && val.at(a) is Some implies val.at(
                            a,
                        ) is Some && realized(val.at(a)->0, *asg, x, 0) == Outcome::Done(val.at(a)->0) by {}
                        self.lemma_forced_value(*val, *val, st.constraint, *asg);
                    }
                    Forced::Value(val.clone())
                },
            },
        }
    }

    /// What the chosen part of a union comes to, the union does.
    proof fn lemma_chosen_forced(
        &self,
        val: PluckVal,
        v: PluckVal,
        r: Forced,
        c: BooleanFunction,
        d: BooleanFunction,
        asg: Assignment,
        levels: usize,
    )
        requires
            self.forced(r, d, v, asg, levels),
            sampling::narrows(c, d),
            forall|a: Worlds| #[trigger] c.eval(a) ==> v.at(a) is Some && v.at(a) == val.at(a),
        ensures
            self.forced(r, d, val, asg, levels),
    {
        let s = realizing(v, asg);
        let t = realizing(val, asg);
        assert forall|a: Worlds, x: Model, f: nat| d.eval(a) implies #[trigger] t(a, x, f) == s(a, x, f) by {
            assert(c.eval(a));
        }
        assert forall|f: nat| #[trigger] self.short(d, s, f) implies self.short(d, t, f) by {
            let (a, x) = choose|a: Worlds, x: Model| #[trigger]
                self.allows(a, x) && d.eval(a) && s(a, x, f) == Some(Outcome::Stuck);
            assert(t(a, x, f) == Some(Outcome::Stuck));
        }
        assert(self.stuck(d, s) ==> self.short(d, s, self.fuel()));
        assert(self.short(d, t, self.fuel()) ==> self.stuck(d, t));
        assert forall|a: Worlds, x: Model, o: Outcome|
            d.eval(a) && #[trigger] ctx::reached(s, a, x, o) implies ctx::reached(t, a, x, o) by {
            let f = choose|f: nat| #[trigger] s(a, x, f) == Some(o);
            assert(t(a, x, f) == Some(o));
        }
        assert forall|a: Worlds, x: Model| #[trigger]
            self.allows(a, x) && d.eval(a) && t(a, x, 0) is Some implies s(a, x, 0) is Some by {
            assert(t(a, x, 0) == s(a, x, 0));
        }
    }

    /// Evaluate a thunk, and then force its value.
    #[verifier::rlimit(40)]
    fn force_thunk<C: Fn(FlipWeight) -> bool>(
        &mut self,
        val: &PluckVal,
        st: &mut SampleState,
        asg: &Assignment,
        levels: usize,
        coin: &C,
    ) -> (r: Forced)
        requires
            old(self).wf(),
            **val is Thunk,
            !old(self).state.hit_limit,
            old(self).drawing(*old(st)),
            val.over(old(self).vars()),
            old(self).total(old(st).constraint, realizing(*val, *asg)),
            sampling::tossed(*coin),
        ensures
            old(self).step(final(self)),
            final(self).drawing(*final(st)),
            sampling::narrows(old(st).constraint, final(st).constraint),
            sampling::drawn_by(
                final(self).state,
                old(st).constraint,
                final(st).constraint,
                *coin,
            ),
            final(self).forced(r, final(st).constraint, *val, *asg, levels),
        decreases levels, 0nat, val,
    {
        let ghost start = *self;
        let ghost before = *st;
        let ghost s = realizing(*val, *asg);
        let ghost t = ctx::forcing(*val);
        proof {
            self.lemma_step_refl();
        }
        if levels == 0 {
            proof {
                factorizations::lemma_is_false(&st.constraint, self.vars());
                let a = choose|a: Worlds| #[trigger] st.constraint.eval(a);
                let x = self.lemma_some_model(a);
                assert(self.allows(a, x));
                assert(s(a, x, 0) is Some);
                assert(s(a, x, 0) == Some(Outcome::Stuck));
                assert(self.short(st.constraint, s, 0));
            }
            return Forced::Unfinished;
        }
        proof {
            assert forall|a: Worlds, x: Model| #[trigger]
                self.allows(a, x) && st.constraint.eval(a) implies t(a, x, 0) is Some by {
                assert(s(a, x, 0) is Some);
            }
        }
        let one: Option<PluckVal> = self.sample_thunk(val, st, coin);
        let ghost mid = *self;
        let ghost between = *st;
        proof {
            start.lemma_total_narrower(before.constraint, between.constraint, s);
            start.lemma_total_grows(self, between.constraint, s);
        }
        if self.state.hit_limit {
            proof {
                self.lemma_force_stuck(*val, st.constraint, *asg);
            }
            return Forced::Limit;
        }
        match one {
            None => {
                proof {
                    self.lemma_force_failed(*val, st.constraint, *asg);
                }
                Forced::Failed
            },
            Some(v) => {
                proof {
                    let u = realizing(v, *asg);
                    assert forall|a: Worlds, x: Model| #[trigger]
                        self.allows(a, x) && st.constraint.eval(a) implies u(a, x, 0) is Some by {
                        assert(s(a, x, 0) is Some);
                        assert(t(a, x, 0) is Some);
                    }
                }
                let r: Forced = self.force_value(&v, st, asg, levels - 1, coin);
                proof {
                    start.lemma_step_trans(&mid, self);
                    sampling::lemma_drawn_on(
                        mid.state,
                        self.state,
                        before.constraint,
                        between.constraint,
                        st.constraint,
                        *coin,
                    );
                    assert forall|a: Worlds| #[trigger] st.constraint.eval(a) implies before.constraint.eval(a) by {
                        assert(between.constraint.eval(a));
                    }
                    mid.lemma_gives_kept(self, v, between.constraint, st.constraint, t);
                    mid.lemma_total_narrower(between.constraint, st.constraint, s);
                    mid.lemma_total_grows(self, st.constraint, s);
                    self.lemma_force_on(*val, v, r, st.constraint, *asg, levels);
                }
                r
            },
        }
    }

    /// Where the evaluation of a value meets the limit, its sample does.
    proof fn lemma_force_stuck(&self, val: PluckVal, c: BooleanFunction, asg: Assignment)
        requires
            self.stuck(c, ctx::forcing(val)),
        ensures
            self.stuck(c, realizing(val, asg)),
    {
        let s = realizing(val, asg);
        let t = ctx::forcing(val);
        let (a, x) = choose|a: Worlds, x: Model| #[trigger]
            self.allows(a, x) && c.eval(a) && t(a, x, self.fuel()) == Some(Outcome::Stuck);
        lemma_force_head(val.at(a)->0, x, self.fuel());
        assert(s(a, x, self.fuel()) == Some(Outcome::Stuck));
    }

    proof fn lemma_force_failed(&self, val: PluckVal, c: BooleanFunction, asg: Assignment)
        requires
            !self.state.hit_limit,
            self.fails(c, ctx::forcing(val)),
        ensures
            self.landed(None, c, realizing(val, asg)),
    {
        let s = realizing(val, asg);
        let t = ctx::forcing(val);
        assert forall|a: Worlds, x: Model| #[trigger]
            self.allows(a, x) && c.eval(a) && s(a, x, 0) is Some implies ctx::reached(
            s,
            a,
            x,
            Outcome::Fail,
        ) by {
            assert(t(a, x, 0) is Some);
            assert(ctx::reached(t, a, x, Outcome::Fail));
            let f = choose|f: nat| #[trigger] t(a, x, f) == Some(Outcome::Fail);
            let d = val.at(a)->0;
            semantics::lemma_force_deeper(d, x, f, f + 1);
            lemma_force_head(d, x, f + 1);
            assert(s(a, x, f + 1) == Some(Outcome::Fail));
        }
    }

    /// What the value of a thunk comes to, the thunk does.
    #[verifier::rlimit(40)]
    proof fn lemma_force_on(
        &self,
        val: PluckVal,
        v: PluckVal,
        r: Forced,
        c: BooleanFunction,
        asg: Assignment,
        levels: usize,
    )
        requires
            self.total(c, realizing(val, asg)),
            self.gives(v, c, ctx::forcing(val)),
            *val is Thunk,
            levels > 0,
            self.forced(r, c, v, asg, (levels - 1) as usize),
        ensures
            self.forced(r, c, val, asg, levels),
    {
        let s = realizing(val, asg);
        let u = realizing(v, asg);
        let t = ctx::forcing(val);
        assert forall|a: Worlds, x: Model| #[trigger] self.allows(a, x) && c.eval(a) implies s(a, x, 0) is Some
            && u(a, x, 0) is Some && v.at(a) is Some && ctx::reached(t, a, x, Outcome::Done(v.at(a)->0)) by {
            assert(s(a, x, 0) is Some);
            assert(t(a, x, 0) is Some);
        }
        if self.stuck(c, u) {
            let (a, x) = choose|a: Worlds, x: Model| #[trigger]
                self.allows(a, x) && c.eval(a) && u(a, x, self.fuel()) == Some(Outcome::Stuck);
            let n = self.fuel();
            let (d, e) = (val.at(a)->0, v.at(a)->0);
            kont::lemma_forcing_sound(val);
            ctx::lemma_reached(t, a, x, Outcome::Done(e), n);
            lemma_force_head(d, x, n);
            if semantics::force(d, x, n) == Outcome::Done(e) && d is Thunk && n > 0 {
                lemma_realized_deeper(e, asg, x, (n - 1) as nat, n);
            }
            assert(s(a, x, n) == Some(Outcome::Stuck));
            assert(self.stuck(c, s));
        }
        assert forall|a: Worlds, x: Model, o: Outcome| #[trigger]
            self.allows(a, x) && c.eval(a) && #[trigger] ctx::reached(u, a, x, o) implies ctx::reached(
            s,
            a,
            x,
            o,
        ) by {
            let (d, e) = (val.at(a)->0, v.at(a)->0);
            assert(ctx::reached(t, a, x, Outcome::Done(e)));
            let f = choose|f: nat| #[trigger] t(a, x, f) == Some(Outcome::Done(e));
            let g = choose|g: nat| #[trigger] u(a, x, g) == Some(o);
            let m = if f <= g {
                g
            } else {
                f
            };
            semantics::lemma_force_deeper(d, x, f, m + 1);
            lemma_realized_deeper(e, asg, x, g, m);
            lemma_realized_deeper(e, asg, x, g, m + 1);
            lemma_force_head(d, x, m + 1);
            assert(s(a, x, m + 1) == Some(o));
        }
        match r {
            Forced::Unfinished => {
                let n = levels as nat;
                let (a, x) = choose|a: Worlds, x: Model| #[trigger]
                    self.allows(a, x) && c.eval(a) && u(a, x, (n - 1) as nat) == Some(Outcome::Stuck);
                let (d, e) = (val.at(a)->0, v.at(a)->0);
                kont::lemma_forcing_sound(val);
                ctx::lemma_reached(t, a, x, Outcome::Done(e), n);
                assert(s(a, x, n) == Some(Outcome::Stuck));
                assert(self.short(c, s, n));
            },
            Forced::Value(w) => {
                assert forall|a: Worlds, x: Model| #[trigger]
                    self.allows(a, x) && c.eval(a) && s(a, x, 0) is Some implies w.at(a) is Some
                    && ctx::reached(s, a, x, Outcome::Done(w.at(a)->0)) by {
                    assert(u(a, x, 0) is Some);
                    assert(ctx::reached(u, a, x, Outcome::Done(w.at(a)->0)));
                }
            },
            Forced::Failed => {
                assert forall|a: Worlds, x: Model| #[trigger]
                    self.allows(a, x) && c.eval(a) && s(a, x, 0) is Some implies ctx::reached(
                    s,
                    a,
                    x,
                    Outcome::Fail,
                ) by {
                    assert(u(a, x, 0) is Some);
                    assert(ctx::reached(u, a, x, Outcome::Fail));
                }
            },
            _ => {},
        }
    }
}

/// Some symbolic datum needs the variable, which has no value.
pub open spec fn lacks(asg: Assignment, n: u64) -> bool {
    exists|d: Datum, yes: Symbol, f: Arithmetic| #[trigger]
        assignment::value_of(d, asg, yes, f) == Some(Err::<Datum, u64>(n))
}

/// Only thunks are evaluated.
proof fn lemma_force_head(d: Datum, x: Model, f: nat)
    ensures
        !(d is Thunk) ==> semantics::force(d, x, f) == Outcome::Done(d),
        d is Thunk && f == 0 ==> semantics::force(d, x, f) == Outcome::Stuck,
{
}

/// The datum of a symbolic value is the same everywhere.
proof fn lemma_symbol(v: PluckVal)
    requires
        values::symbol_of(*v) is Some,
    ensures
        forall|a: Worlds| #[trigger] v.at(a) == values::symbol_of(*v),
        !(values::symbol_of(*v)->0 is Thunk),
        !(values::symbol_of(*v)->0 is Value),
        !(values::symbol_of(*v)->0 is Matrix),
{
}

proof fn lemma_prefix_at(s: Seq<PluckVal>, i: int, a: Worlds)
    requires
        0 <= i <= s.len(),
        values::all_at(s, a) is Some,
    ensures
        values::all_at(s.take(i), a) == Some(values::all_at(s, a)->0.take(i)),
    decreases s.len(),
{
    values::lemma_all_at(s, a);
    if i == s.len() {
        assert(s.take(i) =~= s);
        assert(values::all_at(s, a)->0.take(i) =~= values::all_at(s, a)->0);
    } else {
        lemma_prefix_at(s.drop_last(), i, a);
        values::lemma_all_at(s.drop_last(), a);
        assert(s.drop_last().take(i) =~= s.take(i));
        assert(values::all_at(s.drop_last(), a)->0.take(i) =~= values::all_at(s, a)->0.take(i));
    }
}

/// The first part that has no value decides.
proof fn lemma_stopped(s: Seq<Datum>, i: int, asg: Assignment, x: Model, f: nat, o: Outcome)
    requires
        0 <= i < s.len(),
        !(o is Done),
        realized(s[i], asg, x, f) == o,
        realized_all(s.take(i), asg, x, f) is Ok || realized_all(s.take(i), asg, x, f) == Err::<
            Seq<Datum>,
            Outcome,
        >(o),
    ensures
        realized_all(s, asg, x, f) == Err::<Seq<Datum>, Outcome>(o),
    decreases s.len(),
{
    if i == s.len() - 1 {
        assert(s.take(i) =~= s.drop_last());
    } else {
        assert(s.drop_last().take(i) =~= s.take(i));
        lemma_stopped(s.drop_last(), i, asg, x, f, o);
    }
}

/// No continuous variable has a value.
pub open spec fn blank(asg: Assignment) -> bool {
    asg.beta@.len() == 0 && asg.dirichlet@.len() == 0 && asg.gamma@.len() == 0
        && asg.gaussian@.len() == 0
}

impl<'a, F: Fn(RealOp, u64, u64) -> u64, G: Fn(usize, Vec<u64>) -> bool> CompilerCtx<'a, F, G> {
    /// The number that a sample of the value comes to, without any
    /// continuous variable; none, if it comes to something else.
    pub open spec fn counts(
        &self,
        v: PluckVal,
        o_sym: Symbol,
        s_sym: Symbol,
        levels: usize,
        n: Option<u64>,
    ) -> bool {
        exists|o: Forced, st: SampleState, asg: Assignment|
            blank(asg) && self.drawing(st) && #[trigger] self.forced(o, st.constraint, v, asg, levels)
                && n == (match o {
                Forced::Value(w) => values::nat_of(*w, o_sym, s_sym),
                _ => None,
            })
    }

    /// Extract a number of samples: the value is a native integer or a
    /// natural number without any random choice in it. None if it is
    /// something else, or cannot be evaluated within the limits.
    pub fn force_n_samples<C: Fn(FlipWeight) -> bool>(
        &mut self,
        n_thunk: &PluckVal,
        o_sym: Symbol,
        s_sym: Symbol,
        levels: usize,
        coin: &C,
    ) -> (r: Option<u64>)
        requires
            old(self).wf(),
            !old(self).state.hit_limit,
            n_thunk.over(old(self).vars()),
            forall|a: Worlds| #[trigger] n_thunk.at(a) is Some,
            sampling::tossed(*coin),
        ensures
            old(self).step(final(self)),
            final(self).counts(*n_thunk, o_sym, s_sym, levels, r),
    {
        let mut st: SampleState = SampleState::new(BooleanFunction::true_ptr());
        let asg: Assignment = Assignment {
            beta: Vec::new(),
            dirichlet: Vec::new(),
            gamma: Vec::new(),
            gaussian: Vec::new(),
        };
        proof {
            sampling::lemma_open_start(self.state, st.constraint);
        }
        let o: Forced = self.force_value(n_thunk, &mut st, &asg, levels, coin);
        let r: Option<u64> = match &o {
            Forced::Value(v) => extract_nat(v, o_sym, s_sym),
            _ => None,
        };
        proof {
            assert(self.forced(o, st.constraint, *n_thunk, asg, levels));
        }
        r
    }
}

/// A world whose value is `True`, and that can be the case.
pub open spec fn affirms(w: World, yes: Symbol) -> bool {
    &&& *w.0 matches PluckValue::Value { constructor, args } && constructor == yes && args@.len() == 0
    &&& w.1 != BooleanFunction::False
}

/// The guard of the first world whose value is `True`.
pub open spec fn first_true(s: Seq<World>, yes: Symbol) -> Option<BooleanFunction>
    decreases s.len(),
{
    if s.len() == 0 {
        None
    } else if affirms(s[0], yes) {
        Some(s[0].1)
    } else {
        first_true(s.skip(1), yes)
    }
}

/// The guard of the first world whose value is `True`.
pub fn find_evidence(worlds: &Vec<World>, true_sym: Symbol) -> (r: Option<BooleanFunction>)
    ensures
        r == first_true(worlds@, true_sym),
        r matches Some(g) ==> exists|i: int|
            0 <= i < worlds@.len() && affirms(#[trigger] worlds@[i], true_sym) && worlds@[i].1 == g,
{
    let mut i: usize = 0;
    assert(worlds@.skip(0) =~= worlds@);
    while i < worlds.len()
        invariant
            i <= worlds@.len(),
            first_true(worlds@, true_sym) == first_true(worlds@.skip(i as int), true_sym),
        decreases worlds@.len() - i,
    {
        assert(worlds@.skip(i as int)[0] == worlds@[i as int]);
        assert(worlds@.skip(i as int).skip(1) =~= worlds@.skip(i + 1));
        let yes: bool = match &*worlds[i].0 {
            PluckValue::Value { constructor, args } => *constructor == true_sym && args.len() == 0,
            _ => false,
        };
        if yes && !worlds[i].1.is_false() {
            assert(affirms(worlds@[i as int], true_sym));
            return Some(worlds[i].1.clone());
        }
        i = i + 1;
    }
    None
}

/// The samples of a query: how many are wanted, and the values of those that
/// were taken.
pub struct Samples {
    pub wanted: u64,
    pub kept: Vec<PluckVal>,
}

/// What is to be done after a step of sampling.
#[derive(Debug, Clone, Copy, PartialEq, Eq, Structural)]
pub enum Turn {
    /// Start another sample.
    Start,
    /// Draw the variable, and go on with the same sample.
    Draw(u64),
    /// There are as many samples as are wanted.
    Done,
    /// The program fails on the sampled path.
    Failed,
    /// A limit was reached.
    Limit,
    /// Thunks stand deeper in the values of thunks than was allowed.
    Unfinished,
}

impl Samples {
    /// There are no more samples than are wanted, and nothing in them is left
    /// open.
    pub open spec fn wf(&self) -> bool {
        &&& self.kept@.len() <= self.wanted
        &&& forall|i: int| 0 <= i < self.kept@.len() ==> values::concrete(*(#[trigger] self.kept@[i]))
    }

    /// Some sample is still to be taken.
    pub open spec fn open(&self) -> bool {
        self.kept@.len() < self.wanted
    }

    pub open spec fn next(&self) -> Turn {
        if self.open() {
            Turn::Start
        } else {
            Turn::Done
        }
    }

    /// No sample is taken yet.
    pub fn new(wanted: u64) -> (r: Samples)
        ensures
            r.wf(),
            r.wanted == wanted,
            r.kept@.len() == 0,
    {
        Samples { wanted, kept: Vec::new() }
    }

    /// What is to be done next, between samples.
    pub fn turn(&self) -> (r: Turn)
        requires
            self.wf(),
        ensures
            r == self.next(),
    {
        if (self.kept.len() as u64) < self.wanted {
            Turn::Start
        } else {
            Turn::Done
        }
    }

    /// Keep the value of a sample.
    pub fn keep(&mut self, v: PluckVal) -> (r: Turn)
        requires
            old(self).wf(),
            old(self).open(),
            values::concrete(*v),
        ensures
            final(self).wf(),
            final(self).wanted == old(self).wanted,
            final(self).kept@ == old(self).kept@.push(v),
            r == final(self).next(),
    {
        let ghost before = self.kept@;
        self.kept.push(v);
        proof {
            assert forall|i: int| 0 <= i < self.kept@.len() implies values::concrete(
                *(#[trigger] self.kept@[i]),
            ) by {
                if i < before.len() {
                    assert(self.kept@[i] == before[i]);
                }
            }
        }
        self.turn()
    }
}

/// When no sample is to be taken any more, there are as many as were wanted,
/// and nothing in them is left open.
pub proof fn lemma_all_samples(s: Samples)
    requires
        s.wf(),
        s.next() == Turn::Done,
    ensures
        s.kept@.len() == s.wanted,
        forall|i: int| 0 <= i < s.kept@.len() ==> values::concrete(*(#[trigger] s.kept@[i])),
{
}

/// What a step of sampling does with what a sample comes to.
pub open spec fn turned(o: Forced, before: Samples, after: Samples, r: Turn) -> bool {
    &&& after.wanted == before.wanted
    &&& match o {
        Forced::Value(v) => after.kept@ == before.kept@.push(v) && r == after.next(),
        Forced::Failed => after.kept@ == before.kept@ && r == Turn::Failed,
        Forced::Limit => after.kept@ == before.kept@ && r == Turn::Limit,
        Forced::Missing(n) => after.kept@ == before.kept@ && r == Turn::Draw(n),
        Forced::Unfinished => after.kept@ == before.kept@ && r == Turn::Unfinished,
    }
}

impl<'a, F: Fn(RealOp, u64, u64) -> u64, G: Fn(usize, Vec<u64>) -> bool> CompilerCtx<'a, F, G> {
    /// Take a sample of the query as far as the drawn variables allow, and
    /// keep its value. What is settled on the way stays settled in `st`, also
    /// where a variable is to be drawn before the sample can go on.
    pub fn sample_step<C: Fn(FlipWeight) -> bool>(
        &mut self,
        query: &PluckVal,
        st: &mut SampleState,
        asg: &Assignment,
        levels: usize,
        coin: &C,
        samples: &mut Samples,
    ) -> (r: Turn)
        requires
            old(self).wf(),
            !old(self).state.hit_limit,
            old(self).drawing(*old(st)),
            query.over(old(self).vars()),
            old(self).total(old(st).constraint, realizing(*query, *asg)),
            sampling::tossed(*coin),
            old(samples).wf(),
            old(samples).open(),
        ensures
            old(self).step(final(self)),
            final(self).drawing(*final(st)),
            sampling::narrows(old(st).constraint, final(st).constraint),
            sampling::drawn_by(
                final(self).state,
                old(st).constraint,
                final(st).constraint,
                *coin,
            ),
            final(samples).wf(),
            r is Done ==> final(samples).kept@.len() == old(samples).wanted && forall|i: int|
                0 <= i < final(samples).kept@.len() ==> values::concrete(
                    *(#[trigger] final(samples).kept@[i]),
                ),
            exists|o: Forced| #[trigger]
                final(self).forced(o, final(st).constraint, *query, *asg, levels) && turned(
                    o,
                    *old(samples),
                    *final(samples),
                    r,
                ),
    {
        let o: Forced = self.force_value(query, st, asg, levels, coin);
        let ghost got = o;
        let r: Turn = match o {
            Forced::Value(v) => samples.keep(v),
            Forced::Failed => Turn::Failed,
            Forced::Limit => Turn::Limit,
            Forced::Missing(n) => Turn::Draw(n),
            Forced::Unfinished => Turn::Unfinished,
        };
        assert(self.forced(got, st.constraint, *query, *asg, levels));
        r
    }
}

/// What the arguments of a posterior-samples query ask for.
pub enum Posterior {
    /// Samples in which the evidence holds.
    Ready { evidence: BooleanFunction, samples: u64 },
    /// There are fewer than three arguments.
    MissingArguments,
    /// The evidence cannot be evaluated within the limits.
    Limit,
    /// The evidence has probability zero.
    Impossible,
    /// The number of samples is none.
    NotANumber,
}

impl<'a, F: Fn(RealOp, u64, u64) -> u64, G: Fn(usize, Vec<u64>) -> bool> CompilerCtx<'a, F, G> {
    /// Evaluate the evidence and the number of samples of a posterior-samples
    /// query, whose arguments are the query, the evidence and the number.
    #[verifier::rlimit(30)]
    pub fn posterior_sample<C: Fn(FlipWeight) -> bool>(
        &mut self,
        args: &Vec<PluckVal>,
        o_sym: Symbol,
        s_sym: Symbol,
        levels: usize,
        coin: &C,
    ) -> (r: Posterior)
        requires
            old(self).wf(),
            !old(self).state.hit_limit,
            values::all_over(args@, old(self).vars()),
            forall|a: Worlds| #[trigger] values::all_at(args@, a) is Some,
            sampling::tossed(*coin),
        ensures
            old(self).step(final(self)),
            (r is MissingArguments) == (args@.len() < 3),
            r is Limit ==> final(self).stuck(BooleanFunction::True, ctx::forcing(args@[1])),
            r is NotANumber ==> final(self).counts(args@[2], o_sym, s_sym, levels, None),
            r matches Posterior::Ready { evidence, samples } ==> {
                &&& final(self).counts(
                    args@[2],
                    o_sym,
                    s_sym,
                    levels,
                    Some(samples),
                )
                &&& evidence.wf(final(self).vars()) && evidence != BooleanFunction::False
                &&& forall|a: Worlds, x: Model| #[trigger]
                    final(self).allows(a, x) ==> (evidence.eval(a) <==> ctx::reached(
                        ctx::forcing(args@[1]),
                        a,
                        x,
                        Outcome::Done(truth(final(self).true_sym)),
                    ))
            },
            r is Impossible ==> forall|a: Worlds, x: Model| #[trigger]
                final(self).allows(a, x) ==> exists|o: Outcome| o != Outcome::Done(
                    truth(final(self).true_sym),
                ) && #[trigger] ctx::reached(ctx::forcing(args@[1]), a, x, o),
    {
        let ghost start = *self;
        proof {
            self.lemma_step_refl();
        }
        if args.len() < 3 {
            return Posterior::MissingArguments;
        }
        let ghost s = ctx::forcing(args@[1]);
        let always: BooleanFunction = BooleanFunction::true_ptr();
        proof {
            values::lemma_all_over(args@, self.vars());
            assert(args@[1].over(self.vars()) && args@[2].over(self.vars()));
            assert forall|a: Worlds| #[trigger] args@[1].at(a) is Some && args@[2].at(a) is Some by {
                assert(values::all_at(args@, a) is Some);
                values::lemma_all_at(args@, a);
            }
        }
        let w: GuardedWorlds = self.evaluate_thunk(&args[1], &always);
        let ghost mid = *self;
        if self.state.hit_limit {
            return Posterior::Limit;
        }
        let found: Option<BooleanFunction> = find_evidence(&w.0, self.true_sym);
        proof {
            let n = args@[2];
            values::lemma_over_grows(&*n, start.vars(), self.vars());
            assert forall|a: Worlds| #[trigger] args@[2].at(a) is Some by {
                assert(args@[1].at(a) is Some && args@[2].at(a) is Some);
            }
        }
        let counted: Option<u64> = self.force_n_samples(&args[2], o_sym, s_sym, levels, coin);
        proof {
            start.lemma_step_trans(&mid, self);
            mid.lemma_right_grows(self, w, s);
        }
        match found {
            None => {
                proof {
                    assert forall|a: Worlds, x: Model| #[trigger] self.allows(a, x) implies exists|o: Outcome|
                        o != Outcome::Done(truth(self.true_sym)) && #[trigger] ctx::reached(s, a, x, o) by {
                        assert(args@[1].at(a) is Some);
                        assert(s(a, x, 0) is Some);
                        assert(BooleanFunction::True.eval(a));
                        assert(w.1.eval(a));
                        assert(self.right(w, s));
                        let o = values::pick(w.0@, a);
                        assert(ctx::reached(s, a, x, o));
                        if o == Outcome::Done(truth(self.true_sym)) {
                            let i = values::lemma_pick_done(w.0@, a);
                            lemma_truth(w.0@[i].0, self.true_sym, a);
                            lemma_none_true(w.0@, self.true_sym, i);
                        }
                    }
                }
                Posterior::Impossible
            },
            Some(evidence) => {
                proof {
                    let i = choose|i: int|
                        0 <= i < w.0@.len() && affirms(#[trigger] w.0@[i], self.true_sym)
                            && w.0@[i].1 == evidence;
                    values::lemma_entries_over(w.0@, self.vars());
                    assert(w.0@[i].1.wf(self.vars()));
                    assert forall|a: Worlds, x: Model| #[trigger] self.allows(a, x) implies (
                    evidence.eval(a) <==> ctx::reached(
                        s,
                        a,
                        x,
                        Outcome::Done(truth(self.true_sym)),
                    )) by {
                        assert(args@[1].at(a) is Some);
                        assert(s(a, x, 0) is Some);
                        assert(BooleanFunction::True.eval(a));
                        assert(w.1.eval(a));
                        let o = values::pick(w.0@, a);
                        assert(ctx::reached(s, a, x, o));
                        values::lemma_pick_fail(w.0@, a);
                        if evidence.eval(a) {
                            let k = values::lemma_pick_done(w.0@, a);
                            assert(k == i);
                            lemma_truth(w.0@[i].0, self.true_sym, a);
                        }
                        if ctx::reached(s, a, x, Outcome::Done(truth(self.true_sym))) {
                            kont::lemma_forcing_sound(args@[1]);
                            let f = choose|f: nat| #[trigger]
                                s(a, x, f) == Some(Outcome::Done(truth(self.true_sym)));
                            ctx::lemma_reached(s, a, x, o, f);
                            let k = values::lemma_pick_done(w.0@, a);
                            lemma_truth(w.0@[k].0, self.true_sym, a);
                            if k != i {
                                let (m, n) = if i < k {
                                    (i, k)
                                } else {
                                    (k, i)
                                };
                                assert(!monad::alike(*w.0@[m].0, *w.0@[n].0));
                            }
                        }
                    }
                }
                match counted {
                    Some(samples) => Posterior::Ready { evidence, samples },
                    None => Posterior::NotANumber,
                }
            },
        }
    }
}

/// The datum of `True`.
pub open spec fn truth(yes: Symbol) -> Datum {
    Datum::Value { constructor: yes, args: Seq::empty() }
}

proof fn lemma_truth(v: PluckVal, yes: Symbol, a: Worlds)
    requires
        values::is_head(*v),
        v.at(a) is Some,
    ensures
        (v.at(a) == Some(truth(yes))) == (*v matches PluckValue::Value { constructor, args } && constructor
            == yes && args@.len() == 0),
{
    match &*v {
        PluckValue::Value { args, .. } => {
            values::lemma_all_at(args@, a);
            if args@.len() == 0 {
                assert(values::all_at(args@, a)->0 =~= Seq::<Datum>::empty());
            }
        },
        _ => {},
    }
}

proof fn lemma_none_true(s: Seq<World>, yes: Symbol, i: int)
    requires
        first_true(s, yes) is None,
        0 <= i < s.len(),
    ensures
        !affirms(s[i], yes),
    decreases s.len(),
{
    if i > 0 {
        lemma_none_true(s.skip(1), yes, i - 1);
    }
}

} // verus!
