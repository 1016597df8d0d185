//! Evaluation of one sample: at every choice the world that the settled
//! variables leave is taken.

use vstd::prelude::*;

use super::callstack::Callstack;
use super::ctx;
use super::ctx::{CompilerCtx, Sem};
use super::floats;
use super::kont;
use super::kont::Kont;
use super::monad::GuardedWorlds;
use super::operands;
use super::operands::wants_of;
use super::semantics;
use super::semantics::{Depth, Event, Model};
use super::settle;
use super::state;
use super::state::{bumped, FlipWeight};
use super::thunks::{bind_args, find_guard, make_thunk, strict_parts};
use crate::discrete_factorizations::{BooleanFunction, Worlds};
use crate::inference::sampling;
use crate::inference::sampling::{select_world, SampleState};
use crate::language::define::DefinitionRegistry;
use crate::language::pexpr;
use crate::language::pexpr::{CaseOfGuard, NativeVal, PExpr};
use crate::language::primitives::Primitive;
use crate::language::types::Symbol;
use crate::language::values;
use crate::language::values::{
    empty_env, env_cons, env_lookup, mk_native_int, Env, Outcome, PluckVal, PluckValue, ThunkData,
};
use crate::utils::reals::RealOp;

verus! {

impl<'a, F: Fn(RealOp, u64, u64) -> u64, G: Fn(usize, Vec<u64>) -> bool> CompilerCtx<'a, F, G> {
    /// Where the condition holds, the evaluation comes to the value.
    pub open spec fn gives(&self, v: PluckVal, c: BooleanFunction, s: Sem) -> bool {
        forall|a: Worlds, x: Model| #[trigger]
            self.allows(a, x) && c.eval(a) && s(a, x, 0) is Some ==> v.at(a) is Some && ctx::reached(
                s,
                a,
                x,
                Outcome::Done(v.at(a)->0),
            )
    }

    /// Where the condition holds, the evaluation fails.
    pub open spec fn fails(&self, c: BooleanFunction, s: Sem) -> bool {
        forall|a: Worlds, x: Model| #[trigger]
            self.allows(a, x) && c.eval(a) && s(a, x, 0) is Some ==> ctx::reached(
                s,
                a,
                x,
                Outcome::Fail,
            )
    }

    /// The result of one sample under a condition: the value that the
    /// evaluation comes to there, nothing if it fails there, or the limit,
    /// which some evaluation there meets.
    pub open spec fn landed(&self, r: Option<PluckVal>, c: BooleanFunction, s: Sem) -> bool {
        if self.state.hit_limit {
            self.stuck(c, s)
        } else {
            match r {
                Some(v) => v.over(self.vars()) && values::is_head(*v) && self.gives(v, c, s),
                None => self.fails(c, s),
            }
        }
    }

    /// What the evaluated thunks came to is right where the condition holds.
    pub open spec fn memo_right(&self, memo: Seq<(PluckVal, PluckVal)>, c: BooleanFunction) -> bool {
        forall|i: int|
            0 <= i < memo.len() ==> self.memo_fits((#[trigger] memo[i]).0, memo[i].1, c)
    }

    pub open spec fn memo_fits(&self, thunk: PluckVal, v: PluckVal, c: BooleanFunction) -> bool {
        thunk.over(self.vars()) && v.over(self.vars()) && values::is_head(*v) && self.gives(
            v,
            c,
            ctx::forcing(thunk),
        )
    }

    /// The state of a sample fits the tables.
    pub open spec fn drawing(&self, st: SampleState) -> bool {
        sampling::settles(self.state, st.constraint) && self.memo_right(st.memo@, st.constraint)
    }

    /// What the evaluation of a sample starts from.
    pub open spec fn sets_out(&self, st: SampleState, s: Sem) -> bool {
        self.starts(st.constraint, s) && self.drawing(st)
    }

    /// What the evaluation of a sample ends with: it stands in the condition
    /// that is left, and what that settles anew is as the coin said.
    pub open spec fn comes_to<C: Fn(FlipWeight) -> bool>(
        &self,
        coin: C,
        next: &Self,
        st: SampleState,
        after: SampleState,
        r: Option<PluckVal>,
        s: Sem,
    ) -> bool {
        &&& self.step(next)
        &&& next.drawing(after)
        &&& sampling::narrows(st.constraint, after.constraint)
        &&& sampling::drawn_by(next.state, st.constraint, after.constraint, coin)
        &&& next.landed(r, after.constraint, s)
    }

    pub proof fn lemma_gives_kept(&self, next: &Self, v: PluckVal, c: BooleanFunction, d: BooleanFunction, s: Sem)
        requires
            self.step(next),
            sampling::narrows(c, d),
            self.gives(v, c, s),
        ensures
            next.gives(v, d, s),
    {
        assert forall|a: Worlds, x: Model| #[trigger]
            next.allows(a, x) && d.eval(a) && s(a, x, 0) is Some implies v.at(a) is Some && ctx::reached(
            s,
            a,
            x,
            Outcome::Done(v.at(a)->0),
        ) by {
            assert(next.state.fits(a, x));
            assert(self.allows(a, x));
            assert(c.eval(a));
        }
    }

    /// What was right stays right when more is known and settled.
    pub proof fn lemma_memo_kept(
        &self,
        next: &Self,
        memo: Seq<(PluckVal, PluckVal)>,
        c: BooleanFunction,
        d: BooleanFunction,
    )
        requires
            self.step(next),
            sampling::narrows(c, d),
            self.memo_right(memo, c),
        ensures
            next.memo_right(memo, d),
    {
        assert forall|i: int| 0 <= i < memo.len() implies next.memo_fits(
            (#[trigger] memo[i]).0,
            memo[i].1,
            d,
        ) by {
            let (thunk, v) = memo[i];
            assert(self.memo_fits(thunk, v, c));
            values::lemma_over_grows(&*thunk, self.vars(), next.vars());
            values::lemma_over_grows(&*v, self.vars(), next.vars());
            self.lemma_gives_kept(next, v, c, d, ctx::forcing(thunk));
        }
    }

    pub proof fn lemma_drawing_kept(&self, next: &Self, st: SampleState)
        requires
            self.step(next),
            self.drawing(st),
        ensures
            next.drawing(st),
    {
        self.lemma_memo_kept(next, st.memo@, st.constraint, st.constraint);
        assert(st.constraint.wf(next.vars()));
    }

    /// Results for one evaluation are results for another that is the same.
    pub proof fn lemma_landed_same(&self, r: Option<PluckVal>, c: BooleanFunction, s: Sem, t: Sem)
        requires
            self.landed(r, c, s),
            self.total(c, t),
            forall|a: Worlds, x: Model, f: nat|
                self.allows(a, x) && t(a, x, 0) is Some ==> #[trigger] t(a, x, f) == s(a, x, f),
        ensures
            self.landed(r, c, t),
    {
        if self.state.hit_limit {
            let (a, x) = choose|a: Worlds, x: Model| #[trigger]
                self.allows(a, x) && c.eval(a) && s(a, x, self.fuel()) == Some(Outcome::Stuck);
            assert(t(a, x, 0) is Some);
            assert(t(a, x, self.fuel()) == Some(Outcome::Stuck));
        } else {
            assert forall|a: Worlds, x: Model, o: Outcome| #[trigger]
                self.allows(a, x) && t(a, x, 0) is Some && #[trigger] ctx::reached(s, a, x, o) implies ctx::reached(
                t,
                a,
                x,
                o,
            ) by {
                let f = choose|f: nat| #[trigger] s(a, x, f) == Some(o);
                assert(t(a, x, f) == Some(o));
            }
            assert forall|a: Worlds, x: Model| #[trigger]
                self.allows(a, x) && c.eval(a) && t(a, x, 0) is Some implies s(a, x, 0) is Some by {
                assert(t(a, x, 0) == s(a, x, 0));
            }
        }
    }

    /// The result of a sample elsewhere, with the same tables and as deep.
    pub proof fn lemma_landed_moved(&self, next: &Self, r: Option<PluckVal>, c: BooleanFunction, s: Sem)
        requires
            self.landed(r, c, s),
            next.vars() == self.vars(),
            next.fuel() == self.fuel(),
            next.state.hit_limit == self.state.hit_limit,
            forall|a: Worlds, x: Model| #[trigger] next.allows(a, x) == self.allows(a, x),
        ensures
            next.landed(r, c, s),
    {
        if self.state.hit_limit {
            let (a, x) = choose|a: Worlds, x: Model| #[trigger]
                self.allows(a, x) && c.eval(a) && s(a, x, self.fuel()) == Some(Outcome::Stuck);
            assert(next.allows(a, x));
        }
    }

    pub proof fn lemma_landed_value(&self, v: PluckVal, c: BooleanFunction, t: Sem)
        requires
            !self.state.hit_limit,
            v.over(self.vars()),
            values::is_head(*v),
            forall|a: Worlds, x: Model| #[trigger]
                self.allows(a, x) && c.eval(a) && t(a, x, 0) is Some ==> v.at(a) is Some && t(a, x, 0)
                    == Some(Outcome::Done(v.at(a)->0)),
        ensures
            self.landed(Some(v), c, t),
    {
        assert forall|a: Worlds, x: Model| #[trigger]
            self.allows(a, x) && c.eval(a) && t(a, x, 0) is Some implies v.at(a) is Some && ctx::reached(
            t,
            a,
            x,
            Outcome::Done(v.at(a)->0),
        ) by {
            assert(t(a, x, 0) == Some(Outcome::Done(v.at(a)->0)));
        }
    }

    pub proof fn lemma_landed_fail(&self, c: BooleanFunction, t: Sem)
        requires
            !self.state.hit_limit,
            forall|a: Worlds, x: Model| #[trigger]
                self.allows(a, x) && c.eval(a) && t(a, x, 0) is Some ==> t(a, x, 0) == Some(
                    Outcome::Fail,
                ),
        ensures
            self.landed(None, c, t),
    {
        assert forall|a: Worlds, x: Model| #[trigger]
            self.allows(a, x) && c.eval(a) && t(a, x, 0) is Some implies ctx::reached(
            t,
            a,
            x,
            Outcome::Fail,
        ) by {
            assert(t(a, x, 0) == Some(Outcome::Fail));
        }
    }

    /// Under a narrower condition the evaluation still has a definite value.
    pub proof fn lemma_total_narrower(&self, c: BooleanFunction, d: BooleanFunction, s: Sem)
        requires
            self.total(c, s),
            sampling::narrows(c, d),
        ensures
            self.total(d, s),
    {
        assert forall|a: Worlds, x: Model| #[trigger] self.allows(a, x) && d.eval(a) implies s(
            a,
            x,
            0,
        ) is Some by {
            assert(c.eval(a));
        }
    }

    /// Give up on a sample.
    fn give_up_sample<C: Fn(FlipWeight) -> bool>(
        &mut self,
        st: &mut SampleState,
        coin: &C,
        Ghost(s): Ghost<Sem>,
    ) -> (r: Option<PluckVal>)
        requires
            old(self).wf(),
            old(self).drawing(*old(st)),
            forall|a: Worlds, x: Model| #[trigger]
                old(self).allows(a, x) && old(st).constraint.eval(a) ==> s(a, x, old(self).fuel())
                    == Some(Outcome::Stuck),
        ensures
            old(self).comes_to(*coin, final(self), *old(st), *final(st), r, s),
            r is None,
    {
        let ghost start = *self;
        self.give_up(&st.constraint, Ghost(s));
        proof {
            start.lemma_drawing_kept(self, *st);
        }
        None
    }

    /// Take the world of a compilation that the sample is in.
    pub fn select<C: Fn(FlipWeight) -> bool>(
        &mut self,
        w: GuardedWorlds,
        st: &mut SampleState,
        coin: &C,
        Ghost(s): Ghost<Sem>,
    ) -> (r: Option<PluckVal>)
        requires
            old(self).wf(),
            old(self).drawing(*old(st)),
            old(self).post(w, old(st).constraint, s),
            old(self).total(old(st).constraint, s),
            sampling::tossed(*coin),
        ensures
            old(self).comes_to(*coin, final(self), *old(st), *final(st), r, s),
    {
        let ghost start = *self;
        let ghost before = *st;
        proof {
            self.lemma_step_refl();
        }
        if self.state.hit_limit {
            return None;
        }
        proof {
            assert forall|a: Worlds| #[trigger] st.constraint.eval(a) implies values::pick(w.0@, a)
                != Outcome::Stuck by {
                let x = self.lemma_some_model(a);
                assert(self.allows(a, x));
                assert(w.1.eval(a));
                assert(ctx::reached(s, a, x, values::pick(w.0@, a)));
            }
        }
        let r: Option<PluckVal> = select_world(&self.state, &mut st.constraint, &w.0, coin);
        proof {
            self.lemma_memo_kept(self, before.memo@, before.constraint, st.constraint);
            assert forall|a: Worlds, x: Model| #[trigger]
                self.allows(a, x) && st.constraint.eval(a) && s(a, x, 0) is Some implies ctx::reached(
                s,
                a,
                x,
                values::pick(w.0@, a),
            ) by {
                assert(before.constraint.eval(a));
                assert(w.1.eval(a));
            }
            let got = r;
            match got {
                Some(v) => {
                    values::lemma_entries_over(w.0@, self.vars());
                    let i = choose|i: int| 0 <= i < w.0@.len() && (#[trigger] w.0@[i]).0 == v;
                    assert(w.0@[i].0.over(self.vars()));
                    assert(values::is_head(*w.0@[i].0));
                    assert(self.gives(v, st.constraint, s));
                },
                None => {
                    assert(self.fails(st.constraint, s));
                },
            }
        }
        r
    }

    /// The rest of an evaluation after a value gives what the whole does.
    proof fn lemma_landed_then(
        &self,
        next: &Self,
        v: PluckVal,
        c: BooleanFunction,
        d: BooleanFunction,
        r: Option<PluckVal>,
        k: Kont,
        s: Sem,
        cs: Seq<i32>,
    )
        requires
            self.step(next),
            ctx::sound(s),
            self.gives(v, c, s),
            sampling::narrows(c, d),
            self.total(c, kont::chained(s, k, cs)),
            next.landed(r, d, kont::resumed(k, v, cs)),
        ensures
            next.landed(r, d, kont::chained(s, k, cs)),
    {
        let t = kont::resumed(k, v, cs);
        let whole = kont::chained(s, k, cs);
        kont::lemma_resumed_sound(k, v, cs);
        assert forall|a: Worlds, x: Model| #[trigger] next.allows(a, x) && d.eval(a) implies self.allows(a, x)
            && s(a, x, 0) is Some && t(a, x, 0) is Some && k.ready(a) && v.at(a) is Some && ctx::reached(
            s,
            a,
            x,
            Outcome::Done(v.at(a)->0),
        ) by {
            assert(next.state.fits(a, x));
            assert(self.allows(a, x));
            assert(c.eval(a));
            assert(whole(a, x, 0) is Some);
        }
        if next.state.hit_limit {
            let (a, x) = choose|a: Worlds, x: Model| #[trigger]
                next.allows(a, x) && d.eval(a) && t(a, x, next.fuel()) == Some(Outcome::Stuck);
            ctx::lemma_reached(s, a, x, Outcome::Done(v.at(a)->0), next.fuel());
            assert(whole(a, x, next.fuel()) == Some(Outcome::Stuck));
            assert(next.stuck(d, whole));
        } else {
            assert forall|a: Worlds, x: Model, o: Outcome| #[trigger]
                next.allows(a, x) && d.eval(a) && #[trigger] ctx::reached(t, a, x, o) implies ctx::reached(
                whole,
                a,
                x,
                o,
            ) by {
                let e = v.at(a)->0;
                assert(ctx::reached(s, a, x, Outcome::Done(e)));
                let f = choose|f: nat| #[trigger] s(a, x, f) == Some(Outcome::Done(e));
                let g = choose|g: nat| #[trigger] t(a, x, g) == Some(o);
                let m = if f <= g {
                    g
                } else {
                    f
                };
                assert(semantics::kept(s(a, x, f)->0, s(a, x, m)->0));
                assert(semantics::kept(t(a, x, g)->0, t(a, x, m)->0));
                assert(whole(a, x, m) == Some(o));
            }
            match r {
                Some(w) => {
                    assert forall|a: Worlds, x: Model| #[trigger]
                        next.allows(a, x) && d.eval(a) && whole(a, x, 0) is Some implies w.at(a) is Some
                        && ctx::reached(whole, a, x, Outcome::Done(w.at(a)->0)) by {
                        assert(t(a, x, 0) is Some);
                        assert(ctx::reached(t, a, x, Outcome::Done(w.at(a)->0)));
                    }
                },
                None => {
                    assert forall|a: Worlds, x: Model| #[trigger]
                        next.allows(a, x) && d.eval(a) && whole(a, x, 0) is Some implies ctx::reached(
                        whole,
                        a,
                        x,
                        Outcome::Fail,
                    ) by {
                        assert(t(a, x, 0) is Some);
                        assert(ctx::reached(t, a, x, Outcome::Fail));
                    }
                },
            }
        }
    }

    /// An evaluation that is the same comes to the same.
    proof fn lemma_renamed<C: Fn(FlipWeight) -> bool>(
        &self,
        coin: C,
        next: &Self,
        st: SampleState,
        after: SampleState,
        r: Option<PluckVal>,
        s: Sem,
        t: Sem,
    )
        requires
            self.comes_to(coin, next, st, after, r, s),
            self.total(st.constraint, t),
            forall|a: Worlds, x: Model, f: nat|
                self.allows(a, x) && t(a, x, 0) is Some ==> #[trigger] t(a, x, f) == s(a, x, f),
        ensures
            self.comes_to(coin, next, st, after, r, t),
    {
        self.lemma_total_narrower(st.constraint, after.constraint, t);
        self.lemma_total_grows(next, after.constraint, t);
        assert forall|a: Worlds, x: Model, f: nat| next.allows(a, x) && t(a, x, 0) is Some implies #[trigger] t(
            a,
            x,
            f,
        ) == s(a, x, f) by {
            assert(next.state.fits(a, x));
            assert(self.allows(a, x));
        }
        next.lemma_landed_same(r, after.constraint, s, t);
    }

    /// What an evaluation comes to after another one.
    proof fn lemma_onward<C: Fn(FlipWeight) -> bool>(
        &self,
        coin: C,
        mid: &Self,
        next: &Self,
        st: SampleState,
        between: SampleState,
        after: SampleState,
        r: Option<PluckVal>,
        s: Sem,
    )
        requires
            self.step(mid),
            sampling::narrows(st.constraint, between.constraint),
            sampling::drawn_by(mid.state, st.constraint, between.constraint, coin),
            mid.comes_to(coin, next, between, after, r, s),
        ensures
            self.comes_to(coin, next, st, after, r, s),
    {
        self.lemma_step_trans(mid, next);
        sampling::lemma_drawn_on(
            mid.state,
            next.state,
            st.constraint,
            between.constraint,
            after.constraint,
            coin,
        );
        assert forall|a: Worlds| #[trigger] after.constraint.eval(a) implies st.constraint.eval(a) by {
            assert(between.constraint.eval(a));
        }
    }

    /// Evaluate one sample of an expression: handles limit checks and
    /// callstack push/pop.
    #[verifier::rlimit(30)]
    pub fn sample_traced<C: Fn(FlipWeight) -> bool>(
        &mut self,
        expr: &PExpr,
        env: &Env,
        st: &mut SampleState,
        strict_order_index: i32,
        coin: &C,
    ) -> (r: Option<PluckVal>)
        requires
            old(self).sets_out(
                *old(st),
                kont::calling(expr.tree(), *env, strict_order_index, old(self).state.callstack@),
            ),
            env.over(old(self).vars()),
            sampling::tossed(*coin),
        ensures
            old(self).comes_to(
                *coin,
                final(self),
                *old(st),
                *final(st),
                r,
                kont::calling(expr.tree(), *env, strict_order_index, old(self).state.callstack@),
            ),
            old(self).state.depth <= old(self).state.cfg.limit()
                ==> final(self).state.stats.num_compile_calls >= state::one_more(
                old(self).state.stats.num_compile_calls,
            ),
        decreases old(self).fuel(), 0nat, 0nat, 0nat,
    {
        let ghost start = *self;
        let ghost before = *st;
        let ghost cs = self.state.callstack@;
        let ghost s = kont::calling(expr.tree(), *env, strict_order_index, cs);
        if self.state.depth > self.state.cfg.depth_limit() {
            return self.give_up_sample(st, coin, Ghost(s));
        }
        self.state.depth = self.state.depth + 1;
        self.state.stats.num_compile_calls = bumped(self.state.stats.num_compile_calls);
        self.state.callstack.push(strict_order_index);
        let ghost mid = *self;
        let ghost t = kont::running(expr.tree(), *env, cs.push(strict_order_index));
        proof {
            start.lemma_tables(&mid);
            start.lemma_memo_same(&mid, before.memo@, before.constraint);
            assert forall|a: Worlds, x: Model| #[trigger]
                mid.allows(a, x) && before.constraint.eval(a) implies t(a, x, 0) is Some by {
                assert(start.allows(a, x));
                assert(s(a, x, 0) is Some);
            }
        }
        let result: Option<PluckVal> = self.sample_compile(expr, env, st, coin);
        let ghost next = *self;
        self.state.callstack.pop();
        self.state.depth = self.state.depth - 1;
        proof {
            let c = st.constraint;
            assert(cs.push(strict_order_index).drop_last() =~= cs);
            next.lemma_tables(self);
            next.lemma_memo_same(self, st.memo@, c);
            sampling::lemma_drawn_moved(next.state, self.state, before.constraint, c, *coin);
            assert(start.state.grows_to(self.state)) by {
                assert forall|v: u64, e: Event| #[trigger] start.state.tells(v, e) implies self.state.tells(
                    v,
                    e,
                ) by {
                    assert(mid.state.tells(v, e));
                    assert(next.state.tells(v, e));
                }
                assert forall|a: Worlds, x: Model| #[trigger] self.state.fits(a, x) implies start.state.fits(
                    a,
                    x,
                ) by {
                    assert(next.state.fits(a, x));
                    assert(mid.state.fits(a, x));
                }
            }
            if next.state.hit_limit {
                let (a, x) = choose|a: Worlds, x: Model| #[trigger]
                    next.allows(a, x) && c.eval(a) && t(a, x, next.fuel()) == Some(Outcome::Stuck);
                assert(self.allows(a, x));
                assert(s(a, x, self.fuel()) == Some(Outcome::Stuck));
                assert(self.stuck(c, s));
            } else {
                assert forall|a: Worlds, x: Model, o: Outcome| #[trigger]
                    self.allows(a, x) && s(a, x, 0) is Some && #[trigger] ctx::reached(t, a, x, o) implies ctx::reached(
                    s,
                    a,
                    x,
                    o,
                ) by {
                    let f = choose|f: nat| #[trigger] t(a, x, f) == Some(o);
                    assert(s(a, x, f + 1) == Some(o));
                }
                assert forall|a: Worlds, x: Model| #[trigger]
                    self.allows(a, x) && c.eval(a) && s(a, x, 0) is Some implies next.allows(a, x) && t(
                    a,
                    x,
                    0,
                ) is Some by {
                    assert(next.allows(a, x));
                }
                let got = result;
                match got {
                    Some(v) => {
                        assert(self.gives(v, c, s));
                    },
                    None => {
                        assert(self.fails(c, s));
                    },
                }
            }
        }
        result
    }

    /// With the same tables what was right stays right.
    proof fn lemma_memo_same(&self, next: &Self, memo: Seq<(PluckVal, PluckVal)>, c: BooleanFunction)
        requires
            self.memo_right(memo, c),
            next.vars() == self.vars(),
            forall|a: Worlds, x: Model| #[trigger] next.allows(a, x) == self.allows(a, x),
        ensures
            next.memo_right(memo, c),
    {
        assert forall|i: int| 0 <= i < memo.len() implies next.memo_fits(
            (#[trigger] memo[i]).0,
            memo[i].1,
            c,
        ) by {
            assert(self.memo_fits(memo[i].0, memo[i].1, c));
        }
    }

    /// Run a continuation on the value of an evaluation.
    #[verifier::rlimit(30)]
    fn sample_then<C: Fn(FlipWeight) -> bool>(
        &mut self,
        first: Option<PluckVal>,
        k: &Kont,
        st: &mut SampleState,
        coin: &C,
        Ghost(s): Ghost<Sem>,
    ) -> (r: Option<PluckVal>)
        requires
            old(self).wf(),
            old(self).drawing(*old(st)),
            ctx::sound(s),
            old(self).landed(first, old(st).constraint, s),
            old(self).total(
                old(st).constraint,
                kont::chained(s, *k, old(self).state.callstack@),
            ),
            k.over(old(self).vars()),
            k.wf(),
            direct(*k),
            sampling::tossed(*coin),
        ensures
            old(self).comes_to(
                *coin,
                final(self),
                *old(st),
                *final(st),
                r,
                kont::chained(s, *k, old(self).state.callstack@),
            ),
        decreases old(self).fuel(), k.group(), k.size(), k.rank() + 1,
    {
        let ghost start = *self;
        let ghost before = *st;
        let ghost cs = self.state.callstack@;
        let ghost whole = kont::chained(s, *k, cs);
        proof {
            self.lemma_step_refl();
        }
        if self.state.hit_limit {
            proof {
                self.lemma_chained_stuck(st.constraint, *k, s, cs);
            }
            return None;
        }
        match first {
            None => {
                proof {
                    let c = st.constraint;
                    assert forall|a: Worlds, x: Model| #[trigger]
                        self.allows(a, x) && c.eval(a) && whole(a, x, 0) is Some implies ctx::reached(
                        whole,
                        a,
                        x,
                        Outcome::Fail,
                    ) by {
                        assert(s(a, x, 0) is Some);
                        assert(ctx::reached(s, a, x, Outcome::Fail));
                        let f = choose|f: nat| #[trigger] s(a, x, f) == Some(Outcome::Fail);
                        assert(whole(a, x, f) == Some(Outcome::Fail));
                    }
                }
                None
            },
            Some(v) => {
                let ghost t = kont::resumed(*k, v, cs);
                proof {
                    let c = st.constraint;
                    assert forall|a: Worlds, x: Model| #[trigger] self.allows(a, x) && c.eval(a) implies t(
                        a,
                        x,
                        0,
                    ) is Some by {
                        assert(whole(a, x, 0) is Some);
                        assert(s(a, x, 0) is Some);
                    }
                }
                let r: Option<PluckVal> = self.sample_resume(k, &v, st, coin);
                proof {
                    start.lemma_landed_then(
                        self,
                        v,
                        before.constraint,
                        st.constraint,
                        r,
                        *k,
                        s,
                        cs,
                    );
                }
                r
            },
        }
    }

    /// Run a continuation on a value.
    #[verifier::rlimit(30)]
    fn sample_resume<C: Fn(FlipWeight) -> bool>(
        &mut self,
        k: &Kont,
        v: &PluckVal,
        st: &mut SampleState,
        coin: &C,
    ) -> (r: Option<PluckVal>)
        requires
            old(self).sets_out(*old(st), kont::resumed(*k, *v, old(self).state.callstack@)),
            v.over(old(self).vars()),
            values::is_head(**v),
            k.over(old(self).vars()),
            k.wf(),
            direct(*k),
            sampling::tossed(*coin),
        ensures
            old(self).comes_to(
                *coin,
                final(self),
                *old(st),
                *final(st),
                r,
                kont::resumed(*k, *v, old(self).state.callstack@),
            ),
        decreases old(self).fuel(), k.group(), k.size(), k.rank(),
    {
        let ghost start = *self;
        let ghost before = *st;
        let ghost cs = self.state.callstack@;
        let ghost t = kont::resumed(*k, *v, cs);
        match k {
            Kont::Apply { arg } => self.sample_apply(v, arg, st, coin),
            Kont::Match { guards, branches, env } => self.sample_match(
                v,
                guards,
                branches,
                env,
                st,
                coin,
            ),
            Kont::Loop => {
                let w: GuardedWorlds = self.close_loop(v, &st.constraint);
                let ghost mid = *self;
                proof {
                    start.lemma_drawing_kept(self, *st);
                    start.lemma_total_grows(self, st.constraint, t);
                }
                let r: Option<PluckVal> = self.select(w, st, coin, Ghost(t));
                proof {
                    start.lemma_onward(*coin, &mid, self, before, before, *st, r, t);
                }
                r
            },
            Kont::Operands { p, kids, vals, env } => {
                let mut next: Vec<PluckVal> = values::clone_vals(vals);
                next.push(v.clone());
                let ghost u = kont::loading(*p, kont::kid_trees(kids@), next@, **env, cs);
                proof {
                    assert(next@.drop_last() =~= vals@);
                    assert forall|a: Worlds, x: Model, f: nat| self.allows(a, x) && t(a, x, 0) is Some implies #[trigger] t(
                        a,
                        x,
                        f,
                    ) == u(a, x, f) by {}
                    assert forall|a: Worlds, x: Model| #[trigger]
                        self.allows(a, x) && before.constraint.eval(a) implies u(a, x, 0) is Some by {
                        assert(t(a, x, 0) is Some);
                    }
                }
                let r: Option<PluckVal> = self.sample_operands(*p, kids, &next, env, st, coin);
                proof {
                    start.lemma_renamed(*coin, self, before, *st, r, u, t);
                }
                r
            },
            Kont::Supply { p, vals, wants, got } => {
                let mut next: Vec<PluckVal> = values::clone_vals(got);
                next.push(v.clone());
                let ghost u = kont::supplying(*p, vals@, next@, cs);
                proof {
                    assert(next@.drop_last() =~= got@);
                    let n = got@.len() as int;
                    assert(wants@.take(n + 1).len() == next@.len());
                    assert forall|j: int| 0 <= j < next@.len() && wants@.take(n + 1)[j].0 != Depth::Keep implies values::is_head(
                        *(#[trigger] next@[j]),
                    ) by {
                        if j < n {
                            assert(next@[j] == got@[j]);
                            assert(wants@.take(n)[j] == wants@[j]);
                        }
                    }
                    assert forall|a: Worlds, x: Model| #[trigger]
                        self.allows(a, x) && before.constraint.eval(a) implies u(a, x, 0) is Some by {
                        assert(t(a, x, 0) is Some);
                    }
                }
                let r: Option<PluckVal> = self.sample_supply(*p, vals, wants, &next, st, coin);
                proof {
                    start.lemma_renamed(*coin, self, before, *st, r, u, t);
                }
                r
            },
            Kont::Count { count } => {
                let ghost u = kont::counting(*v, *count as int);
                proof {
                    assert forall|a: Worlds, x: Model| #[trigger]
                        self.allows(a, x) && before.constraint.eval(a) implies u(a, x, 0) is Some by {
                        assert(t(a, x, 0) is Some);
                    }
                }
                let r: Option<PluckVal> = self.sample_numeral(v, *count, st, coin);
                proof {
                    start.lemma_renamed(*coin, self, before, *st, r, u, t);
                }
                r
            },
            _ => None,
        }
    }

    /// Apply a function.
    #[verifier::rlimit(60)]
    fn sample_apply<C: Fn(FlipWeight) -> bool>(
        &mut self,
        v: &PluckVal,
        arg: &PluckVal,
        st: &mut SampleState,
        coin: &C,
    ) -> (r: Option<PluckVal>)
        requires
            old(self).sets_out(
                *old(st),
                kont::resumed(Kont::Apply { arg: *arg }, *v, old(self).state.callstack@),
            ),
            v.over(old(self).vars()),
            arg.over(old(self).vars()),
            values::is_head(**v),
            sampling::tossed(*coin),
        ensures
            old(self).comes_to(
                *coin,
                final(self),
                *old(st),
                *final(st),
                r,
                kont::resumed(Kont::Apply { arg: *arg }, *v, old(self).state.callstack@),
            ),
        decreases old(self).fuel(), 3nat, 0nat, 0nat,
    {
        let ghost start = *self;
        let ghost before = *st;
        let ghost cs = self.state.callstack@;
        let ghost t = kont::resumed(Kont::Apply { arg: *arg }, *v, cs);
        match &**v {
            PluckValue::Closure(c) => {
                let inner: Env = env_cons(c.var, arg.clone(), c.env.clone());
                let scope: Env = match c.rec_name {
                    Some(name) => env_cons(name, v.clone(), inner),
                    None => inner,
                };
                let ghost s = kont::calling(kont::shared_tree(c.body), scope, 2, cs);
                proof {
                    assert(inner.over(self.vars()));
                    assert(scope.over(self.vars()));
                    assert forall|a: Worlds, x: Model, f: nat| t(a, x, 0) is Some implies #[trigger] t(
                        a,
                        x,
                        f,
                    ) == s(a, x, f) by {
                        assert(c.env.at(a) is Some);
                        assert(inner.at(a) == Some(c.env.at(a)->0.push((c.var, arg.at(a)->0))));
                    }
                    assert forall|a: Worlds, x: Model| #[trigger]
                        self.allows(a, x) && before.constraint.eval(a) implies s(a, x, 0) is Some by {
                        assert(t(a, x, 0) is Some);
                    }
                }
                let r: Option<PluckVal> = self.sample_traced(&c.body, &scope, st, 2, coin);
                proof {
                    start.lemma_renamed(*coin, self, before, *st, r, s, t);
                }
                r
            },
            _ => {
                proof {
                    self.lemma_step_refl();
                    self.lemma_landed_fail(st.constraint, t);
                }
                None
            },
        }
    }

    /// Take the branch that the value chooses.
    #[verifier::rlimit(30)]
    fn sample_match<C: Fn(FlipWeight) -> bool>(
        &mut self,
        v: &PluckVal,
        guards: &Vec<CaseOfGuard>,
        branches: &Vec<PExpr>,
        env: &Env,
        st: &mut SampleState,
        coin: &C,
    ) -> (r: Option<PluckVal>)
        requires
            old(self).sets_out(
                *old(st),
                kont::resumed(
                    Kont::Match { guards, branches, env },
                    *v,
                    old(self).state.callstack@,
                ),
            ),
            v.over(old(self).vars()),
            env.over(old(self).vars()),
            values::is_head(**v),
            sampling::tossed(*coin),
        ensures
            old(self).comes_to(
                *coin,
                final(self),
                *old(st),
                *final(st),
                r,
                kont::resumed(
                    Kont::Match { guards, branches, env },
                    *v,
                    old(self).state.callstack@,
                ),
            ),
        decreases old(self).fuel(), 3nat, 0nat, 0nat,
    {
        let ghost start = *self;
        let ghost before = *st;
        let ghost cs = self.state.callstack@;
        let ghost t = kont::resumed(Kont::Match { guards, branches, env }, *v, cs);
        proof {
            self.lemma_step_refl();
            pexpr::lemma_trees(branches@);
        }
        match &**v {
            PluckValue::Value { constructor, args } => match find_guard(guards, *constructor) {
                Some(i) => {
                    if i >= branches.len() {
                        return self.give_up_sample(st, coin, Ghost(t));
                    }
                    let scope: Env = bind_args(env, &guards[i].args, args);
                    let ghost s = kont::calling(
                        branches@[i as int].tree(),
                        scope,
                        (i + 1) as i32,
                        cs,
                    );
                    proof {
                        assert(pexpr::guards_of(guards@)[i as int] == guards@[i as int].guard());
                        assert forall|a: Worlds, x: Model, f: nat| t(a, x, 0) is Some implies #[trigger] t(
                            a,
                            x,
                            f,
                        ) == s(a, x, f) by {
                            assert(env.at(a) is Some && values::all_at(args@, a) is Some);
                        }
                        assert forall|a: Worlds, x: Model| #[trigger]
                            self.allows(a, x) && before.constraint.eval(a) implies s(a, x, 0) is Some by {
                            assert(t(a, x, 0) is Some);
                        }
                        assert(scope.over(self.vars()));
                    }
                    let r: Option<PluckVal> = self.sample_traced(
                        &branches[i],
                        &scope,
                        st,
                        (i + 1) as i32,
                        coin,
                    );
                    proof {
                        start.lemma_renamed(*coin, self, before, *st, r, s, t);
                    }
                    r
                },
                None => {
                    proof {
                        self.lemma_landed_fail(st.constraint, t);
                    }
                    None
                },
            },
            _ => {
                proof {
                    self.lemma_landed_fail(st.constraint, t);
                }
                None
            },
        }
    }

    /// Evaluate a thunk or thunk union: of a union only the part that the
    /// sample is in, and a thunk only once.
    #[verifier::rlimit(30)]
    pub fn sample_thunk<C: Fn(FlipWeight) -> bool>(&mut self, val: &PluckVal, st: &mut SampleState, coin: &C) -> (r:
        Option<PluckVal>)
        requires
            old(self).sets_out(*old(st), ctx::forcing(*val)),
            val.over(old(self).vars()),
            sampling::tossed(*coin),
        ensures
            old(self).comes_to(*coin, final(self), *old(st), *final(st), r, ctx::forcing(*val)),
        decreases old(self).fuel(), 2nat, kont::nesting(**val), 3nat,
    {
        let ghost start = *self;
        let ghost before = *st;
        let ghost t = ctx::forcing(*val);
        proof {
            self.lemma_step_refl();
        }
        match &**val {
            PluckValue::Thunk(d) => self.sample_single_thunk(val, d, st, coin),
            PluckValue::ThunkUnion(u) => {
                self.count_union();
                let ghost mid = *self;
                proof {
                    start.lemma_drawing_kept(self, *st);
                    assert forall|a: Worlds| #[trigger] st.constraint.eval(a) implies values::pick(
                        u.thunks@,
                        a,
                    ) != Outcome::Stuck by {
                        let x = start.lemma_some_model(a);
                        assert(start.allows(a, x));
                        assert(t(a, x, 0) is Some);
                    }
                    values::lemma_entries_over(u.thunks@, self.vars());
                }
                let chosen: Option<PluckVal> = select_world(
                    &self.state,
                    &mut st.constraint,
                    &u.thunks,
                    coin,
                );
                let ghost after = *st;
                proof {
                    self.lemma_step_refl();
                    self.lemma_memo_kept(self, before.memo@, before.constraint, st.constraint);
                }
                match chosen {
                    None => {
                        proof {
                            assert forall|a: Worlds| #[trigger] st.constraint.eval(a) implies false by {
                                assert(before.constraint.eval(a));
                                let x = start.lemma_some_model(a);
                                assert(start.allows(a, x));
                                assert(t(a, x, 0) is Some);
                            }
                            self.lemma_landed_fail(st.constraint, t);
                        }
                        None
                    },
                    Some(v) => {
                        let ghost s = ctx::forcing(v);
                        proof {
                            let i = choose|i: int|
                                0 <= i < u.thunks@.len() && (#[trigger] u.thunks@[i]).0 == v;
                            kont::lemma_deepest(u.thunks@, i);
                            assert(u.thunks@[i].0.over(self.vars()));
                            assert forall|a: Worlds, x: Model| #[trigger]
                                self.allows(a, x) && after.constraint.eval(a) implies s(a, x, 0) is Some by {
                                assert(v.at(a) is Some);
                            }
                        }
                        let r: Option<PluckVal> = self.sample_thunk(&v, st, coin);
                        proof {
                            start.lemma_onward(*coin, &mid, self, before, after, *st, r, s);
                            self.lemma_chosen_lands(*val, v, after.constraint, st.constraint, r);
                        }
                        r
                    },
                }
            },
            _ => {
                proof {
                    self.lemma_landed_value(*val, st.constraint, t);
                }
                Some(val.clone())
            },
        }
    }

    /// What the chosen part of a union comes to, the union does.
    proof fn lemma_chosen_lands(
        &self,
        val: PluckVal,
        v: PluckVal,
        c: BooleanFunction,
        d: BooleanFunction,
        r: Option<PluckVal>,
    )
        requires
            self.landed(r, d, ctx::forcing(v)),
            sampling::narrows(c, d),
            forall|a: Worlds| #[trigger] c.eval(a) ==> v.at(a) is Some && v.at(a) == val.at(a),
        ensures
            self.landed(r, d, ctx::forcing(val)),
    {
        let s = ctx::forcing(v);
        let t = ctx::forcing(val);
        assert forall|a: Worlds, x: Model, f: nat| d.eval(a) implies #[trigger] t(a, x, f) == s(a, x, f) by {
            assert(c.eval(a));
        }
        if self.state.hit_limit {
            let (a, x) = choose|a: Worlds, x: Model| #[trigger]
                self.allows(a, x) && d.eval(a) && s(a, x, self.fuel()) == Some(Outcome::Stuck);
            assert(t(a, x, self.fuel()) == Some(Outcome::Stuck));
        } else {
            assert forall|a: Worlds, x: Model, o: Outcome|
                d.eval(a) && #[trigger] ctx::reached(s, a, x, o) implies ctx::reached(t, a, x, o) by {
                let f = choose|f: nat| #[trigger] s(a, x, f) == Some(o);
                assert(t(a, x, f) == Some(o));
            }
            assert forall|a: Worlds, x: Model| #[trigger]
                self.allows(a, x) && d.eval(a) && t(a, x, 0) is Some implies s(a, x, 0) is Some by {
                assert(t(a, x, 0) == s(a, x, 0));
            }
        }
    }

    /// Evaluate a thunk, or take what it came to before.
    #[verifier::rlimit(40)]
    fn sample_single_thunk<C: Fn(FlipWeight) -> bool>(
        &mut self,
        val: &PluckVal,
        thunk: &ThunkData,
        st: &mut SampleState,
        coin: &C,
    ) -> (r: Option<PluckVal>)
        requires
            old(self).sets_out(*old(st), ctx::forcing(*val)),
            val.over(old(self).vars()),
            **val == PluckValue::Thunk(*thunk),
            sampling::tossed(*coin),
        ensures
            old(self).comes_to(*coin, final(self), *old(st), *final(st), r, ctx::forcing(*val)),
        decreases old(self).fuel(), 1nat, 0nat, 0nat,
    {
        let ghost start = *self;
        let ghost before = *st;
        let ghost t = ctx::forcing(*val);
        let ghost index = thunk.strict_order_index;
        proof {
            self.lemma_step_refl();
        }
        match st.check_cache(val) {
            Some(v) => {
                self.count_cache_hit();
                proof {
                    let i = choose|i: int| 0 <= i < st.memo@.len() && st.memo@[i] == (*val, v);
                    start.lemma_drawing_kept(self, *st);
                    assert(self.memo_fits(st.memo@[i].0, st.memo@[i].1, st.constraint));
                }
                return Some(v);
            },
            None => {},
        }
        let saved: Vec<i32> = self.state.callstack.to_vec();
        let stack: Vec<i32> = thunk.callstack.clone();
        proof {
            assert(stack@ =~= thunk.callstack@);
        }
        self.state.callstack = Callstack::from_vec(stack);
        let ghost mid = *self;
        let ghost s = kont::calling(kont::shared_tree(thunk.expr), thunk.env, index, thunk.callstack@);
        proof {
            start.lemma_tables(&mid);
            start.lemma_memo_same(&mid, before.memo@, before.constraint);
            assert forall|a: Worlds, x: Model, f: nat| t(a, x, 0) is Some implies #[trigger] t(
                a,
                x,
                f,
            ) == s(a, x, f) by {}
            assert forall|a: Worlds, x: Model| #[trigger]
                mid.allows(a, x) && before.constraint.eval(a) implies s(a, x, 0) is Some by {
                assert(start.allows(a, x));
                assert(t(a, x, 0) is Some);
            }
        }
        let r: Option<PluckVal> = self.sample_traced(
            &thunk.expr,
            &thunk.env,
            st,
            thunk.strict_order_index,
            coin,
        );
        let ghost next = *self;
        let ghost after = *st;
        self.state.callstack = Callstack::from_vec(saved);
        proof {
            next.lemma_tables(self);
            next.lemma_memo_same(self, after.memo@, after.constraint);
            sampling::lemma_drawn_moved(
                next.state,
                self.state,
                before.constraint,
                after.constraint,
                *coin,
            );
            assert(start.state.grows_to(self.state)) by {
                assert forall|v: u64, e: Event| #[trigger] start.state.tells(v, e) implies self.state.tells(
                    v,
                    e,
                ) by {
                    assert(mid.state.tells(v, e));
                    assert(next.state.tells(v, e));
                }
                assert forall|a: Worlds, x: Model| #[trigger] self.state.fits(a, x) implies start.state.fits(
                    a,
                    x,
                ) by {
                    assert(next.state.fits(a, x));
                    assert(mid.state.fits(a, x));
                }
            }
            next.lemma_landed_moved(self, r, after.constraint, s);
            start.lemma_renamed(*coin, self, before, after, r, s, t);
        }
        if !self.state.hit_limit {
            match &r {
                Some(v) => {
                    st.set_cache(val, v);
                    proof {
                        values::lemma_over_grows(&**val, start.vars(), self.vars());
                        assert(self.memo_fits(*val, *v, st.constraint));
                        assert forall|i: int| 0 <= i < st.memo@.len() implies self.memo_fits(
                            (#[trigger] st.memo@[i]).0,
                            st.memo@[i].1,
                            st.constraint,
                        ) by {
                            if st.memo@[i] != (*val, *v) {
                                assert(st.memo@[i] == after.memo@[i]);
                            }
                        }
                    }
                },
                None => {},
            }
        }
        r
    }

    /// Count a natural number.
    #[verifier::rlimit(30)]
    fn sample_numeral<C: Fn(FlipWeight) -> bool>(
        &mut self,
        v: &PluckVal,
        count: i64,
        st: &mut SampleState,
        coin: &C,
    ) -> (r: Option<PluckVal>)
        requires
            old(self).sets_out(*old(st), kont::counting(*v, count as int)),
            v.over(old(self).vars()),
            values::is_head(**v),
            0 <= count,
            sampling::tossed(*coin),
        ensures
            old(self).comes_to(
                *coin,
                final(self),
                *old(st),
                *final(st),
                r,
                kont::counting(*v, count as int),
            ),
        decreases old(self).fuel(), 4nat, (i64::MAX - count) as nat, 0nat,
    {
        let ghost start = *self;
        let ghost before = *st;
        let ghost cs = self.state.callstack@;
        let ghost t = kont::counting(*v, count as int);
        proof {
            self.lemma_step_refl();
        }
        let (zero, succ) = match self.nat {
            Some(p) => p,
            None => {
                return self.give_up_sample(st, coin, Ghost(t));
            },
        };
        match &**v {
            PluckValue::Native(NativeVal::Int(i)) => match i.checked_add(count) {
                Some(sum) => {
                    let w: PluckVal = mk_native_int(sum);
                    proof {
                        self.lemma_landed_value(w, st.constraint, t);
                    }
                    return Some(w);
                },
                None => {
                    return self.give_up_sample(st, coin, Ghost(t));
                },
            },
            PluckValue::Value { constructor, args } => {
                proof {
                    assert forall|a: Worlds| #[trigger] values::all_at(args@, a) is Some implies values::all_at(
                        args@,
                        a,
                    )->0.len() == args@.len() by {
                        values::lemma_all_at(args@, a);
                    }
                }
                if *constructor == zero && args.len() == 0 {
                    let w: PluckVal = mk_native_int(count);
                    proof {
                        self.lemma_landed_value(w, st.constraint, t);
                    }
                    return Some(w);
                }
                if *constructor == succ && args.len() == 1 {
                    if count == i64::MAX {
                        proof {
                            assert forall|a: Worlds, x: Model| #[trigger]
                                self.allows(a, x) && before.constraint.eval(a) implies t(a, x, self.fuel())
                                == Some(Outcome::Stuck) by {
                                assert(t(a, x, 0) is Some);
                                values::lemma_all_at(args@, a);
                            }
                        }
                        return self.give_up_sample(st, coin, Ghost(t));
                    }
                    let rest: PluckVal = args[0].clone();
                    let ghost s = ctx::forcing(rest);
                    let k: Kont = Kont::Count { count: count + 1 };
                    let ghost c = kont::chained(s, k, cs);
                    proof {
                        values::lemma_all_over(args@, self.vars());
                        assert(args@[0].over(self.vars()));
                        assert forall|a: Worlds, x: Model, f: nat| self.allows(a, x) && t(a, x, 0) is Some implies #[trigger] t(
                            a,
                            x,
                            f,
                        ) == c(a, x, f) by {
                            values::lemma_all_at(args@, a);
                            assert(args@[0].at(a) == Some(values::all_at(args@, a)->0[0]));
                        }
                        assert forall|a: Worlds, x: Model| #[trigger]
                            self.allows(a, x) && before.constraint.eval(a) implies s(a, x, 0) is Some && c(
                            a,
                            x,
                            0,
                        ) is Some by {
                            assert(t(a, x, 0) is Some);
                            values::lemma_all_at(args@, a);
                            assert(args@[0].at(a) is Some);
                        }
                    }
                    let first: Option<PluckVal> = self.sample_thunk(&rest, st, coin);
                    let ghost mid = *self;
                    let ghost between = *st;
                    proof {
                        start.lemma_total_narrower(before.constraint, between.constraint, c);
                        start.lemma_total_grows(self, between.constraint, c);
                        kont::lemma_forcing_sound(rest);
                    }
                    let r: Option<PluckVal> = self.sample_then(first, &k, st, coin, Ghost(s));
                    proof {
                        start.lemma_onward(*coin, &mid, self, before, between, *st, r, c);
                        start.lemma_renamed(*coin, self, before, *st, r, c, t);
                    }
                    return r;
                }
            },
            _ => {},
        }
        proof {
            assert forall|a: Worlds, x: Model| #[trigger]
                self.allows(a, x) && before.constraint.eval(a) && t(a, x, 0) is Some implies v.at(a) is Some
                && t(a, x, 0) == Some(Outcome::Done(v.at(a)->0)) by {
                match &**v {
                    PluckValue::Value { args, .. } => values::lemma_all_at(args@, a),
                    _ => {},
                }
            }
            self.lemma_landed_value(*v, st.constraint, t);
        }
        Some(v.clone())
    }

    /// Evaluate a value as far as is asked for.
    fn sample_evaluate<C: Fn(FlipWeight) -> bool>(
        &mut self,
        depth: Depth,
        v: &PluckVal,
        st: &mut SampleState,
        coin: &C,
    ) -> (r: Option<PluckVal>)
        requires
            old(self).sets_out(*old(st), kont::evaluating(depth, *v)),
            v.over(old(self).vars()),
            depth != Depth::Keep,
            depth == Depth::Number ==> values::is_head(**v),
            sampling::tossed(*coin),
        ensures
            old(self).comes_to(
                *coin,
                final(self),
                *old(st),
                *final(st),
                r,
                kont::evaluating(depth, *v),
            ),
        decreases old(self).fuel(), 4nat, i64::MAX as nat, 1nat,
    {
        let ghost start = *self;
        let ghost before = *st;
        let ghost t = kont::evaluating(depth, *v);
        if depth == Depth::Number {
            let ghost s = kont::counting(*v, 0);
            proof {
                assert forall|a: Worlds, x: Model| #[trigger]
                    self.allows(a, x) && before.constraint.eval(a) implies s(a, x, 0) is Some by {
                    assert(t(a, x, 0) is Some);
                }
            }
            let r: Option<PluckVal> = self.sample_numeral(v, 0, st, coin);
            proof {
                start.lemma_renamed(*coin, self, before, *st, r, s, t);
            }
            r
        } else {
            let ghost s = ctx::forcing(*v);
            proof {
                assert forall|a: Worlds, x: Model| #[trigger]
                    self.allows(a, x) && before.constraint.eval(a) implies s(a, x, 0) is Some by {
                    assert(t(a, x, 0) is Some);
                }
            }
            let r: Option<PluckVal> = self.sample_thunk(v, st, coin);
            proof {
                start.lemma_renamed(*coin, self, before, *st, r, s, t);
            }
            r
        }
    }

    /// Evaluate further what a primitive asks for, then settle it, and take
    /// the outcome that the sample is in.
    #[verifier::rlimit(50)]
    fn sample_supply<C: Fn(FlipWeight) -> bool>(
        &mut self,
        p: Primitive,
        vals: &Vec<PluckVal>,
        wants: &Vec<(Depth, PluckVal)>,
        got: &Vec<PluckVal>,
        st: &mut SampleState,
        coin: &C,
    ) -> (r: Option<PluckVal>)
        requires
            old(self).sets_out(
                *old(st),
                kont::supplying(p, vals@, got@, old(self).state.callstack@),
            ),
            settle::takes(p, vals@.len()),
            settle::all_heads(vals@),
            values::all_over(vals@, old(self).vars()),
            values::all_over(got@, old(self).vars()),
            wants@ == operands::wants_in(p, vals@),
            got@.len() <= wants@.len(),
            floats::fed(wants@.take(got@.len() as int), got@),
            sampling::tossed(*coin),
        ensures
            old(self).comes_to(
                *coin,
                final(self),
                *old(st),
                *final(st),
                r,
                kont::supplying(p, vals@, got@, old(self).state.callstack@),
            ),
        decreases old(self).fuel(), 5nat, (wants@.len() - got@.len()) as nat, 9nat,
    {
        let ghost start = *self;
        let ghost before = *st;
        let ghost cs = self.state.callstack@;
        let ghost t = kont::supplying(p, vals@, got@, cs);
        let ghost ans = settle::asked(p, vals@, got@, cs);
        let ghost n = got@.len() as int;
        proof {
            assert forall|a: Worlds| #[trigger] values::all_at(vals@, a) is Some implies floats::wants_at(
                wants@,
                a,
                semantics::wants(p, values::all_at(vals@, a)->0),
            ) by {
                operands::lemma_wants(p, vals@, a, self.vars());
            }
        }
        if got.len() >= wants.len() {
            proof {
                assert(wants@.take(n) =~= wants@);
            }
            let answer: Option<GuardedWorlds> = self.settle(p, vals, got);
            let ghost mid = *self;
            proof {
                start.lemma_total_grows(self, before.constraint, t);
                start.lemma_drawing_kept(self, *st);
                assert forall|a: Worlds, x: Model, f: nat| t(a, x, 0) is Some implies #[trigger] t(
                    a,
                    x,
                    f,
                ) == ans(a, x) by {}
            }
            match answer {
                Some(w) => {
                    proof {
                        self.lemma_post_answer(w, st.constraint, ans, t);
                    }
                    let r: Option<PluckVal> = self.select(w, st, coin, Ghost(t));
                    proof {
                        start.lemma_onward(*coin, &mid, self, before, before, *st, r, t);
                    }
                    r
                },
                None => {
                    proof {
                        assert forall|a: Worlds, x: Model| #[trigger]
                            self.allows(a, x) && before.constraint.eval(a) implies t(a, x, self.fuel())
                            == Some(Outcome::Stuck) by {
                            assert(t(a, x, 0) is Some);
                            assert(t(a, x, self.fuel()) == ans(a, x));
                        }
                    }
                    let r: Option<PluckVal> = self.give_up_sample(st, coin, Ghost(t));
                    proof {
                        start.lemma_onward(*coin, &mid, self, before, before, *st, r, t);
                    }
                    r
                },
            }
        } else {
            let depth: Depth = wants[got.len()].0;
            let v: PluckVal = wants[got.len()].1.clone();
            proof {
                operands::lemma_wants_over(p, vals@, self.vars());
                assert(wants@[n].1.over(self.vars()));
                assert forall|a: Worlds| #[trigger] values::all_at(vals@, a) is Some implies v.at(a)
                    == Some(semantics::wants(p, values::all_at(vals@, a)->0)[n].1) && depth
                    == semantics::wants(p, values::all_at(vals@, a)->0)[n].0 by {
                    assert(floats::wants_at(
                        wants@,
                        a,
                        semantics::wants(p, values::all_at(vals@, a)->0),
                    ));
                }
            }
            if depth == Depth::Keep {
                let mut next: Vec<PluckVal> = values::clone_vals(got);
                next.push(v);
                let ghost u = kont::supplying(p, vals@, next@, cs);
                proof {
                    assert(next@.drop_last() =~= got@);
                    assert forall|j: int| 0 <= j < next@.len() && wants@.take(n + 1)[j].0 != Depth::Keep implies values::is_head(
                        *(#[trigger] next@[j]),
                    ) by {
                        assert(next@[j] == got@[j]);
                        assert(wants@.take(n)[j] == wants@[j]);
                    }
                    assert forall|a: Worlds, x: Model, f: nat| t(a, x, 0) is Some implies #[trigger] t(
                        a,
                        x,
                        f,
                    ) == u(a, x, f) by {
                        assert(values::all_at(vals@, a) is Some);
                        values::lemma_all_at(got@, a);
                        let ds = values::all_at(vals@, a)->0;
                        let gs = values::all_at(got@, a)->0;
                        let ws = semantics::wants(p, ds);
                        assert(floats::wants_at(wants@, a, ws));
                        assert(ws[n].0 == Depth::Keep);
                        assert(semantics::evaluated(ws[n], x, f) == Outcome::Done(ws[n].1));
                        assert(values::all_at(next@, a) == Some(gs.push(ws[n].1)));
                        assert(semantics::supplied(p, ds, n, gs, cs, x, f) == semantics::supplied(
                            p,
                            ds,
                            n + 1,
                            gs.push(ws[n].1),
                            cs,
                            x,
                            f,
                        ));
                    }
                    assert forall|a: Worlds, x: Model| #[trigger]
                        self.allows(a, x) && before.constraint.eval(a) implies u(a, x, 0) is Some by {
                        assert(t(a, x, 0) is Some);
                    }
                }
                let r: Option<PluckVal> = self.sample_supply(p, vals, wants, &next, st, coin);
                proof {
                    start.lemma_renamed(*coin, self, before, *st, r, u, t);
                }
                return r;
            }
            let ghost s = kont::evaluating(depth, v);
            let k: Kont = Kont::Supply { p, vals, wants, got };
            let ghost c = kont::chained(s, k, cs);
            proof {
                assert forall|a: Worlds, x: Model, f: nat| t(a, x, 0) is Some implies #[trigger] t(
                    a,
                    x,
                    f,
                ) == c(a, x, f) by {
                    assert(values::all_at(vals@, a) is Some);
                    values::lemma_all_at(got@, a);
                }
                assert forall|a: Worlds, x: Model| #[trigger]
                    self.allows(a, x) && before.constraint.eval(a) implies s(a, x, 0) is Some && c(
                    a,
                    x,
                    0,
                ) is Some by {
                    assert(t(a, x, 0) is Some);
                    assert(values::all_at(vals@, a) is Some);
                    assert(t(a, x, 0) == c(a, x, 0));
                }
            }
            let first: Option<PluckVal> = self.sample_evaluate(depth, &v, st, coin);
            let ghost mid = *self;
            let ghost between = *st;
            proof {
                start.lemma_total_narrower(before.constraint, between.constraint, c);
                start.lemma_total_grows(self, between.constraint, c);
                kont::lemma_evaluating_sound(depth, v);
                k.lemma_over_grows(start.vars(), self.vars());
            }
            let r: Option<PluckVal> = self.sample_then(first, &k, st, coin, Ghost(s));
            proof {
                start.lemma_onward(*coin, &mid, self, before, between, *st, r, c);
                start.lemma_renamed(*coin, self, before, *st, r, c, t);
            }
            r
        }
    }

    /// Evaluate the operands of a primitive one after the other, and then the
    /// primitive.
    #[verifier::rlimit(40)]
    fn sample_operands<C: Fn(FlipWeight) -> bool>(
        &mut self,
        p: Primitive,
        kids: &Vec<&PExpr>,
        vals: &Vec<PluckVal>,
        env: &Env,
        st: &mut SampleState,
        coin: &C,
    ) -> (r: Option<PluckVal>)
        requires
            old(self).sets_out(
                *old(st),
                kont::loading(
                    p,
                    kont::kid_trees(kids@),
                    vals@,
                    *env,
                    old(self).state.callstack@,
                ),
            ),
            settle::takes(p, kids@.len()),
            settle::all_heads(vals@),
            vals@.len() <= kids@.len(),
            values::all_over(vals@, old(self).vars()),
            env.over(old(self).vars()),
            sampling::tossed(*coin),
        ensures
            old(self).comes_to(
                *coin,
                final(self),
                *old(st),
                *final(st),
                r,
                kont::loading(
                    p,
                    kont::kid_trees(kids@),
                    vals@,
                    *env,
                    old(self).state.callstack@,
                ),
            ),
        decreases old(self).fuel(), 12nat, (kids@.len() - vals@.len()) as nat, 9nat,
    {
        let ghost start = *self;
        let ghost before = *st;
        let ghost cs = self.state.callstack@;
        let ghost trees = kont::kid_trees(kids@);
        let ghost t = kont::loading(p, trees, vals@, *env, cs);
        proof {
            assert forall|a: Worlds| #[trigger] values::all_at(vals@, a) is Some implies values::all_at(
                vals@,
                a,
            )->0.len() == vals@.len() by {
                values::lemma_all_at(vals@, a);
            }
        }
        if vals.len() >= kids.len() {
            let wants: Vec<(Depth, PluckVal)> = wants_of(p, vals);
            let got: Vec<PluckVal> = Vec::new();
            let ghost u = kont::supplying(p, vals@, got@, cs);
            proof {
                assert(got@ =~= Seq::<PluckVal>::empty());
                assert forall|a: Worlds, x: Model, f: nat| t(a, x, 0) is Some implies #[trigger] t(
                    a,
                    x,
                    f,
                ) == u(a, x, f) by {
                    assert(values::all_at(vals@, a) is Some);
                }
                assert forall|a: Worlds, x: Model| #[trigger]
                    self.allows(a, x) && before.constraint.eval(a) implies u(a, x, 0) is Some by {
                    assert(t(a, x, 0) is Some);
                }
            }
            let r: Option<PluckVal> = self.sample_supply(p, vals, &wants, &got, st, coin);
            proof {
                start.lemma_renamed(*coin, self, before, *st, r, u, t);
            }
            return r;
        }
        let n: usize = vals.len();
        let index: i32 = if p == Primitive::Index && n > 0 {
            0
        } else {
            n as i32
        };
        let expr: &PExpr = kids[n];
        let ghost s = kont::calling(trees[n as int], *env, index, cs);
        let k: Kont = Kont::Operands { p, kids, vals, env };
        let ghost c = kont::chained(s, k, cs);
        proof {
            assert(trees[n as int] == expr.tree());
            assert forall|a: Worlds, x: Model, f: nat| t(a, x, 0) is Some implies #[trigger] t(a, x, f)
                == c(a, x, f) by {
                assert(values::all_at(vals@, a) is Some);
            }
            assert forall|a: Worlds, x: Model| #[trigger]
                self.allows(a, x) && before.constraint.eval(a) implies s(a, x, 0) is Some && c(a, x, 0) is Some by {
                assert(t(a, x, 0) is Some);
                assert(t(a, x, 0) == c(a, x, 0));
            }
        }
        let first: Option<PluckVal> = self.sample_traced(expr, env, st, index, coin);
        let ghost mid = *self;
        let ghost between = *st;
        proof {
            start.lemma_total_narrower(before.constraint, between.constraint, c);
            start.lemma_total_grows(self, between.constraint, c);
            kont::lemma_calling_sound(trees[n as int], *env, index, cs);
            k.lemma_over_grows(start.vars(), self.vars());
        }
        let r: Option<PluckVal> = self.sample_then(first, &k, st, coin, Ghost(s));
        proof {
            start.lemma_onward(*coin, &mid, self, before, between, *st, r, c);
            start.lemma_renamed(*coin, self, before, *st, r, c, t);
        }
        r
    }

    /// Evaluate an expression, and run a continuation on its value.
    #[verifier::rlimit(30)]
    fn sample_and<C: Fn(FlipWeight) -> bool>(
        &mut self,
        expr: &PExpr,
        env: &Env,
        k: &Kont,
        st: &mut SampleState,
        coin: &C,
        Ghost(whole): Ghost<Sem>,
    ) -> (r: Option<PluckVal>)
        requires
            old(self).sets_out(*old(st), whole),
            env.over(old(self).vars()),
            k.over(old(self).vars()),
            k.wf(),
            k.group() == 3,
            forall|a: Worlds, x: Model, f: nat|
                whole(a, x, 0) is Some ==> #[trigger] whole(a, x, f) == kont::chained(
                    kont::calling(expr.tree(), *env, 0, old(self).state.callstack@),
                    *k,
                    old(self).state.callstack@,
                )(a, x, f),
            sampling::tossed(*coin),
        ensures
            old(self).comes_to(*coin, final(self), *old(st), *final(st), r, whole),
        decreases old(self).fuel(), 19nat, 0nat, 0nat,
    {
        let ghost start = *self;
        let ghost before = *st;
        let ghost cs = self.state.callstack@;
        let ghost s = kont::calling(expr.tree(), *env, 0, cs);
        let ghost c = kont::chained(s, *k, cs);
        proof {
            assert forall|a: Worlds, x: Model| #[trigger]
                self.allows(a, x) && before.constraint.eval(a) implies s(a, x, 0) is Some && c(a, x, 0) is Some by {
                assert(whole(a, x, 0) is Some);
                assert(whole(a, x, 0) == c(a, x, 0));
            }
        }
        let first: Option<PluckVal> = self.sample_traced(expr, env, st, 0, coin);
        let ghost mid = *self;
        let ghost between = *st;
        proof {
            start.lemma_total_narrower(before.constraint, between.constraint, c);
            start.lemma_total_grows(self, between.constraint, c);
            kont::lemma_calling_sound(expr.tree(), *env, 0, cs);
            k.lemma_over_grows(start.vars(), self.vars());
        }
        let r: Option<PluckVal> = self.sample_then(first, k, st, coin, Ghost(s));
        proof {
            start.lemma_onward(*coin, &mid, self, before, between, *st, r, c);
            start.lemma_renamed(*coin, self, before, *st, r, c, whole);
        }
        r
    }

    /// Evaluate one sample of an expression at the current callstack.
    #[verifier::rlimit(60)]
    fn sample_compile<C: Fn(FlipWeight) -> bool>(
        &mut self,
        expr: &PExpr,
        env: &Env,
        st: &mut SampleState,
        coin: &C,
    ) -> (r: Option<PluckVal>)
        requires
            old(self).sets_out(
                *old(st),
                kont::running(expr.tree(), *env, old(self).state.callstack@),
            ),
            env.over(old(self).vars()),
            sampling::tossed(*coin),
        ensures
            old(self).comes_to(
                *coin,
                final(self),
                *old(st),
                *final(st),
                r,
                kont::running(expr.tree(), *env, old(self).state.callstack@),
            ),
        decreases old(self).fuel(), 20nat, 0nat, 0nat,
    {
        let ghost start = *self;
        let ghost before = *st;
        let ghost cs = self.state.callstack@;
        let ghost t = kont::running(expr.tree(), *env, cs);
        proof {
            self.lemma_step_refl();
        }
        match expr {
            PExpr::Var { name } => self.sample_var(expr, *name, env, st, coin),
            PExpr::Defined { name } => self.sample_defined(expr, *name, env, st, coin),
            PExpr::App { func, arg } => {
                let thunk: PluckVal = make_thunk(arg, env, 1, &self.state.callstack);
                let k: Kont = Kont::Apply { arg: thunk };
                proof {
                    let c = kont::chained(kont::calling(func.tree(), *env, 0, cs), k, cs);
                    assert forall|a: Worlds, x: Model, f: nat| t(a, x, 0) is Some implies #[trigger] t(
                        a,
                        x,
                        f,
                    ) == c(a, x, f) by {
                        assert(env.at(a) is Some);
                    }
                    assert(thunk.over(self.vars()));
                }
                self.sample_and(func, env, &k, st, coin, Ghost(t))
            },
            PExpr::CaseOf { guards, scrutinee, branches } => {
                let k: Kont = Kont::Match { guards, branches, env };
                proof {
                    let c = kont::chained(kont::calling(scrutinee.tree(), *env, 0, cs), k, cs);
                    let kids = expr.tree().kids;
                    assert(kids.skip(1) =~= pexpr::trees(branches@));
                    assert forall|a: Worlds, x: Model, f: nat| t(a, x, 0) is Some implies #[trigger] t(
                        a,
                        x,
                        f,
                    ) == c(a, x, f) by {}
                }
                self.sample_and(scrutinee, env, &k, st, coin, Ghost(t))
            },
            PExpr::YComb { func } => {
                let k: Kont = Kont::Loop;
                proof {
                    let c = kont::chained(kont::calling(func.tree(), *env, 0, cs), k, cs);
                    assert forall|a: Worlds, x: Model, f: nat| t(a, x, 0) is Some implies #[trigger] t(
                        a,
                        x,
                        f,
                    ) == c(a, x, f) by {}
                }
                self.sample_and(func, env, &k, st, coin, Ghost(t))
            },
            PExpr::Print { expr: inner } => {
                let ghost s = kont::calling(inner.tree(), *env, 0, cs);
                proof {
                    assert forall|a: Worlds, x: Model, f: nat| t(a, x, 0) is Some implies #[trigger] t(
                        a,
                        x,
                        f,
                    ) == s(a, x, f) by {}
                    assert forall|a: Worlds, x: Model| #[trigger]
                        self.allows(a, x) && before.constraint.eval(a) implies s(a, x, 0) is Some by {
                        assert(t(a, x, 0) is Some);
                    }
                }
                let r: Option<PluckVal> = self.sample_traced(inner, env, st, 0, coin);
                proof {
                    start.lemma_renamed(*coin, self, before, *st, r, s, t);
                }
                r
            },
            PExpr::Error { .. } => {
                proof {
                    self.lemma_landed_fail(st.constraint, t);
                }
                None
            },
            PExpr::Pin { expr: inner, val } => {
                let w: GuardedWorlds = self.compile_pin(inner, val, env, &st.constraint);
                self.sample_worlds(w, st, coin, Ghost(t), Ghost(start))
            },
            _ => match strict_parts(expr) {
                Some((p, kids)) => {
                    let none: Vec<PluckVal> = Vec::new();
                    let ghost u = kont::loading(p, kont::kid_trees(kids@), none@, *env, cs);
                    proof {
                        assert(none@ =~= Seq::<PluckVal>::empty());
                        assert forall|a: Worlds, x: Model, f: nat| t(a, x, 0) is Some implies #[trigger] t(
                            a,
                            x,
                            f,
                        ) == u(a, x, f) by {}
                        assert forall|a: Worlds, x: Model| #[trigger]
                            self.allows(a, x) && before.constraint.eval(a) implies u(a, x, 0) is Some by {
                            assert(t(a, x, 0) is Some);
                        }
                    }
                    let r: Option<PluckVal> = self.sample_operands(p, &kids, &none, env, st, coin);
                    proof {
                        start.lemma_renamed(*coin, self, before, *st, r, u, t);
                    }
                    r
                },
                None => {
                    let w: GuardedWorlds = self.compile_value(expr, env, &st.constraint);
                    self.sample_worlds(w, st, coin, Ghost(t), Ghost(start))
                },
            },
        }
    }

    /// Take the world of what was compiled since `start`.
    fn sample_worlds<C: Fn(FlipWeight) -> bool>(
        &mut self,
        w: GuardedWorlds,
        st: &mut SampleState,
        coin: &C,
        Ghost(t): Ghost<Sem>,
        Ghost(start): Ghost<Self>,
    ) -> (r: Option<PluckVal>)
        requires
            start.step(old(self)),
            start.drawing(*old(st)),
            start.total(old(st).constraint, t),
            old(self).post(w, old(st).constraint, t),
            sampling::tossed(*coin),
        ensures
            start.comes_to(*coin, final(self), *old(st), *final(st), r, t),
    {
        let ghost mid = *self;
        let ghost before = *st;
        proof {
            start.lemma_drawing_kept(self, *st);
            start.lemma_total_grows(self, st.constraint, t);
        }
        let r: Option<PluckVal> = self.select(w, st, coin, Ghost(t));
        proof {
            start.lemma_onward(*coin, &mid, self, before, before, *st, r, t);
        }
        r
    }

    /// Evaluate a variable: what it is bound to is evaluated.
    fn sample_var<C: Fn(FlipWeight) -> bool>(
        &mut self,
        expr: &PExpr,
        name: Symbol,
        env: &Env,
        st: &mut SampleState,
        coin: &C,
    ) -> (r: Option<PluckVal>)
        requires
            old(self).sets_out(
                *old(st),
                kont::running(expr.tree(), *env, old(self).state.callstack@),
            ),
            env.over(old(self).vars()),
            *expr == (PExpr::Var { name }),
            sampling::tossed(*coin),
        ensures
            old(self).comes_to(
                *coin,
                final(self),
                *old(st),
                *final(st),
                r,
                kont::running(expr.tree(), *env, old(self).state.callstack@),
            ),
        decreases old(self).fuel(), 19nat, 0nat, 0nat,
    {
        let ghost start = *self;
        let ghost before = *st;
        let ghost cs = self.state.callstack@;
        let ghost t = kont::running(expr.tree(), *env, cs);
        proof {
            self.lemma_step_refl();
            assert forall|a: Worlds| #[trigger] env.at(a) is Some implies (match env.find(name) {
                Some(v) => v.at(a) is Some && values::lookup(env.at(a)->0, name) == v.at(a),
                None => values::lookup(env.at(a)->0, name) is None,
            }) by {
                values::lemma_find(&**env, name, a);
            }
        }
        match env_lookup(env, name) {
            Some(val) => {
                let ghost s = ctx::forcing(val);
                proof {
                    values::lemma_find_over(&**env, name, self.vars());
                    assert forall|a: Worlds, x: Model, f: nat| t(a, x, 0) is Some implies #[trigger] t(
                        a,
                        x,
                        f,
                    ) == s(a, x, f) by {
                        assert(env.at(a) is Some);
                    }
                    assert forall|a: Worlds, x: Model| #[trigger]
                        self.allows(a, x) && before.constraint.eval(a) implies s(a, x, 0) is Some by {
                        assert(t(a, x, 0) is Some);
                    }
                }
                let r: Option<PluckVal> = self.sample_thunk(&val, st, coin);
                proof {
                    start.lemma_renamed(*coin, self, before, *st, r, s, t);
                }
                r
            },
            None => {
                proof {
                    assert forall|a: Worlds, x: Model| #[trigger]
                        self.allows(a, x) && before.constraint.eval(a) && t(a, x, 0) is Some implies t(
                        a,
                        x,
                        0,
                    ) == Some(Outcome::Fail) by {
                        assert(env.at(a) is Some);
                    }
                    self.lemma_landed_fail(st.constraint, t);
                }
                None
            },
        }
    }

    /// Evaluate a reference to a definition.
    fn sample_defined<C: Fn(FlipWeight) -> bool>(
        &mut self,
        expr: &PExpr,
        name: Symbol,
        env: &Env,
        st: &mut SampleState,
        coin: &C,
    ) -> (r: Option<PluckVal>)
        requires
            old(self).sets_out(
                *old(st),
                kont::running(expr.tree(), *env, old(self).state.callstack@),
            ),
            env.over(old(self).vars()),
            *expr == (PExpr::Defined { name }),
            sampling::tossed(*coin),
        ensures
            old(self).comes_to(
                *coin,
                final(self),
                *old(st),
                *final(st),
                r,
                kont::running(expr.tree(), *env, old(self).state.callstack@),
            ),
        decreases old(self).fuel(), 19nat, 0nat, 0nat,
    {
        let ghost start = *self;
        let ghost before = *st;
        let ghost cs = self.state.callstack@;
        let ghost t = kont::running(expr.tree(), *env, cs);
        proof {
            self.lemma_step_refl();
        }
        let defs: &'a DefinitionRegistry = self.defs;
        match defs.lookup(name) {
            Some(def) => {
                let scope: Env = empty_env();
                let ghost s = kont::calling(kont::shared_tree(def.expr), scope, 0, cs);
                proof {
                    assert forall|a: Worlds, x: Model, f: nat| self.allows(a, x) && t(a, x, 0) is Some implies #[trigger] t(
                        a,
                        x,
                        f,
                    ) == s(a, x, f) by {}
                    assert(self.total(st.constraint, s));
                }
                let r: Option<PluckVal> = self.sample_traced(&def.expr, &scope, st, 0, coin);
                proof {
                    start.lemma_renamed(*coin, self, before, *st, r, s, t);
                }
                r
            },
            None => {
                proof {
                    self.lemma_landed_fail(st.constraint, t);
                }
                None
            },
        }
    }
}

/// The continuation can be run on the value of a sample.
pub open spec fn direct(k: Kont) -> bool {
    match k {
        Kont::Apply { .. } => true,
        Kont::Match { .. } => true,
        Kont::Loop => true,
        Kont::Operands { .. } => true,
        Kont::Supply { .. } => true,
        Kont::Count { .. } => true,
        _ => false,
    }
}

} // verus!
