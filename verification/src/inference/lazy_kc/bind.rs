//! How the results of compilations are put together.

use vstd::prelude::*;

use super::ctx;
use super::ctx::{CompilerCtx, Sem};
use super::kont;
use super::kont::Kont;
use super::monad;
use super::monad::{
    clone_worlds, inference_error_worlds, program_error_worlds, GuardedWorlds, World,
};
use super::semantics;
use super::semantics::Model;
use super::settle::Ans;
use super::state;
use super::state::{bumped, CacheEntry, LazyKCState, LazyKCStats};
use crate::discrete_factorizations as factorizations;
use crate::discrete_factorizations::{BooleanFunction, Worlds};
use crate::language::values;
use crate::language::values::{Outcome, PluckVal};
use crate::utils::reals::RealOp;
use crate::utils::sharing;
use crate::utils::sharing::is_cell;

verus! {

/// Every value is one that the continuation can take.
pub open spec fn accepts_all(k: Kont, s: Seq<World>) -> bool {
    forall|i: int| 0 <= i < s.len() ==> k.accepts(*(#[trigger] s[i]).0)
}

impl<'a, F: Fn(RealOp, u64, u64) -> u64, G: Fn(usize, Vec<u64>) -> bool> CompilerCtx<'a, F, G> {
    /// The tables and the program are the same.
    pub open spec fn same_tables(&self, next: &Self) -> bool {
        &&& self.state.factorizer == next.state.factorizer
        &&& self.state.choices == next.state.choices
        &&& self.state.names == next.state.names
        &&& self.state.blocks == next.state.blocks
        &&& self.state.priors == next.state.priors
        &&& self.state.cache == next.state.cache
        &&& self.state.cfg == next.state.cfg
        &&& self.defs == next.defs
        &&& self.list == next.list
        &&& self.nat == next.nat
        &&& self.true_sym == next.true_sym
        &&& self.false_sym == next.false_sym
        &&& self.reals == next.reals
        &&& self.covariance == next.covariance
    }

    /// With the same tables the same holds.
    pub proof fn lemma_tables(&self, next: &Self)
        requires
            self.wf(),
            self.same_tables(next),
            next.state.wf(),
        ensures
            next.wf(),
            next.vars() == self.vars(),
            forall|a: Worlds, x: Model| #[trigger] next.allows(a, x) == self.allows(a, x),
    {
        assert forall|i: int| 0 <= i < next.state.cache@.len() implies next.entry_right(
            (#[trigger] next.state.cache@[i]).thunk,
            next.state.cache@[i].worlds,
        ) by {
            let e = self.state.cache@[i];
            assert(self.entry_right(e.thunk, e.worlds));
            self.lemma_right_same(next, e.worlds, ctx::forcing(e.thunk));
        }
    }

    /// What is right is right where the same is allowed.
    pub proof fn lemma_right_same(&self, next: &Self, w: GuardedWorlds, s: Sem)
        requires
            self.right(w, s),
            forall|a: Worlds, x: Model| #[trigger] next.allows(a, x) == self.allows(a, x),
        ensures
            next.right(w, s),
    {
    }

    /// The result of a compilation elsewhere, with the same tables and as
    /// deep.
    pub proof fn lemma_post_moved(&self, next: &Self, w: GuardedWorlds, pc: BooleanFunction, s: Sem)
        requires
            self.post(w, pc, s),
            next.vars() == self.vars(),
            next.fuel() == self.fuel(),
            next.state.hit_limit == self.state.hit_limit,
            forall|a: Worlds, x: Model| #[trigger] next.allows(a, x) == self.allows(a, x),
        ensures
            next.post(w, pc, s),
    {
        if self.state.hit_limit {
            let (a, x) = choose|a: Worlds, x: Model| #[trigger]
                self.allows(a, x) && pc.eval(a) && s(a, x, self.fuel()) == Some(Outcome::Stuck);
            assert(next.allows(a, x));
        } else {
            self.lemma_right_same(next, w, s);
        }
    }

    /// What a compilation under a condition starts from.
    pub open spec fn starts(&self, pc: BooleanFunction, s: Sem) -> bool {
        &&& self.wf()
        &&& !self.state.hit_limit
        &&& pc.wf(self.vars())
        &&& self.total(pc, s)
    }

    /// Results for one evaluation are results for another that is the same.
    pub proof fn lemma_post_same(&self, w: GuardedWorlds, pc: BooleanFunction, s: Sem, t: Sem)
        requires
            self.post(w, pc, s),
            self.total(pc, t),
            forall|a: Worlds, x: Model, f: nat|
                self.allows(a, x) && t(a, x, 0) is Some ==> #[trigger] t(a, x, f) == s(a, x, f),
        ensures
            self.post(w, pc, t),
    {
        if self.state.hit_limit {
            let (a, x) = choose|a: Worlds, x: Model| #[trigger]
                self.allows(a, x) && pc.eval(a) && s(a, x, self.fuel()) == Some(Outcome::Stuck);
            assert(t(a, x, 0) is Some);
            assert(t(a, x, self.fuel()) == Some(Outcome::Stuck));
        } else {
            assert forall|a: Worlds, x: Model| #[trigger]
                self.allows(a, x) && w.1.eval(a) && t(a, x, 0) is Some implies ctx::reached(
                t,
                a,
                x,
                values::pick(w.0@, a),
            ) by {
                assert(t(a, x, 0) == s(a, x, 0));
                let o = values::pick(w.0@, a);
                let f = choose|f: nat| #[trigger] s(a, x, f) == Some(o);
                assert(t(a, x, f) == Some(o));
            }
        }
    }

    /// A single world gives its value.
    pub proof fn lemma_post_value(&self, v: PluckVal, w: GuardedWorlds, pc: BooleanFunction, t: Sem)
        requires
            !self.state.hit_limit,
            w.0@ == seq![(v, BooleanFunction::True)],
            w.1 == BooleanFunction::True,
            v.over(self.vars()),
            values::is_head(*v),
            forall|a: Worlds, x: Model| #[trigger]
                self.allows(a, x) && t(a, x, 0) is Some ==> v.at(a) is Some && t(a, x, 0) == Some(
                    Outcome::Done(v.at(a)->0),
                ),
        ensures
            self.post(w, pc, t),
    {
        let e = (v, BooleanFunction::True);
        values::lemma_pick_single(e);
        assert(values::entries_over(seq![e], self.vars()));
        assert forall|a: Worlds, x: Model| #[trigger]
            self.allows(a, x) && w.1.eval(a) && t(a, x, 0) is Some implies ctx::reached(
            t,
            a,
            x,
            values::pick(w.0@, a),
        ) by {
            assert(values::pick(seq![e], a) == values::option(e, a));
        }
    }

    /// No worlds: the evaluation fails.
    pub proof fn lemma_post_fail(&self, w: GuardedWorlds, pc: BooleanFunction, t: Sem)
        requires
            !self.state.hit_limit,
            w.0@ == Seq::<World>::empty(),
            w.1 == BooleanFunction::True,
            forall|a: Worlds, x: Model| #[trigger]
                self.allows(a, x) && t(a, x, 0) is Some ==> t(a, x, 0) == Some(Outcome::Fail),
        ensures
            self.post(w, pc, t),
    {
    }

    /// An answer is the result of an evaluation that comes to it.
    pub proof fn lemma_post_answer(&self, w: GuardedWorlds, pc: BooleanFunction, s: Ans, t: Sem)
        requires
            !self.state.hit_limit,
            self.answers(Some(w), s),
            forall|a: Worlds, x: Model| #[trigger]
                self.allows(a, x) && t(a, x, 0) is Some ==> t(a, x, 0) == s(a, x),
        ensures
            self.post(w, pc, t),
    {
        assert forall|a: Worlds, x: Model| #[trigger]
            self.allows(a, x) && w.1.eval(a) && t(a, x, 0) is Some implies ctx::reached(
            t,
            a,
            x,
            values::pick(w.0@, a),
        ) by {
            assert(t(a, x, 0) == Some(values::pick(w.0@, a)));
        }
    }

    /// Give up: there is no telling what the evaluation comes to.
    pub(crate) fn give_up(&mut self, pc: &BooleanFunction, Ghost(s): Ghost<Sem>) -> (r: GuardedWorlds)
        requires
            old(self).wf(),
            pc.wf(old(self).vars()),
            *pc != BooleanFunction::False,
            forall|a: Worlds, x: Model| #[trigger]
                old(self).allows(a, x) && pc.eval(a) ==> s(a, x, old(self).fuel()) == Some(
                    Outcome::Stuck,
                ),
        ensures
            old(self).step(final(self)),
            final(self).state.hit_limit,
            r.0@.len() == 0,
            final(self).post(r, *pc, s),
    {
        let ghost start = *self;
        self.state.hit_limit = true;
        proof {
            start.lemma_tables(self);
            factorizations::lemma_is_false(pc, self.vars());
            let a = choose|a: Worlds| #[trigger] pc.eval(a);
            let x = self.lemma_some_model(a);
            assert(self.allows(a, x));
            assert(start.allows(a, x));
            assert(self.stuck(*pc, s));
        }
        inference_error_worlds()
    }

    /// The value that is chosen before a continuation is the one whose guard
    /// holds.
    proof fn lemma_chosen(&self, pre: GuardedWorlds, s: Sem, a: Worlds, x: Model, i: int)
        requires
            self.right(pre, s),
            self.allows(a, x),
            pre.1.eval(a),
            s(a, x, 0) is Some,
            0 <= i < pre.0@.len(),
            pre.0@[i].1.eval(a),
        ensures
            pre.0@[i].0.at(a) is Some,
            values::pick(pre.0@, a) == Outcome::Done(pre.0@[i].0.at(a)->0),
            ctx::reached(s, a, x, values::pick(pre.0@, a)),
    {
        assert(ctx::reached(s, a, x, values::pick(pre.0@, a)));
        values::lemma_pick_fail(pre.0@, a);
        let j = values::lemma_pick_done(pre.0@, a);
        assert(i == j);
    }

    /// Under the condition, what a continuation waits for has a definite
    /// value.
    pub(crate) proof fn lemma_resumed_total(
        &self,
        next: &Self,
        pre: GuardedWorlds,
        pc: BooleanFunction,
        k: Kont,
        s: Sem,
        cs: Seq<i32>,
        i: int,
        inner: BooleanFunction,
    )
        requires
            self.step(next),
            self.right(pre, s),
            ctx::covers(pre, pc),
            self.total(pc, kont::chained(s, k, cs)),
            0 <= i < pre.0@.len(),
            forall|a: Worlds| #[trigger] inner.eval(a) ==> pc.eval(a) && pre.0@[i].1.eval(a),
        ensures
            next.total(inner, kont::resumed(k, pre.0@[i].0, cs)),
    {
        let c = kont::chained(s, k, cs);
        let t = kont::resumed(k, pre.0@[i].0, cs);
        assert forall|a: Worlds, x: Model| #[trigger] next.allows(a, x) && inner.eval(a) implies t(
            a,
            x,
            0,
        ) is Some by {
            assert(next.state.fits(a, x));
            assert(self.allows(a, x));
            assert(pc.eval(a));
            assert(c(a, x, 0) is Some);
            assert(s(a, x, 0) is Some);
            self.lemma_chosen(pre, s, a, x, i);
        }
    }

    /// If the continuation gives up, so does the whole.
    pub(crate) proof fn lemma_resumed_stuck(
        &self,
        next: &Self,
        pre: GuardedWorlds,
        pc: BooleanFunction,
        k: Kont,
        s: Sem,
        cs: Seq<i32>,
        i: int,
        inner: BooleanFunction,
    )
        requires
            self.step(next),
            ctx::sound(s),
            self.right(pre, s),
            ctx::covers(pre, pc),
            self.total(pc, kont::chained(s, k, cs)),
            0 <= i < pre.0@.len(),
            forall|a: Worlds| #[trigger] inner.eval(a) ==> pc.eval(a) && pre.0@[i].1.eval(a),
            next.stuck(inner, kont::resumed(k, pre.0@[i].0, cs)),
        ensures
            next.stuck(pc, kont::chained(s, k, cs)),
    {
        let c = kont::chained(s, k, cs);
        let t = kont::resumed(k, pre.0@[i].0, cs);
        let (a, x) = choose|a: Worlds, x: Model| #[trigger]
            next.allows(a, x) && inner.eval(a) && t(a, x, next.fuel()) == Some(Outcome::Stuck);
        assert(next.state.fits(a, x));
        assert(self.allows(a, x));
        assert(pc.eval(a));
        assert(c(a, x, 0) is Some);
        self.lemma_chosen(pre, s, a, x, i);
        ctx::lemma_reached(s, a, x, values::pick(pre.0@, a), next.fuel());
        assert(c(a, x, next.fuel()) == Some(Outcome::Stuck));
    }

    /// If what a continuation waits for gives up, so does the whole.
    pub(crate) proof fn lemma_chained_stuck(&self, pc: BooleanFunction, k: Kont, s: Sem, cs: Seq<i32>)
        requires
            ctx::sound(s),
            self.stuck(pc, s),
            self.total(pc, kont::chained(s, k, cs)),
        ensures
            self.stuck(pc, kont::chained(s, k, cs)),
    {
        let c = kont::chained(s, k, cs);
        let (a, x) = choose|a: Worlds, x: Model| #[trigger]
            self.allows(a, x) && pc.eval(a) && s(a, x, self.fuel()) == Some(Outcome::Stuck);
        assert(c(a, x, 0) is Some);
        assert(c(a, x, self.fuel()) == Some(Outcome::Stuck));
    }

    /// The results of the continuation on each value are right.
    pub open spec fn nested_right(
        &self,
        pre: Seq<World>,
        nested: Seq<(GuardedWorlds, BooleanFunction)>,
        pc: BooleanFunction,
        k: Kont,
        cs: Seq<i32>,
    ) -> bool {
        &&& monad::nested_over(nested, self.vars())
        &&& monad::nested_heads(nested)
        &&& nested.len() <= pre.len()
        &&& forall|i: int|
            0 <= i < nested.len() ==> {
                &&& (#[trigger] nested[i]).1 == pre[i].1
                &&& self.right(nested[i].0, kont::resumed(k, pre[i].0, cs))
                &&& forall|a: Worlds| #[trigger]
                    nested[i].1.eval(a) && pc.eval(a) ==> nested[i].0.1.eval(a)
            }
    }

    pub(crate) proof fn lemma_nested_grows(
        &self,
        next: &Self,
        pre: Seq<World>,
        nested: Seq<(GuardedWorlds, BooleanFunction)>,
        pc: BooleanFunction,
        k: Kont,
        cs: Seq<i32>,
    )
        requires
            self.step(next),
            self.nested_right(pre, nested, pc, k, cs),
        ensures
            next.nested_right(pre, nested, pc, k, cs),
    {
        assert forall|i: int| 0 <= i < nested.len() implies next.right(
            (#[trigger] nested[i]).0,
            kont::resumed(k, pre[i].0, cs),
        ) && next.shaped(nested[i].0) && nested[i].1.wf(next.vars()) by {
            assert(values::entries_over(nested[i].0.0@, self.vars()));
            assert(self.shaped(nested[i].0));
            self.lemma_right_grows(next, nested[i].0, kont::resumed(k, pre[i].0, cs));
        }
    }

    /// The joined results are those of the whole.
    pub(crate) proof fn lemma_joined(
        &self,
        pre: GuardedWorlds,
        nested: Seq<(GuardedWorlds, BooleanFunction)>,
        r: GuardedWorlds,
        pc: BooleanFunction,
        k: Kont,
        s: Sem,
        cs: Seq<i32>,
    )
        requires
            !self.state.hit_limit,
            ctx::sound(s),
            self.right(pre, s),
            ctx::covers(pre, pc),
            self.nested_right(pre.0@, nested, pc, k, cs),
            nested.len() == pre.0@.len(),
            self.shaped(r),
            values::heads(r.0@),
            monad::tidy(r.0@),
            forall|a: Worlds| #[trigger]
                r.1.eval(a) == (pre.1.eval(a) && monad::informed(nested, a)),
            forall|a: Worlds| #[trigger]
                monad::nested_pick(nested, a) != Outcome::Stuck ==> values::pick(r.0@, a)
                    == monad::nested_pick(nested, a),
        ensures
            self.post(r, pc, kont::chained(s, k, cs)),
    {
        let c = kont::chained(s, k, cs);
        assert forall|a: Worlds| #[trigger] pc.eval(a) implies r.1.eval(a) by {
            assert(pre.1.eval(a));
            assert forall|i: int| 0 <= i < nested.len() && (#[trigger] nested[i]).1.eval(a) implies nested[i].0.1.eval(
                a,
            ) by {
                assert(nested[i].1.eval(a) && pc.eval(a));
            }
        }
        assert forall|a: Worlds, x: Model| #[trigger]
            self.allows(a, x) && r.1.eval(a) && c(a, x, 0) is Some implies ctx::reached(
            c,
            a,
            x,
            values::pick(r.0@, a),
        ) by {
            assert(pre.1.eval(a) && monad::informed(nested, a));
            assert(s(a, x, 0) is Some);
            let o = values::pick(pre.0@, a);
            assert(ctx::reached(s, a, x, o));
            let f = choose|f: nat| #[trigger] s(a, x, f) == Some(o);
            if o is Fail {
                values::lemma_pick_fail(pre.0@, a);
                assert forall|i: int| 0 <= i < nested.len() implies !(#[trigger] nested[i]).1.eval(a) by {
                    assert(!pre.0@[i].1.eval(a));
                }
                lemma_nested_none(nested, a);
                assert(c(a, x, f) == Some(Outcome::Fail));
            } else {
                let i = values::lemma_pick_done(pre.0@, a);
                let v = pre.0@[i].0;
                let t = kont::resumed(k, v, cs);
                assert forall|j: int| 0 <= j < nested.len() && j != i implies !(#[trigger] nested[j]).1.eval(a) by {
                    assert(!pre.0@[j].1.eval(a));
                }
                lemma_nested_one(nested, i, a);
                assert(nested[i].1.eval(a));
                assert(nested[i].0.1.eval(a));
                assert(t(a, x, 0) is Some);
                let q = values::pick(nested[i].0.0@, a);
                assert(ctx::reached(t, a, x, q));
                let g = choose|g: nat| #[trigger] t(a, x, g) == Some(q);
                let m = if f <= g {
                    g
                } else {
                    f
                };
                kont::lemma_resumed_sound(k, v, cs);
                assert(semantics::kept(s(a, x, f)->0, s(a, x, m)->0));
                assert(semantics::kept(t(a, x, g)->0, t(a, x, m)->0));
                assert(c(a, x, m) == Some(q));
            }
        }
    }
}

proof fn lemma_nested_none(s: Seq<(GuardedWorlds, BooleanFunction)>, a: Worlds)
    requires
        forall|i: int| 0 <= i < s.len() ==> !(#[trigger] s[i]).1.eval(a),
    ensures
        monad::nested_pick(s, a) == Outcome::Fail,
    decreases s.len(),
{
    if s.len() > 0 {
        assert forall|i: int| 0 <= i < s.drop_last().len() implies !(#[trigger] s.drop_last()[i]).1.eval(a) by {
            assert(!s[i].1.eval(a));
        }
        lemma_nested_none(s.drop_last(), a);
        assert(!s[s.len() - 1].1.eval(a));
    }
}

proof fn lemma_nested_one(s: Seq<(GuardedWorlds, BooleanFunction)>, k: int, a: Worlds)
    requires
        0 <= k < s.len(),
        s[k].1.eval(a),
        forall|i: int| 0 <= i < s.len() && i != k ==> !(#[trigger] s[i]).1.eval(a),
    ensures
        monad::nested_pick(s, a) == values::pick(s[k].0.0@, a),
    decreases s.len(),
{
    let p = s.drop_last();
    assert forall|i: int| 0 <= i < p.len() && i != k implies !(#[trigger] p[i]).1.eval(a) by {
        assert(!s[i].1.eval(a));
    }
    if k == s.len() - 1 {
        lemma_nested_none(p, a);
    } else {
        lemma_nested_one(p, k, a);
        assert(!s[s.len() - 1].1.eval(a));
    }
}

/// The entry says that the thunk came to the worlds.
pub open spec fn records(e: CacheEntry, v: PluckVal, w: GuardedWorlds) -> bool {
    e.thunk == v && e.worlds.0@ == w.0@ && e.worlds.1 == w.1
}

/// What the thunk came to is kept: in place of what the first entry for the
/// same cell said before, or in a new entry if there is none. All other entries stay as they are.
pub open spec fn recorded(
    before: Seq<CacheEntry>,
    after: Seq<CacheEntry>,
    v: PluckVal,
    w: GuardedWorlds,
) -> bool {
    exists|i: int, e: CacheEntry| #[trigger]
        kept_at(before, after, i, e) && records(e, v, w) && if i < before.len() {
            found_at(before, v, i)
        } else {
            not_found(before, v, before.len() as int)
        }
}

/// None of the first `n` entries is for the cell.
pub open spec fn not_found(s: Seq<CacheEntry>, v: PluckVal, n: int) -> bool {
    forall|i: int| 0 <= i < n ==> sharing::told((#[trigger] s[i]).thunk, v, false)
}

/// The entry at `i` is for the cell, and none before it is.
pub open spec fn found_at(s: Seq<CacheEntry>, v: PluckVal, i: int) -> bool {
    0 <= i < s.len() && sharing::told(s[i].thunk, v, true) && s[i].thunk == v && not_found(s, v, i)
}

/// The entry stands at a place of the list, or behind it.
pub open spec fn kept_at(
    before: Seq<CacheEntry>,
    after: Seq<CacheEntry>,
    i: int,
    e: CacheEntry,
) -> bool {
    0 <= i <= before.len() && after == (if i < before.len() {
        before.update(i, e)
    } else {
        before.push(e)
    })
}

impl<'a, F: Fn(RealOp, u64, u64) -> u64, G: Fn(usize, Vec<u64>) -> bool> CompilerCtx<'a, F, G> {
    /// Where the thunk stands among the evaluated ones.
    pub(crate) fn find_cached(&self, v: &PluckVal) -> (r: Option<usize>)
        ensures
            match r {
                Some(i) => found_at(self.state.cache@, *v, i as int),
                None => not_found(self.state.cache@, *v, self.state.cache@.len() as int),
            },
    {
        let mut i: usize = 0;
        while i < self.state.cache.len()
            invariant
                i <= self.state.cache@.len(),
                not_found(self.state.cache@, *v, i as int),
            decreases self.state.cache@.len() - i,
        {
            if is_cell(&self.state.cache[i].thunk, v) {
                return Some(i);
            }
            i = i + 1;
        }
        None
    }

    /// Keep what a thunk came to.
    pub(crate) fn remember(&mut self, v: &PluckVal, w: &GuardedWorlds)
        requires
            old(self).wf(),
            old(self).entry_right(*v, *w),
        ensures
            recorded(old(self).state.cache@, final(self).state.cache@, *v, *w),
            final(self).state == (LazyKCState {
                cache: final(self).state.cache,
                ..old(self).state
            }),
            old(self).step(final(self)),
            final(self).state.hit_limit == old(self).state.hit_limit,
            final(self).vars() == old(self).vars(),
            forall|a: Worlds, x: Model| #[trigger]
                final(self).allows(a, x) == old(self).allows(a, x),
    {
        let ghost start = *self;
        let entry: CacheEntry = CacheEntry {
            thunk: v.clone(),
            worlds: (clone_worlds(&w.0), w.1.clone()),
        };
        match self.find_cached(v) {
            Some(i) => {
                self.state.cache.set(i, entry);
                assert(kept_at(start.state.cache@, self.state.cache@, i as int, entry));
            },
            None => {
                self.state.cache.push(entry);
                assert(kept_at(
                    start.state.cache@,
                    self.state.cache@,
                    start.state.cache@.len() as int,
                    entry,
                ));
            },
        }
        proof {
            assert(records(entry, *v, *w));
            assert(start.entry_right(entry.thunk, entry.worlds));
            assert forall|i: int| 0 <= i < self.state.cache@.len() implies self.entry_right(
                (#[trigger] self.state.cache@[i]).thunk,
                self.state.cache@[i].worlds,
            ) by {
                let e = self.state.cache@[i];
                assert(start.entry_right(e.thunk, e.worlds)) by {
                    if e != entry {
                        assert(start.state.cache@[i] == e);
                    }
                }
                start.lemma_right_same(self, e.worlds, ctx::forcing(e.thunk));
            }
        }
    }

    pub(crate) fn count_cache_hit(&mut self)
        requires
            old(self).wf(),
        ensures
            old(self).step(final(self)),
            old(self).same_tables(final(self)),
            final(self).state.stats == (LazyKCStats {
                num_cache_hits: state::one_more(old(self).state.stats.num_cache_hits),
                ..old(self).state.stats
            }),
            final(self).state.hit_limit == old(self).state.hit_limit,
    {
        let ghost start = *self;
        self.state.stats.num_cache_hits = bumped(self.state.stats.num_cache_hits);
        proof {
            start.lemma_tables(self);
        }
    }

    /// Count an evaluation of a thunk that was not evaluated before, or not
    /// under this condition.
    pub(crate) fn count_cache_miss(&mut self, first: bool)
        requires
            old(self).wf(),
        ensures
            old(self).step(final(self)),
            old(self).same_tables(final(self)),
            final(self).state.stats == (LazyKCStats {
                num_cache_misses: state::one_more(old(self).state.stats.num_cache_misses),
                num_thunk_first_eval: if first {
                    state::one_more(old(self).state.stats.num_thunk_first_eval)
                } else {
                    old(self).state.stats.num_thunk_first_eval
                },
                num_thunk_widen: if first {
                    old(self).state.stats.num_thunk_widen
                } else {
                    state::one_more(old(self).state.stats.num_thunk_widen)
                },
                ..old(self).state.stats
            }),
            final(self).state.hit_limit == old(self).state.hit_limit,
    {
        let ghost start = *self;
        self.state.stats.num_cache_misses = bumped(self.state.stats.num_cache_misses);
        if first {
            self.state.stats.num_thunk_first_eval = bumped(self.state.stats.num_thunk_first_eval);
        } else {
            self.state.stats.num_thunk_widen = bumped(self.state.stats.num_thunk_widen);
        }
        proof {
            start.lemma_tables(self);
        }
    }

    pub(crate) fn count_union(&mut self)
        requires
            old(self).wf(),
        ensures
            old(self).step(final(self)),
            old(self).same_tables(final(self)),
            final(self).state.stats == (LazyKCStats {
                num_tu_eval: state::one_more(old(self).state.stats.num_tu_eval),
                ..old(self).state.stats
            }),
            final(self).state.hit_limit == old(self).state.hit_limit,
    {
        let ghost start = *self;
        self.state.stats.num_tu_eval = bumped(self.state.stats.num_tu_eval);
        proof {
            start.lemma_tables(self);
        }
    }

    pub(crate) fn count_false_path(&mut self)
        requires
            old(self).wf(),
        ensures
            old(self).step(final(self)),
            old(self).same_tables(final(self)),
            final(self).state.stats == (LazyKCStats {
                num_false_pc_exits: state::one_more(old(self).state.stats.num_false_pc_exits),
                ..old(self).state.stats
            }),
            final(self).state.hit_limit == old(self).state.hit_limit,
    {
        let ghost start = *self;
        self.state.stats.num_false_pc_exits = bumped(self.state.stats.num_false_pc_exits);
        proof {
            start.lemma_tables(self);
        }
    }

    /// `True` where the condition holds, else nothing.
    pub(crate) fn pin_holds_when(&self, g: BooleanFunction) -> (r: GuardedWorlds)
        requires
            g.wf(self.vars()),
        ensures
            self.answers(
                Some(r),
                |a: Worlds, x: Model| Some(semantics::holds(x, g.eval(a))),
            ),
            monad::all_true(r.0@, self.true_sym),
    {
        if g.is_false() {
            return program_error_worlds();
        }
        let v: PluckVal = self.bool_val(true);
        let mut worlds: Vec<World> = Vec::new();
        worlds.push((v, g));
        proof {
            let e = (v, g);
            assert(worlds@ =~= seq![e]);
            values::lemma_pick_single(e);
            assert(v.over(self.vars()));
            assert(values::entries_over(seq![e], self.vars()));
            assert forall|a: Worlds, x: Model| #[trigger] self.allows(a, x) implies values::pick(
                worlds@,
                a,
            ) == semantics::holds(x, g.eval(a)) by {
                assert(values::pick(seq![e], a) == values::option(e, a));
            }
        }
        (worlds, BooleanFunction::true_ptr())
    }
}

} // verus!
