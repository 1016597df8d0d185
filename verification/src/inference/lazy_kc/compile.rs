//! Compilation of expressions into worlds.

use std::rc::Rc;

use vstd::prelude::*;

use super::bind;
use super::callstack::Callstack;
use super::ctx;
use super::ctx::{CompilerCtx, Sem};
use super::floats;
use super::kont;
use super::kont::Kont;
use super::monad;
use super::monad::{
    clone_worlds, false_path_condition_worlds, inference_error_worlds, join_monad,
    program_error_worlds, pure_monad, GuardedWorlds, World,
};
use super::operands;
use super::operands::wants_of;
use super::pins;
use super::semantics;
use super::semantics::{Depth, Event, Model};
use super::settle;
use super::state;
use super::state::{bumped, LazyKCStats};
use super::thunks::{
    bind_args, constant_value, find_guard, make_entries, make_thunk, make_thunks, strict_parts,
};
use crate::discrete_factorizations::{BooleanFunction, Worlds};
use crate::language::define::DefinitionRegistry;
use crate::language::pexpr;
use crate::language::pexpr::{CaseOfGuard, Head, NativeVal, PExpr};
use crate::language::primitives::Primitive;
use crate::language::types::Symbol;
use crate::language::values;
use crate::language::values::{
    empty_env, env_cons, env_lookup, mk_closure, mk_float_matrix, mk_native_int, mk_native_symbol,
    mk_value, mk_y_closure, Datum, Env, Outcome, PluckVal, PluckValue, ThunkData,
};
use crate::utils::reals;
use crate::utils::reals::RealOp;

verus! {

proof fn lemma_nested_true(s: Seq<(GuardedWorlds, BooleanFunction)>, e: (GuardedWorlds, BooleanFunction), yes: Symbol)
    ensures
        monad::nested_true(s, yes) && monad::all_true(e.0.0@, yes) ==> monad::nested_true(
            s.push(e),
            yes,
        ),
{
    if monad::nested_true(s, yes) && monad::all_true(e.0.0@, yes) {
        let t = s.push(e);
        assert forall|i: int| 0 <= i < t.len() implies monad::all_true((#[trigger] t[i]).0.0@, yes) by {
            if i < s.len() {
                assert(t[i] == s[i]);
            }
        }
    }
}

impl<'a, F: Fn(RealOp, u64, u64) -> u64, G: Fn(usize, Vec<u64>) -> bool> CompilerCtx<'a, F, G> {
    /// Top-level compile: handles limit checks, callstack push/pop, and
    /// compiles the expression.
    ///
    /// The worlds are right wherever the path condition holds; or a limit was
    /// reached, where an evaluation under the path condition reaches it too.
    #[verifier::rlimit(30)]
    pub fn traced_compile(
        &mut self,
        expr: &PExpr,
        env: &Env,
        pc: &BooleanFunction,
        strict_order_index: i32,
    ) -> (r: GuardedWorlds)
        requires
            old(self).starts(
                *pc,
                kont::calling(expr.tree(), *env, strict_order_index, old(self).state.callstack@),
            ),
            env.over(old(self).vars()),
        ensures
            old(self).step(final(self)),
            final(self).post(
                r,
                *pc,
                kont::calling(expr.tree(), *env, strict_order_index, old(self).state.callstack@),
            ),
            if *pc == BooleanFunction::False {
                final(self).state.stats == (LazyKCStats {
                    num_false_pc_exits: state::one_more(old(self).state.stats.num_false_pc_exits),
                    ..old(self).state.stats
                })
            } else {
                old(self).state.depth <= old(self).state.cfg.limit()
                    ==> final(self).state.stats.num_compile_calls >= state::one_more(
                    old(self).state.stats.num_compile_calls,
                )
            },
        decreases old(self).fuel(), 0nat, 0nat, 0nat,
    {
        let ghost start = *self;
        let ghost cs = self.state.callstack@;
        let ghost s = kont::calling(expr.tree(), *env, strict_order_index, cs);
        if pc.is_false() {
            self.count_false_path();
            return false_path_condition_worlds();
        }
        if self.state.depth > self.state.cfg.depth_limit() {
            return self.give_up(pc, Ghost(s));
        }
        self.state.depth = self.state.depth + 1;
        self.state.stats.num_compile_calls = bumped(self.state.stats.num_compile_calls);
        self.state.callstack.push(strict_order_index);
        let ghost mid = *self;
        let ghost t = kont::running(expr.tree(), *env, cs.push(strict_order_index));
        proof {
            start.lemma_tables(&mid);
            assert forall|a: Worlds, x: Model| #[trigger] mid.allows(a, x) && pc.eval(a) implies t(
                a,
                x,
                0,
            ) is Some by {
                assert(start.allows(a, x));
                assert(s(a, x, 0) is Some);
            }
        }
        let result: GuardedWorlds = self.compile(expr, env, pc);
        let ghost next = *self;
        self.state.callstack.pop();
        self.state.depth = self.state.depth - 1;
        proof {
            assert(cs.push(strict_order_index).drop_last() =~= cs);
            next.lemma_tables(self);
            assert(start.state.grows_to(self.state)) by {
                assert forall|v: u64, e: Event| #[trigger] start.state.tells(v, e) implies self.state.tells(
                    v,
                    e,
                ) by {
                    assert(mid.state.tells(v, e));
                    assert(next.state.tells(v, e));
                }
                assert forall|a: Worlds, x: Model| #[trigger] self.state.fits(a, x) implies start.state.fits(
                    a,
                    x,
                ) by {
                    assert(next.state.fits(a, x));
                    assert(mid.state.fits(a, x));
                }
            }
            if next.state.hit_limit {
                let (a, x) = choose|a: Worlds, x: Model| #[trigger]
                    next.allows(a, x) && pc.eval(a) && t(a, x, next.fuel()) == Some(Outcome::Stuck);
                assert(self.allows(a, x));
                assert(s(a, x, self.fuel()) == Some(Outcome::Stuck));
                assert(self.stuck(*pc, s));
            } else {
                assert forall|a: Worlds, x: Model| #[trigger]
                    self.allows(a, x) && result.1.eval(a) && s(a, x, 0) is Some implies ctx::reached(
                    s,
                    a,
                    x,
                    values::pick(result.0@, a),
                ) by {
                    assert(next.allows(a, x));
                    assert(t(a, x, 0) is Some);
                    let o = values::pick(result.0@, a);
                    assert(ctx::reached(t, a, x, o));
                    let f = choose|f: nat| #[trigger] t(a, x, f) == Some(o);
                    assert(s(a, x, f + 1) == Some(o));
                }
            }
        }
        if self.state.hit_limit {
            return inference_error_worlds();
        }
        result
    }

    /// Run a continuation on the worlds of an evaluation, each under its
    /// guard, and join what comes out.
    #[verifier::rlimit(50)]
    fn bind_monad(&mut self, pre: GuardedWorlds, pc: &BooleanFunction, k: &Kont, Ghost(s): Ghost<Sem>) -> (r:
        GuardedWorlds)
        requires
            old(self).wf(),
            pc.wf(old(self).vars()),
            *pc != BooleanFunction::False,
            ctx::sound(s),
            old(self).shaped(pre),
            bind::accepts_all(*k, pre.0@),
            if old(self).state.hit_limit {
                old(self).stuck(*pc, s)
            } else {
                old(self).right(pre, s) && ctx::covers(pre, *pc)
            },
            old(self).total(*pc, kont::chained(s, *k, old(self).state.callstack@)),
            k.over(old(self).vars()),
            k.wf(),
        ensures
            old(self).step(final(self)),
            final(self).post(r, *pc, kont::chained(s, *k, old(self).state.callstack@)),
            k.confirms() ==> monad::all_true(r.0@, final(self).true_sym),
        decreases old(self).fuel(), k.group(), k.size(), k.rank() + 1,
    {
        let ghost start = *self;
        let ghost cs = self.state.callstack@;
        proof {
            self.lemma_step_refl();
        }
        if self.state.hit_limit {
            proof {
                self.lemma_chained_stuck(*pc, *k, s, cs);
            }
            return inference_error_worlds();
        }
        let mut nested: Vec<(GuardedWorlds, BooleanFunction)> = Vec::new();
        let mut i: usize = 0;
        while i < pre.0.len()
            invariant
                i <= pre.0@.len(),
                start == *old(self),
                cs == start.state.callstack@,
                start.step(self),
                !self.state.hit_limit,
                pc.wf(start.vars()),
                *pc != BooleanFunction::False,
                ctx::sound(s),
                start.shaped(pre),
                bind::accepts_all(*k, pre.0@),
                start.right(pre, s),
                ctx::covers(pre, *pc),
                start.total(*pc, kont::chained(s, *k, cs)),
                k.over(start.vars()),
                k.wf(),
                nested@.len() == i,
                self.nested_right(pre.0@, nested@, *pc, *k, cs),
                k.confirms() ==> monad::nested_true(nested@, start.true_sym),
            decreases pre.0@.len() - i,
        {
            let ghost now = *self;
            proof {
                values::lemma_entries_over(pre.0@, start.vars());
                assert(pre.0@[i as int].0.over(start.vars()));
                let v = pre.0@[i as int].0;
                values::lemma_over_grows(&*v, start.vars(), self.vars());
                k.lemma_over_grows(start.vars(), self.vars());
                assert(pc.wf(self.vars()));
                assert(pre.0@[i as int].1.wf(self.vars()));
                assert(k.accepts(*pre.0@[i as int].0));
            }
            let guard: BooleanFunction = pre.0[i].1.clone();
            let inner: BooleanFunction = self.state.factorizer.and(pc, &guard);
            let ghost t = kont::resumed(*k, pre.0@[i as int].0, cs);
            if inner.is_false() {
                self.count_false_path();
                let ghost seen = nested@;
                nested.push((false_path_condition_worlds(), guard));
                proof {
                    lemma_nested_true(seen, nested@[i as int], start.true_sym);
                    assert(nested@ =~= seen.push(nested@[i as int]));
                    start.lemma_step_trans(&now, self);
                    now.lemma_nested_grows(self, pre.0@, nested@.drop_last(), *pc, *k, cs);
                    assert(nested@.drop_last() =~= nested@.take(i as int));
                    let e = nested@[i as int];
                    assert(self.right(e.0, t));
                    assert forall|a: Worlds| #[trigger] e.1.eval(a) && pc.eval(a) implies e.0.1.eval(a) by {
                        assert(inner.eval(a));
                    }
                    assert(forall|j: int| 0 <= j < i ==> nested@[j] == nested@.drop_last()[j]);
                }
            } else {
                proof {
                    start.lemma_resumed_total(self, pre, *pc, *k, s, cs, i as int, inner);
                }
                let post: GuardedWorlds = self.resume(k, &pre.0[i].0, &inner);
                proof {
                    start.lemma_step_trans(&now, self);
                    now.lemma_nested_grows(self, pre.0@, nested@, *pc, *k, cs);
                    if self.state.hit_limit {
                        start.lemma_resumed_stuck(self, pre, *pc, *k, s, cs, i as int, inner);
                    }
                }
                if self.state.hit_limit {
                    return inference_error_worlds();
                }
                let ghost seen = nested@;
                nested.push((post, guard));
                proof {
                    let e = nested@[i as int];
                    assert(nested@ =~= seen.push(e));
                    if k.confirms() {
                        lemma_nested_true(seen, e, start.true_sym);
                    }
                    assert(self.right(e.0, t));
                    assert forall|a: Worlds| #[trigger] e.1.eval(a) && pc.eval(a) implies e.0.1.eval(a) by {
                        assert(inner.eval(a));
                    }
                    assert(guard.wf(self.vars()));
                    assert(forall|j: int| 0 <= j < i ==> nested@[j] == seen[j]);
                }
            }
            i = i + 1;
        }
        proof {
            assert(pre.1.wf(self.vars()));
            start.lemma_right_grows(self, pre, s);
        }
        let used: BooleanFunction = pre.1.clone();
        let ghost all = nested@;
        let r: GuardedWorlds = join_monad(nested, used, &self.state.factorizer);
        proof {
            self.lemma_joined(pre, all, r, *pc, *k, s, cs);
            assert(k.confirms() ==> monad::nested_true(all, start.true_sym));
        }
        r
    }

    /// Run a continuation on a value.
    #[verifier::rlimit(30)]
    fn resume(&mut self, k: &Kont, v: &PluckVal, pc: &BooleanFunction) -> (r: GuardedWorlds)
        requires
            old(self).starts(*pc, kont::resumed(*k, *v, old(self).state.callstack@)),
            *pc != BooleanFunction::False,
            v.over(old(self).vars()),
            k.over(old(self).vars()),
            k.wf(),
            k.accepts(**v),
        ensures
            old(self).step(final(self)),
            final(self).post(r, *pc, kont::resumed(*k, *v, old(self).state.callstack@)),
            k.confirms() ==> monad::all_true(r.0@, final(self).true_sym),
        decreases old(self).fuel(), k.group(), k.size(), k.rank(),
    {
        let ghost cs = self.state.callstack@;
        let ghost t = kont::resumed(*k, *v, cs);
        match k {
            Kont::Apply { arg } => self.apply(v, arg, pc),
            Kont::Match { guards, branches, env } => self.match_branch(v, guards, branches, env, pc),
            Kont::Loop => self.close_loop(v, pc),
            Kont::Operands { p, kids, vals, env } => {
                let mut next: Vec<PluckVal> = values::clone_vals(vals);
                next.push(v.clone());
                proof {
                    assert(next@.drop_last() =~= vals@);
                    let u = kont::loading(*p, kont::kid_trees(kids@), next@, **env, cs);
                    assert forall|a: Worlds, x: Model, f: nat| self.allows(a, x) && t(a, x, 0) is Some implies #[trigger] t(
                        a,
                        x,
                        f,
                    ) == u(a, x, f) by {}
                    assert(self.total(*pc, u)) by {
                        assert forall|a: Worlds, x: Model| #[trigger]
                            self.allows(a, x) && pc.eval(a) implies u(a, x, 0) is Some by {
                            assert(t(a, x, 0) is Some);
                        }
                    }
                }
                let ghost start = *self;
                let r: GuardedWorlds = self.compile_operands(*p, kids, &next, env, pc);
                proof {
                    start.lemma_total_grows(self, *pc, t);
                    self.lemma_post_same(
                        r,
                        *pc,
                        kont::loading(*p, kont::kid_trees(kids@), next@, **env, cs),
                        t,
                    );
                }
                r
            },
            Kont::Supply { p, vals, wants, got } => {
                let mut next: Vec<PluckVal> = values::clone_vals(got);
                next.push(v.clone());
                proof {
                    assert(next@.drop_last() =~= got@);
                    let n = got@.len() as int;
                    assert(wants@.take(n + 1).len() == next@.len());
                    assert forall|j: int| 0 <= j < next@.len() && wants@.take(n + 1)[j].0 != Depth::Keep implies values::is_head(
                        *(#[trigger] next@[j]),
                    ) by {
                        if j < n {
                            assert(next@[j] == got@[j]);
                            assert(wants@.take(n)[j] == wants@[j]);
                        }
                    }
                    let u = kont::supplying(*p, vals@, next@, cs);
                    assert(self.total(*pc, u)) by {
                        assert forall|a: Worlds, x: Model| #[trigger]
                            self.allows(a, x) && pc.eval(a) implies u(a, x, 0) is Some by {
                            assert(t(a, x, 0) is Some);
                        }
                    }
                }
                let ghost start = *self;
                let r: GuardedWorlds = self.supply(*p, vals, wants, &next, pc);
                proof {
                    start.lemma_total_grows(self, *pc, t);
                    self.lemma_post_same(r, *pc, kont::supplying(*p, vals@, next@, cs), t);
                }
                r
            },
            Kont::Count { count } => {
                let ghost start = *self;
                proof {
                    let u = kont::counting(*v, *count as int);
                    assert forall|a: Worlds, x: Model| #[trigger] self.allows(a, x) && pc.eval(a) implies u(
                        a,
                        x,
                        0,
                    ) is Some by {
                        assert(t(a, x, 0) is Some);
                    }
                }
                let r: GuardedWorlds = self.numeral(v, *count, pc);
                proof {
                    start.lemma_total_grows(self, *pc, t);
                    self.lemma_post_same(r, *pc, kont::counting(*v, *count as int), t);
                }
                r
            },
            Kont::Force { .. } => {
                let ghost start = *self;
                proof {
                    let u = ctx::forcing(*v);
                    assert forall|a: Worlds, x: Model| #[trigger] self.allows(a, x) && pc.eval(a) implies u(
                        a,
                        x,
                        0,
                    ) is Some by {
                        assert(t(a, x, 0) is Some);
                    }
                }
                let r: GuardedWorlds = self.evaluate_thunk(v, pc);
                proof {
                    start.lemma_total_grows(self, *pc, t);
                    self.lemma_post_same(r, *pc, ctx::forcing(*v), t);
                }
                r
            },
            Kont::PinConcrete { concrete, env } => self.pin_concrete(v, concrete, env, pc),
            Kont::PinWith { sym } => {
                let ghost start = *self;
                proof {
                    let u = kont::pinning(*sym, *v, cs);
                    assert forall|a: Worlds, x: Model| #[trigger] self.allows(a, x) && pc.eval(a) implies u(
                        a,
                        x,
                        0,
                    ) is Some by {
                        assert(t(a, x, 0) is Some);
                    }
                }
                let r: GuardedWorlds = self.pin_value(sym, v, pc);
                proof {
                    start.lemma_total_grows(self, *pc, t);
                    self.lemma_post_same(r, *pc, kont::pinning(*sym, *v, cs), t);
                }
                r
            },
            Kont::PinForced { s, t: other, i } => self.pin_forced(v, s, other, *i, pc),
            Kont::PinPair { sym, s, t: other, i } => self.pin_pair(sym, v, s, other, *i, pc),
            Kont::PinRest { s, t: other, i } => {
                let n: usize = s.len();
                let ghost start = *self;
                let ghost u = kont::pinning_all(s@, other@, *i + 1, cs);
                proof {
                    assert forall|a: Worlds, x: Model| #[trigger] self.allows(a, x) && pc.eval(a) implies u(
                        a,
                        x,
                        0,
                    ) is Some by {
                        assert(t(a, x, 0) is Some);
                    }
                }
                let r: GuardedWorlds = self.pin_all(s, other, *i + 1, pc);
                proof {
                    start.lemma_total_grows(self, *pc, t);
                    self.lemma_post_same(r, *pc, u, t);
                }
                r
            },
            Kont::Confirm => self.confirm(v, pc),
        }
    }

    /// Apply a function.
    #[verifier::rlimit(60)]
    fn apply(&mut self, v: &PluckVal, arg: &PluckVal, pc: &BooleanFunction) -> (r: GuardedWorlds)
        requires
            old(self).starts(
                *pc,
                kont::resumed(Kont::Apply { arg: *arg }, *v, old(self).state.callstack@),
            ),
            v.over(old(self).vars()),
            arg.over(old(self).vars()),
            values::is_head(**v),
        ensures
            old(self).step(final(self)),
            final(self).post(
                r,
                *pc,
                kont::resumed(Kont::Apply { arg: *arg }, *v, old(self).state.callstack@),
            ),
        decreases old(self).fuel(), 3nat, 0nat, 0nat,
    {
        let ghost start = *self;
        let ghost cs = self.state.callstack@;
        let ghost t = kont::resumed(Kont::Apply { arg: *arg }, *v, cs);
        match &**v {
            PluckValue::Closure(c) => {
                let inner: Env = env_cons(c.var, arg.clone(), c.env.clone());
                let scope: Env = match c.rec_name {
                    Some(name) => env_cons(name, v.clone(), inner),
                    None => inner,
                };
                let ghost s = kont::calling(kont::shared_tree(c.body), scope, 2, cs);
                proof {
                    assert(inner.over(self.vars()));
                    assert(scope.over(self.vars()));
                    assert forall|a: Worlds, x: Model, f: nat| t(a, x, 0) is Some implies #[trigger] t(
                        a,
                        x,
                        f,
                    ) == s(a, x, f) by {
                        assert(c.env.at(a) is Some);
                        assert(inner.at(a) == Some(c.env.at(a)->0.push((c.var, arg.at(a)->0))));
                    }
                    assert forall|a: Worlds, x: Model| #[trigger]
                        self.allows(a, x) && pc.eval(a) implies s(a, x, 0) is Some by {
                        assert(t(a, x, 0) is Some);
                    }
                }
                let r: GuardedWorlds = self.traced_compile(&c.body, &scope, pc, 2);
                proof {
                    start.lemma_total_grows(self, *pc, t);
                    self.lemma_post_same(r, *pc, s, t);
                }
                r
            },
            _ => {
                let r: GuardedWorlds = program_error_worlds();
                proof {
                    self.lemma_step_refl();
                    self.lemma_post_fail(r, *pc, t);
                }
                r
            },
        }
    }

    /// Take the branch that the value chooses.
    #[verifier::rlimit(30)]
    fn match_branch(
        &mut self,
        v: &PluckVal,
        guards: &Vec<CaseOfGuard>,
        branches: &Vec<PExpr>,
        env: &Env,
        pc: &BooleanFunction,
    ) -> (r: GuardedWorlds)
        requires
            old(self).starts(
                *pc,
                kont::resumed(
                    Kont::Match { guards, branches, env },
                    *v,
                    old(self).state.callstack@,
                ),
            ),
            *pc != BooleanFunction::False,
            v.over(old(self).vars()),
            env.over(old(self).vars()),
            values::is_head(**v),
        ensures
            old(self).step(final(self)),
            final(self).post(
                r,
                *pc,
                kont::resumed(
                    Kont::Match { guards, branches, env },
                    *v,
                    old(self).state.callstack@,
                ),
            ),
        decreases old(self).fuel(), 3nat, 0nat, 0nat,
    {
        let ghost start = *self;
        let ghost cs = self.state.callstack@;
        let ghost t = kont::resumed(Kont::Match { guards, branches, env }, *v, cs);
        proof {
            self.lemma_step_refl();
            pexpr::lemma_trees(branches@);
        }
        match &**v {
            PluckValue::Value { constructor, args } => match find_guard(guards, *constructor) {
                Some(i) => {
                    if i >= branches.len() {
                        return self.give_up(pc, Ghost(t));
                    }
                    let scope: Env = bind_args(env, &guards[i].args, args);
                    let ghost s = kont::calling(
                        branches@[i as int].tree(),
                        scope,
                        (i + 1) as i32,
                        cs,
                    );
                    proof {
                        assert(pexpr::guards_of(guards@)[i as int] == guards@[i as int].guard());
                        assert forall|a: Worlds, x: Model, f: nat| t(a, x, 0) is Some implies #[trigger] t(
                            a,
                            x,
                            f,
                        ) == s(a, x, f) by {
                            assert(env.at(a) is Some && values::all_at(args@, a) is Some);
                        }
                        assert forall|a: Worlds, x: Model| #[trigger]
                            self.allows(a, x) && pc.eval(a) implies s(a, x, 0) is Some by {
                            assert(t(a, x, 0) is Some);
                        }
                        assert(scope.over(self.vars()));
                    }
                    let r: GuardedWorlds = self.traced_compile(
                        &branches[i],
                        &scope,
                        pc,
                        (i + 1) as i32,
                    );
                    proof {
                        start.lemma_total_grows(self, *pc, t);
                        self.lemma_post_same(r, *pc, s, t);
                    }
                    r
                },
                None => {
                    let r: GuardedWorlds = program_error_worlds();
                    proof {
                        self.lemma_post_fail(r, *pc, t);
                    }
                    r
                },
            },
            _ => {
                let r: GuardedWorlds = program_error_worlds();
                proof {
                    self.lemma_post_fail(r, *pc, t);
                }
                r
            },
        }
    }

    /// Make a function that knows itself.
    pub(crate) fn close_loop(&mut self, v: &PluckVal, pc: &BooleanFunction) -> (r: GuardedWorlds)
        requires
            old(self).starts(*pc, kont::resumed(Kont::Loop, *v, old(self).state.callstack@)),
            v.over(old(self).vars()),
            values::is_head(**v),
        ensures
            old(self).step(final(self)),
            final(self).post(r, *pc, kont::resumed(Kont::Loop, *v, old(self).state.callstack@)),
    {
        let ghost cs = self.state.callstack@;
        let ghost t = kont::resumed(Kont::Loop, *v, cs);
        proof {
            self.lemma_step_refl();
        }
        match &**v {
            PluckValue::Closure(c) => match &*c.body {
                PExpr::Abs { var: arg, body } => {
                    let w: PluckVal = mk_y_closure(
                        Rc::new((**body).clone()),
                        c.env.clone(),
                        c.var,
                        *arg,
                    );
                    let r: GuardedWorlds = pure_monad(w);
                    proof {
                        self.lemma_post_value(w, r, *pc, t);
                    }
                    return r;
                },
                _ => {},
            },
            _ => {},
        }
        let r: GuardedWorlds = program_error_worlds();
        proof {
            self.lemma_post_fail(r, *pc, t);
        }
        r
    }

    /// Is the value `True`?
    fn confirm(&mut self, v: &PluckVal, pc: &BooleanFunction) -> (r: GuardedWorlds)
        requires
            old(self).starts(*pc, kont::resumed(Kont::Confirm, *v, old(self).state.callstack@)),
            v.over(old(self).vars()),
            values::is_head(**v),
        ensures
            old(self).step(final(self)),
            final(self).post(r, *pc, kont::resumed(Kont::Confirm, *v, old(self).state.callstack@)),
            monad::all_true(r.0@, final(self).true_sym),
    {
        let ghost cs = self.state.callstack@;
        let ghost t = kont::resumed(Kont::Confirm, *v, cs);
        proof {
            self.lemma_step_refl();
        }
        match &**v {
            PluckValue::Value { constructor, args } => {
                if *constructor == self.true_sym && args.len() == 0 {
                    let w: PluckVal = self.bool_val(true);
                    let r: GuardedWorlds = pure_monad(w);
                    proof {
                        assert(w.over(self.vars()));
                        assert forall|a: Worlds, x: Model| #[trigger]
                            self.allows(a, x) && t(a, x, 0) is Some implies w.at(a) is Some && t(
                            a,
                            x,
                            0,
                        ) == Some(Outcome::Done(w.at(a)->0)) by {
                            values::lemma_all_at(args@, a);
                            assert(values::all_at(args@, a)->0 =~= Seq::<Datum>::empty());
                        }
                        self.lemma_post_value(w, r, *pc, t);
                    }
                    return r;
                }
                proof {
                    assert forall|a: Worlds, x: Model| #[trigger]
                        self.allows(a, x) && t(a, x, 0) is Some implies t(a, x, 0) == Some(
                        Outcome::Fail,
                    ) by {
                        values::lemma_all_at(args@, a);
                    }
                }
            },
            _ => {},
        }
        let r: GuardedWorlds = program_error_worlds();
        proof {
            self.lemma_post_fail(r, *pc, t);
        }
        r
    }

    /// Evaluate a thunk or thunk union.
    ///
    /// A thunk that was evaluated already under a condition that covers this
    /// one is not evaluated again. Of a union every part is evaluated under
    /// its guard.
    #[verifier::rlimit(30)]
    pub fn evaluate_thunk(&mut self, val: &PluckVal, pc: &BooleanFunction) -> (r: GuardedWorlds)
        requires
            old(self).starts(*pc, ctx::forcing(*val)),
            val.over(old(self).vars()),
        ensures
            old(self).step(final(self)),
            final(self).post(r, *pc, ctx::forcing(*val)),
        decreases old(self).fuel(), 2nat, kont::nesting(**val), 3nat,
    {
        let ghost start = *self;
        let ghost t = ctx::forcing(*val);
        proof {
            self.lemma_step_refl();
        }
        if pc.is_false() {
            return false_path_condition_worlds();
        }
        match &**val {
            PluckValue::Thunk(_) => self.evaluate_single_thunk(val, pc),
            PluckValue::ThunkUnion(u) => {
                self.count_union();
                let ghost cs = self.state.callstack@;
                let ghost s = chosen_of(*val);
                let pre: GuardedWorlds = (clone_worlds(&u.thunks), BooleanFunction::true_ptr());
                let ghost bound = kont::depth_of(*val);
                let k: Kont = Kont::Force { bound: Ghost(bound) };
                proof {
                    start.lemma_total_grows(self, *pc, t);
                    assert(values::entries_over(pre.0@, self.vars()));
                    assert forall|i: int| 0 <= i < pre.0@.len() implies k.accepts(*(#[trigger] pre.0@[i]).0) by {
                        kont::lemma_deepest(u.thunks@, i);
                    }
                    let c = kont::chained(s, k, cs);
                    assert forall|a: Worlds, x: Model, f: nat| #[trigger] t(a, x, f) == c(a, x, f) by {}
                    assert forall|a: Worlds, x: Model| #[trigger]
                        self.allows(a, x) && pc.eval(a) implies c(a, x, 0) is Some by {
                        assert(t(a, x, 0) is Some);
                    }
                    assert forall|a: Worlds, x: Model| #[trigger]
                        self.allows(a, x) && pre.1.eval(a) && s(a, x, 0) is Some implies ctx::reached(
                        s,
                        a,
                        x,
                        values::pick(pre.0@, a),
                    ) by {
                        assert(s(a, x, 0) == Some(values::pick(pre.0@, a)));
                    }
                }
                let ghost mid = *self;
                let r: GuardedWorlds = self.bind_monad(pre, pc, &k, Ghost(s));
                proof {
                    start.lemma_step_trans(&mid, self);
                    mid.lemma_total_grows(self, *pc, t);
                    self.lemma_post_same(r, *pc, kont::chained(s, k, cs), t);
                }
                r
            },
            _ => {
                let r: GuardedWorlds = pure_monad(val.clone());
                proof {
                    self.lemma_post_value(*val, r, *pc, t);
                }
                r
            },
        }
    }

    /// Evaluate a thunk: the raw evaluation path.
    #[verifier::rlimit(30)]
    fn evaluate_single_thunk_no_cache(&mut self, val: &PluckVal, thunk: &ThunkData, pc: &BooleanFunction) -> (r:
        GuardedWorlds)
        requires
            old(self).starts(*pc, ctx::forcing(*val)),
            val.over(old(self).vars()),
            **val == PluckValue::Thunk(*thunk),
        ensures
            old(self).step(final(self)),
            final(self).post(r, *pc, ctx::forcing(*val)),
        decreases old(self).fuel(), 1nat, 0nat, 0nat,
    {
        let ghost start = *self;
        let ghost t = ctx::forcing(*val);
        let ghost index = thunk.strict_order_index;
        let saved: Vec<i32> = self.state.callstack.to_vec();
        let stack: Vec<i32> = thunk.callstack.clone();
        proof {
            assert(stack@ =~= thunk.callstack@);
        }
        self.state.callstack = Callstack::from_vec(stack);
        let ghost mid = *self;
        let ghost s = kont::calling(kont::shared_tree(thunk.expr), thunk.env, index, thunk.callstack@);
        proof {
            start.lemma_tables(&mid);
            assert forall|a: Worlds, x: Model, f: nat| t(a, x, 0) is Some implies #[trigger] t(
                a,
                x,
                f,
            ) == s(a, x, f) by {}
            assert forall|a: Worlds, x: Model| #[trigger] mid.allows(a, x) && pc.eval(a) implies s(
                a,
                x,
                0,
            ) is Some by {
                assert(start.allows(a, x));
                assert(t(a, x, 0) is Some);
            }
        }
        let r: GuardedWorlds = self.traced_compile(
            &thunk.expr,
            &thunk.env,
            pc,
            thunk.strict_order_index,
        );
        let ghost next = *self;
        self.state.callstack = Callstack::from_vec(saved);
        proof {
            next.lemma_tables(self);
            assert(start.state.grows_to(self.state)) by {
                assert forall|v: u64, e: Event| #[trigger] start.state.tells(v, e) implies self.state.tells(
                    v,
                    e,
                ) by {
                    assert(mid.state.tells(v, e));
                    assert(next.state.tells(v, e));
                }
                assert forall|a: Worlds, x: Model| #[trigger] self.state.fits(a, x) implies start.state.fits(
                    a,
                    x,
                ) by {
                    assert(next.state.fits(a, x));
                    assert(mid.state.fits(a, x));
                }
            }
            next.lemma_post_moved(self, r, *pc, s);
            start.lemma_total_grows(self, *pc, t);
            self.lemma_post_same(r, *pc, s, t);
        }
        r
    }

    /// Evaluate a single thunk, or take what is known of it: what was
    /// evaluated under other conditions is widened by what is missing.
    #[verifier::rlimit(50)]
    fn evaluate_single_thunk(&mut self, val: &PluckVal, pc: &BooleanFunction) -> (r: GuardedWorlds)
        requires
            old(self).starts(*pc, ctx::forcing(*val)),
            *pc != BooleanFunction::False,
            val.over(old(self).vars()),
            **val is Thunk,
        ensures
            old(self).step(final(self)),
            final(self).post(r, *pc, ctx::forcing(*val)),
        decreases old(self).fuel(), 1nat, 0nat, 1nat,
    {
        let ghost start = *self;
        let ghost t = ctx::forcing(*val);
        proof {
            self.lemma_step_refl();
        }
        let thunk: &ThunkData = match &**val {
            PluckValue::Thunk(d) => d,
            _ => {
                return program_error_worlds();
            },
        };
        match self.find_cached(val) {
            None => {
                self.count_cache_miss(true);
                let ghost mid = *self;
                proof {
                    start.lemma_total_grows(self, *pc, t);
                }
                let r: GuardedWorlds = self.evaluate_single_thunk_no_cache(val, thunk, pc);
                let ghost next = *self;
                proof {
                    start.lemma_step_trans(&mid, self);
                }
                if !self.state.hit_limit {
                    proof {
                        values::lemma_over_grows(&**val, start.vars(), self.vars());
                    }
                    self.remember(val, &r);
                    proof {
                        start.lemma_step_trans(&next, self);
                        next.lemma_post_moved(self, r, *pc, t);
                    }
                }
                r
            },
            Some(i) => {
                let cached: Vec<World> = clone_worlds(&self.state.cache[i].worlds.0);
                let guard: BooleanFunction = self.state.cache[i].worlds.1.clone();
                proof {
                    let e = self.state.cache@[i as int];
                    assert(self.entry_right(e.thunk, e.worlds));
                    self.lemma_right_same(self, e.worlds, t);
                    assert(self.right((cached, guard), t));
                }
                let missing: BooleanFunction = self.state.factorizer.negate(&guard);
                let inner: BooleanFunction = self.state.factorizer.and(pc, &missing);
                if inner.is_false() {
                    self.count_cache_hit();
                    proof {
                        start.lemma_tables(self);
                        start.lemma_right_same(self, (cached, guard), t);
                        assert forall|a: Worlds| #[trigger] pc.eval(a) implies guard.eval(a) by {
                            assert(!inner.eval(a));
                        }
                    }
                    return (cached, guard);
                }
                self.count_cache_miss(false);
                let ghost mid = *self;
                proof {
                    start.lemma_tables(&mid);
                    assert forall|a: Worlds, x: Model| #[trigger]
                        self.allows(a, x) && inner.eval(a) implies t(a, x, 0) is Some by {
                        assert(start.allows(a, x));
                        assert(pc.eval(a));
                    }
                    assert(inner.wf(self.vars()));
                }
                let fresh: GuardedWorlds = self.evaluate_single_thunk_no_cache(val, thunk, &inner);
                let ghost next = *self;
                proof {
                    start.lemma_step_trans(&mid, self);
                    if self.state.hit_limit {
                        let (a, x) = choose|a: Worlds, x: Model| #[trigger]
                            self.allows(a, x) && inner.eval(a) && t(a, x, self.fuel()) == Some(
                                Outcome::Stuck,
                            );
                        assert(pc.eval(a));
                        assert(self.stuck(*pc, t));
                    }
                }
                if self.state.hit_limit {
                    return inference_error_worlds();
                }
                proof {
                    values::lemma_over_grows(&**val, start.vars(), self.vars());
                    start.lemma_right_grows(self, (cached, guard), t);
                    assert(missing.wf(self.vars()));
                    assert(pc.wf(self.vars()));
                }
                self.widen(val, pc, cached, guard, missing, fresh)
            },
        }
    }

    /// Join what is known of a thunk with what was missing, and keep it.
    #[verifier::rlimit(40)]
    fn widen(
        &mut self,
        val: &PluckVal,
        pc: &BooleanFunction,
        cached: Vec<World>,
        guard: BooleanFunction,
        missing: BooleanFunction,
        fresh: GuardedWorlds,
    ) -> (r: GuardedWorlds)
        requires
            old(self).wf(),
            !old(self).state.hit_limit,
            pc.wf(old(self).vars()),
            val.over(old(self).vars()),
            old(self).shaped((cached, guard)),
            missing.wf(old(self).vars()),
            values::heads(cached@),
            old(self).right((cached, guard), ctx::forcing(*val)),
            old(self).shaped(fresh),
            values::heads(fresh.0@),
            old(self).right(fresh, ctx::forcing(*val)),
            forall|a: Worlds| #[trigger] missing.eval(a) == !guard.eval(a),
            forall|a: Worlds| #[trigger] pc.eval(a) && !guard.eval(a) ==> fresh.1.eval(a),
        ensures
            old(self).step(final(self)),
            final(self).post(r, *pc, ctx::forcing(*val)),
    {
        let ghost start = *self;
        let ghost t = ctx::forcing(*val);
        let ghost known = (cached, guard);
        let mut nested: Vec<(GuardedWorlds, BooleanFunction)> = Vec::new();
        let first: BooleanFunction = guard.clone();
        nested.push(((cached, guard), first));
        nested.push((fresh, missing));
        let ghost all = nested@;
        proof {
            assert(all[0].0 == known && all[0].1 == guard && all[1] == (fresh, missing));
            assert forall|i: int| 0 <= i < all.len() implies values::entries_over(
                (#[trigger] all[i]).0.0@,
                self.vars(),
            ) && all[i].0.1.wf(self.vars()) && all[i].1.wf(self.vars()) by {}
        }
        let r: GuardedWorlds = join_monad(
            nested,
            BooleanFunction::true_ptr(),
            &self.state.factorizer,
        );
        proof {
            assert forall|a: Worlds| #[trigger] r.1.eval(a) implies (guard.eval(a) || fresh.1.eval(a)) by {
                if !guard.eval(a) {
                    assert(missing.eval(a));
                    assert(all[1].1.eval(a));
                }
            }
            assert forall|a: Worlds| #[trigger] pc.eval(a) implies r.1.eval(a) by {
                assert forall|i: int| 0 <= i < all.len() && (#[trigger] all[i]).1.eval(a) implies all[i].0.1.eval(
                    a,
                ) by {
                    if i == 1 {
                        assert(missing.eval(a));
                    }
                }
            }
            assert forall|a: Worlds, x: Model| #[trigger]
                self.allows(a, x) && r.1.eval(a) && t(a, x, 0) is Some implies ctx::reached(
                t,
                a,
                x,
                values::pick(r.0@, a),
            ) by {
                let one = seq![all[0]];
                assert(all.drop_last() =~= one);
                assert(one.drop_last() =~= Seq::<(GuardedWorlds, BooleanFunction)>::empty());
                assert(missing.eval(a) == !guard.eval(a));
                reveal_with_fuel(monad::nested_pick, 3);
                if guard.eval(a) {
                    assert(ctx::reached(t, a, x, values::pick(known.0@, a)));
                    assert(monad::nested_pick(all, a) == values::pick(known.0@, a));
                } else {
                    assert(fresh.1.eval(a));
                    assert(ctx::reached(t, a, x, values::pick(fresh.0@, a)));
                    assert(monad::nested_pick(all, a) == values::pick(fresh.0@, a));
                }
            }
            assert(self.right(r, t));
            assert(self.entry_right(*val, r));
        }
        self.remember(val, &r);
        proof {
            start.lemma_right_same(self, r, t);
        }
        r
    }

    /// Count a natural number.
    #[verifier::rlimit(30)]
    fn numeral(&mut self, v: &PluckVal, count: i64, pc: &BooleanFunction) -> (r: GuardedWorlds)
        requires
            old(self).starts(*pc, kont::counting(*v, count as int)),
            *pc != BooleanFunction::False,
            v.over(old(self).vars()),
            values::is_head(**v),
            0 <= count,
        ensures
            old(self).step(final(self)),
            final(self).post(r, *pc, kont::counting(*v, count as int)),
        decreases old(self).fuel(), 4nat, (i64::MAX - count) as nat, 0nat,
    {
        let ghost start = *self;
        let ghost cs = self.state.callstack@;
        let ghost t = kont::counting(*v, count as int);
        proof {
            self.lemma_step_refl();
        }
        let (zero, succ) = match self.nat {
            Some(p) => p,
            None => {
                return self.give_up(pc, Ghost(t));
            },
        };
        match &**v {
            PluckValue::Native(NativeVal::Int(i)) => match i.checked_add(count) {
                Some(sum) => {
                    let w: PluckVal = mk_native_int(sum);
                    let r: GuardedWorlds = pure_monad(w);
                    proof {
                        self.lemma_post_value(w, r, *pc, t);
                    }
                    return r;
                },
                None => {
                    return self.give_up(pc, Ghost(t));
                },
            },
            PluckValue::Value { constructor, args } => {
                proof {
                    assert forall|a: Worlds| #[trigger] values::all_at(args@, a) is Some implies values::all_at(
                        args@,
                        a,
                    )->0.len() == args@.len() by {
                        values::lemma_all_at(args@, a);
                    }
                }
                if *constructor == zero && args.len() == 0 {
                    let w: PluckVal = mk_native_int(count);
                    let r: GuardedWorlds = pure_monad(w);
                    proof {
                        self.lemma_post_value(w, r, *pc, t);
                    }
                    return r;
                }
                if *constructor == succ && args.len() == 1 {
                    if count == i64::MAX {
                        proof {
                            assert forall|a: Worlds, x: Model| #[trigger]
                                self.allows(a, x) && pc.eval(a) implies t(a, x, self.fuel()) == Some(
                                Outcome::Stuck,
                            ) by {
                                assert(t(a, x, 0) is Some);
                                values::lemma_all_at(args@, a);
                            }
                        }
                        return self.give_up(pc, Ghost(t));
                    }
                    let rest: PluckVal = args[0].clone();
                    let ghost s = ctx::forcing(rest);
                    let k: Kont = Kont::Count { count: count + 1 };
                    let ghost c = kont::chained(s, k, cs);
                    proof {
                        values::lemma_all_over(args@, self.vars());
                        assert(args@[0].over(self.vars()));
                        assert forall|a: Worlds, x: Model, f: nat| self.allows(a, x) && t(a, x, 0) is Some implies #[trigger] t(
                            a,
                            x,
                            f,
                        ) == c(a, x, f) by {
                            values::lemma_all_at(args@, a);
                            assert(args@[0].at(a) == Some(values::all_at(args@, a)->0[0]));
                        }
                        assert forall|a: Worlds, x: Model| #[trigger]
                            self.allows(a, x) && pc.eval(a) implies s(a, x, 0) is Some && c(a, x, 0) is Some by {
                            assert(t(a, x, 0) is Some);
                            values::lemma_all_at(args@, a);
                            assert(args@[0].at(a) is Some);
                        }
                    }
                    let pre: GuardedWorlds = self.evaluate_thunk(&rest, pc);
                    let ghost mid = *self;
                    proof {
                        start.lemma_total_grows(self, *pc, c);
                        kont::lemma_forcing_sound(rest);
                        assert(pc.wf(self.vars()));
                    }
                    let r: GuardedWorlds = self.bind_monad(pre, pc, &k, Ghost(s));
                    proof {
                        start.lemma_step_trans(&mid, self);
                        start.lemma_total_grows(self, *pc, t);
                        assert forall|a: Worlds, x: Model, f: nat| self.allows(a, x) && t(a, x, 0) is Some implies #[trigger] t(
                            a,
                            x,
                            f,
                        ) == c(a, x, f) by {
                            assert(self.state.fits(a, x));
                            assert(start.allows(a, x));
                        }
                        self.lemma_post_same(r, *pc, c, t);
                    }
                    return r;
                }
            },
            _ => {},
        }
        let r: GuardedWorlds = pure_monad(v.clone());
        proof {
            assert forall|a: Worlds, x: Model| #[trigger]
                self.allows(a, x) && t(a, x, 0) is Some implies v.at(a) is Some && t(a, x, 0) == Some(
                Outcome::Done(v.at(a)->0),
            ) by {
                match &**v {
                    PluckValue::Value { args, .. } => values::lemma_all_at(args@, a),
                    _ => {},
                }
            }
            self.lemma_post_value(*v, r, *pc, t);
        }
        r
    }

    /// Evaluate a value as far as is asked for.
    fn evaluate(&mut self, depth: Depth, v: &PluckVal, pc: &BooleanFunction) -> (r: GuardedWorlds)
        requires
            old(self).starts(*pc, kont::evaluating(depth, *v)),
            *pc != BooleanFunction::False,
            v.over(old(self).vars()),
            depth != Depth::Keep,
            depth == Depth::Number ==> values::is_head(**v),
        ensures
            old(self).step(final(self)),
            final(self).post(r, *pc, kont::evaluating(depth, *v)),
        decreases old(self).fuel(), 4nat, i64::MAX as nat, 1nat,
    {
        let ghost start = *self;
        let ghost t = kont::evaluating(depth, *v);
        if depth == Depth::Number {
            let ghost s = kont::counting(*v, 0);
            proof {
                assert forall|a: Worlds, x: Model| #[trigger] self.allows(a, x) && pc.eval(a) implies s(
                    a,
                    x,
                    0,
                ) is Some by {
                    assert(t(a, x, 0) is Some);
                }
            }
            let r: GuardedWorlds = self.numeral(v, 0, pc);
            proof {
                start.lemma_total_grows(self, *pc, t);
                self.lemma_post_same(r, *pc, s, t);
            }
            r
        } else {
            let ghost s = ctx::forcing(*v);
            proof {
                assert forall|a: Worlds, x: Model| #[trigger] self.allows(a, x) && pc.eval(a) implies s(
                    a,
                    x,
                    0,
                ) is Some by {
                    assert(t(a, x, 0) is Some);
                }
            }
            let r: GuardedWorlds = self.evaluate_thunk(v, pc);
            proof {
                start.lemma_total_grows(self, *pc, t);
                self.lemma_post_same(r, *pc, s, t);
            }
            r
        }
    }

    /// Evaluate further what a primitive asks for, and then settle it.
    #[verifier::rlimit(50)]
    fn supply(
        &mut self,
        p: Primitive,
        vals: &Vec<PluckVal>,
        wants: &Vec<(Depth, PluckVal)>,
        got: &Vec<PluckVal>,
        pc: &BooleanFunction,
    ) -> (r: GuardedWorlds)
        requires
            old(self).starts(*pc, kont::supplying(p, vals@, got@, old(self).state.callstack@)),
            *pc != BooleanFunction::False,
            settle::takes(p, vals@.len()),
            settle::all_heads(vals@),
            values::all_over(vals@, old(self).vars()),
            values::all_over(got@, old(self).vars()),
            wants@ == operands::wants_in(p, vals@),
            got@.len() <= wants@.len(),
            floats::fed(wants@.take(got@.len() as int), got@),
        ensures
            old(self).step(final(self)),
            final(self).post(
                r,
                *pc,
                kont::supplying(p, vals@, got@, old(self).state.callstack@),
            ),
        decreases old(self).fuel(), 5nat, (wants@.len() - got@.len()) as nat, 9nat,
    {
        let ghost start = *self;
        let ghost cs = self.state.callstack@;
        let ghost t = kont::supplying(p, vals@, got@, cs);
        let ghost ans = settle::asked(p, vals@, got@, cs);
        let ghost n = got@.len() as int;
        proof {
            assert forall|a: Worlds| #[trigger] values::all_at(vals@, a) is Some implies floats::wants_at(
                wants@,
                a,
                semantics::wants(p, values::all_at(vals@, a)->0),
            ) by {
                operands::lemma_wants(p, vals@, a, self.vars());
            }
        }
        if got.len() >= wants.len() {
            proof {
                assert(wants@.take(n) =~= wants@);
            }
            let answer: Option<GuardedWorlds> = self.settle(p, vals, got);
            proof {
                start.lemma_total_grows(self, *pc, t);
                assert forall|a: Worlds, x: Model, f: nat| t(a, x, 0) is Some implies #[trigger] t(
                    a,
                    x,
                    f,
                ) == ans(a, x) by {}
            }
            match answer {
                Some(w) => {
                    proof {
                        self.lemma_post_answer(w, *pc, ans, t);
                    }
                    w
                },
                None => {
                    let ghost mid = *self;
                    proof {
                        assert(pc.wf(self.vars()));
                        assert forall|a: Worlds, x: Model| #[trigger]
                            self.allows(a, x) && pc.eval(a) implies t(a, x, self.fuel()) == Some(
                            Outcome::Stuck,
                        ) by {
                            assert(t(a, x, 0) is Some);
                            assert(t(a, x, self.fuel()) == ans(a, x));
                        }
                    }
                    let r: GuardedWorlds = self.give_up(pc, Ghost(t));
                    proof {
                        start.lemma_step_trans(&mid, self);
                    }
                    r
                },
            }
        } else {
            let depth: Depth = wants[got.len()].0;
            let v: PluckVal = wants[got.len()].1.clone();
            proof {
                operands::lemma_wants_over(p, vals@, self.vars());
                assert(wants@[n].1.over(self.vars()));
                assert forall|a: Worlds| #[trigger] values::all_at(vals@, a) is Some implies v.at(a)
                    == Some(semantics::wants(p, values::all_at(vals@, a)->0)[n].1) && depth
                    == semantics::wants(p, values::all_at(vals@, a)->0)[n].0 by {
                    assert(floats::wants_at(
                        wants@,
                        a,
                        semantics::wants(p, values::all_at(vals@, a)->0),
                    ));
                }
            }
            if depth == Depth::Keep {
                let mut next: Vec<PluckVal> = values::clone_vals(got);
                next.push(v);
                let ghost u = kont::supplying(p, vals@, next@, cs);
                proof {
                    assert(next@.drop_last() =~= got@);
                    assert forall|j: int| 0 <= j < next@.len() && wants@.take(n + 1)[j].0 != Depth::Keep implies values::is_head(
                        *(#[trigger] next@[j]),
                    ) by {
                        assert(next@[j] == got@[j]);
                        assert(wants@.take(n)[j] == wants@[j]);
                    }
                    assert forall|a: Worlds, x: Model, f: nat| t(a, x, 0) is Some implies #[trigger] t(
                        a,
                        x,
                        f,
                    ) == u(a, x, f) by {
                        assert(values::all_at(vals@, a) is Some);
                        values::lemma_all_at(got@, a);
                        let ds = values::all_at(vals@, a)->0;
                        let gs = values::all_at(got@, a)->0;
                        let ws = semantics::wants(p, ds);
                        assert(floats::wants_at(wants@, a, ws));
                        assert(ws[n].0 == Depth::Keep);
                        assert(semantics::evaluated(ws[n], x, f) == Outcome::Done(ws[n].1));
                        assert(values::all_at(next@, a) == Some(gs.push(ws[n].1)));
                        assert(semantics::supplied(p, ds, n, gs, cs, x, f) == semantics::supplied(
                            p,
                            ds,
                            n + 1,
                            gs.push(ws[n].1),
                            cs,
                            x,
                            f,
                        ));
                    }
                    assert forall|a: Worlds, x: Model| #[trigger]
                        self.allows(a, x) && pc.eval(a) implies u(a, x, 0) is Some by {
                        assert(t(a, x, 0) is Some);
                    }
                }
                let r: GuardedWorlds = self.supply(p, vals, wants, &next, pc);
                proof {
                    start.lemma_total_grows(self, *pc, t);
                    self.lemma_post_same(r, *pc, u, t);
                }
                return r;
            }
            let ghost s = kont::evaluating(depth, v);
            let k: Kont = Kont::Supply { p, vals, wants, got };
            let ghost c = kont::chained(s, k, cs);
            proof {
                assert forall|a: Worlds, x: Model, f: nat| t(a, x, 0) is Some implies #[trigger] t(
                    a,
                    x,
                    f,
                ) == c(a, x, f) by {
                    assert(values::all_at(vals@, a) is Some);
                    values::lemma_all_at(got@, a);
                }
                assert forall|a: Worlds, x: Model| #[trigger] self.allows(a, x) && pc.eval(a) implies s(
                    a,
                    x,
                    0,
                ) is Some && c(a, x, 0) is Some by {
                    assert(t(a, x, 0) is Some);
                    assert(values::all_at(vals@, a) is Some);
                    assert(t(a, x, 0) == c(a, x, 0));
                }
            }
            let pre: GuardedWorlds = self.evaluate(depth, &v, pc);
            let ghost mid = *self;
            proof {
                start.lemma_total_grows(self, *pc, c);
                kont::lemma_evaluating_sound(depth, v);
                k.lemma_over_grows(start.vars(), self.vars());
                assert(pc.wf(self.vars()));
            }
            let r: GuardedWorlds = self.bind_monad(pre, pc, &k, Ghost(s));
            proof {
                start.lemma_step_trans(&mid, self);
                start.lemma_total_grows(self, *pc, t);
                self.lemma_post_same(r, *pc, c, t);
            }
            r
        }
    }

    /// Evaluate the operands of a primitive one after the other, and then the
    /// primitive.
    #[verifier::rlimit(40)]
    fn compile_operands(
        &mut self,
        p: Primitive,
        kids: &Vec<&PExpr>,
        vals: &Vec<PluckVal>,
        env: &Env,
        pc: &BooleanFunction,
    ) -> (r: GuardedWorlds)
        requires
            old(self).starts(
                *pc,
                kont::loading(
                    p,
                    kont::kid_trees(kids@),
                    vals@,
                    *env,
                    old(self).state.callstack@,
                ),
            ),
            *pc != BooleanFunction::False,
            settle::takes(p, kids@.len()),
            settle::all_heads(vals@),
            vals@.len() <= kids@.len(),
            values::all_over(vals@, old(self).vars()),
            env.over(old(self).vars()),
        ensures
            old(self).step(final(self)),
            final(self).post(
                r,
                *pc,
                kont::loading(
                    p,
                    kont::kid_trees(kids@),
                    vals@,
                    *env,
                    old(self).state.callstack@,
                ),
            ),
        decreases old(self).fuel(), 12nat, (kids@.len() - vals@.len()) as nat, 9nat,
    {
        let ghost start = *self;
        let ghost cs = self.state.callstack@;
        let ghost trees = kont::kid_trees(kids@);
        let ghost t = kont::loading(p, trees, vals@, *env, cs);
        proof {
            assert forall|a: Worlds| #[trigger] values::all_at(vals@, a) is Some implies values::all_at(
                vals@,
                a,
            )->0.len() == vals@.len() by {
                values::lemma_all_at(vals@, a);
            }
        }
        if vals.len() >= kids.len() {
            let wants: Vec<(Depth, PluckVal)> = wants_of(p, vals);
            let got: Vec<PluckVal> = Vec::new();
            let ghost u = kont::supplying(p, vals@, got@, cs);
            proof {
                assert(got@ =~= Seq::<PluckVal>::empty());
                assert forall|a: Worlds, x: Model, f: nat| t(a, x, 0) is Some implies #[trigger] t(
                    a,
                    x,
                    f,
                ) == u(a, x, f) by {
                    assert(values::all_at(vals@, a) is Some);
                }
                assert forall|a: Worlds, x: Model| #[trigger] self.allows(a, x) && pc.eval(a) implies u(
                    a,
                    x,
                    0,
                ) is Some by {
                    assert(t(a, x, 0) is Some);
                }
            }
            let r: GuardedWorlds = self.supply(p, vals, &wants, &got, pc);
            proof {
                start.lemma_total_grows(self, *pc, t);
                self.lemma_post_same(r, *pc, u, t);
            }
            return r;
        }
        let n: usize = vals.len();
        let index: i32 = if p == Primitive::Index && n > 0 {
            0
        } else {
            n as i32
        };
        let expr: &PExpr = kids[n];
        let ghost s = kont::calling(trees[n as int], *env, index, cs);
        let k: Kont = Kont::Operands { p, kids, vals, env };
        let ghost c = kont::chained(s, k, cs);
        proof {
            assert(trees[n as int] == expr.tree());
            assert forall|a: Worlds, x: Model, f: nat| t(a, x, 0) is Some implies #[trigger] t(a, x, f)
                == c(a, x, f) by {
                assert(values::all_at(vals@, a) is Some);
            }
            assert forall|a: Worlds, x: Model| #[trigger] self.allows(a, x) && pc.eval(a) implies s(
                a,
                x,
                0,
            ) is Some && c(a, x, 0) is Some by {
                assert(t(a, x, 0) is Some);
                assert(t(a, x, 0) == c(a, x, 0));
            }
        }
        let pre: GuardedWorlds = self.traced_compile(expr, env, pc, index);
        let ghost mid = *self;
        proof {
            start.lemma_total_grows(self, *pc, c);
            kont::lemma_calling_sound(trees[n as int], *env, index, cs);
            k.lemma_over_grows(start.vars(), self.vars());
            assert(pc.wf(self.vars()));
        }
        let r: GuardedWorlds = self.bind_monad(pre, pc, &k, Ghost(s));
        proof {
            start.lemma_step_trans(&mid, self);
            start.lemma_total_grows(self, *pc, t);
            self.lemma_post_same(r, *pc, c, t);
        }
        r
    }

    /// Evaluate the value that another one is to be pinned to, and pin it.
    #[verifier::rlimit(30)]
    fn pin_concrete(&mut self, sym: &PluckVal, concrete: &PExpr, env: &Env, pc: &BooleanFunction) -> (r:
        GuardedWorlds)
        requires
            old(self).starts(
                *pc,
                kont::resumed(Kont::PinConcrete { concrete, env }, *sym, old(self).state.callstack@),
            ),
            *pc != BooleanFunction::False,
            sym.over(old(self).vars()),
            env.over(old(self).vars()),
            values::is_head(**sym),
        ensures
            old(self).step(final(self)),
            monad::all_true(r.0@, final(self).true_sym),
            final(self).post(
                r,
                *pc,
                kont::resumed(Kont::PinConcrete { concrete, env }, *sym, old(self).state.callstack@),
            ),
        decreases old(self).fuel(), 10nat, 0nat, 0nat,
    {
        let ghost start = *self;
        let ghost cs = self.state.callstack@;
        let ghost t = kont::resumed(Kont::PinConcrete { concrete, env }, *sym, cs);
        let ghost s = kont::calling(concrete.tree(), *env, 1, cs);
        let k: Kont = Kont::PinWith { sym: sym.clone() };
        let ghost c = kont::chained(s, k, cs);
        proof {
            assert forall|a: Worlds, x: Model, f: nat| t(a, x, 0) is Some implies #[trigger] t(a, x, f)
                == c(a, x, f) by {}
            assert forall|a: Worlds, x: Model| #[trigger] self.allows(a, x) && pc.eval(a) implies s(
                a,
                x,
                0,
            ) is Some && c(a, x, 0) is Some by {
                assert(t(a, x, 0) is Some);
                assert(t(a, x, 0) == c(a, x, 0));
            }
        }
        let pre: GuardedWorlds = self.traced_compile(concrete, env, pc, 1);
        let ghost mid = *self;
        proof {
            start.lemma_total_grows(self, *pc, c);
            kont::lemma_calling_sound(concrete.tree(), *env, 1, cs);
            k.lemma_over_grows(start.vars(), self.vars());
            assert(pc.wf(self.vars()));
        }
        let r: GuardedWorlds = self.bind_monad(pre, pc, &k, Ghost(s));
        proof {
            start.lemma_step_trans(&mid, self);
            start.lemma_total_grows(self, *pc, t);
            self.lemma_post_same(r, *pc, c, t);
        }
        r
    }

    /// Pin a value to the part `i` of `t`, and then the parts after it.
    #[verifier::rlimit(30)]
    fn pin_forced(&mut self, v: &PluckVal, s: &Vec<PluckVal>, t: &Vec<PluckVal>, i: usize, pc: &BooleanFunction) -> (r:
        GuardedWorlds)
        requires
            old(self).starts(
                *pc,
                kont::resumed(Kont::PinForced { s, t, i }, *v, old(self).state.callstack@),
            ),
            *pc != BooleanFunction::False,
            v.over(old(self).vars()),
            values::all_over(s@, old(self).vars()),
            values::all_over(t@, old(self).vars()),
            values::is_head(**v),
            i < s@.len(),
            i < t@.len(),
        ensures
            old(self).step(final(self)),
            monad::all_true(r.0@, final(self).true_sym),
            final(self).post(
                r,
                *pc,
                kont::resumed(Kont::PinForced { s, t, i }, *v, old(self).state.callstack@),
            ),
        decreases old(self).fuel(), 9nat, (s@.len() - i) as nat, 10nat,
    {
        let ghost start = *self;
        let ghost cs = self.state.callstack@;
        let ghost whole = kont::resumed(Kont::PinForced { s, t, i }, *v, cs);
        let other: PluckVal = t[i].clone();
        let ghost first = ctx::forcing(other);
        let k: Kont = Kont::PinPair { sym: v.clone(), s, t, i };
        let ghost c = kont::chained(first, k, cs);
        proof {
            values::lemma_all_over(t@, self.vars());
            assert(t@[i as int].over(self.vars()));
            assert forall|a: Worlds, x: Model, f: nat| whole(a, x, 0) is Some implies #[trigger] whole(
                a,
                x,
                f,
            ) == c(a, x, f) by {
                values::lemma_all_at(t@, a);
                assert(t@[i as int].at(a) == Some(values::all_at(t@, a)->0[i as int]));
            }
            assert forall|a: Worlds, x: Model| #[trigger] self.allows(a, x) && pc.eval(a) implies first(
                a,
                x,
                0,
            ) is Some && c(a, x, 0) is Some by {
                assert(whole(a, x, 0) is Some);
                assert(whole(a, x, 0) == c(a, x, 0));
            }
        }
        let pre: GuardedWorlds = self.evaluate_thunk(&other, pc);
        let ghost mid = *self;
        proof {
            start.lemma_total_grows(self, *pc, c);
            kont::lemma_forcing_sound(other);
            k.lemma_over_grows(start.vars(), self.vars());
            assert(pc.wf(self.vars()));
        }
        let r: GuardedWorlds = self.bind_monad(pre, pc, &k, Ghost(first));
        proof {
            start.lemma_step_trans(&mid, self);
            start.lemma_total_grows(self, *pc, whole);
            self.lemma_post_same(r, *pc, c, whole);
        }
        r
    }

    /// Pin two values to each other, and then the parts after them.
    #[verifier::rlimit(30)]
    fn pin_pair(
        &mut self,
        sym: &PluckVal,
        v: &PluckVal,
        s: &Vec<PluckVal>,
        t: &Vec<PluckVal>,
        i: usize,
        pc: &BooleanFunction,
    ) -> (r: GuardedWorlds)
        requires
            old(self).starts(
                *pc,
                kont::resumed(Kont::PinPair { sym: *sym, s, t, i }, *v, old(self).state.callstack@),
            ),
            *pc != BooleanFunction::False,
            v.over(old(self).vars()),
            sym.over(old(self).vars()),
            values::all_over(s@, old(self).vars()),
            values::all_over(t@, old(self).vars()),
            values::is_head(**v),
            values::is_head(**sym),
            i < s@.len(),
            i < t@.len(),
        ensures
            old(self).step(final(self)),
            monad::all_true(r.0@, final(self).true_sym),
            final(self).post(
                r,
                *pc,
                kont::resumed(Kont::PinPair { sym: *sym, s, t, i }, *v, old(self).state.callstack@),
            ),
        decreases old(self).fuel(), 9nat, (s@.len() - i) as nat, 6nat,
    {
        let ghost start = *self;
        let ghost cs = self.state.callstack@;
        let ghost whole = kont::resumed(Kont::PinPair { sym: *sym, s, t, i }, *v, cs);
        let ghost first = kont::pinning(*sym, *v, cs);
        let k: Kont = Kont::PinRest { s, t, i };
        let ghost c = kont::chained(first, k, cs);
        proof {
            assert forall|a: Worlds, x: Model, f: nat| whole(a, x, 0) is Some implies #[trigger] whole(
                a,
                x,
                f,
            ) == c(a, x, f) by {}
            assert forall|a: Worlds, x: Model| #[trigger] self.allows(a, x) && pc.eval(a) implies first(
                a,
                x,
                0,
            ) is Some && c(a, x, 0) is Some by {
                assert(whole(a, x, 0) is Some);
                assert(whole(a, x, 0) == c(a, x, 0));
            }
        }
        let pre: GuardedWorlds = self.pin_value(sym, v, pc);
        let ghost mid = *self;
        proof {
            start.lemma_total_grows(self, *pc, c);
            kont::lemma_pinning_sound(*sym, *v, cs);
            k.lemma_over_grows(start.vars(), self.vars());
            assert(pc.wf(self.vars()));
        }
        let r: GuardedWorlds = self.bind_monad(pre, pc, &k, Ghost(first));
        proof {
            start.lemma_step_trans(&mid, self);
            start.lemma_total_grows(self, *pc, whole);
            self.lemma_post_same(r, *pc, c, whole);
        }
        r
    }

    /// Pin the parts of two values to each other, from the place `i` on.
    #[verifier::rlimit(30)]
    fn pin_all(&mut self, s: &Vec<PluckVal>, t: &Vec<PluckVal>, i: usize, pc: &BooleanFunction) -> (r:
        GuardedWorlds)
        requires
            old(self).starts(
                *pc,
                kont::pinning_all(s@, t@, i as int, old(self).state.callstack@),
            ),
            *pc != BooleanFunction::False,
            values::all_over(s@, old(self).vars()),
            values::all_over(t@, old(self).vars()),
            i <= s@.len(),
        ensures
            old(self).step(final(self)),
            monad::all_true(r.0@, final(self).true_sym),
            final(self).post(
                r,
                *pc,
                kont::pinning_all(s@, t@, i as int, old(self).state.callstack@),
            ),
        decreases old(self).fuel(), 9nat, (s@.len() - i) as nat, 14nat,
    {
        let ghost start = *self;
        let ghost cs = self.state.callstack@;
        let ghost whole = kont::pinning_all(s@, t@, i as int, cs);
        proof {
            self.lemma_step_refl();
            assert forall|a: Worlds| #[trigger] values::all_at(s@, a) is Some implies values::all_at(
                s@,
                a,
            )->0.len() == s@.len() by {
                values::lemma_all_at(s@, a);
            }
            assert forall|a: Worlds| #[trigger] values::all_at(t@, a) is Some implies values::all_at(
                t@,
                a,
            )->0.len() == t@.len() by {
                values::lemma_all_at(t@, a);
            }
        }
        if i >= s.len() || i >= t.len() {
            let v: PluckVal = self.bool_val(true);
            let r: GuardedWorlds = pure_monad(v);
            proof {
                assert(v.over(self.vars()));
                assert forall|a: Worlds, x: Model| #[trigger]
                    self.allows(a, x) && whole(a, x, 0) is Some implies v.at(a) is Some && whole(a, x, 0)
                    == Some(Outcome::Done(v.at(a)->0)) by {
                    assert(values::all_at(s@, a) is Some && values::all_at(t@, a) is Some);
                }
                self.lemma_post_value(v, r, *pc, whole);
            }
            return r;
        }
        let part: PluckVal = s[i].clone();
        let ghost first = ctx::forcing(part);
        let k: Kont = Kont::PinForced { s, t, i };
        let ghost c = kont::chained(first, k, cs);
        proof {
            values::lemma_all_over(s@, self.vars());
            assert(s@[i as int].over(self.vars()));
            assert forall|a: Worlds, x: Model, f: nat| whole(a, x, 0) is Some implies #[trigger] whole(
                a,
                x,
                f,
            ) == c(a, x, f) by {
                assert(values::all_at(s@, a) is Some && values::all_at(t@, a) is Some);
                values::lemma_all_at(s@, a);
                assert(s@[i as int].at(a) == Some(values::all_at(s@, a)->0[i as int]));
            }
            assert forall|a: Worlds, x: Model| #[trigger] self.allows(a, x) && pc.eval(a) implies first(
                a,
                x,
                0,
            ) is Some && c(a, x, 0) is Some by {
                assert(whole(a, x, 0) is Some);
                assert(whole(a, x, 0) == c(a, x, 0));
            }
        }
        let pre: GuardedWorlds = self.evaluate_thunk(&part, pc);
        let ghost mid = *self;
        proof {
            start.lemma_total_grows(self, *pc, c);
            kont::lemma_forcing_sound(part);
            k.lemma_over_grows(start.vars(), self.vars());
            assert(pc.wf(self.vars()));
        }
        let r: GuardedWorlds = self.bind_monad(pre, pc, &k, Ghost(first));
        proof {
            start.lemma_step_trans(&mid, self);
            start.lemma_total_grows(self, *pc, whole);
            self.lemma_post_same(r, *pc, c, whole);
        }
        r
    }

    /// AND of the pins of the parts of two values, one level down.
    #[verifier::rlimit(30)]
    fn pin_args_and(&mut self, s: &Vec<PluckVal>, t: &Vec<PluckVal>, pc: &BooleanFunction) -> (r:
        GuardedWorlds)
        requires
            old(self).starts(*pc, kont::pinning_parts(s@, t@, old(self).state.callstack@)),
            *pc != BooleanFunction::False,
            values::all_over(s@, old(self).vars()),
            values::all_over(t@, old(self).vars()),
        ensures
            old(self).step(final(self)),
            monad::all_true(r.0@, final(self).true_sym),
            final(self).post(r, *pc, kont::pinning_parts(s@, t@, old(self).state.callstack@)),
        decreases old(self).fuel(), 7nat, 0nat, 0nat,
    {
        let ghost start = *self;
        let ghost cs = self.state.callstack@;
        let ghost whole = kont::pinning_parts(s@, t@, cs);
        if self.state.depth > self.state.cfg.depth_limit() {
            return self.give_up(pc, Ghost(whole));
        }
        self.state.depth = self.state.depth + 1;
        let ghost mid = *self;
        let ghost u = kont::pinning_all(s@, t@, 0, cs);
        proof {
            start.lemma_tables(&mid);
            assert forall|a: Worlds, x: Model| #[trigger] mid.allows(a, x) && pc.eval(a) implies u(
                a,
                x,
                0,
            ) is Some by {
                assert(start.allows(a, x));
                assert(whole(a, x, 0) is Some);
            }
        }
        let result: GuardedWorlds = self.pin_all(s, t, 0, pc);
        let ghost next = *self;
        self.state.depth = self.state.depth - 1;
        proof {
            next.lemma_tables(self);
            assert(start.state.grows_to(self.state)) by {
                assert forall|v: u64, e: Event| #[trigger] start.state.tells(v, e) implies self.state.tells(
                    v,
                    e,
                ) by {
                    assert(mid.state.tells(v, e));
                    assert(next.state.tells(v, e));
                }
                assert forall|a: Worlds, x: Model| #[trigger] self.state.fits(a, x) implies start.state.fits(
                    a,
                    x,
                ) by {
                    assert(next.state.fits(a, x));
                    assert(mid.state.fits(a, x));
                }
            }
            if next.state.hit_limit {
                let (a, x) = choose|a: Worlds, x: Model| #[trigger]
                    next.allows(a, x) && pc.eval(a) && u(a, x, next.fuel()) == Some(Outcome::Stuck);
                assert(self.allows(a, x));
                assert(whole(a, x, self.fuel()) == Some(Outcome::Stuck));
                assert(self.stuck(*pc, whole));
            } else {
                assert forall|a: Worlds, x: Model| #[trigger]
                    self.allows(a, x) && result.1.eval(a) && whole(a, x, 0) is Some implies ctx::reached(
                    whole,
                    a,
                    x,
                    values::pick(result.0@, a),
                ) by {
                    assert(next.allows(a, x));
                    assert(u(a, x, 0) is Some);
                    let o = values::pick(result.0@, a);
                    assert(ctx::reached(u, a, x, o));
                    let f = choose|f: nat| #[trigger] u(a, x, f) == Some(o);
                    assert(whole(a, x, f + 1) == Some(o));
                }
            }
        }
        result
    }

    /// Pin a Dirichlet vector to a vector of numbers.
    #[verifier::rlimit(40)]
    fn pin_vector(&mut self, sym: &PluckVal, concrete: &PluckVal, pc: &BooleanFunction) -> (r: GuardedWorlds)
        requires
            old(self).starts(*pc, kont::pinning(*sym, *concrete, old(self).state.callstack@)),
            *pc != BooleanFunction::False,
            sym.over(old(self).vars()),
            concrete.over(old(self).vars()),
            **sym matches PluckValue::DirichletVector { name, categories } && settle::parts_of(
                **concrete,
            ) is Some && settle::parts_of(**concrete)->0.len() == categories,
            **concrete is Value || **concrete is FloatMatrix,
        ensures
            old(self).step(final(self)),
            monad::all_true(r.0@, final(self).true_sym),
            final(self).post(
                r,
                *pc,
                kont::pinning(*sym, *concrete, old(self).state.callstack@),
            ),
        decreases old(self).fuel(), 7nat, 0nat, 0nat,
    {
        let ghost start = *self;
        let ghost cs = self.state.callstack@;
        let ghost whole = kont::pinning(*sym, *concrete, cs);
        let mut vals: Vec<PluckVal> = Vec::new();
        vals.push(sym.clone());
        vals.push(concrete.clone());
        let wants: Vec<(Depth, PluckVal)> = wants_of(Primitive::DirichletEq, &vals);
        let got: Vec<PluckVal> = Vec::new();
        let ghost first = kont::supplying(Primitive::DirichletEq, vals@, got@, cs);
        let k: Kont = Kont::Confirm;
        let ghost c = kont::chained(first, k, cs);
        proof {
            assert(got@ =~= Seq::<PluckVal>::empty());
            assert(vals@ =~= seq![*sym, *concrete]);
            values::lemma_all_over(vals@, self.vars());
            assert forall|a: Worlds, x: Model, f: nat| whole(a, x, 0) is Some implies #[trigger] whole(
                a,
                x,
                f,
            ) == c(a, x, f) by {
                values::lemma_all_at(vals@, a);
                assert(vals@[0].at(a) is Some && vals@[1].at(a) is Some);
                let ds = values::all_at(vals@, a)->0;
                assert(ds =~= seq![sym.at(a)->0, concrete.at(a)->0]);
                match &**concrete {
                    PluckValue::Value { args, .. } => values::lemma_all_at(args@, a),
                    PluckValue::FloatMatrix { entries, .. } => values::lemma_all_at(entries@, a),
                    _ => {},
                }
            }
            assert forall|a: Worlds, x: Model| #[trigger] self.allows(a, x) && pc.eval(a) implies first(
                a,
                x,
                0,
            ) is Some && c(a, x, 0) is Some by {
                assert(whole(a, x, 0) is Some);
                assert(whole(a, x, 0) == c(a, x, 0));
            }
        }
        let pre: GuardedWorlds = self.supply(Primitive::DirichletEq, &vals, &wants, &got, pc);
        let ghost mid = *self;
        proof {
            start.lemma_total_grows(self, *pc, c);
            kont::lemma_supplying_sound(Primitive::DirichletEq, vals@, got@, cs);
            assert(pc.wf(self.vars()));
        }
        let r: GuardedWorlds = self.bind_monad(pre, pc, &k, Ghost(first));
        proof {
            start.lemma_step_trans(&mid, self);
            start.lemma_total_grows(self, *pc, whole);
            self.lemma_post_same(r, *pc, c, whole);
        }
        r
    }

    /// Pin a value to another one: `True` where they agree, else nothing.
    /// Both are evaluated; their parts are evaluated on the way down.
    /// Native values, and constructors or shapes that differ, are decided at
    /// once.
    #[verifier::rlimit(60)]
    pub fn pin_value(&mut self, sym: &PluckVal, concrete: &PluckVal, pc: &BooleanFunction) -> (r: GuardedWorlds)
        requires
            old(self).starts(*pc, kont::pinning(*sym, *concrete, old(self).state.callstack@)),
            *pc != BooleanFunction::False,
            sym.over(old(self).vars()),
            concrete.over(old(self).vars()),
            values::is_head(**sym),
            values::is_head(**concrete),
        ensures
            old(self).step(final(self)),
            monad::all_true(r.0@, final(self).true_sym),
            pins::verdict(**sym, **concrete) matches Some(b) ==> pins::decided(r.0@, b),
            final(self).post(
                r,
                *pc,
                kont::pinning(*sym, *concrete, old(self).state.callstack@),
            ),
        decreases old(self).fuel(), 7nat, 0nat, 2nat,
    {
        let ghost start = *self;
        let ghost cs = self.state.callstack@;
        let ghost whole = kont::pinning(*sym, *concrete, cs);
        proof {
            self.lemma_step_refl();
        }
        match (&**sym, &**concrete) {
            (
                PluckValue::Value { constructor: c, args: s },
                PluckValue::Value { constructor: d, args: t },
            ) => {
                let fits: bool = *c == *d && s.len() == t.len();
                self.pin_parts(sym, concrete, s, t, fits, pc)
            },
            (
                PluckValue::FloatMatrix { entries: s, shape: p },
                PluckValue::FloatMatrix { entries: t, shape: q },
            ) => {
                let fits: bool = floats::same_shape(p, q) && s.len() == t.len();
                self.pin_parts(sym, concrete, s, t, fits, pc)
            },
            (PluckValue::DirichletVector { categories, .. }, PluckValue::Value { args, .. }) => {
                if args.len() == *categories {
                    self.pin_vector(sym, concrete, pc)
                } else {
                    let r: GuardedWorlds = program_error_worlds();
                    proof {
                        assert forall|a: Worlds, x: Model| #[trigger]
                            self.allows(a, x) && whole(a, x, 0) is Some implies whole(a, x, 0) == Some(
                            Outcome::Fail,
                        ) by {
                            values::lemma_all_at(args@, a);
                        }
                        self.lemma_post_fail(r, *pc, whole);
                    }
                    r
                }
            },
            (
                PluckValue::DirichletVector { categories, .. },
                PluckValue::FloatMatrix { entries, shape },
            ) => {
                if shape.len() != 1 {
                    return self.give_up(pc, Ghost(whole));
                }
                if entries.len() == *categories {
                    self.pin_vector(sym, concrete, pc)
                } else {
                    let r: GuardedWorlds = program_error_worlds();
                    proof {
                        assert forall|a: Worlds, x: Model| #[trigger]
                            self.allows(a, x) && whole(a, x, 0) is Some implies whole(a, x, 0) == Some(
                            Outcome::Fail,
                        ) by {
                            values::lemma_all_at(entries@, a);
                        }
                        self.lemma_post_fail(r, *pc, whole);
                    }
                    r
                }
            },
            _ => self.pin_plain(sym, concrete, pc),
        }
    }

    /// Pin two values without parts.
    #[verifier::rlimit(30)]
    fn pin_plain(&mut self, sym: &PluckVal, concrete: &PluckVal, pc: &BooleanFunction) -> (r: GuardedWorlds)
        requires
            old(self).starts(*pc, kont::pinning(*sym, *concrete, old(self).state.callstack@)),
            *pc != BooleanFunction::False,
            sym.over(old(self).vars()),
            concrete.over(old(self).vars()),
            values::is_head(**sym),
            values::is_head(**concrete),
            pins::leafy(**sym, **concrete),
        ensures
            old(self).step(final(self)),
            monad::all_true(r.0@, final(self).true_sym),
            pins::verdict(**sym, **concrete) matches Some(b) ==> pins::decided(r.0@, b),
            final(self).post(
                r,
                *pc,
                kont::pinning(*sym, *concrete, old(self).state.callstack@),
            ),
    {
        let ghost start = *self;
        let ghost cs = self.state.callstack@;
        let ghost whole = kont::pinning(*sym, *concrete, cs);
        let ghost ans = pins::leaf_pin(*sym, *concrete, cs);
        match self.pin_leaf(sym, concrete) {
            Some(w) => {
                proof {
                    self.lemma_post_answer(w, *pc, ans, whole);
                }
                w
            },
            None => {
                let ghost mid = *self;
                proof {
                    start.lemma_total_grows(self, *pc, whole);
                    assert(pc.wf(self.vars()));
                    assert forall|a: Worlds, x: Model| #[trigger]
                        self.allows(a, x) && pc.eval(a) implies whole(a, x, self.fuel()) == Some(
                        Outcome::Stuck,
                    ) by {
                        assert(whole(a, x, 0) is Some);
                        assert(ans(a, x) is Some);
                        pins::lemma_leafy(&**sym, &**concrete, a, cs, x, self.fuel());
                    }
                }
                let r: GuardedWorlds = self.give_up(pc, Ghost(whole));
                proof {
                    start.lemma_step_trans(&mid, self);
                }
                r
            },
        }
    }

    /// Pin the parts of two values to each other, if they fit.
    #[verifier::rlimit(30)]
    fn pin_parts(
        &mut self,
        sym: &PluckVal,
        concrete: &PluckVal,
        s: &Vec<PluckVal>,
        t: &Vec<PluckVal>,
        fits: bool,
        pc: &BooleanFunction,
    ) -> (r: GuardedWorlds)
        requires
            old(self).starts(*pc, kont::pinning(*sym, *concrete, old(self).state.callstack@)),
            *pc != BooleanFunction::False,
            sym.over(old(self).vars()),
            concrete.over(old(self).vars()),
            match (**sym, **concrete) {
                (
                    PluckValue::Value { constructor: c, args: p },
                    PluckValue::Value { constructor: d, args: q },
                ) => p == *s && q == *t && fits == (c == d && p@.len() == q@.len()),
                (
                    PluckValue::FloatMatrix { entries: p, shape: c },
                    PluckValue::FloatMatrix { entries: q, shape: d },
                ) => p == *s && q == *t && fits == (c@ == d@ && p@.len() == q@.len()),
                _ => false,
            },
        ensures
            old(self).step(final(self)),
            monad::all_true(r.0@, final(self).true_sym),
            pins::verdict(**sym, **concrete) matches Some(b) ==> pins::decided(r.0@, b),
            final(self).post(
                r,
                *pc,
                kont::pinning(*sym, *concrete, old(self).state.callstack@),
            ),
        decreases old(self).fuel(), 7nat, 0nat, 1nat,
    {
        let ghost start = *self;
        let ghost cs = self.state.callstack@;
        let ghost whole = kont::pinning(*sym, *concrete, cs);
        proof {
            self.lemma_step_refl();
            assert forall|a: Worlds| #[trigger] values::all_at(s@, a) is Some implies values::all_at(
                s@,
                a,
            )->0.len() == s@.len() by {
                values::lemma_all_at(s@, a);
            }
            assert forall|a: Worlds| #[trigger] values::all_at(t@, a) is Some implies values::all_at(
                t@,
                a,
            )->0.len() == t@.len() by {
                values::lemma_all_at(t@, a);
            }
        }
        if !fits {
            let r: GuardedWorlds = program_error_worlds();
            proof {
                assert forall|a: Worlds, x: Model| #[trigger]
                    self.allows(a, x) && whole(a, x, 0) is Some implies whole(a, x, 0) == Some(
                    Outcome::Fail,
                ) by {
                    assert(values::all_at(s@, a) is Some && values::all_at(t@, a) is Some);
                }
                self.lemma_post_fail(r, *pc, whole);
            }
            return r;
        }
        let ghost u = kont::pinning_parts(s@, t@, cs);
        proof {
            assert forall|a: Worlds, x: Model, f: nat| whole(a, x, 0) is Some implies #[trigger] whole(
                a,
                x,
                f,
            ) == u(a, x, f) by {
                assert(values::all_at(s@, a) is Some && values::all_at(t@, a) is Some);
            }
            assert forall|a: Worlds, x: Model| #[trigger] self.allows(a, x) && pc.eval(a) implies u(
                a,
                x,
                0,
            ) is Some by {
                assert(whole(a, x, 0) is Some);
            }
        }
        let r: GuardedWorlds = self.pin_args_and(s, t, pc);
        proof {
            start.lemma_total_grows(self, *pc, whole);
            self.lemma_post_same(r, *pc, u, whole);
        }
        r
    }

    /// Compile a pin: `True` where the value of the expression is the given
    /// one, else nothing.
    #[verifier::rlimit(30)]
    pub fn compile_pin(&mut self, expr: &PExpr, value: &PExpr, env: &Env, pc: &BooleanFunction) -> (r:
        GuardedWorlds)
        requires
            old(self).starts(
                *pc,
                kont::running(
                    pexpr::node2(Head::Pin, expr.tree(), value.tree()),
                    *env,
                    old(self).state.callstack@,
                ),
            ),
            *pc != BooleanFunction::False,
            env.over(old(self).vars()),
        ensures
            old(self).step(final(self)),
            final(self).post(
                r,
                *pc,
                kont::running(
                    pexpr::node2(Head::Pin, expr.tree(), value.tree()),
                    *env,
                    old(self).state.callstack@,
                ),
            ),
        decreases old(self).fuel(), 19nat, 0nat, 0nat,
    {
        let ghost start = *self;
        let ghost cs = self.state.callstack@;
        let ghost whole = kont::running(
            pexpr::node2(Head::Pin, expr.tree(), value.tree()),
            *env,
            cs,
        );
        let ghost first = kont::calling(expr.tree(), *env, 0, cs);
        let k: Kont = Kont::PinConcrete { concrete: value, env };
        let ghost c = kont::chained(first, k, cs);
        proof {
            assert forall|a: Worlds, x: Model, f: nat| whole(a, x, 0) is Some implies #[trigger] whole(
                a,
                x,
                f,
            ) == c(a, x, f) by {}
            assert forall|a: Worlds, x: Model| #[trigger] self.allows(a, x) && pc.eval(a) implies first(
                a,
                x,
                0,
            ) is Some && c(a, x, 0) is Some by {
                assert(whole(a, x, 0) is Some);
                assert(whole(a, x, 0) == c(a, x, 0));
            }
        }
        let pre: GuardedWorlds = self.traced_compile(expr, env, pc, 0);
        let ghost mid = *self;
        proof {
            start.lemma_total_grows(self, *pc, c);
            kont::lemma_calling_sound(expr.tree(), *env, 0, cs);
            k.lemma_over_grows(start.vars(), self.vars());
            assert(pc.wf(self.vars()));
        }
        let r: GuardedWorlds = self.bind_monad(pre, pc, &k, Ghost(first));
        proof {
            start.lemma_step_trans(&mid, self);
            start.lemma_total_grows(self, *pc, whole);
            self.lemma_post_same(r, *pc, c, whole);
        }
        r
    }

    /// Evaluate an expression, and run a continuation on its value.
    #[verifier::rlimit(30)]
    fn compile_and(&mut self, expr: &PExpr, env: &Env, k: &Kont, pc: &BooleanFunction, Ghost(whole): Ghost<Sem>) -> (r:
        GuardedWorlds)
        requires
            old(self).starts(*pc, whole),
            *pc != BooleanFunction::False,
            env.over(old(self).vars()),
            k.over(old(self).vars()),
            k.wf(),
            k.group() == 3,
            forall|a: Worlds, x: Model, f: nat|
                whole(a, x, 0) is Some ==> #[trigger] whole(a, x, f) == kont::chained(
                    kont::calling(expr.tree(), *env, 0, old(self).state.callstack@),
                    *k,
                    old(self).state.callstack@,
                )(a, x, f),
        ensures
            old(self).step(final(self)),
            final(self).post(r, *pc, whole),
        decreases old(self).fuel(), 19nat, 0nat, 0nat,
    {
        let ghost start = *self;
        let ghost cs = self.state.callstack@;
        let ghost first = kont::calling(expr.tree(), *env, 0, cs);
        let ghost c = kont::chained(first, *k, cs);
        proof {
            assert forall|a: Worlds, x: Model| #[trigger] self.allows(a, x) && pc.eval(a) implies first(
                a,
                x,
                0,
            ) is Some && c(a, x, 0) is Some by {
                assert(whole(a, x, 0) is Some);
                assert(whole(a, x, 0) == c(a, x, 0));
            }
        }
        let pre: GuardedWorlds = self.traced_compile(expr, env, pc, 0);
        let ghost mid = *self;
        proof {
            start.lemma_total_grows(self, *pc, c);
            kont::lemma_calling_sound(expr.tree(), *env, 0, cs);
            k.lemma_over_grows(start.vars(), self.vars());
            assert(pc.wf(self.vars()));
            assert forall|i: int| 0 <= i < pre.0@.len() implies k.accepts(*(#[trigger] pre.0@[i]).0) by {
                assert(values::is_head(*pre.0@[i].0));
            }
        }
        let r: GuardedWorlds = self.bind_monad(pre, pc, k, Ghost(first));
        proof {
            start.lemma_step_trans(&mid, self);
            start.lemma_total_grows(self, *pc, whole);
            self.lemma_post_same(r, *pc, c, whole);
        }
        r
    }

    /// Compile an expression at the current callstack.
    #[verifier::rlimit(60)]
    fn compile(&mut self, expr: &PExpr, env: &Env, pc: &BooleanFunction) -> (r: GuardedWorlds)
        requires
            old(self).starts(*pc, kont::running(expr.tree(), *env, old(self).state.callstack@)),
            *pc != BooleanFunction::False,
            env.over(old(self).vars()),
        ensures
            old(self).step(final(self)),
            final(self).post(
                r,
                *pc,
                kont::running(expr.tree(), *env, old(self).state.callstack@),
            ),
        decreases old(self).fuel(), 20nat, 0nat, 0nat,
    {
        let ghost start = *self;
        let ghost cs = self.state.callstack@;
        let ghost t = kont::running(expr.tree(), *env, cs);
        proof {
            self.lemma_step_refl();
        }
        match expr {
            PExpr::Var { name } => self.compile_var(expr, *name, env, pc),
            PExpr::Defined { name } => self.compile_defined(expr, *name, env, pc),
            PExpr::App { func, arg } => {
                let thunk: PluckVal = make_thunk(arg, env, 1, &self.state.callstack);
                let k: Kont = Kont::Apply { arg: thunk };
                proof {
                    let c = kont::chained(kont::calling(func.tree(), *env, 0, cs), k, cs);
                    assert forall|a: Worlds, x: Model, f: nat| t(a, x, 0) is Some implies #[trigger] t(
                        a,
                        x,
                        f,
                    ) == c(a, x, f) by {
                        assert(env.at(a) is Some);
                    }
                    assert(thunk.over(self.vars()));
                }
                self.compile_and(func, env, &k, pc, Ghost(t))
            },
            PExpr::CaseOf { guards, scrutinee, branches } => {
                let k: Kont = Kont::Match { guards, branches, env };
                proof {
                    let c = kont::chained(kont::calling(scrutinee.tree(), *env, 0, cs), k, cs);
                    let kids = expr.tree().kids;
                    assert(kids.skip(1) =~= pexpr::trees(branches@));
                    assert forall|a: Worlds, x: Model, f: nat| t(a, x, 0) is Some implies #[trigger] t(
                        a,
                        x,
                        f,
                    ) == c(a, x, f) by {}
                }
                self.compile_and(scrutinee, env, &k, pc, Ghost(t))
            },
            PExpr::YComb { func } => {
                let k: Kont = Kont::Loop;
                proof {
                    let c = kont::chained(kont::calling(func.tree(), *env, 0, cs), k, cs);
                    assert forall|a: Worlds, x: Model, f: nat| t(a, x, 0) is Some implies #[trigger] t(
                        a,
                        x,
                        f,
                    ) == c(a, x, f) by {}
                }
                self.compile_and(func, env, &k, pc, Ghost(t))
            },
            PExpr::Print { expr: inner } => {
                let ghost s = kont::calling(inner.tree(), *env, 0, cs);
                proof {
                    assert forall|a: Worlds, x: Model, f: nat| t(a, x, 0) is Some implies #[trigger] t(
                        a,
                        x,
                        f,
                    ) == s(a, x, f) by {}
                    assert forall|a: Worlds, x: Model| #[trigger]
                        self.allows(a, x) && pc.eval(a) implies s(a, x, 0) is Some by {
                        assert(t(a, x, 0) is Some);
                    }
                }
                let r: GuardedWorlds = self.traced_compile(inner, env, pc, 0);
                proof {
                    start.lemma_total_grows(self, *pc, t);
                    self.lemma_post_same(r, *pc, s, t);
                }
                r
            },
            PExpr::Error { .. } => {
                let r: GuardedWorlds = program_error_worlds();
                proof {
                    self.lemma_post_fail(r, *pc, t);
                }
                r
            },
            PExpr::Pin { expr: inner, val } => self.compile_pin(inner, val, env, pc),
            _ => match strict_parts(expr) {
                Some((p, kids)) => {
                    let none: Vec<PluckVal> = Vec::new();
                    let ghost u = kont::loading(p, kont::kid_trees(kids@), none@, *env, cs);
                    proof {
                        assert(none@ =~= Seq::<PluckVal>::empty());
                        assert forall|a: Worlds, x: Model, f: nat| t(a, x, 0) is Some implies #[trigger] t(
                            a,
                            x,
                            f,
                        ) == u(a, x, f) by {}
                        assert forall|a: Worlds, x: Model| #[trigger]
                            self.allows(a, x) && pc.eval(a) implies u(a, x, 0) is Some by {
                            assert(t(a, x, 0) is Some);
                        }
                    }
                    let r: GuardedWorlds = self.compile_operands(p, &kids, &none, env, pc);
                    proof {
                        start.lemma_total_grows(self, *pc, t);
                        self.lemma_post_same(r, *pc, u, t);
                    }
                    r
                },
                None => self.compile_value(expr, env, pc),
            },
        }
    }

    /// Compile a variable: what it is bound to is evaluated.
    fn compile_var(&mut self, expr: &PExpr, name: Symbol, env: &Env, pc: &BooleanFunction) -> (r: GuardedWorlds)
        requires
            old(self).starts(*pc, kont::running(expr.tree(), *env, old(self).state.callstack@)),
            *pc != BooleanFunction::False,
            env.over(old(self).vars()),
            *expr == (PExpr::Var { name }),
        ensures
            old(self).step(final(self)),
            final(self).post(
                r,
                *pc,
                kont::running(expr.tree(), *env, old(self).state.callstack@),
            ),
        decreases old(self).fuel(), 19nat, 0nat, 0nat,
    {
        let ghost start = *self;
        let ghost cs = self.state.callstack@;
        let ghost t = kont::running(expr.tree(), *env, cs);
        proof {
            self.lemma_step_refl();
            assert forall|a: Worlds| #[trigger] env.at(a) is Some implies (match env.find(name) {
                Some(v) => v.at(a) is Some && values::lookup(env.at(a)->0, name) == v.at(a),
                None => values::lookup(env.at(a)->0, name) is None,
            }) by {
                values::lemma_find(&**env, name, a);
            }
        }
        match env_lookup(env, name) {
            Some(val) => {
                let ghost s = ctx::forcing(val);
                proof {
                    values::lemma_find_over(&**env, name, self.vars());
                    assert forall|a: Worlds, x: Model, f: nat| t(a, x, 0) is Some implies #[trigger] t(
                        a,
                        x,
                        f,
                    ) == s(a, x, f) by {
                        assert(env.at(a) is Some);
                    }
                    assert forall|a: Worlds, x: Model| #[trigger]
                        self.allows(a, x) && pc.eval(a) implies s(a, x, 0) is Some by {
                        assert(t(a, x, 0) is Some);
                    }
                }
                let r: GuardedWorlds = self.evaluate_thunk(&val, pc);
                proof {
                    start.lemma_total_grows(self, *pc, t);
                    self.lemma_post_same(r, *pc, s, t);
                }
                r
            },
            None => {
                let r: GuardedWorlds = program_error_worlds();
                proof {
                    assert forall|a: Worlds, x: Model| #[trigger]
                        self.allows(a, x) && t(a, x, 0) is Some implies t(a, x, 0) == Some(
                        Outcome::Fail,
                    ) by {
                        assert(env.at(a) is Some);
                    }
                    self.lemma_post_fail(r, *pc, t);
                }
                r
            },
        }
    }

    /// Compile a reference to a definition.
    fn compile_defined(&mut self, expr: &PExpr, name: Symbol, env: &Env, pc: &BooleanFunction) -> (r:
        GuardedWorlds)
        requires
            old(self).starts(*pc, kont::running(expr.tree(), *env, old(self).state.callstack@)),
            env.over(old(self).vars()),
            *expr == (PExpr::Defined { name }),
        ensures
            old(self).step(final(self)),
            final(self).post(
                r,
                *pc,
                kont::running(expr.tree(), *env, old(self).state.callstack@),
            ),
        decreases old(self).fuel(), 19nat, 0nat, 0nat,
    {
        let ghost start = *self;
        let ghost cs = self.state.callstack@;
        let ghost t = kont::running(expr.tree(), *env, cs);
        proof {
            self.lemma_step_refl();
        }
        let defs: &'a DefinitionRegistry = self.defs;
        match defs.lookup(name) {
            Some(def) => {
                let scope: Env = empty_env();
                let ghost s = kont::calling(kont::shared_tree(def.expr), scope, 0, cs);
                proof {
                    assert forall|a: Worlds, x: Model, f: nat| self.allows(a, x) && t(a, x, 0) is Some implies #[trigger] t(
                        a,
                        x,
                        f,
                    ) == s(a, x, f) by {}
                    assert(self.total(*pc, s));
                }
                let r: GuardedWorlds = self.traced_compile(&def.expr, &scope, pc, 0);
                proof {
                    start.lemma_total_grows(self, *pc, t);
                    assert forall|a: Worlds, x: Model, f: nat| self.allows(a, x) && t(a, x, 0) is Some implies #[trigger] t(
                        a,
                        x,
                        f,
                    ) == s(a, x, f) by {
                        assert(self.state.fits(a, x));
                        assert(start.allows(a, x));
                    }
                    self.lemma_post_same(r, *pc, s, t);
                }
                r
            },
            None => {
                let r: GuardedWorlds = program_error_worlds();
                proof {
                    self.lemma_post_fail(r, *pc, t);
                }
                r
            },
        }
    }

    /// Compile an expression that is a value already.
    #[verifier::rlimit(30)]
    pub(crate) fn compile_value(&mut self, expr: &PExpr, env: &Env, pc: &BooleanFunction) -> (r: GuardedWorlds)
        requires
            old(self).starts(*pc, kont::running(expr.tree(), *env, old(self).state.callstack@)),
            *pc != BooleanFunction::False,
            env.over(old(self).vars()),
            expr is Abs || expr is Construct || expr is ConstNative || expr is GSymbol
                || expr is GVarSymbol || expr is FloatMatrix,
        ensures
            old(self).step(final(self)),
            final(self).post(
                r,
                *pc,
                kont::running(expr.tree(), *env, old(self).state.callstack@),
            ),
    {
        let ghost start = *self;
        let ghost cs = self.state.callstack@;
        let ghost t = kont::running(expr.tree(), *env, cs);
        proof {
            self.lemma_step_refl();
        }
        let v: PluckVal = match expr {
            PExpr::Abs { var, body } => mk_closure(*var, Rc::new((**body).clone()), env.clone()),
            PExpr::Construct { constructor, args } => {
                let parts: Vec<PluckVal> = make_thunks(args, env, &self.state.callstack);
                proof {
                    assert(values::all_over(parts@, self.vars()));
                    assert forall|a: Worlds, x: Model| #[trigger]
                        self.allows(a, x) && t(a, x, 0) is Some implies env.at(a) is Some by {}
                }
                mk_value(*constructor, parts)
            },
            PExpr::ConstNative { val } => match constant_value(val, self.reals) {
                Some(v) => {
                    proof {
                        assert(v.over(self.vars()));
                        assert forall|a: Worlds, x: Model| #[trigger]
                            self.allows(a, x) && t(a, x, 0) is Some implies v.at(a) is Some && t(a, x, 0)
                            == Some(Outcome::Done(v.at(a)->0)) by {
                            assert(self.suits(x));
                        }
                    }
                    v
                },
                None => {
                    proof {
                        assert forall|a: Worlds, x: Model| #[trigger]
                            self.allows(a, x) && pc.eval(a) implies t(a, x, self.fuel()) == Some(
                            Outcome::Stuck,
                        ) by {
                            assert(t(a, x, 0) is Some);
                            assert(self.suits(x));
                            assert(x.arith == reals::operations(*self.reals));
                        }
                    }
                    return self.give_up(pc, Ghost(t));
                },
            },
            PExpr::GSymbol { name } => mk_native_symbol(*name),
            PExpr::GVarSymbol { ty } => mk_native_symbol(*ty),
            PExpr::FloatMatrix { entries, shape } => {
                let cells: Vec<PluckVal> = make_entries(
                    entries,
                    env,
                    &self.state.callstack,
                    self.reals,
                );
                let ghost seen = cells@;
                proof {
                    assert(values::all_over(cells@, self.vars()));
                }
                let v: PluckVal = mk_float_matrix(cells, floats::clone_shape(shape));
                proof {
                    assert forall|a: Worlds, x: Model| #[trigger]
                        self.allows(a, x) && t(a, x, 0) is Some implies v.at(a) is Some && t(a, x, 0)
                        == Some(Outcome::Done(v.at(a)->0)) by {
                        assert(self.suits(x));
                        assert(env.at(a) is Some && x.arith == reals::operations(*self.reals));
                        assert(values::all_at(seen, a) is Some);
                    }
                }
                v
            },
            _ => {
                return program_error_worlds();
            },
        };
        let r: GuardedWorlds = pure_monad(v);
        proof {
            self.lemma_post_value(v, r, *pc, t);
        }
        r
    }
}

/// The value that a union chooses.
pub open spec fn chosen_of(v: PluckVal) -> Sem {
    |a: Worlds, x: Model, f: nat|
        match v.at(a) {
            Some(d) => Some(Outcome::Done(d)),
            None => None,
        }
}

} // verus!
