//! What is left to do with the value of an evaluation.

use std::rc::Rc;

use vstd::prelude::*;

use super::ctx;
use super::ctx::Sem;
use super::floats;
use super::operands;
use super::semantics;
use super::semantics::{Depth, Model};
use super::settle;
use crate::discrete_factorizations::{BooleanFunction, Worlds};
use crate::language::pexpr;
use crate::language::pexpr::{CaseOfGuard, PExpr, Tree};
use crate::language::primitives::Primitive;
use crate::language::values;
use crate::language::values::{Datum, Env, Outcome, PluckVal, PluckValue};

verus! {

/// The rest of an evaluation, once a value it waits for is there.
pub enum Kont<'k> {
    /// The value is a function; it is applied.
    Apply { arg: PluckVal },
    /// The value chooses a branch.
    Match { guards: &'k Vec<CaseOfGuard>, branches: &'k Vec<PExpr>, env: &'k Env },
    /// The value is a function that is to know itself.
    Loop,
    /// The value is the next operand of a primitive.
    Operands { p: Primitive, kids: &'k Vec<&'k PExpr>, vals: &'k Vec<PluckVal>, env: &'k Env },
    /// The value is what had to be evaluated further next.
    Supply {
        p: Primitive,
        vals: &'k Vec<PluckVal>,
        wants: &'k Vec<(Depth, PluckVal)>,
        got: &'k Vec<PluckVal>,
    },
    /// The value is the rest of a natural number.
    Count { count: i64 },
    /// The value may be a thunk; it is evaluated. Unions in it are nested less
    /// deep than `bound`.
    Force { bound: Ghost<nat> },
    /// The value is to be pinned to that of an expression.
    PinConcrete { concrete: &'k PExpr, env: &'k Env },
    /// A value is pinned to this one.
    PinWith { sym: PluckVal },
    /// The value is the part `i` of `s`, to be pinned to that of `t`.
    PinForced { s: &'k Vec<PluckVal>, t: &'k Vec<PluckVal>, i: usize },
    /// The value is the part `i` of `t`; `sym` is pinned to it.
    PinPair { sym: PluckVal, s: &'k Vec<PluckVal>, t: &'k Vec<PluckVal>, i: usize },
    /// The parts after `i` are still to be pinned.
    PinRest { s: &'k Vec<PluckVal>, t: &'k Vec<PluckVal>, i: usize },
    /// The value says whether a pin holds.
    Confirm,
}

/// The expressions as trees.
pub open spec fn kid_trees(kids: Seq<&PExpr>) -> Seq<Tree> {
    Seq::new(kids.len(), |i: int| kids[i].tree())
}

/// How deep unions are nested in a value.
pub open spec fn nesting(v: PluckValue) -> nat
    decreases v,
{
    match v {
        PluckValue::ThunkUnion(u) => 1 + deepest(u.thunks@),
        _ => 0,
    }
}

pub open spec fn depth_of(v: PluckVal) -> nat {
    nesting(*v)
}

pub open spec fn shared_tree(e: Rc<PExpr>) -> Tree {
    e.tree()
}

pub open spec fn deepest(s: Seq<(PluckVal, BooleanFunction)>) -> nat
    decreases s,
{
    if s.len() == 0 {
        0
    } else {
        let rest = deepest(s.drop_last());
        let last = nesting(*s.last().0);
        if rest < last {
            last
        } else {
            rest
        }
    }
}

pub proof fn lemma_deepest(s: Seq<(PluckVal, BooleanFunction)>, i: int)
    requires
        0 <= i < s.len(),
    ensures
        nesting(*s[i].0) <= deepest(s),
    decreases s.len(),
{
    if i < s.len() - 1 {
        lemma_deepest(s.drop_last(), i);
    }
}

impl<'k> Kont<'k> {
    /// Nothing but `True` comes out of the continuation.
    pub open spec fn confirms(&self) -> bool {
        match self {
            Kont::PinConcrete { .. } => true,
            Kont::PinWith { .. } => true,
            Kont::PinForced { .. } => true,
            Kont::PinPair { .. } => true,
            Kont::PinRest { .. } => true,
            Kont::Confirm => true,
            _ => false,
        }
    }

    /// What the continuation holds has a definite value.
    pub open spec fn ready(&self, a: Worlds) -> bool {
        match self {
            Kont::Apply { arg } => arg.at(a) is Some,
            Kont::Match { env, .. } => env.at(a) is Some,
            Kont::Operands { vals, env, .. } => values::all_at(vals@, a) is Some && env.at(a) is Some,
            Kont::Supply { vals, got, .. } => values::all_at(vals@, a) is Some && values::all_at(
                got@,
                a,
            ) is Some,
            Kont::PinConcrete { env, .. } => env.at(a) is Some,
            Kont::PinWith { sym } => sym.at(a) is Some,
            Kont::PinForced { s, t, .. } => values::all_at(s@, a) is Some && values::all_at(
                t@,
                a,
            ) is Some,
            Kont::PinPair { sym, s, t, .. } => sym.at(a) is Some && values::all_at(s@, a) is Some
                && values::all_at(t@, a) is Some,
            Kont::PinRest { s, t, .. } => values::all_at(s@, a) is Some && values::all_at(
                t@,
                a,
            ) is Some,
            _ => true,
        }
    }

    pub open spec fn over(&self, order: Seq<u64>) -> bool {
        match self {
            Kont::Apply { arg } => arg.over(order),
            Kont::Match { env, .. } => env.over(order),
            Kont::Operands { vals, env, .. } => values::all_over(vals@, order) && env.over(order),
            Kont::Supply { vals, got, .. } => values::all_over(vals@, order) && values::all_over(
                got@,
                order,
            ),
            Kont::PinConcrete { env, .. } => env.over(order),
            Kont::PinWith { sym } => sym.over(order),
            Kont::PinForced { s, t, .. } => values::all_over(s@, order) && values::all_over(
                t@,
                order,
            ),
            Kont::PinPair { sym, s, t, .. } => sym.over(order) && values::all_over(s@, order)
                && values::all_over(t@, order),
            Kont::PinRest { s, t, .. } => values::all_over(s@, order) && values::all_over(
                t@,
                order,
            ),
            _ => true,
        }
    }

    /// What the continuation holds fits together.
    pub open spec fn wf(&self) -> bool {
        match self {
            Kont::Operands { p, kids, vals, .. } => vals@.len() < kids@.len() && settle::takes(
                *p,
                kids@.len(),
            ) && settle::all_heads(vals@),
            Kont::Supply { p, vals, wants, got } => {
                &&& settle::takes(*p, vals@.len())
                &&& settle::all_heads(vals@)
                &&& wants@ == operands::wants_in(*p, vals@)
                &&& got@.len() < wants@.len()
                &&& floats::fed(wants@.take(got@.len() as int), got@)
            },
            Kont::Count { count } => 0 <= *count,
            Kont::PinWith { sym } => values::is_head(**sym),
            Kont::PinForced { s, t, i } => *i < s@.len() && *i < t@.len(),
            Kont::PinPair { sym, s, t, i } => values::is_head(**sym) && *i < s@.len() && *i < t@.len(),
            Kont::PinRest { s, t, i } => *i < s@.len() && *i < t@.len(),
            _ => true,
        }
    }

    /// The value is one that the continuation can take.
    pub open spec fn accepts(&self, v: PluckValue) -> bool {
        match self {
            Kont::Force { bound } => nesting(v) < bound@,
            _ => values::is_head(v),
        }
    }

    /// What the evaluation comes to if the value is `d`.
    pub open spec fn after(&self, a: Worlds, d: Datum, cs: Seq<i32>, x: Model, f: nat) -> Outcome {
        match self {
            Kont::Apply { arg } => semantics::applied(d, arg.at(a)->0, cs, x, f),
            Kont::Match { guards, branches, env } => semantics::matched(
                d,
                pexpr::guards_of(guards@),
                pexpr::trees(branches@),
                env.at(a)->0,
                cs,
                x,
                f,
            ),
            Kont::Loop => semantics::looped(d),
            Kont::Operands { p, kids, vals, env } => semantics::operands(
                *p,
                kid_trees(kids@),
                values::all_at(vals@, a)->0.push(d),
                env.at(a)->0,
                cs,
                x,
                f,
            ),
            Kont::Supply { p, vals, got, .. } => semantics::supplied(
                *p,
                values::all_at(vals@, a)->0,
                (got@.len() + 1) as int,
                values::all_at(got@, a)->0.push(d),
                cs,
                x,
                f,
            ),
            Kont::Count { count } => semantics::numeral(d, *count as int, x, f),
            Kont::Force { .. } => semantics::force(d, x, f),
            Kont::PinConcrete { concrete, env } => pin_to(d, concrete.tree(), env.at(a)->0, cs, x, f),
            Kont::PinWith { sym } => semantics::pin(sym.at(a)->0, d, cs, x, f),
            Kont::PinForced { s, t, i } => pin_forced(
                d,
                values::all_at(s@, a)->0,
                values::all_at(t@, a)->0,
                *i as int,
                cs,
                x,
                f,
            ),
            Kont::PinPair { sym, s, t, i } => pin_pair(
                sym.at(a)->0,
                d,
                values::all_at(s@, a)->0,
                values::all_at(t@, a)->0,
                *i as int,
                cs,
                x,
                f,
            ),
            Kont::PinRest { s, t, i } => semantics::pin_all(
                values::all_at(s@, a)->0,
                values::all_at(t@, a)->0,
                *i + 1,
                cs,
                x,
                f,
            ),
            Kont::Confirm => semantics::confirmed(x, d),
        }
    }

    /// Measures by which the continuations end.
    pub open spec fn group(&self) -> nat {
        match self {
            Kont::Force { .. } => 2,
            Kont::Apply { .. } => 3,
            Kont::Match { .. } => 3,
            Kont::Loop => 3,
            Kont::Count { .. } => 4,
            Kont::Supply { .. } => 5,
            Kont::Confirm => 6,
            Kont::PinWith { .. } => 8,
            Kont::PinForced { .. } => 9,
            Kont::PinPair { .. } => 9,
            Kont::PinRest { .. } => 9,
            Kont::PinConcrete { .. } => 10,
            Kont::Operands { .. } => 12,
        }
    }

    pub open spec fn size(&self) -> nat {
        match self {
            Kont::Force { bound } => bound@,
            Kont::Count { count } => (i64::MAX - *count) as nat,
            Kont::Supply { wants, got, .. } => (wants@.len() - got@.len()) as nat,
            Kont::Operands { kids, vals, .. } => (kids@.len() - vals@.len()) as nat,
            Kont::PinForced { s, i, .. } => (s@.len() - *i) as nat,
            Kont::PinPair { s, i, .. } => (s@.len() - *i) as nat,
            Kont::PinRest { s, i, .. } => (s@.len() - *i) as nat,
            _ => 0,
        }
    }

    pub open spec fn rank(&self) -> nat {
        match self {
            Kont::PinRest { .. } => 3,
            Kont::PinPair { .. } => 7,
            Kont::PinForced { .. } => 11,
            Kont::Supply { .. } => 7,
            Kont::Operands { .. } => 7,
            _ => 1,
        }
    }

    /// What holds only more variables stays over them.
    pub proof fn lemma_over_grows(&self, one: Seq<u64>, two: Seq<u64>)
        requires
            self.over(one),
            values::within(one, two),
        ensures
            self.over(two),
    {
        match self {
            Kont::Apply { arg } => values::lemma_over_grows(&**arg, one, two),
            Kont::Match { env, .. } => values::lemma_env_over_grows(&***env, one, two),
            Kont::Operands { vals, env, .. } => {
                values::lemma_all_over_grows(vals@, one, two);
                values::lemma_env_over_grows(&***env, one, two);
            },
            Kont::Supply { vals, got, .. } => {
                values::lemma_all_over_grows(vals@, one, two);
                values::lemma_all_over_grows(got@, one, two);
            },
            Kont::PinConcrete { env, .. } => values::lemma_env_over_grows(&***env, one, two),
            Kont::PinWith { sym } => values::lemma_over_grows(&**sym, one, two),
            Kont::PinForced { s, t, .. } => {
                values::lemma_all_over_grows(s@, one, two);
                values::lemma_all_over_grows(t@, one, two);
            },
            Kont::PinPair { sym, s, t, .. } => {
                values::lemma_over_grows(&**sym, one, two);
                values::lemma_all_over_grows(s@, one, two);
                values::lemma_all_over_grows(t@, one, two);
            },
            Kont::PinRest { s, t, .. } => {
                values::lemma_all_over_grows(s@, one, two);
                values::lemma_all_over_grows(t@, one, two);
            },
            _ => {},
        }
    }

    /// Going deeper changes nothing but where the limit was in the way.
    pub proof fn lemma_after_deeper(&self, a: Worlds, d: Datum, cs: Seq<i32>, x: Model, f: nat, g: nat)
        requires
            f <= g,
        ensures
            semantics::kept(self.after(a, d, cs, x, f), self.after(a, d, cs, x, g)),
    {
        match self {
            Kont::Apply { arg } => semantics::lemma_applied_deeper(d, arg.at(a)->0, cs, x, f, g),
            Kont::Match { guards, branches, env } => semantics::lemma_matched_deeper(
                d,
                pexpr::guards_of(guards@),
                pexpr::trees(branches@),
                env.at(a)->0,
                cs,
                x,
                f,
                g,
            ),
            Kont::Operands { p, kids, vals, env } => semantics::lemma_operands_deeper(
                *p,
                kid_trees(kids@),
                values::all_at(vals@, a)->0.push(d),
                env.at(a)->0,
                cs,
                x,
                f,
                g,
            ),
            Kont::Supply { p, vals, got, .. } => semantics::lemma_supplied_deeper(
                *p,
                values::all_at(vals@, a)->0,
                (got@.len() + 1) as int,
                values::all_at(got@, a)->0.push(d),
                cs,
                x,
                f,
                g,
            ),
            Kont::Count { count } => semantics::lemma_numeral_deeper(d, *count as int, x, f, g),
            Kont::Force { .. } => semantics::lemma_force_deeper(d, x, f, g),
            Kont::PinConcrete { concrete, env } => {
                semantics::lemma_call_deeper(concrete.tree(), env.at(a)->0, cs, 1, x, f, g);
                match semantics::call(concrete.tree(), env.at(a)->0, cs, 1, x, f) {
                    Outcome::Done(c) => semantics::lemma_pin_deeper(d, c, cs, x, f, g),
                    _ => {},
                }
            },
            Kont::PinWith { sym } => semantics::lemma_pin_deeper(sym.at(a)->0, d, cs, x, f, g),
            Kont::PinForced { s, t, i } => {
                let (ss, ts) = (values::all_at(s@, a)->0, values::all_at(t@, a)->0);
                semantics::lemma_force_deeper(ts[*i as int], x, f, g);
                match semantics::force(ts[*i as int], x, f) {
                    Outcome::Done(e) => lemma_pin_pair_deeper(d, e, ss, ts, *i as int, cs, x, f, g),
                    _ => {},
                }
            },
            Kont::PinPair { sym, s, t, i } => lemma_pin_pair_deeper(
                sym.at(a)->0,
                d,
                values::all_at(s@, a)->0,
                values::all_at(t@, a)->0,
                *i as int,
                cs,
                x,
                f,
                g,
            ),
            Kont::PinRest { s, t, i } => semantics::lemma_pin_all_deeper(
                values::all_at(s@, a)->0,
                values::all_at(t@, a)->0,
                *i + 1,
                cs,
                x,
                f,
                g,
            ),
            _ => {},
        }
    }
}

/// A value pinned to that of an expression.
pub open spec fn pin_to(
    d: Datum,
    t: Tree,
    env: Seq<(crate::language::types::Symbol, Datum)>,
    cs: Seq<i32>,
    x: Model,
    f: nat,
) -> Outcome {
    match semantics::call(t, env, cs, 1, x, f) {
        Outcome::Done(c) => semantics::pin(d, c, cs, x, f),
        o => o,
    }
}

/// A value pinned to the part `i` of `t`, and the parts after it.
pub open spec fn pin_forced(d: Datum, s: Seq<Datum>, t: Seq<Datum>, i: int, cs: Seq<i32>, x: Model, f: nat) -> Outcome {
    match semantics::force(t[i], x, f) {
        Outcome::Done(e) => pin_pair(d, e, s, t, i, cs, x, f),
        o => o,
    }
}

/// Two values pinned to each other, and the parts after them.
pub open spec fn pin_pair(
    d: Datum,
    e: Datum,
    s: Seq<Datum>,
    t: Seq<Datum>,
    i: int,
    cs: Seq<i32>,
    x: Model,
    f: nat,
) -> Outcome {
    match semantics::pin(d, e, cs, x, f) {
        Outcome::Done(_) => semantics::pin_all(s, t, i + 1, cs, x, f),
        o => o,
    }
}

proof fn lemma_pin_pair_deeper(
    d: Datum,
    e: Datum,
    s: Seq<Datum>,
    t: Seq<Datum>,
    i: int,
    cs: Seq<i32>,
    x: Model,
    f: nat,
    g: nat,
)
    requires
        f <= g,
    ensures
        semantics::kept(pin_pair(d, e, s, t, i, cs, x, f), pin_pair(d, e, s, t, i, cs, x, g)),
{
    semantics::lemma_pin_deeper(d, e, cs, x, f, g);
    match semantics::pin(d, e, cs, x, f) {
        Outcome::Done(_) => semantics::lemma_pin_all_deeper(s, t, i + 1, cs, x, f, g),
        _ => {},
    }
}

/// The continuation on a value.
pub open spec fn resumed(k: Kont, v: PluckVal, cs: Seq<i32>) -> Sem {
    |a: Worlds, x: Model, f: nat|
        match v.at(a) {
            Some(d) => if k.ready(a) {
                Some(k.after(a, d, cs, x, f))
            } else {
                None
            },
            None => None,
        }
}

/// An evaluation and the continuation on its value.
pub open spec fn chained(s: Sem, k: Kont, cs: Seq<i32>) -> Sem {
    |a: Worlds, x: Model, f: nat|
        if k.ready(a) {
            match s(a, x, f) {
                Some(Outcome::Done(d)) => Some(k.after(a, d, cs, x, f)),
                o => o,
            }
        } else {
            None
        }
}

pub proof fn lemma_resumed_sound(k: Kont, v: PluckVal, cs: Seq<i32>)
    ensures
        ctx::sound(resumed(k, v, cs)),
{
    let s = resumed(k, v, cs);
    assert forall|a: Worlds, x: Model, f: nat, g: nat| f <= g implies (#[trigger] s(a, x, f) is Some
        <==> #[trigger] s(a, x, g) is Some) && (s(a, x, f) is Some ==> semantics::kept(
        s(a, x, f)->0,
        s(a, x, g)->0,
    )) by {
        match v.at(a) {
            Some(d) => k.lemma_after_deeper(a, d, cs, x, f, g),
            None => {},
        }
    }
}

/// An expression at a place of its own on the callstack.
pub open spec fn calling(t: Tree, env: Env, index: i32, cs: Seq<i32>) -> Sem {
    |a: Worlds, x: Model, f: nat|
        match env.at(a) {
            Some(e) => Some(semantics::call(t, e, cs, index, x, f)),
            None => None,
        }
}

/// An expression.
pub open spec fn running(t: Tree, env: Env, cs: Seq<i32>) -> Sem {
    |a: Worlds, x: Model, f: nat|
        match env.at(a) {
            Some(e) => Some(semantics::run(t, e, cs, x, f)),
            None => None,
        }
}

/// A natural number that is counted.
pub open spec fn counting(v: PluckVal, count: int) -> Sem {
    |a: Worlds, x: Model, f: nat|
        match v.at(a) {
            Some(d) => Some(semantics::numeral(d, count, x, f)),
            None => None,
        }
}

/// A value evaluated as far as is asked for.
pub open spec fn evaluating(depth: Depth, v: PluckVal) -> Sem {
    |a: Worlds, x: Model, f: nat|
        match v.at(a) {
            Some(d) => Some(semantics::evaluated((depth, d), x, f)),
            None => None,
        }
}

/// The rest of a primitive, once its operands are there.
pub open spec fn supplying(p: Primitive, vals: Seq<PluckVal>, got: Seq<PluckVal>, cs: Seq<i32>) -> Sem {
    |a: Worlds, x: Model, f: nat|
        match (values::all_at(vals, a), values::all_at(got, a)) {
            (Some(ds), Some(gs)) => Some(
                semantics::supplied(p, ds, got.len() as int, gs, cs, x, f),
            ),
            _ => None,
        }
}

/// A primitive, of which some operands are there.
pub open spec fn loading(p: Primitive, kids: Seq<Tree>, vals: Seq<PluckVal>, env: Env, cs: Seq<i32>) -> Sem {
    |a: Worlds, x: Model, f: nat|
        match (values::all_at(vals, a), env.at(a)) {
            (Some(ds), Some(e)) => Some(semantics::operands(p, kids, ds, e, cs, x, f)),
            _ => None,
        }
}

/// A value pinned to another one.
pub open spec fn pinning(s: PluckVal, t: PluckVal, cs: Seq<i32>) -> Sem {
    |a: Worlds, x: Model, f: nat|
        match (s.at(a), t.at(a)) {
            (Some(d), Some(e)) => Some(semantics::pin(d, e, cs, x, f)),
            _ => None,
        }
}

/// Parts pinned to each other, one level down.
pub open spec fn pinning_parts(s: Seq<PluckVal>, t: Seq<PluckVal>, cs: Seq<i32>) -> Sem {
    |a: Worlds, x: Model, f: nat|
        match (values::all_at(s, a), values::all_at(t, a)) {
            (Some(d), Some(e)) => Some(semantics::pin_args(d, e, cs, x, f)),
            _ => None,
        }
}

/// Parts pinned to each other, from the place `i` on.
pub open spec fn pinning_all(s: Seq<PluckVal>, t: Seq<PluckVal>, i: int, cs: Seq<i32>) -> Sem {
    |a: Worlds, x: Model, f: nat|
        match (values::all_at(s, a), values::all_at(t, a)) {
            (Some(d), Some(e)) => Some(semantics::pin_all(d, e, i, cs, x, f)),
            _ => None,
        }
}

pub proof fn lemma_calling_sound(t: Tree, env: Env, index: i32, cs: Seq<i32>)
    ensures
        ctx::sound(calling(t, env, index, cs)),
{
    let s = calling(t, env, index, cs);
    assert forall|a: Worlds, x: Model, f: nat, g: nat| f <= g implies (#[trigger] s(a, x, f) is Some
        <==> #[trigger] s(a, x, g) is Some) && (s(a, x, f) is Some ==> semantics::kept(
        s(a, x, f)->0,
        s(a, x, g)->0,
    )) by {
        match env.at(a) {
            Some(e) => semantics::lemma_call_deeper(t, e, cs, index, x, f, g),
            None => {},
        }
    }
}

pub proof fn lemma_forcing_sound(v: PluckVal)
    ensures
        ctx::sound(ctx::forcing(v)),
{
    let s = ctx::forcing(v);
    assert forall|a: Worlds, x: Model, f: nat, g: nat| f <= g implies (#[trigger] s(a, x, f) is Some
        <==> #[trigger] s(a, x, g) is Some) && (s(a, x, f) is Some ==> semantics::kept(
        s(a, x, f)->0,
        s(a, x, g)->0,
    )) by {
        match v.at(a) {
            Some(d) => semantics::lemma_force_deeper(d, x, f, g),
            None => {},
        }
    }
}

pub proof fn lemma_evaluating_sound(depth: Depth, v: PluckVal)
    ensures
        ctx::sound(evaluating(depth, v)),
{
    let s = evaluating(depth, v);
    assert forall|a: Worlds, x: Model, f: nat, g: nat| f <= g implies (#[trigger] s(a, x, f) is Some
        <==> #[trigger] s(a, x, g) is Some) && (s(a, x, f) is Some ==> semantics::kept(
        s(a, x, f)->0,
        s(a, x, g)->0,
    )) by {
        match v.at(a) {
            Some(d) => semantics::lemma_evaluated_deeper((depth, d), x, f, g),
            None => {},
        }
    }
}

pub proof fn lemma_supplying_sound(p: Primitive, vals: Seq<PluckVal>, got: Seq<PluckVal>, cs: Seq<i32>)
    ensures
        ctx::sound(supplying(p, vals, got, cs)),
{
    let s = supplying(p, vals, got, cs);
    assert forall|a: Worlds, x: Model, f: nat, g: nat| f <= g implies (#[trigger] s(a, x, f) is Some
        <==> #[trigger] s(a, x, g) is Some) && (s(a, x, f) is Some ==> semantics::kept(
        s(a, x, f)->0,
        s(a, x, g)->0,
    )) by {
        match (values::all_at(vals, a), values::all_at(got, a)) {
            (Some(ds), Some(gs)) => semantics::lemma_supplied_deeper(
                p,
                ds,
                got.len() as int,
                gs,
                cs,
                x,
                f,
                g,
            ),
            _ => {},
        }
    }
}

pub proof fn lemma_pinning_sound(u: PluckVal, v: PluckVal, cs: Seq<i32>)
    ensures
        ctx::sound(pinning(u, v, cs)),
{
    let s = pinning(u, v, cs);
    assert forall|a: Worlds, x: Model, f: nat, g: nat| f <= g implies (#[trigger] s(a, x, f) is Some
        <==> #[trigger] s(a, x, g) is Some) && (s(a, x, f) is Some ==> semantics::kept(
        s(a, x, f)->0,
        s(a, x, g)->0,
    )) by {
        match (u.at(a), v.at(a)) {
            (Some(d), Some(e)) => semantics::lemma_pin_deeper(d, e, cs, x, f, g),
            _ => {},
        }
    }
}

} // verus!
