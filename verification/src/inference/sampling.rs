//! Sampling: one assignment of the boolean variables is settled literal by
//! literal, as the variables are met.

use std::collections::BTreeSet;

use vstd::prelude::*;

use super::lazy_kc::monad::World;
use super::lazy_kc::semantics::Event;
use super::lazy_kc::state;
use super::lazy_kc::state::{Choice, FlipWeight, LazyKCState};
use super::spn::evidence;
use super::spn::evidence::Reading;
use super::spn::node::{Leaf, Spn};
use super::spn::wmc;
use super::spn::wmc::EdgeWeights;
use crate::discrete_factorizations as factorizations;
use crate::discrete_factorizations::{BddNode, BooleanFunction, VarId, Worlds};
use crate::language::values;
use crate::language::values::{Outcome, PluckVal};
use crate::utils::reals;
use crate::utils::reals::{
    compute, real_below, real_equal, Arithmetic, RealOp, NEG_INFINITY, ZERO,
};
use crate::utils::sharing;
use crate::utils::sharing::is_cell;

verus! {

/// The assignment agrees with what is settled.
pub open spec fn agrees(m: Map<u64, bool>, a: Worlds) -> bool {
    forall|v: u64| #[trigger] m.dom().contains(v) ==> a(v) == m[v]
}

/// The function is the conjunction of the literals.
pub open spec fn is_cube(f: BooleanFunction, m: Map<u64, bool>) -> bool {
    forall|a: Worlds| #[trigger] f.eval(a) == agrees(m, a)
}

/// The function is a conjunction of literals.
pub open spec fn cube(f: BooleanFunction) -> bool {
    exists|m: Map<u64, bool>| #[trigger] is_cube(f, m)
}

/// The constraint settles the variable.
pub open spec fn pins(c: BooleanFunction, v: u64) -> bool {
    (forall|a: Worlds| #[trigger] c.eval(a) ==> a(v)) || (forall|a: Worlds| #[trigger]
        c.eval(a) ==> !a(v))
}

/// One constraint holds only where the other does.
pub open spec fn narrows(c: BooleanFunction, d: BooleanFunction) -> bool {
    forall|a: Worlds| #[trigger] d.eval(a) ==> c.eval(a)
}

/// The coin can be tossed for every event.
pub open spec fn tossed<C: Fn(FlipWeight) -> bool>(coin: C) -> bool {
    forall|w: FlipWeight| #[trigger] call_requires(coin, (w,))
}

/// The variable stands for the event.
pub open spec fn stands_for(kc: LazyKCState, label: u64, w: FlipWeight) -> bool {
    kc.tells(label, w@)
}

/// The event that a variable stands for.
pub fn weight_of(kc: &LazyKCState, label: u64) -> (r: FlipWeight)
    requires
        kc.wf(),
        kc.factorizer.vars().contains(label),
    ensures
        stands_for(*kc, label, r),
{
    let ghost order = kc.factorizer.vars();
    let ghost k = choose|k: int| 0 <= k < order.len() && order[k] == label;
    assert(kc.choices@[k].wf(kc.factorizer, k));
    let n: usize = kc.choices.len();
    let mut i: usize = 0;
    while kc.choices[i].label != label
        invariant
            i <= k < n,
            n == kc.choices@.len(),
            kc.choices@[k].label == label,
        decreases k - i,
    {
        i = i + 1;
    }
    let r: FlipWeight = kc.choices[i].weight.duplicate();
    assert(kc.choices@[i as int].label == label);
    assert(kc.tells(label, r@));
    r
}

/// The variable stands for an event of probability zero.
pub open spec fn observed(kc: LazyKCState, label: u64) -> bool {
    exists|e: Event| #[trigger] kc.tells(label, e) && e.pinned()
}

/// The constraint settles the variable to the value.
pub open spec fn settled(c: BooleanFunction, v: u64, b: bool) -> bool {
    forall|a: Worlds| #[trigger] c.eval(a) ==> a(v) == b
}

/// The constraint settles the variable as one that is drawn: an event of
/// probability zero does not happen, and of every other the coin decides.
pub open spec fn tossed_to<C: Fn(FlipWeight) -> bool>(
    kc: LazyKCState,
    c: BooleanFunction,
    v: u64,
    coin: C,
) -> bool {
    ||| observed(kc, v) && settled(c, v, false)
    ||| exists|w: FlipWeight, b: bool| #[trigger]
        stands_for(kc, v, w) && !w@.pinned() && #[trigger] call_ensures(coin, (w,), b) && settled(
            c,
            v,
            b,
        )
}

/// What the later constraint settles and the earlier one leaves open is
/// settled as drawn.
pub open spec fn drawn_by<C: Fn(FlipWeight) -> bool>(
    kc: LazyKCState,
    before: BooleanFunction,
    after: BooleanFunction,
    coin: C,
) -> bool {
    forall|v: u64| #[trigger] pins(after, v) && !pins(before, v) ==> tossed_to(kc, after, v, coin)
}

/// What was settled as drawn stays so while more is known and settled.
pub proof fn lemma_tossed_kept<C: Fn(FlipWeight) -> bool>(
    kc: LazyKCState,
    later: LazyKCState,
    c: BooleanFunction,
    d: BooleanFunction,
    v: u64,
    coin: C,
)
    requires
        kc.grows_to(later),
        narrows(c, d),
        tossed_to(kc, c, v, coin),
    ensures
        tossed_to(later, d, v, coin),
{
    if observed(kc, v) && settled(c, v, false) {
        let e = choose|e: Event| #[trigger] kc.tells(v, e) && e.pinned();
        assert(later.tells(v, e));
        assert forall|a: Worlds| #[trigger] d.eval(a) implies a(v) == false by {
            assert(c.eval(a));
        }
        assert(settled(d, v, false));
    } else {
        let (w, b) = choose|w: FlipWeight, b: bool| #[trigger]
            stands_for(kc, v, w) && !w@.pinned() && #[trigger] call_ensures(coin, (w,), b)
                && settled(c, v, b);
        assert(stands_for(later, v, w));
        assert forall|a: Worlds| #[trigger] d.eval(a) implies a(v) == b by {
            assert(c.eval(a));
        }
        assert(settled(d, v, b));
    }
}

/// One stretch of drawing after another is one stretch.
pub proof fn lemma_drawn_on<C: Fn(FlipWeight) -> bool>(
    kc: LazyKCState,
    later: LazyKCState,
    c: BooleanFunction,
    d: BooleanFunction,
    e: BooleanFunction,
    coin: C,
)
    requires
        kc.grows_to(later),
        drawn_by(kc, c, d, coin),
        drawn_by(later, d, e, coin),
        narrows(d, e),
    ensures
        drawn_by(later, c, e, coin),
{
    assert forall|v: u64| #[trigger] pins(e, v) && !pins(c, v) implies tossed_to(later, e, v, coin) by {
        if pins(d, v) {
            lemma_tossed_kept(kc, later, d, e, v, coin);
        }
    }
}

/// With the same choices what was settled as drawn is so.
pub proof fn lemma_drawn_moved<C: Fn(FlipWeight) -> bool>(
    kc: LazyKCState,
    other: LazyKCState,
    c: BooleanFunction,
    d: BooleanFunction,
    coin: C,
)
    requires
        kc.choices == other.choices,
        drawn_by(kc, c, d, coin),
    ensures
        drawn_by(other, c, d, coin),
{
    assert forall|v: u64, e: Event| #[trigger] kc.tells(v, e) implies other.tells(v, e) by {
        let i = choose|i: int|
            0 <= i < kc.choices@.len() && (#[trigger] kc.choices@[i]).label == v
                && kc.choices@[i].weight@ == e;
        assert(other.choices@[i].label == v);
    }
    assert forall|v: u64| #[trigger] pins(d, v) && !pins(c, v) implies tossed_to(other, d, v, coin) by {
        assert(tossed_to(kc, d, v, coin));
        if observed(kc, v) && settled(d, v, false) {
            let e = choose|e: Event| #[trigger] kc.tells(v, e) && e.pinned();
            assert(other.tells(v, e));
        } else {
            let (w, b) = choose|w: FlipWeight, b: bool| #[trigger]
                stands_for(kc, v, w) && !w@.pinned() && #[trigger] call_ensures(coin, (w,), b)
                    && settled(d, v, b);
            assert(stands_for(other, v, w));
        }
    }
}

/// A conjunction of literals settles the variables of those alone.
proof fn lemma_cube_pins(c: BooleanFunction, m: Map<u64, bool>, v: u64)
    requires
        is_cube(c, m),
        exists|a: Worlds| #[trigger] c.eval(a),
    ensures
        pins(c, v) == m.dom().contains(v),
{
    let a = choose|a: Worlds| #[trigger] c.eval(a);
    assert(agrees(m, a));
    if m.dom().contains(v) {
        assert forall|b: Worlds| #[trigger] c.eval(b) implies b(v) == m[v] by {
            assert(agrees(m, b));
        }
    } else {
        let yes: Worlds = |u: u64| if u == v {
            true
        } else {
            a(u)
        };
        let no: Worlds = |u: u64| if u == v {
            false
        } else {
            a(u)
        };
        assert(agrees(m, yes));
        assert(agrees(m, no));
        assert(c.eval(yes) && c.eval(no));
    }
}

/// A constraint on one sample: a satisfiable conjunction of literals.
pub open spec fn settles(kc: LazyKCState, c: BooleanFunction) -> bool {
    kc.wf() && kc.factorizer.owns(c) && c != BooleanFunction::False && cube(c)
}

/// Per-sample state: what is settled so far, and what the thunks that were
/// evaluated came to.
pub struct SampleState {
    /// A growing conjunction of literals.
    pub constraint: BooleanFunction,
    /// The evaluated thunks with their values.
    pub memo: Vec<(PluckVal, PluckVal)>,
}

impl SampleState {
    /// Start from what is settled.
    pub fn new(constraint: BooleanFunction) -> (r: SampleState)
        ensures
            r.constraint == constraint,
            r.memo@ == Seq::<(PluckVal, PluckVal)>::empty(),
    {
        SampleState { constraint, memo: Vec::new() }
    }

    /// Where the thunk stands among the evaluated ones: at the first that is
    /// the same cell.
    fn find(&self, val: &PluckVal) -> (r: Option<usize>)
        ensures
            match r {
                Some(i) => met_at(self.memo@, *val, i as int),
                None => unmet(self.memo@, *val, self.memo@.len() as int),
            },
    {
        let mut i: usize = 0;
        while i < self.memo.len()
            invariant
                i <= self.memo@.len(),
                unmet(self.memo@, *val, i as int),
            decreases self.memo@.len() - i,
        {
            if is_cell(&self.memo[i].0, val) {
                return Some(i);
            }
            i = i + 1;
        }
        None
    }

    /// What the thunk came to, if it was evaluated already: the value beside
    /// the first thunk that is the same cell. There is none exactly if each
    /// of the evaluated thunks was asked for, and is another cell.
    pub fn check_cache(&self, val: &PluckVal) -> (r: Option<PluckVal>)
        ensures
            match r {
                Some(v) => self.memo@.contains((*val, v)) && exists|i: int| #[trigger]
                    met_at(self.memo@, *val, i) && self.memo@[i].1 == v,
                None => unmet(self.memo@, *val, self.memo@.len() as int),
            },
    {
        match self.find(val) {
            Some(i) => {
                assert(self.memo@[i as int] == (*val, self.memo@[i as int].1));
                Some(self.memo[i].1.clone())
            },
            None => None,
        }
    }

    /// Keep what a thunk came to, in place of what was kept for the same cell
    /// before.
    pub fn set_cache(&mut self, val: &PluckVal, result: &PluckVal)
        ensures
            final(self).constraint == old(self).constraint,
            kept_for(old(self).memo@, final(self).memo@, *val, *result),
    {
        let entry: (PluckVal, PluckVal) = (val.clone(), result.clone());
        match self.find(val) {
            Some(i) => {
                self.memo.set(i, entry);
                assert(met_at(old(self).memo@, *val, i as int));
            },
            None => {
                self.memo.push(entry);
            },
        }
    }
}

/// None of the first `n` thunks is the cell.
pub open spec fn unmet(memo: Seq<(PluckVal, PluckVal)>, val: PluckVal, n: int) -> bool {
    forall|i: int| 0 <= i < n ==> sharing::told((#[trigger] memo[i]).0, val, false)
}

/// The thunk at `i` is the cell, and none before it is.
pub open spec fn met_at(memo: Seq<(PluckVal, PluckVal)>, val: PluckVal, i: int) -> bool {
    0 <= i < memo.len() && sharing::told(memo[i].0, val, true) && memo[i].0 == val && unmet(
        memo,
        val,
        i,
    )
}

/// The value is kept for the cell: in the place of the one that was kept for
/// it, or else at the end.
pub open spec fn kept_for(
    before: Seq<(PluckVal, PluckVal)>,
    after: Seq<(PluckVal, PluckVal)>,
    val: PluckVal,
    v: PluckVal,
) -> bool {
    ||| unmet(before, val, before.len() as int) && after == before.push((val, v))
    ||| exists|i: int| #[trigger] met_at(before, val, i) && after == before.update(i, (val, v))
}

/// Nothing is settled at first.
pub proof fn lemma_open_start(kc: LazyKCState, c: BooleanFunction)
    requires
        kc.wf(),
        c == BooleanFunction::True,
    ensures
        settles(kc, c),
{
    let none = Map::<u64, bool>::empty();
    assert forall|a: Worlds| #[trigger] c.eval(a) == agrees(none, a) by {}
    assert(is_cube(c, none));
}

/// Is the variable one of an event of probability zero?
pub fn is_observation(kc: &LazyKCState, label: u64) -> (r: bool)
    ensures
        r == observed(*kc, label),
{
    let mut i: usize = 0;
    while i < kc.choices.len()
        invariant
            i <= kc.choices@.len(),
            forall|j: int|
                0 <= j < i ==> !((#[trigger] kc.choices@[j]).label == label
                    && kc.choices@[j].weight@.pinned()),
        decreases kc.choices@.len() - i,
    {
        if kc.choices[i].label == label && kc.choices[i].weight.is_pinned_observation() {
            assert(kc.tells(label, kc.choices@[i as int].weight@));
            return true;
        }
        i = i + 1;
    }
    false
}

/// Add a literal that the constraint leaves open.
fn settle_literal(kc: &LazyKCState, constraint: &mut BooleanFunction, label: u64, outcome: bool)
    requires
        settles(*kc, *old(constraint)),
        label < kc.factorizer.fresh(),
        !pins(*old(constraint), label),
    ensures
        settles(*kc, *final(constraint)),
        forall|a: Worlds| #[trigger]
            final(constraint).eval(a) == (old(constraint).eval(a) && a(label) == outcome),
        forall|v: u64| #[trigger]
            pins(*final(constraint), v) && v != label ==> pins(*old(constraint), v),
{
    let ghost before = *constraint;
    let lit: BooleanFunction = kc.factorizer.var(VarId(label), outcome);
    *constraint = kc.factorizer.and(constraint, &lit);
    proof {
        let yes = choose|a: Worlds| #[trigger] before.eval(a) && a(label);
        let no = choose|a: Worlds| #[trigger] before.eval(a) && !a(label);
        assert(exists|a: Worlds| #[trigger] before.eval(a) && a(label));
        assert(exists|a: Worlds| #[trigger] before.eval(a) && !a(label));
        let w = if outcome {
            yes
        } else {
            no
        };
        assert(constraint.eval(w));
        factorizations::lemma_is_false(constraint, kc.factorizer.vars());
        let m = choose|m: Map<u64, bool>| #[trigger] is_cube(before, m);
        let n = m.insert(label, outcome);
        assert forall|a: Worlds| #[trigger] constraint.eval(a) == agrees(n, a) by {
            assert(before.eval(a) == agrees(m, a));
            if agrees(n, a) {
                assert(n.dom().contains(label));
                assert(a(label) == outcome);
                assert forall|v: u64| #[trigger] m.dom().contains(v) implies a(v) == m[v] by {
                    assert(n.dom().contains(v));
                    if v == label {
                        assert(before.eval(w) == agrees(m, w));
                        assert(w(label) == m[label]);
                    }
                }
            }
            if before.eval(a) && a(label) == outcome {
                assert forall|v: u64| #[trigger] n.dom().contains(v) implies a(v) == n[v] by {
                    if v != label {
                        assert(m.dom().contains(v));
                    }
                }
            }
        }
        assert(is_cube(*constraint, n));
        assert(before.eval(w));
        assert forall|v: u64| #[trigger] pins(*constraint, v) && v != label implies pins(before, v) by {
            lemma_cube_pins(*constraint, n, v);
            lemma_cube_pins(before, m, v);
        }
    }
}

/// Resolve a flip under the constraint: what the constraint settles, else
/// what the coin says, which the constraint records.
pub fn resolve_flip<C: Fn(FlipWeight) -> bool>(
    kc: &LazyKCState,
    constraint: &mut BooleanFunction,
    label: u64,
    coin: &C,
) -> (r: bool)
    requires
        settles(*kc, *old(constraint)),
        kc.factorizer.vars().contains(label),
        tossed(*coin),
    ensures
        settles(*kc, *final(constraint)),
        forall|a: Worlds| #[trigger]
            final(constraint).eval(a) == (old(constraint).eval(a) && a(label) == r),
        forall|v: u64| #[trigger]
            pins(*final(constraint), v) && v != label ==> pins(*old(constraint), v),
        !pins(*old(constraint), label) ==> exists|w: FlipWeight| #[trigger]
            stands_for(*kc, label, w) && call_ensures(*coin, (w,), r),
{
    let var: BooleanFunction = kc.factorizer.var(VarId(label), true);
    match kc.implies(constraint, &var) {
        Some(forced) => forced,
        None => {
            let weight: FlipWeight = weight_of(kc, label);
            let ghost w = weight;
            let outcome: bool = coin(weight);
            assert(stands_for(*kc, label, w) && call_ensures(*coin, (w,), outcome));
            settle_literal(kc, constraint, label, outcome);
            outcome
        },
    }
}

/// Resolve an event of probability zero under the constraint: it does not
/// happen, unless the constraint says so; the constraint records that.
pub fn resolve_observation(kc: &LazyKCState, constraint: &mut BooleanFunction, label: u64) -> (r: bool)
    requires
        settles(*kc, *old(constraint)),
        label < kc.factorizer.fresh(),
    ensures
        settles(*kc, *final(constraint)),
        forall|a: Worlds| #[trigger]
            final(constraint).eval(a) == (old(constraint).eval(a) && a(label) == r),
        forall|v: u64| #[trigger]
            pins(*final(constraint), v) && v != label ==> pins(*old(constraint), v),
        r == (forall|a: Worlds| #[trigger] old(constraint).eval(a) ==> a(label)),
{
    let var: BooleanFunction = kc.factorizer.var(VarId(label), true);
    let ghost before = *constraint;
    proof {
        factorizations::lemma_is_false(constraint, kc.factorizer.vars());
    }
    match kc.implies(constraint, &var) {
        Some(forced) => {
            proof {
                let a = choose|a: Worlds| #[trigger] before.eval(a);
                assert(var.eval(a) == a(label));
            }
            forced
        },
        None => {
            settle_literal(kc, constraint, label, false);
            false
        },
    }
}

/// Settle every variable of `f`: those that the constraint settles stay so,
/// events of probability zero do not happen, and the coin decides the rest.
pub fn extend_constraint_over<C: Fn(FlipWeight) -> bool>(
    kc: &LazyKCState,
    constraint: &mut BooleanFunction,
    f: &BooleanFunction,
    coin: &C,
)
    requires
        settles(*kc, *old(constraint)),
        kc.factorizer.owns(*f),
        tossed(*coin),
    ensures
        settles(*kc, *final(constraint)),
        narrows(*old(constraint), *final(constraint)),
        forall|v: u64| #[trigger] f.support().contains(v) ==> pins(*final(constraint), v),
        forall|v: u64| #[trigger] pins(*old(constraint), v) ==> pins(*final(constraint), v),
        forall|v: u64| #[trigger]
            pins(*final(constraint), v) ==> pins(*old(constraint), v) || f.support().contains(v),
        drawn_by(*kc, *old(constraint), *final(constraint), *coin),
    decreases f,
{
    match f {
        BooleanFunction::Node { var, low, high } => {
            proof {
                assert(kc.factorizer.vars().contains(var.0));
            }
            let ghost start = *constraint;
            if is_observation(kc, var.0) {
                resolve_observation(kc, constraint, var.0);
            } else {
                resolve_flip(kc, constraint, var.0, coin);
            }
            let ghost mid = *constraint;
            assert(pins(mid, var.0));
            proof {
                lemma_own_growth(*kc);
                assert forall|v: u64| #[trigger] pins(mid, v) && !pins(start, v) implies tossed_to(
                    *kc,
                    mid,
                    v,
                    *coin,
                ) by {
                    assert(v == var.0);
                    if observed(*kc, v) {
                        assert(settled(mid, v, false));
                    } else {
                        assert(exists|w: FlipWeight, b: bool| #[trigger]
                            stands_for(*kc, v, w) && !w@.pinned() && #[trigger] call_ensures(
                                *coin,
                                (w,),
                                b,
                            ) && settled(mid, v, b));
                    }
                }
            }
            extend_constraint_over(kc, constraint, low, coin);
            let ghost third = *constraint;
            extend_constraint_over(kc, constraint, high, coin);
            proof {
                lemma_drawn_on(*kc, *kc, start, mid, third, *coin);
                lemma_drawn_on(*kc, *kc, start, third, *constraint, *coin);
                assert forall|a: Worlds| #[trigger] constraint.eval(a) implies start.eval(a) by {
                    assert(third.eval(a));
                    assert(mid.eval(a));
                }
                assert forall|v: u64| #[trigger] pins(start, v) implies pins(*constraint, v) by {
                    lemma_pins_narrower(start, mid, v);
                    assert(pins(third, v));
                }
                assert forall|v: u64| #[trigger] f.support().contains(v) implies pins(*constraint, v) by {
                    if v == var.0 {
                        assert(pins(mid, v));
                        assert(pins(third, v));
                    } else if low.support().contains(v) {
                        assert(pins(third, v));
                    } else {
                        assert(high.support().contains(v));
                    }
                }
            }
        },
        _ => {},
    }
}

proof fn lemma_own_growth(kc: LazyKCState)
    ensures
        kc.grows_to(kc),
{
}

proof fn lemma_pins_narrower(c: BooleanFunction, d: BooleanFunction, v: u64)
    requires
        narrows(c, d),
        pins(c, v),
    ensures
        pins(d, v),
{
    if forall|a: Worlds| #[trigger] c.eval(a) ==> a(v) {
        assert forall|a: Worlds| #[trigger] d.eval(a) implies a(v) by {
            assert(c.eval(a));
        }
    } else {
        assert forall|a: Worlds| #[trigger] d.eval(a) implies !a(v) by {
            assert(c.eval(a));
        }
    }
}

/// A function of settled variables is settled.
pub proof fn lemma_determined(c: BooleanFunction, f: &BooleanFunction)
    requires
        forall|v: u64| #[trigger] f.support().contains(v) ==> pins(c, v),
    ensures
        (forall|a: Worlds| #[trigger] c.eval(a) ==> f.eval(a)) || (forall|a: Worlds| #[trigger]
            c.eval(a) ==> !f.eval(a)),
{
    if exists|a: Worlds| #[trigger] c.eval(a) && f.eval(a) {
        let b = choose|b: Worlds| #[trigger] c.eval(b) && f.eval(b);
        assert forall|a: Worlds| #[trigger] c.eval(a) implies f.eval(a) by {
            assert forall|v: u64| #[trigger] f.support().contains(v) implies a(v) == b(v) by {
                assert(pins(c, v));
            }
            factorizations::lemma_support_enough(f, a, b);
        }
    }
}

/// The world whose guard the constraint implies is the one that is chosen.
proof fn lemma_implied_world(c: BooleanFunction, worlds: Seq<World>, i: int)
    requires
        0 <= i < worlds.len(),
        forall|a: Worlds| #[trigger] c.eval(a) ==> worlds[i].1.eval(a),
        forall|a: Worlds| #[trigger] c.eval(a) ==> values::pick(worlds, a) != Outcome::Stuck,
    ensures
        forall|a: Worlds| #[trigger]
            c.eval(a) ==> worlds[i].0.at(a) is Some && values::pick(worlds, a) == Outcome::Done(
                worlds[i].0.at(a)->0,
            ),
{
    assert forall|a: Worlds| #[trigger] c.eval(a) implies worlds[i].0.at(a) is Some && values::pick(
        worlds,
        a,
    ) == Outcome::Done(worlds[i].0.at(a)->0) by {
        values::lemma_pick_fail(worlds, a);
        assert(worlds[i].1.eval(a));
        let k = values::lemma_pick_done(worlds, a);
        assert(k == i);
    }
}

/// Some guard depends on the variable.
pub open spec fn guarded(worlds: Seq<World>, v: u64) -> bool {
    exists|i: int| 0 <= i < worlds.len() && (#[trigger] worlds[i]).1.support().contains(v)
}

/// Resolve guarded worlds to the single one consistent with the constraint,
/// settling the variables that the guards depend on; none, if the program
/// fails there.
pub fn select_world<C: Fn(FlipWeight) -> bool>(
    kc: &LazyKCState,
    constraint: &mut BooleanFunction,
    worlds: &Vec<World>,
    coin: &C,
) -> (r: Option<PluckVal>)
    requires
        settles(*kc, *old(constraint)),
        values::entries_over(worlds@, kc.factorizer.vars()),
        forall|a: Worlds| #[trigger]
            old(constraint).eval(a) ==> values::pick(worlds@, a) != Outcome::Stuck,
        tossed(*coin),
    ensures
        settles(*kc, *final(constraint)),
        narrows(*old(constraint), *final(constraint)),
        drawn_by(*kc, *old(constraint), *final(constraint), *coin),
        forall|v: u64| #[trigger]
            pins(*final(constraint), v) ==> pins(*old(constraint), v) || guarded(worlds@, v),
        match r {
            Some(v) => {
                &&& exists|i: int| 0 <= i < worlds@.len() && (#[trigger] worlds@[i]).0 == v
                &&& forall|a: Worlds| #[trigger]
                    final(constraint).eval(a) ==> v.at(a) is Some && values::pick(worlds@, a)
                        == Outcome::Done(v.at(a)->0)
            },
            None => forall|a: Worlds| #[trigger]
                final(constraint).eval(a) ==> values::pick(worlds@, a) == Outcome::Fail,
        },
{
    let ghost start = *constraint;
    proof {
        values::lemma_entries_over(worlds@, kc.factorizer.vars());
        factorizations::lemma_is_false(constraint, kc.factorizer.vars());
    }
    let mut open: bool = false;
    let mut i: usize = 0;
    while i < worlds.len()
        invariant
            i <= worlds@.len(),
            settles(*kc, *constraint),
            *constraint == start,
            forall|j: int|
                0 <= j < worlds@.len() ==> (#[trigger] worlds@[j]).1.wf(kc.factorizer.vars()),
            forall|a: Worlds| #[trigger]
                start.eval(a) ==> values::pick(worlds@, a) != Outcome::Stuck,
            !open ==> forall|j: int, a: Worlds|
                0 <= j < i && start.eval(a) ==> !#[trigger] worlds@[j].1.eval(a),
            start == *old(constraint),
        decreases worlds@.len() - i,
    {
        assert(worlds@[i as int].1.wf(kc.factorizer.vars()));
        match kc.implies(constraint, &worlds[i].1) {
            Some(true) => {
                proof {
                    lemma_implied_world(*constraint, worlds@, i as int);
                }
                return Some(worlds[i].0.clone());
            },
            Some(false) => {
                assert(forall|a: Worlds| #[trigger] constraint.eval(a) ==> !worlds@[i as int].1.eval(a));
            },
            None => {
                open = true;
            },
        }
        i = i + 1;
    }
    if !open {
        proof {
            assert forall|a: Worlds| #[trigger] constraint.eval(a) implies values::pick(worlds@, a)
                == Outcome::Fail by {
                values::lemma_pick_fail(worlds@, a);
            }
        }
        return None;
    }
    let mut k: usize = 0;
    while k < worlds.len()
        invariant
            k <= worlds@.len(),
            settles(*kc, *constraint),
            narrows(start, *constraint),
            drawn_by(*kc, start, *constraint, *coin),
            forall|v: u64| #[trigger] pins(*constraint, v) ==> pins(start, v) || guarded(worlds@, v),
            tossed(*coin),
            forall|j: int|
                0 <= j < worlds@.len() ==> (#[trigger] worlds@[j]).1.wf(kc.factorizer.vars()),
            forall|j: int, v: u64|
                0 <= j < k && #[trigger] worlds@[j].1.support().contains(v) ==> pins(*constraint, v),
        decreases worlds@.len() - k,
    {
        let ghost before = *constraint;
        assert(worlds@[k as int].1.wf(kc.factorizer.vars()));
        extend_constraint_over(kc, constraint, &worlds[k].1, coin);
        proof {
            lemma_own_growth(*kc);
            lemma_drawn_on(*kc, *kc, start, before, *constraint, *coin);
            assert forall|v: u64| #[trigger] pins(*constraint, v) implies pins(start, v) || guarded(
                worlds@,
                v,
            ) by {
                if !pins(before, v) {
                    assert(worlds@[k as int].1.support().contains(v));
                }
            }
            assert forall|j: int, v: u64|
                0 <= j < k + 1 && #[trigger] worlds@[j].1.support().contains(v) implies pins(
                *constraint,
                v,
            ) by {
                if j < k {
                    assert(pins(before, v));
                }
            }
            assert forall|a: Worlds| #[trigger] constraint.eval(a) implies start.eval(a) by {
                assert(before.eval(a));
            }
        }
        k = k + 1;
    }
    let mut m: usize = 0;
    while m < worlds.len()
        invariant
            m <= worlds@.len(),
            settles(*kc, *constraint),
            narrows(start, *constraint),
            drawn_by(*kc, start, *constraint, *coin),
            forall|v: u64| #[trigger] pins(*constraint, v) ==> pins(start, v) || guarded(worlds@, v),
            start == *old(constraint),
            forall|j: int|
                0 <= j < worlds@.len() ==> (#[trigger] worlds@[j]).1.wf(kc.factorizer.vars()),
            forall|j: int, v: u64|
                0 <= j < worlds@.len() && #[trigger] worlds@[j].1.support().contains(v) ==> pins(
                    *constraint,
                    v,
                ),
            forall|a: Worlds| #[trigger]
                start.eval(a) ==> values::pick(worlds@, a) != Outcome::Stuck,
            forall|j: int, a: Worlds|
                0 <= j < m && constraint.eval(a) ==> !#[trigger] worlds@[j].1.eval(a),
        decreases worlds@.len() - m,
    {
        assert(worlds@[m as int].1.wf(kc.factorizer.vars()));
        match kc.implies(constraint, &worlds[m].1) {
            Some(true) => {
                proof {
                    assert forall|a: Worlds| #[trigger] constraint.eval(a) implies values::pick(
                        worlds@,
                        a,
                    ) != Outcome::Stuck by {
                        assert(start.eval(a));
                    }
                    lemma_implied_world(*constraint, worlds@, m as int);
                }
                return Some(worlds[m].0.clone());
            },
            _ => {
                proof {
                    let g = worlds@[m as int].1;
                    lemma_determined(*constraint, &g);
                    assert(forall|a: Worlds| #[trigger] constraint.eval(a) ==> !g.eval(a));
                }
            },
        }
        m = m + 1;
    }
    proof {
        assert forall|a: Worlds| #[trigger] constraint.eval(a) implies values::pick(worlds@, a)
            == Outcome::Fail by {
            values::lemma_pick_fail(worlds@, a);
        }
    }
    None
}

/// The weights of the two branches at each variable, as logarithms.
pub type Weights = Map<u64, (u64, u64)>;

/// The bits of -ln 2, the weight of a branch of which nothing is known.
pub const EVEN: u64 = 0xbfe6_2e42_fefa_39ef;

pub open spec fn weight_at(ws: Weights, label: u64) -> (u64, u64) {
    if ws.dom().contains(label) {
        ws[label]
    } else {
        (EVEN, EVEN)
    }
}

/// The weight of all assignments that satisfy `f`, as a logarithm.
pub open spec fn log_marginal(f: &BooleanFunction, ws: Weights, arith: Arithmetic) -> u64
    decreases f,
{
    match f {
        BooleanFunction::True => ZERO,
        BooleanFunction::False => NEG_INFINITY,
        BooleanFunction::Node { var, low, high } => {
            let w = weight_at(ws, var.0);
            arith(
                RealOp::LogSum,
                arith(RealOp::Sum, w.0, log_marginal(&**low, ws, arith)),
                arith(RealOp::Sum, w.1, log_marginal(&**high, ws, arith)),
            )
        },
    }
}

/// A table of weights by label.
pub open spec fn table_of(s: Seq<(u64, (u64, u64))>) -> Weights
    decreases s.len(),
{
    if s.len() == 0 {
        Map::empty()
    } else {
        table_of(s.drop_last()).insert(s.last().0, s.last().1)
    }
}

fn find_weight(s: &Vec<(u64, (u64, u64))>, label: u64) -> (r: (u64, u64))
    ensures
        r == weight_at(table_of(s@), label),
{
    let mut i: usize = s.len();
    assert(s@.take(s@.len() as int) =~= s@);
    while i > 0
        invariant
            i <= s@.len(),
            weight_at(table_of(s@), label) == weight_at(table_of(s@.take(i as int)), label),
        decreases i,
    {
        assert(s@.take(i as int).drop_last() =~= s@.take(i - 1));
        assert(s@.take(i as int).last() == s@[i - 1]);
        i = i - 1;
        if s[i].0 == label {
            return s[i].1;
        }
    }
    assert(s@.take(0) =~= Seq::<(u64, (u64, u64))>::empty());
    (EVEN, EVEN)
}

/// The logarithms of the likelihoods of the two branches at variables.
pub open spec fn branch_likelihoods(
    labels: Set<u64>,
    w: EdgeWeights,
    rd: Reading,
    f: Arithmetic,
) -> Weights {
    Map::new(
        |v: u64| labels.contains(v),
        |v: u64| (evidence::likelihood(w(v).0, rd, f), evidence::likelihood(w(v).1, rd, f)),
    )
}

/// The weights of the branches at the variables that `f` depends on, given
/// the likelihoods of leaves. Other variables have none: their events may
/// speak of draws that have no value.
pub fn edge_log_weights<
    W: Fn(u64) -> (Spn, Spn),
    L: Fn(Leaf) -> u64,
    F: Fn(RealOp, u64, u64) -> u64,
>(kc: &LazyKCState, f: &BooleanFunction, weights: &W, leaves: &L, reals: &F) -> (r: Vec<
    (u64, (u64, u64)),
>)
    requires
        kc.wf(),
        kc.factorizer.owns(*f),
        wmc::weighs(*weights),
        evidence::reads(*leaves),
        reals::settled(*reals),
    ensures
        table_of(r@) == branch_likelihoods(
            f.support(),
            wmc::edge_weights(*weights),
            evidence::reading(*leaves),
            reals::operations(*reals),
        ),
{
    let ghost w = wmc::edge_weights(*weights);
    let ghost rd = evidence::reading(*leaves);
    let ghost arith = reals::operations(*reals);
    let mut labels: BTreeSet<u64> = BTreeSet::new();
    factorizations::support_vars(f, &mut labels);
    assert(labels@ =~= f.support());
    let mut out: Vec<(u64, (u64, u64))> = Vec::new();
    let ghost mut seen = Set::<u64>::empty();
    let mut i: usize = 0;
    assert(table_of(out@) =~= branch_likelihoods(seen, w, rd, arith));
    while i < kc.choices.len()
        invariant
            i <= kc.choices@.len(),
            kc.wf(),
            wmc::weighs(*weights),
            evidence::reads(*leaves),
            reals::settled(*reals),
            w == wmc::edge_weights(*weights),
            rd == evidence::reading(*leaves),
            arith == reals::operations(*reals),
            labels@ == f.support(),
            forall|v: u64| #[trigger] seen.contains(v) ==> f.support().contains(v),
            forall|k: int|
                0 <= k < i && f.support().contains((#[trigger] kc.choices@[k]).label)
                    ==> seen.contains(kc.choices@[k].label),
            table_of(out@) == branch_likelihoods(seen, w, rd, arith),
        decreases kc.choices@.len() - i,
    {
        let label: u64 = kc.choices[i].label;
        if labels.contains(&label) {
            let ghost before = out@;
            let (low, high): (Spn, Spn) = weights(label);
            let below: u64 = low.log_likelihood(leaves, reals);
            let above: u64 = high.log_likelihood(leaves, reals);
            out.push((label, (below, above)));
            proof {
                assert(out@.drop_last() =~= before);
                assert(w(label).0 == low.node() && w(label).1 == high.node());
                let next = seen.insert(label);
                assert(table_of(out@) =~= branch_likelihoods(next, w, rd, arith));
                seen = next;
            }
        }
        i = i + 1;
    }
    proof {
        assert forall|v: u64| f.support().contains(v) implies seen.contains(v) by {
            factorizations::lemma_below(f, kc.factorizer.vars(), v);
            let k = choose|k: int| 0 <= k < kc.factorizer.vars().len() && kc.factorizer.vars()[k] == v;
            assert(kc.choices@[k].wf(kc.factorizer, k));
            assert(kc.choices@[k].label == v);
        }
        assert(seen =~= f.support());
    }
    out
}

/// Bottom-up weight of all assignments that satisfy `f`, as a logarithm.
pub fn bottomup_log_marginal<F: Fn(RealOp, u64, u64) -> u64>(
    f: &BooleanFunction,
    weights: &Vec<(u64, (u64, u64))>,
    reals: &F,
) -> (r: u64)
    requires
        reals::settled(*reals),
    ensures
        r == log_marginal(f, table_of(weights@), reals::operations(*reals)),
    decreases f,
{
    match f {
        BooleanFunction::True => ZERO,
        BooleanFunction::False => NEG_INFINITY,
        BooleanFunction::Node { var, low, high } => {
            let w: (u64, u64) = find_weight(weights, var.0);
            let below: u64 = bottomup_log_marginal(low, weights, reals);
            let above: u64 = bottomup_log_marginal(high, weights, reals);
            let left: u64 = compute(reals, RealOp::Sum, w.0, below);
            let right: u64 = compute(reals, RealOp::Sum, w.1, above);
            compute(reals, RealOp::LogSum, left, right)
        },
    }
}

/// Which branch a draw takes at a node, given the logarithm of a number drawn
/// evenly from 0 to 1; none, if neither branch has any weight.
pub open spec fn branch_taken(
    low: &BooleanFunction,
    high: &BooleanFunction,
    w: (u64, u64),
    ws: Weights,
    ln_u: u64,
    arith: Arithmetic,
) -> Option<bool> {
    if *low == BooleanFunction::False {
        Some(true)
    } else if *high == BooleanFunction::False {
        Some(false)
    } else {
        let left = arith(RealOp::Sum, w.0, log_marginal(low, ws, arith));
        let right = arith(RealOp::Sum, w.1, log_marginal(high, ws, arith));
        let all = arith(RealOp::LogSum, left, right);
        if reals::equal(all, NEG_INFINITY) {
            None
        } else {
            Some(reals::below(ln_u, arith(RealOp::Difference, right, all)))
        }
    }
}

/// The logarithms of numbers drawn evenly from 0 to 1.
pub open spec fn drawn<D: Fn(usize) -> u64>(draws: D) -> bool {
    forall|i: usize| #[trigger] call_requires(draws, (i,))
}

/// One step of a walk down a diagram: where only one branch can lead to
/// `true` it is taken, else a draw decides by the weights.
pub open spec fn steps<D: Fn(usize) -> u64>(
    m: BooleanFunction,
    step: (u64, bool),
    g: BooleanFunction,
    ws: Weights,
    arith: Arithmetic,
    draws: D,
) -> bool {
    match m {
        BooleanFunction::Node { var, low, high } => {
            &&& step.0 == var.0
            &&& g == (if step.1 {
                *high
            } else {
                *low
            })
            &&& exists|n: usize, u: u64|
                (*low == BooleanFunction::False || *high == BooleanFunction::False
                    || call_ensures(draws, (n,), u)) && #[trigger] branch_at(
                    &*low,
                    &*high,
                    weight_at(ws, var.0),
                    ws,
                    n,
                    u,
                    arith,
                ) == Some(step.1)
        },
        _ => false,
    }
}

/// The branch that the `n`-th draw takes.
pub open spec fn branch_at(
    low: &BooleanFunction,
    high: &BooleanFunction,
    w: (u64, u64),
    ws: Weights,
    n: usize,
    u: u64,
    arith: Arithmetic,
) -> Option<bool> {
    branch_taken(low, high, w, ws, u, arith)
}

/// The path leads from one diagram down to another.
pub open spec fn walks_to<D: Fn(usize) -> u64>(
    path: Seq<(u64, bool)>,
    f: BooleanFunction,
    g: BooleanFunction,
    ws: Weights,
    arith: Arithmetic,
    draws: D,
) -> bool
    decreases path.len(),
{
    if path.len() == 0 {
        g == f
    } else {
        exists|m: BooleanFunction|
            walks_to(path.drop_last(), f, m, ws, arith, draws) && #[trigger] steps(
                m,
                path.last(),
                g,
                ws,
                arith,
                draws,
            )
    }
}

proof fn lemma_walk_on<D: Fn(usize) -> u64>(
    path: Seq<(u64, bool)>,
    f: BooleanFunction,
    m: BooleanFunction,
    step: (u64, bool),
    g: BooleanFunction,
    ws: Weights,
    arith: Arithmetic,
    draws: D,
)
    requires
        walks_to(path, f, m, ws, arith, draws),
        steps(m, step, g, ws, arith, draws),
    ensures
        walks_to(path.push(step), f, g, ws, arith, draws),
{
    assert(path.push(step).drop_last() =~= path);
    assert(path.push(step).last() == step);
}

/// The assignment agrees with the literals of the path.
pub open spec fn along(path: Seq<(u64, bool)>, a: Worlds) -> bool {
    forall|i: int| 0 <= i < path.len() ==> a((#[trigger] path[i]).0) == path[i].1
}

proof fn lemma_along_push(path: Seq<(u64, bool)>, step: (u64, bool), a: Worlds)
    ensures
        along(path.push(step), a) == (along(path, a) && a(step.0) == step.1),
{
    let longer = path.push(step);
    if along(longer, a) {
        assert(longer[path.len() as int] == step);
        assert forall|i: int| 0 <= i < path.len() implies a((#[trigger] path[i]).0) == path[i].1 by {
            assert(longer[i] == path[i]);
        }
    }
    if along(path, a) && a(step.0) == step.1 {
        assert forall|i: int| 0 <= i < longer.len() implies a((#[trigger] longer[i]).0) == longer[i].1 by {
            if i < path.len() {
                assert(longer[i] == path[i]);
            }
        }
    }
}

/// Sample one path from the root to `true`, given the weights of the
/// branches: the conjunction of its literals. Variables that the path leaves
/// out stay open. None if there is no such path, or if none has any weight
/// where the walk ends.
pub fn sample_discrete_given<F: Fn(RealOp, u64, u64) -> u64, D: Fn(usize) -> u64>(
    kc: &LazyKCState,
    evidence: &BooleanFunction,
    weights: &Vec<(u64, (u64, u64))>,
    reals: &F,
    draws: &D,
) -> (r: Option<BooleanFunction>)
    requires
        kc.wf(),
        kc.factorizer.owns(*evidence),
        reals::settled(*reals),
        drawn(*draws),
    ensures
        match r {
            Some(c) => settles(*kc, c) && narrows(*evidence, c) && exists|path: Seq<(u64, bool)>|
                #[trigger]
                walks_to(
                    path,
                    *evidence,
                    BooleanFunction::True,
                    table_of(weights@),
                    reals::operations(*reals),
                    *draws,
                ) && forall|a: Worlds| #[trigger] c.eval(a) == along(path, a),
            None => *evidence == BooleanFunction::False || exists|
                path: Seq<(u64, bool)>,
                g: BooleanFunction,
            | #[trigger]
                walks_to(
                    path,
                    *evidence,
                    g,
                    table_of(weights@),
                    reals::operations(*reals),
                    *draws,
                ) && weightless(g, table_of(weights@), reals::operations(*reals)),
        },
{
    let mut result: BooleanFunction = BooleanFunction::true_ptr();
    let mut current: BooleanFunction = evidence.clone();
    let mut step: usize = 0;
    let ghost ws = table_of(weights@);
    let ghost arith = reals::operations(*reals);
    let ghost mut path = Seq::<(u64, bool)>::empty();
    proof {
        let none = Map::<u64, bool>::empty();
        assert(is_cube(result, none)) by {
            assert forall|a: Worlds| #[trigger] result.eval(a) == agrees(none, a) by {}
        }
        assert(settles(*kc, result));
    }
    loop
        invariant
            kc.wf(),
            kc.factorizer.owns(*evidence),
            reals::settled(*reals),
            drawn(*draws),
            settles(*kc, result),
            kc.factorizer.owns(current),
            current == BooleanFunction::False ==> *evidence == BooleanFunction::False,
            forall|a: Worlds| #[trigger] result.eval(a) ==> evidence.eval(a) == current.eval(a),
            forall|v: u64| #[trigger] current.support().contains(v) ==> free(result, v),
            ws == table_of(weights@),
            arith == reals::operations(*reals),
            walks_to(path, *evidence, current, ws, arith, *draws),
            forall|a: Worlds| #[trigger] result.eval(a) == along(path, a),
        decreases current,
    {
        let ghost here = current;
        match kc.factorizer.node(&current) {
            BddNode::True => {
                return Some(result);
            },
            BddNode::False => {
                return None;
            },
            BddNode::Inner { var, low, high } => {
                proof {
                    assert(kc.factorizer.vars().contains(var.0));
                    assert(here.support().contains(var.0));
                    assert(free(result, var.0));
                }
                let ghost mut drawn_here: (usize, u64) = (0, 0);
                let taken: Option<bool> = if low.is_false() {
                    Some(true)
                } else if high.is_false() {
                    Some(false)
                } else {
                    let w: (u64, u64) = find_weight(weights, var.0);
                    let below: u64 = bottomup_log_marginal(&low, weights, reals);
                    let above: u64 = bottomup_log_marginal(&high, weights, reals);
                    let left: u64 = compute(reals, RealOp::Sum, w.0, below);
                    let right: u64 = compute(reals, RealOp::Sum, w.1, above);
                    let all: u64 = compute(reals, RealOp::LogSum, left, right);
                    let u: u64 = draws(step);
                    proof {
                        drawn_here = (step, u);
                    }
                    step = if step < usize::MAX {
                        step + 1
                    } else {
                        0
                    };
                    if real_equal(all, NEG_INFINITY) {
                        proof {
                            assert(weightless(here, ws, arith));
                        }
                        return None;
                    }
                    let gap: u64 = compute(reals, RealOp::Difference, right, all);
                    Some(real_below(u, gap))
                };
                let high_taken: bool = match taken {
                    Some(b) => b,
                    None => true,
                };
                let ghost before = result;
                proof {
                    lemma_free_open(before, var.0, kc.factorizer.vars());
                }
                settle_literal(kc, &mut result, var.0, high_taken);
                proof {
                    lemma_child_support(here, kc.factorizer.vars());
                    let next = if high_taken {
                        high
                    } else {
                        low
                    };
                    assert forall|v: u64| #[trigger] next.support().contains(v) implies free(result, v) by {
                        assert(here.support().contains(v));
                        assert(v != var.0);
                        lemma_still_free(before, result, var.0, high_taken, v);
                    }
                    let on = path.push((var.0, high_taken));
                    assert(on.drop_last() =~= path);
                    assert(branch_at(
                        &low,
                        &high,
                        weight_at(ws, var.0),
                        ws,
                        drawn_here.0,
                        drawn_here.1,
                        arith,
                    ) == Some(high_taken));
                    assert(steps(here, on.last(), next, ws, arith, *draws));
                    lemma_walk_on(path, *evidence, here, (var.0, high_taken), next, ws, arith, *draws);
                    assert forall|a: Worlds| #[trigger] result.eval(a) == along(on, a) by {
                        lemma_along_push(path, (var.0, high_taken), a);
                        assert(before.eval(a) == along(path, a));
                    }
                    path = on;
                }
                current = if high_taken {
                    high
                } else {
                    low
                };
            },
        }
    }
}

/// Neither branch at the root has any weight.
pub open spec fn weightless(g: BooleanFunction, ws: Weights, arith: Arithmetic) -> bool {
    match g {
        BooleanFunction::Node { var, low, high } => forall|u: u64| #[trigger]
            branch_taken(&*low, &*high, weight_at(ws, var.0), ws, u, arith) is None,
        _ => false,
    }
}

/// The function does not look at the variable.
pub open spec fn free(f: BooleanFunction, v: u64) -> bool {
    forall|a: Worlds, b: bool| #[trigger] f.eval(factorizations::set_var(a, v, b)) == f.eval(a)
}

proof fn lemma_free_open(c: BooleanFunction, v: u64, order: Seq<u64>)
    requires
        free(c, v),
        c.wf(order),
        c != BooleanFunction::False,
    ensures
        !pins(c, v),
{
    factorizations::lemma_is_false(&c, order);
    let a = choose|a: Worlds| #[trigger] c.eval(a);
    let yes = factorizations::set_var(a, v, true);
    let no = factorizations::set_var(a, v, false);
    assert(c.eval(yes) && yes(v));
    assert(c.eval(no) && !no(v));
}

proof fn lemma_still_free(c: BooleanFunction, d: BooleanFunction, w: u64, outcome: bool, v: u64)
    requires
        free(c, v),
        v != w,
        forall|a: Worlds| #[trigger] d.eval(a) == (c.eval(a) && a(w) == outcome),
    ensures
        free(d, v),
{
    assert forall|a: Worlds, b: bool| #[trigger] d.eval(factorizations::set_var(a, v, b)) == d.eval(a) by {
        assert(c.eval(factorizations::set_var(a, v, b)) == c.eval(a));
    }
}

/// The variables of the branches are others than that of the root.
proof fn lemma_child_support(f: BooleanFunction, order: Seq<u64>)
    requires
        f.wf(order),
    ensures
        f matches BooleanFunction::Node { var, low, high } ==> (forall|v: u64| #[trigger]
            low.support().contains(v) ==> v != var.0 && f.support().contains(v)) && (forall|v: u64|
            #[trigger]
            high.support().contains(v) ==> v != var.0 && f.support().contains(v)),
{
    match &f {
        BooleanFunction::Node { var, low, high } => {
            assert forall|v: u64| #[trigger] low.support().contains(v) implies v != var.0
                && f.support().contains(v) by {
                factorizations::lemma_below(&**low, order, v);
            }
            assert forall|v: u64| #[trigger] high.support().contains(v) implies v != var.0
                && f.support().contains(v) by {
                factorizations::lemma_below(&**high, order, v);
            }
        },
        _ => {},
    }
}

/// The choice at a place of the callstack, with this code.
pub open spec fn stands_at(kc: LazyKCState, i: int, stack: Seq<i32>, code: Seq<u64>) -> bool {
    0 <= i < kc.choices@.len() && kc.choices@[i].stack@ == stack && kc.choices@[i].code@ == code
}

/// What the constraint says of a choice.
pub open spec fn verdict(c: BooleanFunction, label: u64) -> Option<bool> {
    if forall|a: Worlds| #[trigger] c.eval(a) ==> a(label) {
        Some(true)
    } else if forall|a: Worlds| #[trigger] c.eval(a) ==> !a(label) {
        Some(false)
    } else {
        None
    }
}

/// Check whether `constraint` forces the choice at a place of the callstack
/// with this code. None if there is no such choice or the constraint does not
/// pin it.
pub fn constraint_forces(kc: &LazyKCState, constraint: &BooleanFunction, stack: &Vec<i32>, code: &Vec<u64>) -> (r:
    Option<bool>)
    requires
        kc.wf(),
        kc.factorizer.owns(*constraint),
    ensures
        forall|i: int| #[trigger]
            stands_at(*kc, i, stack@, code@) ==> r == verdict(*constraint, kc.choices@[i].label),
        (forall|i: int| !#[trigger] stands_at(*kc, i, stack@, code@)) ==> r is None,
{
    let mut i: usize = 0;
    while i < kc.choices.len()
        invariant
            i <= kc.choices@.len(),
            kc.wf(),
            kc.factorizer.owns(*constraint),
            forall|j: int| 0 <= j < i ==> !#[trigger] stands_at(*kc, j, stack@, code@),
        decreases kc.choices@.len() - i,
    {
        if same_stack(&kc.choices[i].stack, stack) && same_code(&kc.choices[i].code, code) {
            proof {
                assert(kc.choices@[i as int].wf(kc.factorizer, i as int));
                assert(stands_at(*kc, i as int, stack@, code@));
                let c = *constraint;
                let v = kc.choices@[i as int].var;
                let l = kc.choices@[i as int].label;
                assert forall|a: Worlds| #[trigger] c.eval(a) implies v.eval(a) == a(l) by {}
                assert((forall|a: Worlds| #[trigger] c.eval(a) ==> v.eval(a)) == (forall|a: Worlds|
                    #[trigger]
                    c.eval(a) ==> a(l)));
                assert((forall|a: Worlds| #[trigger] c.eval(a) ==> !v.eval(a)) == (forall|a: Worlds|
                    #[trigger]
                    c.eval(a) ==> !a(l)));
                assert forall|j: int| #[trigger] stands_at(*kc, j, stack@, code@) implies j == i by {
                    if j > i {
                        assert(state::before(
                            kc.choices@[i as int].address(),
                            kc.choices@[j].address(),
                        ));
                        state::lemma_before_irreflexive(
                            kc.choices@[i as int].address(),
                        );
                    }
                }
            }
            return kc.implies(constraint, &kc.choices[i].var);
        }
        i = i + 1;
    }
    None
}

/// Check whether `constraint` forces the event of probability zero at a place
/// of the callstack: the first one that is there.
pub fn constraint_forces_observation(kc: &LazyKCState, constraint: &BooleanFunction, stack: &Vec<i32>) -> (r:
    Option<bool>)
    requires
        kc.wf(),
        kc.factorizer.owns(*constraint),
    ensures
        match first_observation(kc.choices@, stack@) {
            Some(l) => r == verdict(*constraint, l),
            None => r is None,
        },
{
    let mut i: usize = 0;
    assert(kc.choices@.skip(0) =~= kc.choices@);
    while i < kc.choices.len()
        invariant
            i <= kc.choices@.len(),
            kc.wf(),
            kc.factorizer.owns(*constraint),
            first_observation(kc.choices@, stack@) == first_observation(
                kc.choices@.skip(i as int),
                stack@,
            ),
        decreases kc.choices@.len() - i,
    {
        assert(kc.choices@.skip(i as int)[0] == kc.choices@[i as int]);
        assert(kc.choices@.skip(i as int).skip(1) =~= kc.choices@.skip(i + 1));
        if same_stack(&kc.choices[i].stack, stack) && kc.choices[i].weight.is_pinned_observation() {
            proof {
                assert(kc.choices@[i as int].wf(kc.factorizer, i as int));
                let c = *constraint;
                let v = kc.choices@[i as int].var;
                let l = kc.choices@[i as int].label;
                assert forall|a: Worlds| #[trigger] c.eval(a) implies v.eval(a) == a(l) by {}
                assert((forall|a: Worlds| #[trigger] c.eval(a) ==> v.eval(a)) == (forall|a: Worlds|
                    #[trigger]
                    c.eval(a) ==> a(l)));
                assert((forall|a: Worlds| #[trigger] c.eval(a) ==> !v.eval(a)) == (forall|a: Worlds|
                    #[trigger]
                    c.eval(a) ==> !a(l)));
            }
            return kc.implies(constraint, &kc.choices[i].var);
        }
        i = i + 1;
    }
    None
}

/// The label of the first event of probability zero at a place of the
/// callstack.
pub open spec fn first_observation(s: Seq<Choice>, stack: Seq<i32>) -> Option<u64>
    decreases s.len(),
{
    if s.len() == 0 {
        None
    } else if s[0].stack@ == stack && s[0].weight@.pinned() {
        Some(s[0].label)
    } else {
        first_observation(s.skip(1), stack)
    }
}

fn same_stack(a: &Vec<i32>, b: &Vec<i32>) -> (r: bool)
    ensures
        r == (a@ == b@),
{
    if a.len() != b.len() {
        return false;
    }
    let mut i: usize = 0;
    while i < a.len()
        invariant
            i <= a@.len(),
            a@.len() == b@.len(),
            forall|j: int| 0 <= j < i ==> a@[j] == b@[j],
        decreases a@.len() - i,
    {
        if a[i] != b[i] {
            return false;
        }
        i = i + 1;
    }
    assert(a@ =~= b@);
    true
}

fn same_code(a: &Vec<u64>, b: &Vec<u64>) -> (r: bool)
    ensures
        r == (a@ == b@),
{
    if a.len() != b.len() {
        return false;
    }
    let mut i: usize = 0;
    while i < a.len()
        invariant
            i <= a@.len(),
            a@.len() == b@.len(),
            forall|j: int| 0 <= j < i ==> a@[j] == b@[j],
        decreases a@.len() - i,
    {
        if a[i] != b[i] {
            return false;
        }
        i = i + 1;
    }
    assert(a@ =~= b@);
    true
}

/// A draw whose rate is the variable `gamma` times `scale`.
#[derive(Debug, Clone, Copy, PartialEq, Eq, Structural)]
pub struct GammaDraw {
    pub draw: u64,
    pub poisson: bool,
    pub gamma: u64,
    pub scale: u64,
}

/// The draw that an event is about.
pub open spec fn draw_of(e: Event) -> Option<GammaDraw> {
    match e {
        Event::ExpEq { gamma, draw, scale, .. } => Some(
            GammaDraw { draw, poisson: false, gamma, scale },
        ),
        Event::ExpInterval { gamma, draw, scale, .. } => Some(
            GammaDraw { draw, poisson: false, gamma, scale },
        ),
        Event::PoissonEq { gamma, draw, scale, .. } => Some(
            GammaDraw { draw, poisson: true, gamma, scale },
        ),
        Event::PoissonInterval { gamma, draw, scale, .. } => Some(
            GammaDraw { draw, poisson: true, gamma, scale },
        ),
        _ => None,
    }
}

fn event_draw(w: &FlipWeight) -> (r: Option<GammaDraw>)
    ensures
        r == draw_of(w@),
{
    match w {
        FlipWeight::ExpEq { gamma, draw, scale, .. } => Some(
            GammaDraw { draw: *draw, poisson: false, gamma: *gamma, scale: *scale },
        ),
        FlipWeight::ExpInterval { gamma, draw, scale, .. } => Some(
            GammaDraw { draw: *draw, poisson: false, gamma: *gamma, scale: *scale },
        ),
        FlipWeight::PoissonEq { gamma, draw, scale, .. } => Some(
            GammaDraw { draw: *draw, poisson: true, gamma: *gamma, scale: *scale },
        ),
        FlipWeight::PoissonInterval { gamma, draw, scale, .. } => Some(
            GammaDraw { draw: *draw, poisson: true, gamma: *gamma, scale: *scale },
        ),
        _ => None,
    }
}

/// The name is that of a draw in the list.
pub open spec fn listed(s: Seq<GammaDraw>, name: u64) -> bool {
    exists|i: int| 0 <= i < s.len() && (#[trigger] s[i]).draw == name
}

fn holds(s: &Vec<u64>, n: u64) -> (r: bool)
    ensures
        r == s@.contains(n),
{
    let mut i: usize = 0;
    while i < s.len()
        invariant
            i <= s@.len(),
            forall|j: int| 0 <= j < i ==> s@[j] != n,
        decreases s@.len() - i,
    {
        if s[i] == n {
            assert(s@[i as int] == n);
            return true;
        }
        i = i + 1;
    }
    false
}

fn is_listed(s: &Vec<GammaDraw>, n: u64) -> (r: bool)
    ensures
        r == listed(s@, n),
{
    let mut i: usize = 0;
    while i < s.len()
        invariant
            i <= s@.len(),
            forall|j: int| 0 <= j < i ==> (#[trigger] s@[j]).draw != n,
        decreases s@.len() - i,
    {
        if s[i].draw == n {
            assert(s@[i as int].draw == n);
            return true;
        }
        i = i + 1;
    }
    false
}

/// An event in the support of `f` is about the draw.
pub open spec fn asked_for(kc: LazyKCState, f: BooleanFunction, d: GammaDraw) -> bool {
    exists|k: int|
        0 <= k < kc.choices@.len() && f.support().contains((#[trigger] kc.choices@[k]).label)
            && draw_of(kc.choices@[k].weight@) == Some(d)
}

/// The draws that the events in the support of `f` are about and that have no
/// value yet, each once.
pub fn missing_gamma_draws(kc: &LazyKCState, f: &BooleanFunction, covered: &Vec<u64>) -> (r: Vec<GammaDraw>)
    requires
        kc.wf(),
        kc.factorizer.owns(*f),
    ensures
        forall|i: int|
            0 <= i < r@.len() ==> !covered@.contains((#[trigger] r@[i]).draw) && asked_for(
                *kc,
                *f,
                r@[i],
            ),
        forall|i: int, j: int|
            0 <= i < j < r@.len() ==> (#[trigger] r@[i]).draw != (#[trigger] r@[j]).draw,
        forall|k: int|
            0 <= k < kc.choices@.len() && f.support().contains((#[trigger] kc.choices@[k]).label)
                && draw_of(kc.choices@[k].weight@) is Some ==> covered@.contains(
                draw_of(kc.choices@[k].weight@)->0.draw,
            ) || listed(r@, draw_of(kc.choices@[k].weight@)->0.draw),
{
    let mut labels: BTreeSet<u64> = BTreeSet::new();
    factorizations::support_vars(f, &mut labels);
    assert(labels@ =~= f.support());
    let mut out: Vec<GammaDraw> = Vec::new();
    let mut i: usize = 0;
    while i < kc.choices.len()
        invariant
            i <= kc.choices@.len(),
            labels@ == f.support(),
            forall|j: int|
                0 <= j < out@.len() ==> !covered@.contains((#[trigger] out@[j]).draw) && asked_for(
                    *kc,
                    *f,
                    out@[j],
                ),
            forall|j: int, k: int|
                0 <= j < k < out@.len() ==> (#[trigger] out@[j]).draw != (#[trigger] out@[k]).draw,
            forall|k: int|
                0 <= k < i && f.support().contains((#[trigger] kc.choices@[k]).label) && draw_of(
                    kc.choices@[k].weight@,
                ) is Some ==> covered@.contains(draw_of(kc.choices@[k].weight@)->0.draw) || listed(
                    out@,
                    draw_of(kc.choices@[k].weight@)->0.draw,
                ),
        decreases kc.choices@.len() - i,
    {
        let ghost had = out@;
        if labels.contains(&kc.choices[i].label) {
            match event_draw(&kc.choices[i].weight) {
                Some(d) => {
                    if !holds(covered, d.draw) && !is_listed(&out, d.draw) {
                        out.push(d);
                        proof {
                            assert(draw_of(kc.choices@[i as int].weight@) == Some(d));
                            assert forall|j: int| 0 <= j < out@.len() implies !covered@.contains(
                                (#[trigger] out@[j]).draw,
                            ) && asked_for(*kc, *f, out@[j]) by {
                                if j < had.len() {
                                    assert(out@[j] == had[j]);
                                } else {
                                    assert(f.support().contains(kc.choices@[i as int].label));
                                }
                            }
                            assert forall|j: int, k: int| 0 <= j < k < out@.len() implies (#[trigger] out@[j]).draw
                                != (#[trigger] out@[k]).draw by {
                                assert(out@[j] == had[j]);
                                if k == had.len() {
                                    assert(!listed(had, d.draw));
                                    assert(had[j].draw != d.draw);
                                } else {
                                    assert(had[k] == out@[k]);
                                }
                            }
                            assert(out@[had.len() as int].draw == d.draw);
                            assert(listed(out@, d.draw));
                        }
                    }
                },
                None => {},
            }
        }
        proof {
            assert forall|n: u64| listed(had, n) implies listed(out@, n) by {
                let j = choose|j: int| 0 <= j < had.len() && (#[trigger] had[j]).draw == n;
                assert(out@[j].draw == n);
            }
            assert forall|k: int|
                0 <= k < i + 1 && f.support().contains((#[trigger] kc.choices@[k]).label) && draw_of(
                    kc.choices@[k].weight@,
                ) is Some implies covered@.contains(draw_of(kc.choices@[k].weight@)->0.draw) || listed(
                out@,
                draw_of(kc.choices@[k].weight@)->0.draw,
            ) by {
                if k < i {
                    let n = draw_of(kc.choices@[k].weight@)->0.draw;
                    if !covered@.contains(n) {
                        assert(listed(had, n));
                    }
                }
            }
        }
        i = i + 1;
    }
    out
}

} // verus!
