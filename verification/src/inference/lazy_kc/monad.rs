//! Worlds: guarded alternatives, and how they are combined.

use vstd::prelude::*;

use crate::discrete_factorizations as factorizations;
use crate::discrete_factorizations::{BooleanFunction, Factorizer, Worlds};
use crate::language::pexpr::{NativeVal, Weight};
use crate::language::types::Symbol;
use crate::language::values;
use crate::language::values::{
    mk_int_dist, mk_thunk_union, mk_value, Datum, Outcome, PluckVal, PluckValue, ThunkUnionData,
};
use crate::utils::sharing::same_cell;

verus! {

/// A value and its guard.
pub type World = (PluckVal, BooleanFunction);

/// A list of worlds together with the region in which they are right: the
/// information that was used to compute them.
pub type GuardedWorlds = (Vec<World>, BooleanFunction);

/// Wrap a value into a single-element world list guarded by `true`.
pub fn pure_monad(val: PluckVal) -> (r: GuardedWorlds)
    ensures
        r.0@ == seq![(val, BooleanFunction::True)],
        r.1 == BooleanFunction::True,
{
    let mut worlds: Vec<World> = Vec::new();
    worlds.push((val, BooleanFunction::true_ptr()));
    assert(worlds@ =~= seq![(val, BooleanFunction::True)]);
    (worlds, BooleanFunction::true_ptr())
}

/// No worlds: the program fails.
pub fn program_error_worlds() -> (r: GuardedWorlds)
    ensures
        r.0@ == Seq::<World>::empty(),
        r.1 == BooleanFunction::True,
{
    let worlds: Vec<World> = Vec::new();
    assert(worlds@ =~= Seq::<World>::empty());
    (worlds, BooleanFunction::true_ptr())
}

/// No worlds: a limit was reached.
pub fn inference_error_worlds() -> (r: GuardedWorlds)
    ensures
        r.0@ == Seq::<World>::empty(),
        r.1 == BooleanFunction::True,
{
    program_error_worlds()
}

/// No worlds, for a path that cannot be taken: right nowhere.
pub fn false_path_condition_worlds() -> (r: GuardedWorlds)
    ensures
        r.0@ == Seq::<World>::empty(),
        r.1 == BooleanFunction::False,
{
    let worlds: Vec<World> = Vec::new();
    assert(worlds@ =~= Seq::<World>::empty());
    (worlds, BooleanFunction::false_ptr())
}

/// The choice among nested alternatives.
pub open spec fn nested_pick(s: Seq<(GuardedWorlds, BooleanFunction)>, a: Worlds) -> Outcome
    decreases s.len(),
{
    if s.len() == 0 {
        Outcome::Fail
    } else {
        values::either(
            nested_pick(s.drop_last(), a),
            if s.last().1.eval(a) {
                values::pick(s.last().0.0@, a)
            } else {
                Outcome::Fail
            },
        )
    }
}

/// The nested alternatives are right where the one that is taken is.
pub open spec fn informed(s: Seq<(GuardedWorlds, BooleanFunction)>, a: Worlds) -> bool {
    forall|i: int| 0 <= i < s.len() && (#[trigger] s[i]).1.eval(a) ==> s[i].0.1.eval(a)
}

/// All nested alternatives are heads.
pub open spec fn nested_heads(s: Seq<(GuardedWorlds, BooleanFunction)>) -> bool {
    forall|i: int| 0 <= i < s.len() ==> values::heads((#[trigger] s[i]).0.0@)
}

/// Every function in the nested alternatives is over the variables of
/// `order`.
pub open spec fn nested_over(s: Seq<(GuardedWorlds, BooleanFunction)>, order: Seq<u64>) -> bool {
    forall|i: int|
        0 <= i < s.len() ==> values::entries_over((#[trigger] s[i]).0.0@, order) && s[i].0.1.wf(
            order,
        ) && s[i].1.wf(order)
}

fn same_weights(x: &Vec<Weight>, y: &Vec<Weight>) -> (r: bool)
    ensures
        r == (x@ == y@),
{
    if x.len() != y.len() {
        return false;
    }
    let mut i: usize = 0;
    while i < x.len()
        invariant
            i <= x@.len(),
            x@.len() == y@.len(),
            x@.take(i as int) == y@.take(i as int),
        decreases x@.len() - i,
    {
        if x[i] != y[i] {
            assert(x@[i as int] != y@[i as int]);
            return false;
        }
        assert(x@.take(i + 1) =~= x@.take(i as int).push(x@[i as int]));
        assert(y@.take(i + 1) =~= y@.take(i as int).push(y@[i as int]));
        i = i + 1;
    }
    assert(x@.take(x@.len() as int) =~= x@);
    assert(y@.take(y@.len() as int) =~= y@);
    true
}

/// Are the two native values the same?
pub fn native_same(x: &NativeVal, y: &NativeVal) -> (r: bool)
    ensures
        r == (x@ == y@),
{
    match (x, y) {
        (NativeVal::Float(p), NativeVal::Float(q)) => *p == *q,
        (NativeVal::Int(p), NativeVal::Int(q)) => *p == *q,
        (NativeVal::Symbol(p), NativeVal::Symbol(q)) => *p == *q,
        (NativeVal::Bool(p), NativeVal::Bool(q)) => *p == *q,
        (NativeVal::Share(p), NativeVal::Share(q)) => same_weights(p, q),
        _ => false,
    }
}

/// Structural equality check for values, used for merging: equal natives,
/// constructors on identical arguments, integers of equal bits, equal symbolic
/// values.
fn values_equal(x: &PluckVal, y: &PluckVal) -> (r: bool)
    ensures
        r ==> forall|a: Worlds| #[trigger] x.at(a) == y.at(a),
        simple(**y) ==> r == alike(**x, **y),
{
    match (&**x, &**y) {
        (PluckValue::Native(m), PluckValue::Native(n)) => native_same(m, n),
        (
            PluckValue::Value { constructor: c, args: s },
            PluckValue::Value { constructor: d, args: t },
        ) => {
            if *c != *d || s.len() != t.len() {
                return false;
            }
            let mut i: usize = 0;
            while i < s.len()
                invariant
                    i <= s@.len(),
                    s@.len() == t@.len(),
                    s@.take(i as int) == t@.take(i as int),
                    !simple(**y),
                decreases s@.len() - i,
            {
                if !same_cell(&s[i], &t[i]) {
                    return false;
                }
                assert(s@.take(i + 1) =~= s@.take(i as int).push(s@[i as int]));
                assert(t@.take(i + 1) =~= t@.take(i as int).push(t@[i as int]));
                i = i + 1;
            }
            assert(s@.take(s@.len() as int) =~= s@);
            assert(t@.take(t@.len() as int) =~= t@);
            true
        },
        (PluckValue::IntDist { bits: s }, PluckValue::IntDist { bits: t }) => {
            if s.len() != t.len() {
                return false;
            }
            let mut i: usize = 0;
            while i < s.len()
                invariant
                    i <= s@.len(),
                    s@.len() == t@.len(),
                    forall|j: int| 0 <= j < i ==> s@[j] == t@[j],
                    !simple(**y),
                decreases s@.len() - i,
            {
                if !s[i].same(&t[i]) {
                    return false;
                }
                i = i + 1;
            }
            assert forall|a: Worlds| #[trigger] x.at(a) == y.at(a) by {
                assert(values::bits_at(s@, a) =~= values::bits_at(t@, a));
            }
            true
        },
        _ => x.symbolic_eq(y),
    }
}

/// The guard of one of the worlds holds.
pub open spec fn taken(s: Seq<World>, a: Worlds) -> bool {
    exists|i: int| 0 <= i < s.len() && (#[trigger] s[i]).1.eval(a)
}

/// No world is impossible.
pub open spec fn possible(s: Seq<World>) -> bool {
    forall|i: int| 0 <= i < s.len() ==> (#[trigger] s[i]).1 != BooleanFunction::False
}

/// Worlds with these values are merged: they are built by one constructor
/// from as many arguments, are the same native value, are integers of one
/// width, or are the same symbolic value. The two kinds of Dirichlet values
/// are not compared.
pub open spec fn alike(v: PluckValue, w: PluckValue) -> bool {
    match (v, w) {
        (
            PluckValue::Value { constructor: c, args: s },
            PluckValue::Value { constructor: d, args: t },
        ) => c == d && s@.len() == t@.len(),
        (PluckValue::Native(m), PluckValue::Native(n)) => m@ == n@,
        (PluckValue::IntDist { bits: s }, PluckValue::IntDist { bits: t }) => s@.len() == t@.len(),
        _ => values::symbol_of(v) is Some && values::symbol_of(v) == values::symbol_of(w)
            && !(v is DirichletProbability) && !(v is DirichletVector),
    }
}

/// No two worlds are left to be merged.
pub open spec fn told_apart(s: Seq<World>) -> bool {
    forall|i: int, j: int|
        0 <= i < j < s.len() ==> !alike(*(#[trigger] s[i]).0, *(#[trigger] s[j]).0)
}

/// A value that is compared as a whole.
spec fn simple(v: PluckValue) -> bool {
    !(v is Value) && !(v is IntDist)
}

/// A value that is like no other.
spec fn unlike(v: PluckValue) -> bool {
    simple(v) && !(v is Native) && values::symbol_of(v) is None
}

/// A value that is like no other, or is compared with the others.
spec fn compared(v: PluckVal, by_value: bool) -> bool {
    unlike(*v) || by_value && simple(*v)
}

/// Every world is possible, and worlds that are alike are merged.
pub open spec fn tidy(s: Seq<World>) -> bool {
    possible(s) && told_apart(s)
}

/// None of the values is built by a constructor.
spec fn unbuilt(s: Seq<World>) -> bool {
    forall|i: int| 0 <= i < s.len() ==> !is_built(&*(#[trigger] s[i]).0)
}

/// The guards of a list of worlds and of one more under one roof.
proof fn lemma_taken_push(s: Seq<World>, e: World, a: Worlds)
    ensures
        taken(s.push(e), a) == (taken(s, a) || e.1.eval(a)),
{
    let all = s.push(e);
    if taken(s, a) {
        let i = choose|i: int| 0 <= i < s.len() && (#[trigger] s[i]).1.eval(a);
        assert(all[i].1.eval(a));
    }
    if e.1.eval(a) {
        assert(all[s.len() as int].1.eval(a));
    }
    if taken(all, a) {
        let i = choose|i: int| 0 <= i < all.len() && (#[trigger] all[i]).1.eval(a);
        if i < s.len() {
            assert(s[i].1.eval(a));
        }
    }
}

/// With a wider guard in one place.
proof fn lemma_taken_update(s: Seq<World>, k: int, w: World, g: BooleanFunction, a: Worlds)
    requires
        0 <= k < s.len(),
        w.1.eval(a) == (s[k].1.eval(a) || g.eval(a)),
    ensures
        taken(s.update(k, w), a) == (taken(s, a) || g.eval(a)),
{
    let all = s.update(k, w);
    if taken(s, a) {
        let i = choose|i: int| 0 <= i < s.len() && (#[trigger] s[i]).1.eval(a);
        assert(all[i].1.eval(a));
    }
    if g.eval(a) {
        assert(all[k].1.eval(a));
    }
    if taken(all, a) {
        let i = choose|i: int| 0 <= i < all.len() && (#[trigger] all[i]).1.eval(a);
        if i != k {
            assert(s[i].1.eval(a));
        } else if s[k].1.eval(a) {
            assert(s[k].1.eval(a));
        }
    }
}

/// Add an alternative to a list: merged into one that is known to have the
/// same value, if there is one, else at the end.
fn absorb(list: &mut Vec<World>, e: World, by_identity: bool, by_value: bool, fac: &Factorizer)
    requires
        fac.wf(),
        values::entries_over(old(list)@, fac.vars()),
        e.0.over(fac.vars()),
        fac.owns(e.1),
    ensures
        values::entries_over(final(list)@, fac.vars()),
        forall|a: Worlds| #[trigger]
            values::pick(old(list)@.push(e), a) != Outcome::Stuck ==> values::pick(final(list)@, a)
                == values::pick(old(list)@.push(e), a),
        final(list)@.len() == old(list)@.len() || (final(list)@.len() == old(list)@.len() + 1
            && final(list)@.last().0 == e.0),
        forall|i: int| 0 <= i < old(list)@.len() ==> (#[trigger] final(list)@[i]).0 == old(list)@[i].0,
        final(list)@.len() > 0,
        told_apart(old(list)@) && compared(e.0, by_value) ==> told_apart(
            final(list)@,
        ),
        possible(old(list)@) && e.1 != BooleanFunction::False ==> possible(final(list)@),
        forall|a: Worlds| #[trigger]
            taken(final(list)@, a) == (taken(old(list)@, a) || e.1.eval(a)),
        forall|i: int, a: Worlds|
            0 <= i < old(list)@.len() && #[trigger] old(list)@[i].1.eval(a) ==> final(list)@[i].1.eval(
                a,
            ),
{
    let ghost start = list@;
    let n: usize = list.len();
    let mut k: usize = 0;
    let mut found: bool = false;
    while k < n && !found
        invariant
            k <= n,
            n == list@.len(),
            list@ == start,
            found ==> k < n && forall|a: Worlds| #[trigger] list@[k as int].0.at(a) == e.0.at(a),
            by_value && simple(*e.0) ==> forall|j: int|
                0 <= j < k ==> !alike(*(#[trigger] start[j]).0, *e.0),
        decreases (n - k) + (if found { 0int } else { 1 }),
    {
        if (by_identity && same_cell(&list[k].0, &e.0)) || (by_value && values_equal(
            &list[k].0,
            &e.0,
        )) {
            found = true;
        } else {
            k = k + 1;
        }
    }
    if found {
        proof {
            values::lemma_entries_over(start, fac.vars());
        }
        let guard: BooleanFunction = fac.or(&list[k].1, &e.1);
        let val: PluckVal = list[k].0.clone();
        list.set(k, (val, guard));
        proof {
            values::lemma_entries_over(list@, fac.vars());
            assert(list@ =~= start.update(k as int, list@[k as int]));
            if told_apart(start) {
                assert forall|i: int, j: int| 0 <= i < j < list@.len() implies !alike(
                    *(#[trigger] list@[i]).0,
                    *(#[trigger] list@[j]).0,
                ) by {
                    assert(list@[i].0 == start[i].0 && list@[j].0 == start[j].0);
                }
            }
            assert forall|a: Worlds| #[trigger]
                taken(list@, a) == (taken(start, a) || e.1.eval(a)) by {
                lemma_taken_update(start, k as int, list@[k as int], e.1, a);
            }
            if e.1 != BooleanFunction::False {
                factorizations::lemma_is_false(&e.1, fac.vars());
                let b = choose|b: Worlds| #[trigger] e.1.eval(b);
                assert(list@[k as int].1.eval(b));
            }
            assert forall|a: Worlds| #[trigger]
                values::pick(start.push(e), a) != Outcome::Stuck implies values::pick(list@, a)
                == values::pick(start.push(e), a) by {
                assert(start[k as int].0.at(a) == e.0.at(a));
                values::lemma_pick_merge(start, k as int, e, list@[k as int], a);
            }
        }
    } else {
        let ghost fresh = e;
        list.push(e);
        proof {
            assert(list@.drop_last() =~= start);
            if told_apart(start) && compared(fresh.0, by_value) {
                assert forall|i: int, j: int| 0 <= i < j < list@.len() implies !alike(
                    *(#[trigger] list@[i]).0,
                    *(#[trigger] list@[j]).0,
                ) by {
                    assert(list@[i] == start[i]);
                    if j < start.len() {
                        assert(list@[j] == start[j]);
                    }
                }
            }
            assert forall|a: Worlds| #[trigger]
                taken(list@, a) == (taken(start, a) || e.1.eval(a)) by {
                lemma_taken_push(start, e, a);
            }
        }
    }
}

/// Add an integer to a list of alternatives: merged bit by bit with one of
/// the same width, if there is one, else at the end. The bits of every
/// integer in the list hold only where its guard does.
fn absorb_int(list: &mut Vec<World>, bits: &Vec<BooleanFunction>, guard: BooleanFunction, fac: &Factorizer)
    requires
        fac.wf(),
        values::entries_over(old(list)@, fac.vars()),
        values::bits_over(bits@, fac.vars()),
        fac.owns(guard),
        ints_guarded(old(list)@),
    ensures
        values::entries_over(final(list)@, fac.vars()),
        ints_guarded(final(list)@),
        values::heads(old(list)@) ==> values::heads(final(list)@),
        unbuilt(old(list)@) ==> unbuilt(final(list)@),
        told_apart(old(list)@) ==> told_apart(final(list)@),
        possible(old(list)@) && guard != BooleanFunction::False ==> possible(final(list)@),
        forall|a: Worlds| #[trigger]
            taken(final(list)@, a) == (taken(old(list)@, a) || guard.eval(a)),
        forall|a: Worlds, e: World| e.1 == guard && e.0.at(a) == Some(Datum::Int(values::bits_at(bits@, a)))
            && #[trigger] values::pick(old(list)@.push(e), a) != Outcome::Stuck ==> values::pick(
            final(list)@,
            a,
        ) == values::pick(old(list)@.push(e), a),
{
    let ghost start = list@;
    let n: usize = list.len();
    let mut k: usize = 0;
    let mut found: bool = false;
    while k < n && !found
        invariant
            k <= n,
            n == list@.len(),
            list@ == start,
            found ==> k < n && (*list@[k as int].0 matches PluckValue::IntDist { bits: b } && b@.len()
                == bits@.len()),
            forall|j: int|
                0 <= j < k ==> !(*(#[trigger] start[j]).0 matches PluckValue::IntDist { bits: b }
                    && b@.len() == bits@.len()),
        decreases (n - k) + (if found { 0int } else { 1 }),
    {
        match &*list[k].0 {
            PluckValue::IntDist { bits: b } => {
                if b.len() == bits.len() {
                    found = true;
                } else {
                    k = k + 1;
                }
            },
            _ => {
                k = k + 1;
            },
        }
    }
    proof {
        values::lemma_entries_over(start, fac.vars());
    }
    let mut merged: Vec<BooleanFunction> = Vec::new();
    let mut i: usize = 0;
    while i < bits.len()
        invariant
            i <= bits@.len(),
            merged@.len() == i,
            fac.wf(),
            values::bits_over(bits@, fac.vars()),
            fac.owns(guard),
            values::bits_over(merged@, fac.vars()),
            found ==> k < list@.len() && (*list@[k as int].0 matches PluckValue::IntDist { bits: b }
                && b@.len() == bits@.len() && values::bits_over(b@, fac.vars())),
            forall|j: int, a: Worlds|
                0 <= j < i ==> #[trigger] merged@[j].eval(a) == ((bits@[j].eval(a) && guard.eval(a))
                    || (found && bits_of(&*list@[k as int].0)[j].eval(a))),
        decreases bits@.len() - i,
    {
        let part: BooleanFunction = fac.and(&bits[i], &guard);
        let bit: BooleanFunction = if found {
            match &*list[k].0 {
                PluckValue::IntDist { bits: b } => fac.or(&b[i], &part),
                _ => part,
            }
        } else {
            part
        };
        merged.push(bit);
        i = i + 1;
    }
    let ghost mbits = merged@;
    let val: PluckVal = mk_int_dist(merged);
    assert(val.over(fac.vars()));
    if found {
        let or_guard: BooleanFunction = fac.or(&list[k].1, &guard);
        list.set(k, (val, or_guard));
        proof {
            assert(list@ =~= start.update(k as int, list@[k as int]));
            if told_apart(start) {
                assert forall|i: int, j: int| 0 <= i < j < list@.len() implies !alike(
                    *(#[trigger] list@[i]).0,
                    *(#[trigger] list@[j]).0,
                ) by {
                    assert(!alike(*start[i].0, *start[j].0));
                }
            }
            assert forall|a: Worlds| #[trigger]
                taken(list@, a) == (taken(start, a) || guard.eval(a)) by {
                lemma_taken_update(start, k as int, list@[k as int], guard, a);
            }
            if guard != BooleanFunction::False {
                factorizations::lemma_is_false(&guard, fac.vars());
                let b = choose|b: Worlds| #[trigger] guard.eval(b);
                assert(or_guard.eval(b));
            }
            assert forall|i: int| 0 <= i < list@.len() implies (#[trigger] list@[i]).0.over(
                fac.vars(),
            ) && list@[i].1.wf(fac.vars()) by {
                if i != k {
                    assert(list@[i] == start[i]);
                }
            }
            values::lemma_entries_over(list@, fac.vars());
            let b = bits_of(&*start[k as int].0);
            assert forall|i: int, j: int, a: Worlds|
                0 <= i < list@.len() && *list@[i].0 is IntDist && 0 <= j
                    < bits_of(&*list@[i].0).len()
                    && #[trigger] bits_of(&*list@[i].0)[j].eval(a) implies list@[i].1.eval(
                a,
            ) by {
                if i == k {
                    assert(mbits[j].eval(a));
                    if b[j].eval(a) {
                        assert(bits_of(&*start[k as int].0)[j].eval(a));
                        assert(start[k as int].1.eval(a));
                    }
                } else {
                    assert(start[i] == list@[i]);
                }
            }
            assert forall|a: Worlds, e: World|
                e.1 == guard && e.0.at(a) == Some(Datum::Int(values::bits_at(bits@, a)))
                    && #[trigger] values::pick(start.push(e), a) != Outcome::Stuck implies values::pick(
                list@,
                a,
            ) == values::pick(start.push(e), a) by {
                let m = list@[k as int];
                if start[k as int].1.eval(a) && !e.1.eval(a) {
                    assert(values::bits_at(mbits, a) =~= values::bits_at(b, a)) by {
                        assert forall|j: int| 0 <= j < b.len() implies mbits[j].eval(a) == b[j].eval(a) by {}
                    }
                }
                if e.1.eval(a) && !start[k as int].1.eval(a) {
                    assert(values::bits_at(mbits, a) =~= values::bits_at(bits@, a)) by {
                        assert forall|j: int| 0 <= j < b.len() implies mbits[j].eval(a) == bits@[j].eval(a) by {
                            if b[j].eval(a) {
                                assert(bits_of(&*start[k as int].0)[j].eval(a));
                            }
                        }
                    }
                }
                values::lemma_pick_merge(start, k as int, e, m, a);
            }
        }
    } else {
        let ghost e = (val, guard);
        list.push((val, guard));
        proof {
            assert forall|a: Worlds| #[trigger]
                taken(list@, a) == (taken(start, a) || guard.eval(a)) by {
                lemma_taken_push(start, e, a);
            }
            assert(list@.drop_last() =~= start);
            if told_apart(start) {
                assert forall|i: int, j: int| 0 <= i < j < list@.len() implies !alike(
                    *(#[trigger] list@[i]).0,
                    *(#[trigger] list@[j]).0,
                ) by {
                    assert(list@[i] == start[i]);
                    if j < start.len() {
                        assert(list@[j] == start[j]);
                    }
                }
            }
            assert forall|i: int, j: int, a: Worlds|
                0 <= i < list@.len() && *list@[i].0 is IntDist && 0 <= j
                    < bits_of(&*list@[i].0).len()
                    && #[trigger] bits_of(&*list@[i].0)[j].eval(a) implies list@[i].1.eval(
                a,
            ) by {
                if i < start.len() {
                    assert(start[i] == list@[i]);
                } else {
                    assert(mbits[j].eval(a));
                }
            }
            assert forall|a: Worlds, e: World|
                e.1 == guard && e.0.at(a) == Some(Datum::Int(values::bits_at(bits@, a)))
                    && #[trigger] values::pick(start.push(e), a) != Outcome::Stuck implies values::pick(
                list@,
                a,
            ) == values::pick(start.push(e), a) by {
                values::lemma_pick_push(start, e, a);
                values::lemma_pick_push(start, list@.last(), a);
                assert(list@ =~= start.push(list@.last()));
                if guard.eval(a) {
                    assert(values::bits_at(mbits, a) =~= values::bits_at(bits@, a)) by {
                        assert forall|j: int| 0 <= j < bits@.len() implies mbits[j].eval(a) == bits@[j].eval(a) by {}
                    }
                }
            }
        }
    }
}

/// The bits of an integer.
pub open spec fn bits_of(v: &PluckValue) -> Seq<BooleanFunction> {
    match v {
        PluckValue::IntDist { bits } => bits@,
        _ => Seq::empty(),
    }
}

/// The bits of every integer in the list hold only where its guard does.
pub open spec fn ints_guarded(s: Seq<World>) -> bool {
    forall|i: int, j: int, a: Worlds|
        0 <= i < s.len() && *s[i].0 is IntDist && 0 <= j < bits_of(&*s[i].0).len()
            && #[trigger] bits_of(&*s[i].0)[j].eval(a) ==> s[i].1.eval(a)
}

/// Create a union that flattens nested unions and merges alternatives that
/// are one value by identity.
fn mk_thunk_union_flat(thunks: Vec<World>, fac: &Factorizer) -> (r: PluckVal)
    requires
        fac.wf(),
        values::entries_over(thunks@, fac.vars()),
    ensures
        r.over(fac.vars()),
        forall|a: Worlds| #[trigger]
            values::pick(thunks@, a) is Done ==> r.at(a) == Some(values::pick(thunks@, a)->Done_0),
{
    let mut flat: Vec<World> = Vec::new();
    let mut n: usize = 0;
    while n < thunks.len()
        invariant
            n <= thunks@.len(),
            fac.wf(),
            values::entries_over(thunks@, fac.vars()),
            values::entries_over(flat@, fac.vars()),
            forall|a: Worlds| #[trigger]
                values::pick(thunks@.take(n as int), a) != Outcome::Stuck ==> values::pick(flat@, a)
                    == values::pick(thunks@.take(n as int), a),
        decreases thunks@.len() - n,
    {
        proof {
            values::lemma_entries_over(thunks@, fac.vars());
        }
        let ghost before = flat@;
        let ghost e = thunks@[n as int];
        match &*thunks[n].0 {
            PluckValue::ThunkUnion(u) => {
                flatten_into(&mut flat, u, &thunks[n].1, fac);
            },
            _ => {
                absorb(&mut flat, (thunks[n].0.clone(), thunks[n].1.clone()), true, false, fac);
            },
        }
        proof {
            let head = thunks@.take(n as int);
            let next = thunks@.take(n + 1);
            assert(next =~= head.push(e));
            assert forall|a: Worlds| #[trigger]
                values::pick(next, a) != Outcome::Stuck implies values::pick(flat@, a)
                == values::pick(next, a) by {
                values::lemma_pick_push(head, e, a);
                assert(values::pick(before, a) == values::pick(head, a));
                values::lemma_pick_push(before, e, a);
                assert(values::pick(before.push(e), a) == values::pick(next, a));
            }
        }
        n = n + 1;
    }
    proof {
        assert(thunks@.take(thunks@.len() as int) =~= thunks@);
        values::lemma_entries_over(flat@, fac.vars());
    }
    if flat.len() == 1 {
        let r: PluckVal = flat[0].0.clone();
        proof {
            assert forall|a: Worlds| #[trigger] values::pick(thunks@, a) is Done implies r.at(a)
                == Some(values::pick(thunks@, a)->Done_0) by {
                let k = values::lemma_pick_done(flat@, a);
            }
        }
        r
    } else {
        mk_thunk_union(flat)
    }
}

/// Add the alternatives of a union, each under the outer guard too.
fn flatten_into(flat: &mut Vec<World>, u: &ThunkUnionData, outer: &BooleanFunction, fac: &Factorizer)
    requires
        fac.wf(),
        fac.owns(*outer),
        values::entries_over(u.thunks@, fac.vars()),
        values::entries_over(old(flat)@, fac.vars()),
    ensures
        values::entries_over(final(flat)@, fac.vars()),
        forall|a: Worlds, e: World|
            *e.0 == PluckValue::ThunkUnion(*u) && e.1 == *outer && #[trigger] values::pick(
                old(flat)@.push(e),
                a,
            ) != Outcome::Stuck ==> values::pick(final(flat)@, a) == values::pick(
                old(flat)@.push(e),
                a,
            ),
{
    let ghost start = flat@;
    let mut i: usize = 0;
    while i < u.thunks.len()
        invariant
            i <= u.thunks@.len(),
            fac.wf(),
            fac.owns(*outer),
            values::entries_over(u.thunks@, fac.vars()),
            values::entries_over(flat@, fac.vars()),
            forall|a: Worlds| #[trigger]
                guarded_choice(start, u.thunks@.take(i as int), *outer, a) != Outcome::Stuck
                    ==> values::pick(flat@, a) == guarded_choice(
                    start,
                    u.thunks@.take(i as int),
                    *outer,
                    a,
                ),
        decreases u.thunks@.len() - i,
    {
        proof {
            values::lemma_entries_over(u.thunks@, fac.vars());
        }
        let combined: BooleanFunction = fac.and(outer, &u.thunks[i].1);
        let ghost before = flat@;
        let ghost e = u.thunks@[i as int];
        let ghost c = (e.0, combined);
        if !combined.is_false() {
            absorb(flat, (u.thunks[i].0.clone(), combined), true, false, fac);
        }
        proof {
            let head = u.thunks@.take(i as int);
            let next = u.thunks@.take(i + 1);
            assert(next =~= head.push(e));
            assert forall|a: Worlds| #[trigger]
                guarded_choice(start, next, *outer, a) != Outcome::Stuck implies values::pick(flat@, a)
                == guarded_choice(start, next, *outer, a) by {
                values::lemma_pick_push(head, e, a);
                assert(guarded_choice(start, head, *outer, a) != Outcome::Stuck);
                values::lemma_pick_push(before, c, a);
                assert(combined.eval(a) == (outer.eval(a) && e.1.eval(a)));
                if combined != BooleanFunction::False {
                    assert(values::pick(before.push(c), a) == guarded_choice(start, next, *outer, a));
                }
            }
        }
        i = i + 1;
    }
    proof {
        assert(u.thunks@.take(u.thunks@.len() as int) =~= u.thunks@);
        assert forall|a: Worlds, e: World|
            *e.0 == PluckValue::ThunkUnion(*u) && e.1 == *outer && #[trigger] values::pick(
                start.push(e),
                a,
            ) != Outcome::Stuck implies values::pick(flat@, a) == values::pick(start.push(e), a) by {
            values::lemma_pick_push(start, e, a);
            assert(guarded_choice(start, u.thunks@, *outer, a) == values::pick(start.push(e), a));
        }
    }
}

/// The choice among `start` and, where `outer` holds, `more`.
spec fn guarded_choice(
    start: Seq<World>,
    more: Seq<World>,
    outer: BooleanFunction,
    a: Worlds,
) -> Outcome {
    values::either(
        values::pick(start, a),
        if outer.eval(a) {
            values::pick(more, a)
        } else {
            Outcome::Fail
        },
    )
}

/// Alternatives that are values of one constructor with one number of
/// arguments.
struct Group {
    constructor: Symbol,
    arity: usize,
    entries: Vec<World>,
}

/// A value of the constructor with so many arguments.
spec fn built(v: &PluckValue, c: Symbol, n: int) -> bool {
    v matches PluckValue::Value { constructor, args } && *constructor == c && args@.len() == n
}

spec fn is_built(v: &PluckValue) -> bool {
    v is Value
}

spec fn is_int(v: &PluckValue) -> bool {
    v is IntDist
}

/// The arguments of a constructor.
spec fn args_of(v: &PluckValue) -> Seq<PluckVal> {
    match v {
        PluckValue::Value { args, .. } => args@,
        _ => Seq::empty(),
    }
}

spec fn all_built(s: Seq<World>, c: Symbol, n: int) -> bool {
    forall|i: int| 0 <= i < s.len() ==> built(&*(#[trigger] s[i]).0, c, n)
}

impl Group {
    spec fn wf(&self, order: Seq<u64>) -> bool {
        &&& self.entries@.len() > 0
        &&& possible(self.entries@)
        &&& all_built(self.entries@, self.constructor, self.arity as int)
        &&& values::entries_over(self.entries@, order)
    }
}

spec fn groups_wf(s: Seq<Group>, order: Seq<u64>) -> bool {
    forall|i: int| 0 <= i < s.len() ==> (#[trigger] s[i]).wf(order)
}

/// The guard of an alternative of one of the groups holds.
spec fn groups_taken(s: Seq<Group>, a: Worlds) -> bool {
    exists|k: int| 0 <= k < s.len() && taken((#[trigger] s[k]).entries@, a)
}

/// No two groups are of one constructor.
spec fn groups_apart(s: Seq<Group>) -> bool {
    forall|i: int, j: int|
        0 <= i < j < s.len() ==> !((#[trigger] s[i]).constructor == (#[trigger] s[j]).constructor
            && s[i].arity == s[j].arity)
}

/// The choice among the alternatives of all groups.
spec fn groups_pick(s: Seq<Group>, a: Worlds) -> Outcome
    decreases s.len(),
{
    if s.len() == 0 {
        Outcome::Fail
    } else {
        values::either(groups_pick(s.drop_last(), a), values::pick(s.last().entries@, a))
    }
}

proof fn lemma_group_grows(s: Seq<Group>, t: Seq<Group>, k: int, e: World, a: Worlds)
    requires
        0 <= k < s.len(),
        s.len() == t.len(),
        forall|i: int| 0 <= i < s.len() && i != k ==> s[i] == t[i],
        t[k].entries@ == s[k].entries@.push(e),
    ensures
        groups_pick(t, a) == values::either(groups_pick(s, a), values::option(e, a)),
    decreases s.len(),
{
    if k == s.len() - 1 {
        assert(s.drop_last() =~= t.drop_last());
        values::lemma_pick_push(s.last().entries@, e, a);
    } else {
        lemma_group_grows(s.drop_last(), t.drop_last(), k, e, a);
    }
}

/// Put an alternative into the group of its constructor.
fn add_to_group(groups: &mut Vec<Group>, constructor: Symbol, arity: usize, e: World, fac: &Factorizer)
    requires
        groups_wf(old(groups)@, fac.vars()),
        groups_apart(old(groups)@),
        e.1 != BooleanFunction::False,
        built(&*e.0, constructor, arity as int),
        e.0.over(fac.vars()),
        fac.owns(e.1),
    ensures
        groups_wf(final(groups)@, fac.vars()),
        groups_apart(final(groups)@),
        forall|i: int| #![trigger final(groups)@[i]]
            0 <= i < final(groups)@.len() ==> if i < old(groups)@.len() {
                final(groups)@[i].constructor == old(groups)@[i].constructor && final(groups)@[i].arity
                    == old(groups)@[i].arity
            } else {
                final(groups)@[i].constructor == constructor && final(groups)@[i].arity == arity
            },
        forall|a: Worlds| #[trigger]
            groups_taken(final(groups)@, a) == (groups_taken(old(groups)@, a) || e.1.eval(a)),
        forall|a: Worlds| #[trigger]
            groups_pick(final(groups)@, a) == values::either(
                groups_pick(old(groups)@, a),
                values::option(e, a),
            ),
{
    let ghost start = groups@;
    let n: usize = groups.len();
    let mut k: usize = 0;
    while k < n && !(groups[k].constructor == constructor && groups[k].arity == arity)
        invariant
            k <= n,
            n == groups@.len(),
            groups@ == start,
            forall|i: int|
                0 <= i < k ==> !((#[trigger] start[i]).constructor == constructor && start[i].arity
                    == arity),
        decreases n - k,
    {
        k = k + 1;
    }
    if k < n {
        groups[k].entries.push(e);
        proof {
            assert(groups@[k as int].entries@ == start[k as int].entries@.push(e));
            assert(groups@[k as int].entries@.drop_last() =~= start[k as int].entries@);
            assert(start[k as int].wf(fac.vars()));
            assert forall|a: Worlds| #[trigger]
                groups_taken(groups@, a) == (groups_taken(start, a) || e.1.eval(a)) by {
                lemma_taken_push(start[k as int].entries@, e, a);
                if groups_taken(start, a) {
                    let i = choose|i: int| 0 <= i < start.len() && taken((#[trigger] start[i]).entries@, a);
                    assert(taken(groups@[i].entries@, a));
                }
                if groups_taken(groups@, a) {
                    let i = choose|i: int| 0 <= i < groups@.len() && taken((#[trigger] groups@[i]).entries@, a);
                    assert(i != k ==> taken(start[i].entries@, a));
                    assert(i == k ==> taken(start[k as int].entries@, a) || e.1.eval(a));
                }
                if e.1.eval(a) {
                    assert(taken(groups@[k as int].entries@, a));
                }
            }
            assert forall|i: int, j: int| 0 <= i < j < groups@.len() implies !((
            #[trigger] groups@[i]).constructor == (#[trigger] groups@[j]).constructor && groups@[i].arity
                == groups@[j].arity) by {
                assert(!(start[i].constructor == start[j].constructor && start[i].arity
                    == start[j].arity));
            }
            assert forall|i: int| 0 <= i < groups@.len() implies (#[trigger] groups@[i]).wf(
                fac.vars(),
            ) by {
                assert(start[i].wf(fac.vars()));
            }
            assert forall|a: Worlds| #[trigger]
                groups_pick(groups@, a) == values::either(
                groups_pick(start, a),
                values::option(e, a),
            ) by {
                lemma_group_grows(start, groups@, k as int, e, a);
            }
        }
    } else {
        let mut entries: Vec<World> = Vec::new();
        entries.push(e);
        proof {
            assert(entries@ =~= seq![e]);
            values::lemma_pick_single(e);
        }
        groups.push(Group { constructor, arity, entries });
        proof {
            assert(groups@.drop_last() =~= start);
            assert(groups@.last().entries@ == seq![e]);
            assert forall|a: Worlds| #[trigger]
                groups_taken(groups@, a) == (groups_taken(start, a) || e.1.eval(a)) by {
                let last = groups@[start.len() as int].entries@;
                assert(taken(last, a) == e.1.eval(a)) by {
                    assert(last[0] == e);
                }
                if groups_taken(start, a) {
                    let i = choose|i: int| 0 <= i < start.len() && taken((#[trigger] start[i]).entries@, a);
                    assert(taken(groups@[i].entries@, a));
                }
                if groups_taken(groups@, a) {
                    let i = choose|i: int| 0 <= i < groups@.len() && taken((#[trigger] groups@[i]).entries@, a);
                    assert(i < start.len() ==> taken(start[i].entries@, a));
                }
            }
            assert(values::entries_over(seq![e], fac.vars()));
            assert forall|a: Worlds| #[trigger]
                groups_pick(groups@, a) == values::either(
                groups_pick(start, a),
                values::option(e, a),
            ) by {
                assert(values::pick(seq![e], a) == values::option(e, a));
            }
            assert forall|i: int| 0 <= i < groups@.len() implies (#[trigger] groups@[i]).wf(
                fac.vars(),
            ) by {
                if i < start.len() {
                    assert(start[i].wf(fac.vars()));
                }
            }
        }
    }
}

/// The arguments at the place `j`, each with the guard of its value.
spec fn column(s: Seq<World>, j: int) -> Seq<World> {
    Seq::new(s.len(), |i: int| (args_of(&*s[i].0)[j], s[i].1))
}

/// Where a constructed value is chosen, the arguments chosen in the columns
/// are its arguments.
proof fn lemma_column(s: Seq<World>, c: Symbol, n: int, j: int, a: Worlds)
    requires
        all_built(s, c, n),
        0 <= j < n,
        values::pick(s, a) is Done,
    ensures
        values::pick(s, a)->Done_0 matches Datum::Value { constructor, args } && constructor == c
            && args.len() == n && values::pick(column(s, j), a) == Outcome::Done(args[j]),
{
    let k = values::lemma_pick_done(s, a);
    let col = column(s, j);
    assert(built(&*s[k].0, c, n));
    values::lemma_all_at(args_of(&*s[k].0), a);
    assert forall|i: int| 0 <= i < col.len() && i != k implies !(#[trigger] col[i]).1.eval(a) by {
        assert(!s[i].1.eval(a));
    }
    values::lemma_pick_one(col, k, a);
}

/// The alternatives of one constructor, equal values merged.
fn merge_equal(entries: &Vec<World>, constructor: Symbol, arity: usize, fac: &Factorizer) -> (r: Vec<World>)
    requires
        fac.wf(),
        entries@.len() > 0,
        all_built(entries@, constructor, arity as int),
        values::entries_over(entries@, fac.vars()),
        possible(entries@),
    ensures
        possible(r@),
        forall|a: Worlds| #[trigger] taken(r@, a) == taken(entries@, a),
        r@.len() > 0,
        all_built(r@, constructor, arity as int),
        values::entries_over(r@, fac.vars()),
        forall|a: Worlds| #[trigger]
            values::pick(entries@, a) != Outcome::Stuck ==> values::pick(r@, a) == values::pick(
                entries@,
                a,
            ),
{
    let mut deduped: Vec<World> = Vec::new();
    let mut n: usize = 0;
    while n < entries.len()
        invariant
            n <= entries@.len(),
            fac.wf(),
            all_built(entries@, constructor, arity as int),
            values::entries_over(entries@, fac.vars()),
            all_built(deduped@, constructor, arity as int),
            values::entries_over(deduped@, fac.vars()),
            possible(entries@),
            possible(deduped@),
            forall|a: Worlds| #[trigger] taken(deduped@, a) == taken(entries@.take(n as int), a),
            n > 0 ==> deduped@.len() > 0,
            forall|a: Worlds| #[trigger]
                values::pick(entries@.take(n as int), a) != Outcome::Stuck ==> values::pick(
                    deduped@,
                    a,
                ) == values::pick(entries@.take(n as int), a),
        decreases entries@.len() - n,
    {
        proof {
            values::lemma_entries_over(entries@, fac.vars());
        }
        let ghost before = deduped@;
        let ghost e = entries@[n as int];
        absorb(&mut deduped, (entries[n].0.clone(), entries[n].1.clone()), true, true, fac);
        proof {
            assert(built(&*e.0, constructor, arity as int));
            let head = entries@.take(n as int);
            let next = entries@.take(n + 1);
            assert(next =~= head.push(e));
            assert forall|a: Worlds| #[trigger] taken(deduped@, a) == taken(next, a) by {
                lemma_taken_push(head, e, a);
                assert(taken(before, a) == taken(head, a));
            }
            assert forall|i: int| 0 <= i < deduped@.len() implies built(
                &*(#[trigger] deduped@[i]).0,
                constructor,
                arity as int,
            ) by {
                if i < before.len() {
                    assert(built(&*before[i].0, constructor, arity as int));
                }
            }
            assert forall|a: Worlds| #[trigger]
                values::pick(next, a) != Outcome::Stuck implies values::pick(deduped@, a)
                == values::pick(next, a) by {
                values::lemma_pick_push(head, e, a);
                values::lemma_pick_push(before, e, a);
                assert(values::pick(before, a) == values::pick(head, a));
                assert(values::pick(before.push(e), a) == values::pick(next, a));
            }
        }
        n = n + 1;
    }
    proof {
        assert(entries@.take(entries@.len() as int) =~= entries@);
    }
    deduped
}

/// The values of the constructor, with the guard under which one of them is
/// taken.
fn merge_group(entries: Vec<World>, constructor: Symbol, arity: usize, fac: &Factorizer) -> (r: World)
    requires
        fac.wf(),
        entries@.len() > 0,
        all_built(entries@, constructor, arity as int),
        values::entries_over(entries@, fac.vars()),
        entries@.len() > 0,
        possible(entries@),
    ensures
        built(&*r.0, constructor, arity as int),
        r.1 != BooleanFunction::False,
        forall|a: Worlds| #[trigger] r.1.eval(a) == taken(entries@, a),
        r.0.over(fac.vars()),
        fac.owns(r.1),
        forall|a: Worlds| #[trigger]
            values::pick(entries@, a) != Outcome::Stuck ==> values::option(r, a) == values::pick(
                entries@,
                a,
            ),
{
    if entries.len() == 1 {
        proof {
            values::lemma_pick_single(entries@[0]);
            assert(entries@ =~= seq![entries@[0]]);
            assert(built(&*entries@[0].0, constructor, arity as int));
            assert(forall|a: Worlds| #[trigger] entries@[0].1.eval(a) == taken(entries@, a));
        }
        return (entries[0].0.clone(), entries[0].1.clone());
    }
    let deduped: Vec<World> = merge_equal(&entries, constructor, arity, fac);
    if deduped.len() == 1 {
        let r: World = (deduped[0].0.clone(), deduped[0].1.clone());
        proof {
            values::lemma_pick_single(deduped@[0]);
            assert(deduped@ =~= seq![deduped@[0]]);
            assert(built(&*deduped@[0].0, constructor, arity as int));
            assert forall|a: Worlds| #[trigger] r.1.eval(a) == taken(entries@, a) by {
                assert(taken(deduped@, a) == taken(entries@, a));
                assert(deduped@[0].1.eval(a) == taken(deduped@, a));
            }
            assert forall|a: Worlds| #[trigger]
                values::pick(entries@, a) != Outcome::Stuck implies values::option(r, a)
                == values::pick(entries@, a) by {
                assert(values::pick(deduped@, a) == values::option(r, a));
            }
        }
        return r;
    }
    let ghost kept = deduped@;
    let r: World = merge_distinct(deduped, constructor, arity, fac);
    proof {
        assert forall|a: Worlds| #[trigger] r.1.eval(a) == taken(entries@, a) by {
            assert(taken(kept, a) == taken(entries@, a));
        }
        assert forall|a: Worlds| #[trigger]
            values::pick(entries@, a) != Outcome::Stuck implies values::option(r, a)
            == values::pick(entries@, a) by {
            assert(values::pick(kept, a) == values::pick(entries@, a));
        }
    }
    r
}

/// Different values of one constructor as one value, whose arguments are
/// unions.
fn merge_distinct(deduped: Vec<World>, constructor: Symbol, arity: usize, fac: &Factorizer) -> (r: World)
    requires
        fac.wf(),
        all_built(deduped@, constructor, arity as int),
        values::entries_over(deduped@, fac.vars()),
        deduped@.len() > 0,
        possible(deduped@),
    ensures
        built(&*r.0, constructor, arity as int),
        r.1 != BooleanFunction::False,
        forall|a: Worlds| #[trigger] r.1.eval(a) == taken(deduped@, a),
        r.0.over(fac.vars()),
        fac.owns(r.1),
        forall|a: Worlds| #[trigger]
            values::pick(deduped@, a) != Outcome::Stuck ==> values::option(r, a) == values::pick(
                deduped@,
                a,
            ),
{
    proof {
        values::lemma_entries_over(deduped@, fac.vars());
    }
    let mut overall: BooleanFunction = BooleanFunction::false_ptr();
    let mut i: usize = 0;
    while i < deduped.len()
        invariant
            i <= deduped@.len(),
            fac.wf(),
            fac.owns(overall),
            forall|k: int| 0 <= k < deduped@.len() ==> (#[trigger] deduped@[k]).1.wf(fac.vars()),
            forall|a: Worlds| #[trigger]
                overall.eval(a) <==> (exists|k: int| 0 <= k < i && (#[trigger] deduped@[k]).1.eval(a)),
        decreases deduped@.len() - i,
    {
        let ghost before = overall;
        overall = fac.or(&overall, &deduped[i].1);
        proof {
            assert forall|a: Worlds| #[trigger]
                overall.eval(a) <==> (exists|k: int| 0 <= k < i + 1 && (#[trigger] deduped@[k]).1.eval(a)) by {
                assert(overall.eval(a) == (before.eval(a) || deduped@[i as int].1.eval(a)));
            }
        }
        i = i + 1;
    }
    let mut merged: Vec<PluckVal> = Vec::new();
    let mut j: usize = 0;
    while j < arity
        invariant
            j <= arity,
            fac.wf(),
            all_built(deduped@, constructor, arity as int),
            values::entries_over(deduped@, fac.vars()),
            merged@.len() == j,
            values::all_over(merged@, fac.vars()),
            forall|k: int, a: Worlds|
                0 <= k < j && values::pick(deduped@, a) is Done ==> (#[trigger] merged@[k].at(a))
                    == Some(values::pick(column(deduped@, k), a)->Done_0),
        decreases arity - j,
    {
        let union: PluckVal = merge_column(&deduped, constructor, arity, j, fac);
        let ghost before = merged@;
        merged.push(union);
        proof {
            assert(merged@.drop_last() =~= before);
            assert forall|k: int, a: Worlds|
                0 <= k < j + 1 && values::pick(deduped@, a) is Done implies (#[trigger] merged@[k].at(a))
                == Some(values::pick(column(deduped@, k), a)->Done_0) by {
                if k < j {
                    assert(merged@[k] == before[k]);
                    assert(before[k].at(a) == Some(values::pick(column(deduped@, k), a)->Done_0));
                } else {
                    lemma_column(deduped@, constructor, arity as int, j as int, a);
                }
            }
        }
        j = j + 1;
    }
    let ghost args = merged@;
    let r: World = (mk_value(constructor, merged), overall);
    proof {
        assert forall|a: Worlds| #[trigger] r.1.eval(a) == taken(deduped@, a) by {}
        factorizations::lemma_is_false(&deduped@[0].1, fac.vars());
        let b = choose|b: Worlds| #[trigger] deduped@[0].1.eval(b);
        assert(taken(deduped@, b));
        assert(overall.eval(b));
        assert forall|a: Worlds| #[trigger]
            values::pick(deduped@, a) != Outcome::Stuck implies values::option(r, a)
            == values::pick(deduped@, a) by {
            values::lemma_pick_fail(deduped@, a);
            if values::pick(deduped@, a) is Done {
                let k = values::lemma_pick_done(deduped@, a);
                lemma_merged(deduped@, constructor, arity as int, args, a);
                assert(overall.eval(a));
            } else {
                assert(!overall.eval(a));
            }
        }
    }
    r
}

/// Arguments that are chosen column by column are those of the chosen value.
proof fn lemma_merged(s: Seq<World>, c: Symbol, n: int, args: Seq<PluckVal>, a: Worlds)
    requires
        all_built(s, c, n),
        args.len() == n,
        values::pick(s, a) is Done,
        forall|j: int|
            0 <= j < n ==> (#[trigger] args[j]).at(a) == Some(values::pick(column(s, j), a)->Done_0),
    ensures
        values::all_at(args, a) is Some,
        values::pick(s, a) == Outcome::Done(
            Datum::Value { constructor: c, args: values::all_at(args, a)->0 },
        ),
{
    let k = values::lemma_pick_done(s, a);
    assert(built(&*s[k].0, c, n));
    let given = args_of(&*s[k].0);
    values::lemma_all_at(given, a);
    let ds = values::all_at(given, a)->0;
    assert forall|j: int| 0 <= j < n implies (#[trigger] args[j]).at(a) == Some(ds[j]) by {
        lemma_column(s, c, n, j, a);
    }
    values::lemma_all_at(args, a);
    let es = values::all_at(args, a)->0;
    assert forall|j: int| 0 <= j < n implies es[j] == ds[j] by {
        assert(args[j].at(a) == Some(es[j]));
    }
    assert(es =~= ds);
}

/// The arguments at the place `j` as one value.
fn merge_column(entries: &Vec<World>, constructor: Symbol, arity: usize, j: usize, fac: &Factorizer) -> (r: PluckVal)
    requires
        fac.wf(),
        all_built(entries@, constructor, arity as int),
        values::entries_over(entries@, fac.vars()),
        j < arity,
    ensures
        r.over(fac.vars()),
        forall|a: Worlds| #[trigger]
            values::pick(column(entries@, j as int), a) is Done ==> r.at(a) == Some(
                values::pick(column(entries@, j as int), a)->Done_0,
            ),
{
    let mut thunks: Vec<World> = Vec::new();
    let mut i: usize = 0;
    while i < entries.len()
        invariant
            i <= entries@.len(),
            all_built(entries@, constructor, arity as int),
            values::entries_over(entries@, fac.vars()),
            j < arity,
            thunks@ == column(entries@, j as int).take(i as int),
            values::entries_over(thunks@, fac.vars()),
        decreases entries@.len() - i,
    {
        proof {
            values::lemma_entries_over(entries@, fac.vars());
            assert(built(&*entries@[i as int].0, constructor, arity as int));
        }
        let ghost before = thunks@;
        match &*entries[i].0 {
            PluckValue::Value { args, .. } => {
                proof {
                    values::lemma_all_over(args@, fac.vars());
                }
                thunks.push((args[j].clone(), entries[i].1.clone()));
            },
            _ => {},
        }
        proof {
            assert(thunks@.drop_last() =~= before);
            assert(thunks@ =~= column(entries@, j as int).take(i + 1));
        }
        i = i + 1;
    }
    assert(column(entries@, j as int).take(entries@.len() as int) =~= column(entries@, j as int));
    mk_thunk_union_flat(thunks, fac)
}

/// Where the worlds of the nested lists are right: where all is known that
/// `pre_used_info` asks for, and what the taken alternative asks for.
fn join_information(
    nested: &Vec<(GuardedWorlds, BooleanFunction)>,
    pre_used_info: BooleanFunction,
    fac: &Factorizer,
) -> (r: BooleanFunction)
    requires
        fac.wf(),
        nested_over(nested@, fac.vars()),
        fac.owns(pre_used_info),
    ensures
        fac.owns(r),
        forall|a: Worlds| #[trigger]
            r.eval(a) == (pre_used_info.eval(a) && informed(nested@, a)),
{
    let mut used: BooleanFunction = pre_used_info;
    let mut i: usize = 0;
    while i < nested.len()
        invariant
            i <= nested@.len(),
            fac.wf(),
            nested_over(nested@, fac.vars()),
            fac.owns(used),
            forall|a: Worlds| #[trigger]
                used.eval(a) == (pre_used_info.eval(a) && informed(nested@.take(i as int), a)),
        decreases nested@.len() - i,
    {
        assert(values::entries_over(nested@[i as int].0.0@, fac.vars()));
        let neg: BooleanFunction = fac.negate(&nested[i].1);
        let implies_used: BooleanFunction = fac.or(&neg, &nested[i].0.1);
        let ghost before = used;
        used = fac.and(&used, &implies_used);
        proof {
            let head = nested@.take(i as int);
            let next = nested@.take(i + 1);
            assert(next =~= head.push(nested@[i as int]));
            assert forall|a: Worlds| #[trigger]
                used.eval(a) == (pre_used_info.eval(a) && informed(next, a)) by {
                assert(used.eval(a) == (before.eval(a) && implies_used.eval(a)));
                assert(before.eval(a) == (pre_used_info.eval(a) && informed(head, a)));
                if informed(next, a) {
                    assert forall|k: int| 0 <= k < head.len() && (#[trigger] head[k]).1.eval(a) implies head[k].0.1.eval(a) by {
                        assert(next[k] == head[k]);
                    }
                    assert(next[i as int].1.eval(a) ==> next[i as int].0.1.eval(a));
                }
                if informed(head, a) && implies_used.eval(a) {
                    assert forall|k: int| 0 <= k < next.len() && (#[trigger] next[k]).1.eval(a) implies next[k].0.1.eval(a) by {
                        if k < i {
                            assert(next[k] == head[k]);
                        }
                    }
                }
            }
        }
        i = i + 1;
    }
    assert(nested@.take(nested@.len() as int) =~= nested@);
    used
}

/// A constructor without arguments.
pub open spec fn is_truth(v: PluckValue, yes: Symbol) -> bool {
    v matches PluckValue::Value { constructor, args } && constructor == yes && args@.len() == 0
}

/// The value of every world is the constructor without arguments.
pub open spec fn all_true(s: Seq<World>, yes: Symbol) -> bool {
    forall|i: int| 0 <= i < s.len() ==> is_truth(*(#[trigger] s[i]).0, yes)
}

/// So is the value of every nested world.
pub open spec fn nested_true(s: Seq<(GuardedWorlds, BooleanFunction)>, yes: Symbol) -> bool {
    forall|i: int| 0 <= i < s.len() ==> all_true((#[trigger] s[i]).0.0@, yes)
}

spec fn only_true(results: Seq<World>, groups: Seq<Group>, yes: Symbol) -> bool {
    results.len() == 0 && forall|i: int|
        0 <= i < groups.len() ==> (#[trigger] groups[i]).constructor == yes && groups[i].arity == 0
}

/// The guard of a result, or of an alternative of a group, holds.
spec fn held(results: Seq<World>, groups: Seq<Group>, a: Worlds) -> bool {
    taken(results, a) || groups_taken(groups, a)
}

/// Sort one alternative into the results.
fn join_one(results: &mut Vec<World>, groups: &mut Vec<Group>, e: World, fac: &Factorizer)
    requires
        fac.wf(),
        values::entries_over(old(results)@, fac.vars()),
        ints_guarded(old(results)@),
        groups_wf(old(groups)@, fac.vars()),
        groups_apart(old(groups)@),
        unbuilt(old(results)@),
        told_apart(old(results)@),
        possible(old(results)@),
        e.1 != BooleanFunction::False,
        e.0.over(fac.vars()),
        fac.owns(e.1),
    ensures
        values::entries_over(final(results)@, fac.vars()),
        ints_guarded(final(results)@),
        groups_wf(final(groups)@, fac.vars()),
        groups_apart(final(groups)@),
        unbuilt(final(results)@),
        told_apart(final(results)@),
        possible(final(results)@),
        forall|a: Worlds| #[trigger]
            held(final(results)@, final(groups)@, a) == (held(old(results)@, old(groups)@, a) || e.1.eval(a)),
        values::heads(old(results)@) && values::is_head(*e.0) ==> values::heads(final(results)@),
        forall|yes: Symbol| #[trigger]
            only_true(old(results)@, old(groups)@, yes) && is_truth(*e.0, yes) ==> only_true(
                final(results)@,
                final(groups)@,
                yes,
            ),
        forall|a: Worlds| #[trigger]
            values::either(
                values::either(values::pick(old(results)@, a), groups_pick(old(groups)@, a)),
                values::option(e, a),
            ) != Outcome::Stuck ==> values::either(
                values::pick(final(results)@, a),
                groups_pick(final(groups)@, a),
            ) == values::either(
                values::either(values::pick(old(results)@, a), groups_pick(old(groups)@, a)),
                values::option(e, a),
            ),
{
    let ghost start = results@;
    let ghost gs = groups@;
    let ghost fin = e;
    proof {
        assert forall|a: Worlds| #[trigger] values::pick(start.push(e), a) == values::either(
            values::pick(start, a),
            values::option(e, a),
        ) by {
            values::lemma_pick_push(start, e, a);
        }
    }
    let (val, guard) = e;
    match &*val {
        PluckValue::Value { constructor, args } => {
            let c: Symbol = *constructor;
            let n: usize = args.len();
            add_to_group(groups, c, n, (val.clone(), guard), fac);
        },
        PluckValue::Native(_) => {
            absorb(results, (val.clone(), guard), true, true, fac);
        },
        PluckValue::Closure(_) => {
            absorb(results, (val.clone(), guard), true, true, fac);
        },
        PluckValue::IntDist { bits } => {
            absorb_int(results, bits, guard, fac);
        },
        PluckValue::Thunk(_) => {
            absorb(results, (val.clone(), guard), false, false, fac);
        },
        PluckValue::ThunkUnion(_) => {
            absorb(results, (val.clone(), guard), false, false, fac);
        },
        PluckValue::FloatMatrix { .. } => {
            absorb(results, (val.clone(), guard), true, false, fac);
        },
        _ => {
            absorb(results, (val.clone(), guard), false, true, fac);
        },
    }
    proof {
        if !is_built(&*val) {
            assert(groups@ == gs);
            assert forall|a: Worlds| #[trigger]
                values::either(
                    values::either(values::pick(start, a), groups_pick(gs, a)),
                    values::option(fin, a),
                ) != Outcome::Stuck implies values::either(
                values::pick(results@, a),
                groups_pick(groups@, a),
            ) == values::either(
                values::either(values::pick(start, a), groups_pick(gs, a)),
                values::option(fin, a),
            ) by {
                assert(values::pick(start.push(fin), a) != Outcome::Stuck);
                assert(values::pick(results@, a) == values::pick(start.push(fin), a));
            }
            if !is_int(&*val) {
                assert forall|i: int, j: int, a: Worlds|
                    0 <= i < results@.len() && *results@[i].0 is IntDist && 0 <= j < bits_of(
                        &*results@[i].0,
                    ).len() && #[trigger] bits_of(&*results@[i].0)[j].eval(a) implies results@[i].1.eval(
                    a,
                ) by {
                    assert(i < start.len());
                    assert(results@[i].0 == start[i].0);
                    assert(bits_of(&*start[i].0)[j].eval(a));
                    assert(start[i].1.eval(a));
                }
            }
        }
    }
}

/// A guard of a nested world, and that of its list, hold.
pub open spec fn nested_taken(s: Seq<(GuardedWorlds, BooleanFunction)>, a: Worlds) -> bool
    decreases s.len(),
{
    s.len() > 0 && (nested_taken(s.drop_last(), a) || (s.last().1.eval(a) && taken(
        s.last().0.0@,
        a,
    )))
}

proof fn lemma_groups_taken(s: Seq<Group>, k: int, a: Worlds)
    requires
        0 <= k < s.len(),
    ensures
        groups_taken(s.take(k + 1), a) == (groups_taken(s.take(k), a) || taken(s[k].entries@, a)),
{
    let (p, q) = (s.take(k), s.take(k + 1));
    if groups_taken(p, a) {
        let i = choose|i: int| 0 <= i < p.len() && taken((#[trigger] p[i]).entries@, a);
        assert(q[i] == p[i]);
    }
    if taken(s[k].entries@, a) {
        assert(taken(q[k].entries@, a));
    }
    if groups_taken(q, a) {
        let i = choose|i: int| 0 <= i < q.len() && taken((#[trigger] q[i]).entries@, a);
        if i < k {
            assert(p[i] == q[i]);
        }
    }
}

/// Join the worlds of nested alternatives. Worlds with one constructor and as
/// many arguments are merged into one, whose arguments are unions, and so are
/// integers of one width, bit by bit; equal native and symbolic worlds are
/// merged too, and impossible ones dropped.
///
/// Under an assignment for which the nested alternatives leave at most one
/// choice, the joined worlds make the same choice.
pub fn join_monad(
    nested_worlds: Vec<(GuardedWorlds, BooleanFunction)>,
    pre_used_info: BooleanFunction,
    fac: &Factorizer,
) -> (r: GuardedWorlds)
    requires
        fac.wf(),
        nested_over(nested_worlds@, fac.vars()),
        fac.owns(pre_used_info),
    ensures
        values::entries_over(r.0@, fac.vars()),
        fac.owns(r.1),
        forall|a: Worlds| #[trigger]
            r.1.eval(a) == (pre_used_info.eval(a) && informed(nested_worlds@, a)),
        forall|a: Worlds| #[trigger]
            nested_pick(nested_worlds@, a) != Outcome::Stuck ==> values::pick(r.0@, a)
                == nested_pick(nested_worlds@, a),
        nested_heads(nested_worlds@) ==> values::heads(r.0@),
        tidy(r.0@),
        forall|a: Worlds| #[trigger] taken(r.0@, a) == nested_taken(nested_worlds@, a),
        forall|yes: Symbol| #[trigger] nested_true(nested_worlds@, yes) ==> all_true(r.0@, yes),
{
    let used: BooleanFunction = join_information(&nested_worlds, pre_used_info, fac);
    let mut results: Vec<World> = Vec::new();
    let mut groups: Vec<Group> = Vec::new();
    let mut n: usize = 0;
    while n < nested_worlds.len()
        invariant
            n <= nested_worlds@.len(),
            fac.wf(),
            nested_over(nested_worlds@, fac.vars()),
            values::entries_over(results@, fac.vars()),
            ints_guarded(results@),
            groups_wf(groups@, fac.vars()),
            groups_apart(groups@),
            unbuilt(results@),
            told_apart(results@),
            possible(results@),
            forall|yes: Symbol| #[trigger]
                nested_true(nested_worlds@, yes) ==> only_true(results@, groups@, yes),
            forall|a: Worlds| #[trigger]
                held(results@, groups@, a) == nested_taken(nested_worlds@.take(n as int), a),
            nested_heads(nested_worlds@) ==> values::heads(results@),
            forall|a: Worlds| #[trigger]
                nested_pick(nested_worlds@.take(n as int), a) != Outcome::Stuck ==> values::either(
                    values::pick(results@, a),
                    groups_pick(groups@, a),
                ) == nested_pick(nested_worlds@.take(n as int), a),
        decreases nested_worlds@.len() - n,
    {
        proof {
            assert(values::entries_over(nested_worlds@[n as int].0.0@, fac.vars()));
            assert(nested_worlds@[n as int].1.wf(fac.vars()));
        }
        let ghost rs = results@;
        let ghost gs = groups@;
        join_list(&mut results, &mut groups, &nested_worlds[n].0.0, &nested_worlds[n].1, fac);
        proof {
            assert forall|yes: Symbol| #[trigger] nested_true(nested_worlds@, yes) implies only_true(
                results@,
                groups@,
                yes,
            ) by {
                assert(only_true(rs, gs, yes));
                assert(all_true(nested_worlds@[n as int].0.0@, yes));
            }
            let head = nested_worlds@.take(n as int);
            let next = nested_worlds@.take(n + 1);
            let g = nested_worlds@[n as int].1;
            let ws = nested_worlds@[n as int].0.0@;
            assert(next.drop_last() =~= head);
            assert forall|a: Worlds| #[trigger]
                held(results@, groups@, a) == nested_taken(next, a) by {
                assert(held(rs, gs, a) == nested_taken(head, a));
                assert(next.last() == nested_worlds@[n as int]);
            }
            assert forall|a: Worlds| #[trigger] nested_pick(next, a) != Outcome::Stuck implies values::either(
                values::pick(results@, a),
                groups_pick(groups@, a),
            ) == nested_pick(next, a) by {
                assert(nested_pick(head, a) != Outcome::Stuck);
                assert(sorted_choice(rs, gs, ws, g, a) == nested_pick(next, a));
            }
        }
        n = n + 1;
    }
    proof {
        assert(nested_worlds@.take(nested_worlds@.len() as int) =~= nested_worlds@);
    }
    proof {
        assert forall|a: Worlds| #[trigger] held(results@, groups@, a) == nested_taken(
            nested_worlds@,
            a,
        ) by {}
    }
    let ghost plain = results@;
    let ghost all = groups@;
    let mut k: usize = 0;
    proof {
        assert(all.take(0) =~= Seq::<Group>::empty());
        assert forall|a: Worlds| #[trigger] taken(results@, a) == held(plain, all.take(0), a) by {}
    }
    while k < groups.len()
        invariant
            k <= groups@.len(),
            groups@ == all,
            fac.wf(),
            groups_wf(groups@, fac.vars()),
            values::entries_over(results@, fac.vars()),
            groups_apart(all),
            forall|yes: Symbol| #[trigger]
                nested_true(nested_worlds@, yes) ==> only_true(plain, all, yes),
            results@.len() == plain.len() + k,
            unbuilt(plain),
            told_apart(plain),
            possible(results@),
            forall|i: int| 0 <= i < plain.len() ==> (#[trigger] results@[i]) == plain[i],
            forall|i: int|
                plain.len() <= i < results@.len() ==> built(
                    &*(#[trigger] results@[i]).0,
                    all[i - plain.len()].constructor,
                    all[i - plain.len()].arity as int,
                ),
            forall|a: Worlds| #[trigger]
                taken(results@, a) == held(plain, all.take(k as int), a),
            nested_heads(nested_worlds@) ==> values::heads(results@),
            forall|a: Worlds| #[trigger]
                values::either(values::pick(plain, a), groups_pick(all.take(k as int), a))
                    != Outcome::Stuck ==> values::pick(results@, a) == values::either(
                    values::pick(plain, a),
                    groups_pick(all.take(k as int), a),
                ),
        decreases groups@.len() - k,
    {
        proof {
            assert(groups@[k as int].wf(fac.vars()));
        }
        let entries: Vec<World> = clone_worlds(&groups[k].entries);
        let r: World = merge_group(entries, groups[k].constructor, groups[k].arity, fac);
        let ghost before = results@;
        results.push(r);
        proof {
            assert(results@.drop_last() =~= before);
            let head = all.take(k as int);
            let next = all.take(k + 1);
            assert(next.drop_last() =~= head);
            assert forall|a: Worlds| #[trigger] taken(results@, a) == held(plain, next, a) by {
                lemma_taken_push(before, r, a);
                lemma_groups_taken(all, k as int, a);
            }
            assert forall|a: Worlds| #[trigger]
                values::either(values::pick(plain, a), groups_pick(next, a)) != Outcome::Stuck implies values::pick(
                results@,
                a,
            ) == values::either(values::pick(plain, a), groups_pick(next, a)) by {
                values::lemma_pick_push(before, r, a);
                assert(groups_pick(next, a) == values::either(
                    groups_pick(head, a),
                    values::pick(all[k as int].entries@, a),
                ));
                assert(values::either(values::pick(plain, a), groups_pick(head, a))
                    != Outcome::Stuck);
                assert(values::pick(all[k as int].entries@, a) != Outcome::Stuck);
            }
        }
        k = k + 1;
    }
    proof {
        assert(all.take(all.len() as int) =~= all);
        assert forall|yes: Symbol| #[trigger] nested_true(nested_worlds@, yes) implies all_true(
            results@,
            yes,
        ) by {
            assert(only_true(plain, all, yes));
            assert forall|i: int| 0 <= i < results@.len() implies is_truth(
                *(#[trigger] results@[i]).0,
                yes,
            ) by {
                assert(all[i].constructor == yes);
            }
        }
        assert forall|i: int, j: int| 0 <= i < j < results@.len() implies !alike(
            *(#[trigger] results@[i]).0,
            *(#[trigger] results@[j]).0,
        ) by {
            if i >= plain.len() {
                let (g, h) = (all[i - plain.len()], all[j - plain.len()]);
                assert(!(g.constructor == h.constructor && g.arity == h.arity));
            } else {
                assert(results@[i] == plain[i]);
            }
        }
        assert forall|a: Worlds| #[trigger] taken(results@, a) == nested_taken(
            nested_worlds@,
            a,
        ) by {
            assert(held(plain, all, a) == nested_taken(nested_worlds@, a));
        }
        assert forall|a: Worlds| #[trigger]
            nested_pick(nested_worlds@, a) != Outcome::Stuck implies values::pick(results@, a)
            == nested_pick(nested_worlds@, a) by {
            assert(values::either(values::pick(plain, a), groups_pick(all, a)) == nested_pick(
                nested_worlds@,
                a,
            ));
        }
    }
    (results, used)
}

/// The choice among the sorted results and, where the guard holds, `more`.
spec fn sorted_choice(
    results: Seq<World>,
    groups: Seq<Group>,
    more: Seq<World>,
    guard: BooleanFunction,
    a: Worlds,
) -> Outcome {
    values::either(
        values::either(values::pick(results, a), groups_pick(groups, a)),
        if guard.eval(a) {
            values::pick(more, a)
        } else {
            Outcome::Fail
        },
    )
}

/// Copies of worlds are the worlds.
pub fn clone_worlds(s: &Vec<World>) -> (r: Vec<World>)
    ensures
        r@ == s@,
{
    let mut r: Vec<World> = Vec::new();
    let mut i: usize = 0;
    while i < s.len()
        invariant
            i <= s@.len(),
            r@ == s@.take(i as int),
        decreases s@.len() - i,
    {
        r.push((s[i].0.clone(), s[i].1.clone()));
        assert(r@ =~= s@.take(i + 1));
        i = i + 1;
    }
    assert(s@.take(s@.len() as int) =~= s@);
    r
}

/// Sort the worlds of one list, each under the guard of the list too, into
/// the results.
fn join_list(
    results: &mut Vec<World>,
    groups: &mut Vec<Group>,
    worlds: &Vec<World>,
    pre_guard: &BooleanFunction,
    fac: &Factorizer,
)
    requires
        fac.wf(),
        values::entries_over(old(results)@, fac.vars()),
        ints_guarded(old(results)@),
        groups_wf(old(groups)@, fac.vars()),
        groups_apart(old(groups)@),
        unbuilt(old(results)@),
        told_apart(old(results)@),
        possible(old(results)@),
        values::entries_over(worlds@, fac.vars()),
        fac.owns(*pre_guard),
    ensures
        values::entries_over(final(results)@, fac.vars()),
        ints_guarded(final(results)@),
        groups_wf(final(groups)@, fac.vars()),
        groups_apart(final(groups)@),
        unbuilt(final(results)@),
        told_apart(final(results)@),
        possible(final(results)@),
        forall|a: Worlds| #[trigger]
            held(final(results)@, final(groups)@, a) == (held(old(results)@, old(groups)@, a) || (pre_guard.eval(a) && taken(
                worlds@,
                a,
            ))),
        values::heads(old(results)@) && values::heads(worlds@) ==> values::heads(final(results)@),
        forall|yes: Symbol| #[trigger]
            only_true(old(results)@, old(groups)@, yes) && all_true(worlds@, yes) ==> only_true(
                final(results)@,
                final(groups)@,
                yes,
            ),
        forall|a: Worlds| #[trigger]
            sorted_choice(old(results)@, old(groups)@, worlds@, *pre_guard, a) != Outcome::Stuck
                ==> values::either(values::pick(final(results)@, a), groups_pick(final(groups)@, a))
                == sorted_choice(old(results)@, old(groups)@, worlds@, *pre_guard, a),
{
    let ghost rs = results@;
    let ghost gs = groups@;
    let mut i: usize = 0;
    while i < worlds.len()
        invariant
            i <= worlds@.len(),
            fac.wf(),
            values::entries_over(worlds@, fac.vars()),
            fac.owns(*pre_guard),
            values::entries_over(results@, fac.vars()),
            ints_guarded(results@),
            groups_wf(groups@, fac.vars()),
            groups_apart(groups@),
            unbuilt(results@),
            told_apart(results@),
            possible(results@),
            forall|a: Worlds| #[trigger]
                held(results@, groups@, a) == (held(rs, gs, a) || (pre_guard.eval(a) && taken(
                    worlds@.take(i as int),
                    a,
                ))),
            values::heads(rs) && values::heads(worlds@) ==> values::heads(results@),
            forall|yes: Symbol| #[trigger]
                only_true(rs, gs, yes) && all_true(worlds@, yes) ==> only_true(results@, groups@, yes),
            forall|a: Worlds| #[trigger]
                sorted_choice(rs, gs, worlds@.take(i as int), *pre_guard, a) != Outcome::Stuck
                    ==> values::either(values::pick(results@, a), groups_pick(groups@, a))
                    == sorted_choice(rs, gs, worlds@.take(i as int), *pre_guard, a),
        decreases worlds@.len() - i,
    {
        proof {
            values::lemma_entries_over(worlds@, fac.vars());
        }
        let both: BooleanFunction = fac.and(&worlds[i].1, pre_guard);
        let ghost e = worlds@[i as int];
        let ghost c = (e.0, both);
        let ghost r0 = results@;
        let ghost g0 = groups@;
        if !both.is_false() {
            join_one(results, groups, (worlds[i].0.clone(), both), fac);
        }
        proof {
            assert forall|yes: Symbol| #[trigger] only_true(rs, gs, yes) && all_true(worlds@, yes) implies only_true(
                results@,
                groups@,
                yes,
            ) by {
                assert(only_true(r0, g0, yes));
                assert(is_truth(*worlds@[i as int].0, yes));
            }
            let head = worlds@.take(i as int);
            let next = worlds@.take(i + 1);
            assert(next =~= head.push(e));
            assert forall|a: Worlds| #[trigger]
                held(results@, groups@, a) == (held(rs, gs, a) || (pre_guard.eval(a) && taken(
                next,
                a,
            ))) by {
                lemma_taken_push(head, e, a);
                assert(held(r0, g0, a) == (held(rs, gs, a) || (pre_guard.eval(a) && taken(head, a))));
                assert(both.eval(a) == (e.1.eval(a) && pre_guard.eval(a)));
            }
            assert forall|a: Worlds| #[trigger]
                sorted_choice(rs, gs, next, *pre_guard, a) != Outcome::Stuck implies values::either(
                values::pick(results@, a),
                groups_pick(groups@, a),
            ) == sorted_choice(rs, gs, next, *pre_guard, a) by {
                values::lemma_pick_push(head, e, a);
                assert(sorted_choice(rs, gs, head, *pre_guard, a) != Outcome::Stuck);
                assert(both.eval(a) == (e.1.eval(a) && pre_guard.eval(a)));
                assert(values::either(
                    values::either(values::pick(r0, a), groups_pick(g0, a)),
                    values::option(c, a),
                ) == sorted_choice(rs, gs, next, *pre_guard, a));
            }
        }
        i = i + 1;
    }
    assert(worlds@.take(worlds@.len() as int) =~= worlds@);
}

/// If-then-else: one world for where the condition holds, and one for where
/// it does not.
pub fn if_then_else_monad(
    val_true: PluckVal,
    val_false: PluckVal,
    condition: BooleanFunction,
    fac: &Factorizer,
) -> (r: GuardedWorlds)
    requires
        fac.wf(),
        fac.owns(condition),
        val_true.over(fac.vars()),
        val_false.over(fac.vars()),
    ensures
        r.1 == BooleanFunction::True,
        values::entries_over(r.0@, fac.vars()),
        values::is_head(*val_true) && values::is_head(*val_false) ==> values::heads(r.0@),
        possible(r.0@),
        !alike(*val_true, *val_false) ==> told_apart(r.0@),
        forall|a: Worlds| #[trigger]
            values::pick(r.0@, a) == (match (if condition.eval(a) {
                val_true.at(a)
            } else {
                val_false.at(a)
            }) {
                Some(d) => Outcome::Done(d),
                None => Outcome::Stuck,
            }),
{
    let neg: BooleanFunction = fac.negate(&condition);
    let mut worlds: Vec<World> = Vec::new();
    let ghost c = condition;
    let ghost t = (val_true, condition);
    let ghost f = (val_false, neg);
    if !condition.is_false() {
        worlds.push((val_true, condition));
    }
    let ghost mid = worlds@;
    if !neg.is_false() {
        worlds.push((val_false, neg));
    }
    proof {
        let none = Seq::<World>::empty();
        assert(c != BooleanFunction::False ==> mid =~= none.push(t));
        assert(c == BooleanFunction::False ==> mid =~= none);
        assert(f.1 != BooleanFunction::False ==> worlds@ =~= mid.push(f));
        assert(f.1 == BooleanFunction::False ==> worlds@ =~= mid);
        assert(none.push(t).drop_last() =~= none);
        assert(mid.push(f).drop_last() =~= mid);
        assert(values::entries_over(none, fac.vars()));
        assert(values::entries_over(none.push(t), fac.vars()));
        assert(values::entries_over(mid, fac.vars()));
        assert(values::entries_over(mid.push(f), fac.vars()));
        assert forall|a: Worlds| #[trigger]
            values::pick(worlds@, a) == (match (if c.eval(a) {
            val_true.at(a)
        } else {
            val_false.at(a)
        }) {
            Some(d) => Outcome::Done(d),
            None => Outcome::Stuck,
        }) by {
            values::lemma_pick_push(none, t, a);
            values::lemma_pick_push(mid, f, a);
            assert(f.1.eval(a) == !c.eval(a));
        }
    }
    (worlds, BooleanFunction::true_ptr())
}

/// Build one world per (value, condition) pair, dropping any pair whose
/// condition is unsatisfiable (false). This function does not require the
/// conditions to be mutually exclusive or exhaustive.
pub fn categorical_monad(vals: Vec<PluckVal>, conditions: Vec<BooleanFunction>, fac: &Factorizer) -> (r: GuardedWorlds)
    requires
        vals@.len() == conditions@.len(),
        values::all_over(vals@, fac.vars()),
        values::bits_over(conditions@, fac.vars()),
    ensures
        r.1 == BooleanFunction::True,
        values::entries_over(r.0@, fac.vars()),
        (forall|i: int| 0 <= i < vals@.len() ==> values::is_head(*(#[trigger] vals@[i])))
            ==> values::heads(r.0@),
        possible(r.0@),
        all_unlike(vals@) ==> told_apart(r.0@),
        forall|a: Worlds| #[trigger]
            values::pick(r.0@, a) == values::pick(zipped(vals@, conditions@), a),
{
    let mut worlds: Vec<World> = Vec::new();
    let ghost pairs = zipped(vals@, conditions@);
    let mut i: usize = 0;
    while i < vals.len()
        invariant
            i <= vals@.len(),
            vals@.len() == conditions@.len(),
            values::all_over(vals@, fac.vars()),
            values::bits_over(conditions@, fac.vars()),
            values::entries_over(worlds@, fac.vars()),
            (forall|i: int| 0 <= i < vals@.len() ==> values::is_head(*(#[trigger] vals@[i])))
                ==> values::heads(worlds@),
            possible(worlds@),
            all_unlike(vals@) ==> told_apart(worlds@),
            forall|j: int| 0 <= j < worlds@.len() ==> vals@.take(i as int).contains(
                (#[trigger] worlds@[j]).0,
            ),
            pairs == zipped(vals@, conditions@),
            forall|a: Worlds| #[trigger]
                values::pick(worlds@, a) == values::pick(pairs.take(i as int), a),
        decreases vals@.len() - i,
    {
        proof {
            values::lemma_all_over(vals@, fac.vars());
        }
        let ghost before = worlds@;
        let ghost e = pairs[i as int];
        if !conditions[i].is_false() {
            worlds.push((vals[i].clone(), conditions[i].clone()));
        }
        proof {
            let head = pairs.take(i as int);
            let next = pairs.take(i + 1);
            assert(next =~= head.push(e));
            assert(e.1 != BooleanFunction::False ==> worlds@ =~= before.push(e));
            assert(before.push(e).drop_last() =~= before);
            let (p, q) = (vals@.take(i as int), vals@.take(i + 1));
            assert(q =~= p.push(vals@[i as int]));
            assert forall|j: int| 0 <= j < worlds@.len() implies q.contains(
                (#[trigger] worlds@[j]).0,
            ) by {
                if j < before.len() {
                    assert(worlds@[j] == before[j]);
                    let k = choose|k: int| 0 <= k < p.len() && p[k] == before[j].0;
                    assert(q[k] == worlds@[j].0);
                } else {
                    assert(q[i as int] == worlds@[j].0);
                }
            }
            if all_unlike(vals@) {
                assert forall|j: int, k: int| 0 <= j < k < worlds@.len() implies !alike(
                    *(#[trigger] worlds@[j]).0,
                    *(#[trigger] worlds@[k]).0,
                ) by {
                    assert(worlds@[j] == before[j]);
                    if k < before.len() {
                        assert(worlds@[k] == before[k]);
                    } else {
                        assert(p.contains(before[j].0));
                        let n = choose|n: int| 0 <= n < p.len() && p[n] == before[j].0;
                        assert(!alike(*vals@[n], *vals@[i as int]));
                    }
                }
            }
            assert forall|a: Worlds| #[trigger]
                values::pick(worlds@, a) == values::pick(next, a) by {
                values::lemma_pick_push(head, e, a);
                values::lemma_pick_push(before, e, a);
                assert(values::pick(before, a) == values::pick(head, a));
            }
        }
        i = i + 1;
    }
    assert(pairs.take(pairs.len() as int) =~= pairs);
    (worlds, BooleanFunction::true_ptr())
}

/// No two of the values are alike.
pub open spec fn all_unlike(vals: Seq<PluckVal>) -> bool {
    forall|i: int, j: int|
        0 <= i < j < vals.len() ==> !alike(*(#[trigger] vals[i]), *(#[trigger] vals[j]))
}

/// Values with their conditions.
pub open spec fn zipped(vals: Seq<PluckVal>, conditions: Seq<BooleanFunction>) -> Seq<World> {
    Seq::new(vals.len(), |i: int| (vals[i], conditions[i]))
}

} // verus!
