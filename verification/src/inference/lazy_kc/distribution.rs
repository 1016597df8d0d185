//! The full distribution of a result: every thunk in it is evaluated.

use vstd::prelude::*;

use super::ctx;
use super::ctx::CompilerCtx;
use super::monad::{GuardedWorlds, World};
use super::semantics;
use super::semantics::Model;
use super::floats::clone_shape;
use super::settle::clone_bits;
use crate::discrete_factorizations::{BooleanFunction, Worlds};
use crate::inference::int_dists;
use crate::inference::int_dists::{enumerate_int_dist, IntDist};
use crate::language::values;
use crate::language::values::{
    mk_float_matrix, mk_int_dist, mk_value, Datum, Outcome, PluckVal, PluckValue,
};
use crate::utils::reals::RealOp;

verus! {

/// A value with every thunk in it evaluated.
pub open spec fn finish(d: Datum, x: Model, f: nat) -> Outcome
    decreases f, d,
{
    match d {
        Datum::Thunk { .. } => if f == 0 {
            Outcome::Stuck
        } else {
            match semantics::force(d, x, f) {
                Outcome::Done(e) => finish(e, x, (f - 1) as nat),
                o => o,
            }
        },
        Datum::Value { constructor, args } => match finish_all(args, x, f) {
            Ok(ds) => Outcome::Done(Datum::Value { constructor, args: ds }),
            Err(o) => o,
        },
        Datum::Matrix { entries: args, shape } => match finish_all(args, x, f) {
            Ok(ds) => Outcome::Done(Datum::Matrix { entries: ds, shape }),
            Err(o) => o,
        },
        _ => Outcome::Done(d),
    }
}

/// Values one after the other, up to the first that has no value.
pub open spec fn finish_all(s: Seq<Datum>, x: Model, f: nat) -> Result<Seq<Datum>, Outcome>
    decreases f, s,
{
    if s.len() == 0 {
        Ok(Seq::empty())
    } else {
        match finish_all(s.drop_last(), x, f) {
            Ok(t) => match finish(s.last(), x, f) {
                Outcome::Done(e) => Ok(t.push(e)),
                o => Err(o),
            },
            Err(o) => Err(o),
        }
    }
}

/// The evaluation of everything in an outcome ends so, if it may go deep
/// enough.
pub open spec fn finishes(o: Outcome, x: Model, q: Outcome) -> bool {
    q != Outcome::Stuck && match o {
        Outcome::Done(d) => exists|f: nat| #[trigger] finish(d, x, f) == q,
        Outcome::Fail => q == Outcome::Fail,
        Outcome::Stuck => false,
    }
}

/// Going deeper changes nothing but where the limit was in the way.
pub proof fn lemma_finish_deeper(d: Datum, x: Model, f: nat, g: nat)
    requires
        f <= g,
    ensures
        semantics::kept(finish(d, x, f), finish(d, x, g)),
    decreases f, d,
{
    match d {
        Datum::Thunk { .. } => {
            if f > 0 {
                semantics::lemma_force_deeper(d, x, f, g);
                match semantics::force(d, x, f) {
                    Outcome::Done(e) => lemma_finish_deeper(e, x, (f - 1) as nat, (g - 1) as nat),
                    _ => {},
                }
            }
        },
        Datum::Value { args, .. } => lemma_finish_all_deeper(args, x, f, g),
        Datum::Matrix { entries: args, .. } => lemma_finish_all_deeper(args, x, f, g),
        _ => {},
    }
}

pub proof fn lemma_finish_all_deeper(s: Seq<Datum>, x: Model, f: nat, g: nat)
    requires
        f <= g,
    ensures
        finish_all(s, x, f) == Err::<Seq<Datum>, Outcome>(Outcome::Stuck) || finish_all(s, x, f)
            == finish_all(s, x, g),
    decreases f, s,
{
    if s.len() > 0 {
        lemma_finish_all_deeper(s.drop_last(), x, f, g);
        lemma_finish_deeper(s.last(), x, f, g);
    }
}

/// No thunk in the datum.
pub open spec fn calm(d: Datum) -> bool
    decreases d,
{
    match d {
        Datum::Thunk { .. } => false,
        Datum::Value { args, .. } => all_calm(args),
        Datum::Matrix { entries: args, .. } => all_calm(args),
        _ => true,
    }
}

pub open spec fn all_calm(s: Seq<Datum>) -> bool
    decreases s,
{
    s.len() == 0 || (all_calm(s.drop_last()) && calm(s.last()))
}

proof fn lemma_calm(d: Datum, x: Model, f: nat)
    requires
        calm(d),
    ensures
        finish(d, x, f) == Outcome::Done(d),
    decreases d,
{
    match d {
        Datum::Value { args, .. } => lemma_all_calm(args, x, f),
        Datum::Matrix { entries: args, .. } => lemma_all_calm(args, x, f),
        _ => {},
    }
}

proof fn lemma_all_calm(s: Seq<Datum>, x: Model, f: nat)
    requires
        all_calm(s),
    ensures
        finish_all(s, x, f) == Ok::<Seq<Datum>, Outcome>(s),
    decreases s,
{
    if s.len() > 0 {
        lemma_all_calm(s.drop_last(), x, f);
        lemma_calm(s.last(), x, f);
        assert(s.drop_last().push(s.last()) =~= s);
    } else {
        assert(s =~= Seq::<Datum>::empty());
    }
}

/// The part of a datum at a path.
pub open spec fn datum_at(d: Datum, path: Seq<usize>) -> Option<Datum>
    decreases path.len(),
{
    if path.len() == 0 {
        Some(d)
    } else {
        match d {
            Datum::Value { args, .. } => if path[0] < args.len() {
                datum_at(args[path[0] as int], path.skip(1))
            } else {
                None
            },
            Datum::Matrix { entries: args, .. } => if path[0] < args.len() {
                datum_at(args[path[0] as int], path.skip(1))
            } else {
                None
            },
            _ => None,
        }
    }
}

/// The datum with another one at a path.
pub open spec fn replaced(d: Datum, path: Seq<usize>, e: Datum) -> Datum
    decreases path.len(),
{
    if path.len() == 0 {
        e
    } else {
        match d {
            Datum::Value { constructor, args } => Datum::Value {
                constructor,
                args: args.update(
                    path[0] as int,
                    replaced(args[path[0] as int], path.skip(1), e),
                ),
            },
            Datum::Matrix { entries: args, shape } => Datum::Matrix {
                shape,
                entries: args.update(
                    path[0] as int,
                    replaced(args[path[0] as int], path.skip(1), e),
                ),
            },
            _ => d,
        }
    }
}

proof fn lemma_replaced_same(d: Datum, path: Seq<usize>, e: Datum)
    requires
        datum_at(d, path) == Some(e),
    ensures
        replaced(d, path, e) == d,
    decreases path.len(),
{
    if path.len() > 0 {
        match d {
            Datum::Value { args, .. } => {
                let i = path[0] as int;
                lemma_replaced_same(args[i], path.skip(1), e);
                assert(args.update(i, args[i]) =~= args);
            },
            Datum::Matrix { entries: args, .. } => {
                let i = path[0] as int;
                lemma_replaced_same(args[i], path.skip(1), e);
                assert(args.update(i, args[i]) =~= args);
            },
            _ => {},
        }
    }
}

/// Nothing before the path is a thunk.
pub open spec fn calm_before(d: Datum, path: Seq<usize>) -> bool
    decreases path.len(),
{
    path.len() == 0 || match d {
        Datum::Value { args, .. } => path[0] < args.len() && all_calm(args.take(path[0] as int))
            && calm_before(args[path[0] as int], path.skip(1)),
        Datum::Matrix { entries: args, .. } => path[0] < args.len() && all_calm(args.take(path[0] as int))
            && calm_before(args[path[0] as int], path.skip(1)),
        _ => false,
    }
}

/// Evaluating a thunk in a datum does not change what the whole comes to.
proof fn lemma_finish_replaced(
    d: Datum,
    path: Seq<usize>,
    td: Datum,
    e: Datum,
    x: Model,
    f0: nat,
    f: nat,
    g: nat,
)
    requires
        datum_at(d, path) == Some(td),
        semantics::force(td, x, f0) == Outcome::Done(e),
        finish(replaced(d, path, e), x, f) != Outcome::Stuck,
        g > f,
        g >= f0,
    ensures
        finish(d, x, g) == finish(replaced(d, path, e), x, f),
    decreases path.len(),
{
    if path.len() == 0 {
        semantics::lemma_force_deeper(td, x, f0, g);
        lemma_finish_deeper(e, x, f, (g - 1) as nat);
        lemma_finish_deeper(e, x, f, g);
    } else {
        match d {
            Datum::Value { args, .. } => {
                let i = path[0] as int;
                let r = replaced(args[i], path.skip(1), e);
                let other = args.update(i, r);
                if finish(r, x, f) != Outcome::Stuck {
                    lemma_finish_replaced(args[i], path.skip(1), td, e, x, f0, f, g);
                }
                lemma_prefix(args, i, r, x, f, g, args.len() as int);
                assert(args.take(args.len() as int) =~= args);
                assert(other.take(args.len() as int) =~= other);
            },
            Datum::Matrix { entries: args, .. } => {
                let i = path[0] as int;
                let r = replaced(args[i], path.skip(1), e);
                let other = args.update(i, r);
                if finish(r, x, f) != Outcome::Stuck {
                    lemma_finish_replaced(args[i], path.skip(1), td, e, x, f0, f, g);
                }
                lemma_prefix(args, i, r, x, f, g, args.len() as int);
                assert(args.take(args.len() as int) =~= args);
                assert(other.take(args.len() as int) =~= other);
            },
            _ => {},
        }
    }
}

proof fn lemma_prefix(s: Seq<Datum>, i: int, r: Datum, x: Model, f: nat, g: nat, n: int)
    requires
        0 <= i < s.len(),
        0 <= n <= s.len(),
        f <= g,
        finish(r, x, f) == Outcome::Stuck || finish(s[i], x, g) == finish(r, x, f),
    ensures
        finish_all(s.update(i, r).take(n), x, f) == Err::<Seq<Datum>, Outcome>(Outcome::Stuck)
            || finish_all(s.take(n), x, g) == finish_all(s.update(i, r).take(n), x, f),
    decreases n,
{
    if n > 0 {
        let t = s.update(i, r);
        lemma_prefix(s, i, r, x, f, g, n - 1);
        assert(s.take(n).drop_last() =~= s.take(n - 1));
        assert(t.take(n).drop_last() =~= t.take(n - 1));
        if n - 1 != i {
            lemma_finish_deeper(s[n - 1], x, f, g);
        }
    }
}

/// If a thunk in a datum fails, so does the whole.
proof fn lemma_finish_failed(d: Datum, path: Seq<usize>, td: Datum, x: Model, f0: nat, g: nat)
    requires
        datum_at(d, path) == Some(td),
        calm_before(d, path),
        semantics::force(td, x, f0) == Outcome::Fail,
        g > 0,
        g >= f0,
    ensures
        finish(d, x, g) == Outcome::Fail,
    decreases path.len(),
{
    if path.len() == 0 {
        semantics::lemma_force_deeper(td, x, f0, g);
    } else {
        match d {
            Datum::Value { args, .. } => {
                let i = path[0] as int;
                lemma_finish_failed(args[i], path.skip(1), td, x, f0, g);
                lemma_all_calm(args.take(i), x, g);
                assert(args.take(i + 1).drop_last() =~= args.take(i));
                lemma_failed_prefix(args, i + 1, args.len() as int, x, g);
                assert(args.take(args.len() as int) =~= args);
            },
            Datum::Matrix { entries: args, .. } => {
                let i = path[0] as int;
                lemma_finish_failed(args[i], path.skip(1), td, x, f0, g);
                lemma_all_calm(args.take(i), x, g);
                assert(args.take(i + 1).drop_last() =~= args.take(i));
                lemma_failed_prefix(args, i + 1, args.len() as int, x, g);
                assert(args.take(args.len() as int) =~= args);
            },
            _ => {},
        }
    }
}

proof fn lemma_failed_prefix(s: Seq<Datum>, m: int, n: int, x: Model, g: nat)
    requires
        0 <= m <= n <= s.len(),
        finish_all(s.take(m), x, g) == Err::<Seq<Datum>, Outcome>(Outcome::Fail),
    ensures
        finish_all(s.take(n), x, g) == Err::<Seq<Datum>, Outcome>(Outcome::Fail),
    decreases n,
{
    if m < n {
        lemma_failed_prefix(s, m, n - 1, x, g);
        assert(s.take(n).drop_last() =~= s.take(n - 1));
    }
}

/// No thunk and no union in the value, its arguments and its entries.
pub open spec fn still(v: PluckValue) -> bool
    decreases v,
{
    match v {
        PluckValue::Thunk(_) => false,
        PluckValue::ThunkUnion(_) => false,
        PluckValue::Value { args, .. } => all_still(args@),
        PluckValue::FloatMatrix { entries: args, .. } => all_still(args@),
        _ => true,
    }
}

pub open spec fn all_still(s: Seq<PluckVal>) -> bool
    decreases s,
{
    s.len() == 0 || (all_still(s.drop_last()) && still(*s.last()))
}

/// Every integer in the value is known.
pub open spec fn known(v: PluckValue) -> bool
    decreases v,
{
    match v {
        PluckValue::IntDist { bits } => all_known(bits@),
        PluckValue::Value { args, .. } => known_all(args@),
        PluckValue::FloatMatrix { entries: args, .. } => known_all(args@),
        _ => true,
    }
}

pub open spec fn known_all(s: Seq<PluckVal>) -> bool
    decreases s,
{
    s.len() == 0 || (known_all(s.drop_last()) && known(*s.last()))
}

pub open spec fn all_known(bits: Seq<BooleanFunction>) -> bool {
    forall|i: int|
        0 <= i < bits.len() ==> #[trigger] bits[i] == BooleanFunction::True || bits[i]
            == BooleanFunction::False
}

proof fn lemma_still(v: &PluckValue, a: Worlds)
    requires
        still(*v),
        v.at(a) is Some,
    ensures
        calm(v.at(a)->0),
    decreases v,
{
    match v {
        PluckValue::Value { args, .. } => lemma_all_still(args@, a),
        PluckValue::FloatMatrix { entries: args, .. } => lemma_all_still(args@, a),
        _ => {},
    }
}

proof fn lemma_all_still(s: Seq<PluckVal>, a: Worlds)
    requires
        all_still(s),
        values::all_at(s, a) is Some,
    ensures
        all_calm(values::all_at(s, a)->0),
    decreases s,
{
    if s.len() > 0 {
        lemma_all_still(s.drop_last(), a);
        let last = s[s.len() - 1];
        assert(s.last() == last);
        lemma_still(&*last, a);
        let ds = values::all_at(s, a)->0;
        assert(ds.drop_last() =~= values::all_at(s.drop_last(), a)->0);
    }
}

/// The part of a value at a path.
pub open spec fn part(v: PluckVal, path: Seq<usize>) -> Option<PluckVal>
    decreases path.len(),
{
    if path.len() == 0 {
        Some(v)
    } else {
        match *v {
            PluckValue::Value { args, .. } => if path[0] < args@.len() {
                part(args@[path[0] as int], path.skip(1))
            } else {
                None
            },
            PluckValue::FloatMatrix { entries: args, .. } => if path[0] < args@.len() {
                part(args@[path[0] as int], path.skip(1))
            } else {
                None
            },
            _ => None,
        }
    }
}

/// Nothing before the path is a thunk.
pub open spec fn still_before(v: PluckVal, path: Seq<usize>) -> bool
    decreases path.len(),
{
    path.len() == 0 || match *v {
        PluckValue::Value { args, .. } => path[0] < args@.len() && all_still(
            args@.take(path[0] as int),
        ) && still_before(args@[path[0] as int], path.skip(1)),
        PluckValue::FloatMatrix { entries: args, .. } => path[0] < args@.len() && all_still(
            args@.take(path[0] as int),
        ) && still_before(args@[path[0] as int], path.skip(1)),
        _ => false,
    }
}

proof fn lemma_part(v: PluckVal, path: Seq<usize>, a: Worlds)
    requires
        part(v, path) is Some,
        v.at(a) is Some,
    ensures
        part(v, path)->0.at(a) is Some,
        datum_at(v.at(a)->0, path) == part(v, path)->0.at(a),
        still_before(v, path) ==> calm_before(v.at(a)->0, path),
    decreases path.len(),
{
    if path.len() > 0 {
        match &*v {
            PluckValue::Value { args, .. } => {
                let i = path[0] as int;
                values::lemma_all_at(args@, a);
                assert(args@[i].at(a) is Some);
                lemma_part(args@[i], path.skip(1), a);
                if still_before(v, path) {
                    let ds = values::all_at(args@, a)->0;
                    let front = args@.take(i);
                    values::lemma_all_at(front, a);
                    assert forall|j: int| 0 <= j < front.len() implies (#[trigger] front[j]).at(a) is Some by {
                        assert(args@[j].at(a) is Some);
                    }
                    lemma_all_still(front, a);
                    assert(values::all_at(front, a)->0 =~= ds.take(i)) by {
                        assert forall|j: int| 0 <= j < i implies values::all_at(front, a)->0[j] == ds[j] by {
                            assert(front[j].at(a) == Some(values::all_at(front, a)->0[j]));
                            assert(args@[j].at(a) == Some(ds[j]));
                        }
                    }
                }
            },
            PluckValue::FloatMatrix { entries: args, .. } => {
                let i = path[0] as int;
                values::lemma_all_at(args@, a);
                assert(args@[i].at(a) is Some);
                lemma_part(args@[i], path.skip(1), a);
                if still_before(v, path) {
                    let ds = values::all_at(args@, a)->0;
                    let front = args@.take(i);
                    values::lemma_all_at(front, a);
                    assert forall|j: int| 0 <= j < front.len() implies (#[trigger] front[j]).at(a) is Some by {
                        assert(args@[j].at(a) is Some);
                    }
                    lemma_all_still(front, a);
                    assert(values::all_at(front, a)->0 =~= ds.take(i)) by {
                        assert forall|j: int| 0 <= j < i implies values::all_at(front, a)->0[j] == ds[j] by {
                            assert(front[j].at(a) == Some(values::all_at(front, a)->0[j]));
                            assert(args@[j].at(a) == Some(ds[j]));
                        }
                    }
                }
            },
            _ => {},
        }
    }
}

proof fn lemma_part_over(v: PluckVal, path: Seq<usize>, order: Seq<u64>)
    requires
        part(v, path) is Some,
        v.over(order),
    ensures
        part(v, path)->0.over(order),
    decreases path.len(),
{
    if path.len() > 0 {
        match &*v {
            PluckValue::Value { args, .. } => {
                let i = path[0] as int;
                values::lemma_all_over(args@, order);
                assert(args@[i].over(order));
                lemma_part_over(args@[i], path.skip(1), order);
            },
            PluckValue::FloatMatrix { entries: args, .. } => {
                let i = path[0] as int;
                values::lemma_all_over(args@, order);
                assert(args@[i].over(order));
                lemma_part_over(args@[i], path.skip(1), order);
            },
            _ => {},
        }
    }
}

/// What is looked for in a value.
#[derive(Debug, Clone, Copy, PartialEq, Eq, Structural)]
enum Sought {
    /// A thunk, or a union.
    Thunk,
    /// An integer that is not known.
    Integer,
}

impl Sought {
    spec fn found(self, v: PluckValue) -> bool {
        match self {
            Sought::Thunk => v is Thunk || v is ThunkUnion,
            Sought::Integer => v matches PluckValue::IntDist { bits } && !all_known(bits@),
        }
    }

    spec fn absent(self, v: PluckValue) -> bool {
        match self {
            Sought::Thunk => still(v),
            Sought::Integer => known(v),
        }
    }

    spec fn absent_all(self, s: Seq<PluckVal>) -> bool {
        match self {
            Sought::Thunk => all_still(s),
            Sought::Integer => known_all(s),
        }
    }
}

fn bits_known(bits: &Vec<BooleanFunction>) -> (r: bool)
    ensures
        r == all_known(bits@),
{
    let mut i: usize = 0;
    while i < bits.len()
        invariant
            i <= bits@.len(),
            all_known(bits@.take(i as int)),
        decreases bits@.len() - i,
    {
        if !bits[i].is_true() && !bits[i].is_false() {
            assert(!(bits@[i as int] == BooleanFunction::True || bits@[i as int]
                == BooleanFunction::False));
            return false;
        }
        proof {
            let next = bits@.take(i + 1);
            assert forall|j: int| 0 <= j < next.len() implies #[trigger] next[j] == BooleanFunction::True
                || next[j] == BooleanFunction::False by {
                if j < i {
                    assert(bits@.take(i as int)[j] == next[j]);
                }
            }
        }
        i = i + 1;
    }
    assert(bits@.take(bits@.len() as int) =~= bits@);
    true
}

/// The path to the first thing of the given kind (depth first), appended to
/// `path`.
fn find_inner(val: &PluckVal, what: Sought, path: &mut Vec<usize>) -> (found: bool)
    ensures
        final(path)@.len() >= old(path)@.len(),
        final(path)@.take(old(path)@.len() as int) == old(path)@,
        !found ==> final(path)@ == old(path)@ && what.absent(**val),
        found ==> {
            let inner = final(path)@.skip(old(path)@.len() as int);
            &&& part(*val, inner) is Some
            &&& what.found(*part(*val, inner)->0)
            &&& what == Sought::Thunk ==> still_before(*val, inner)
        },
    decreases **val,
{
    let ghost start = path@;
    proof {
        assert(start.take(start.len() as int) =~= start);
        assert(start.skip(start.len() as int) =~= Seq::<usize>::empty());
    }
    match &**val {
        PluckValue::Thunk(_) => what == Sought::Thunk,
        PluckValue::ThunkUnion(_) => what == Sought::Thunk,
        PluckValue::IntDist { bits } => what == Sought::Integer && !bits_known(bits),
        PluckValue::Value { args, .. } => find_within(args, what, path),
        PluckValue::FloatMatrix { entries, .. } => find_within(entries, what, path),
        _ => false,
    }
}

/// The same in values one after the other.
fn find_within(args: &Vec<PluckVal>, what: Sought, path: &mut Vec<usize>) -> (found: bool)
    ensures
        final(path)@.len() >= old(path)@.len(),
        final(path)@.take(old(path)@.len() as int) == old(path)@,
        !found ==> final(path)@ == old(path)@ && what.absent_all(args@),
        found ==> {
            let inner = final(path)@.skip(old(path)@.len() as int);
            &&& inner.len() > 0 && inner[0] < args@.len()
            &&& part(args@[inner[0] as int], inner.skip(1)) is Some
            &&& what.found(*part(args@[inner[0] as int], inner.skip(1))->0)
            &&& what == Sought::Thunk ==> all_still(args@.take(inner[0] as int)) && still_before(
                args@[inner[0] as int],
                inner.skip(1),
            )
        },
    decreases *args,
{
    let ghost start = path@;
    let mut i: usize = 0;
    proof {
        assert(start.take(start.len() as int) =~= start);
        assert(args@.take(0) =~= Seq::<PluckVal>::empty());
    }
    while i < args.len()
        invariant
            i <= args@.len(),
            path@ == start,
            start == old(path)@,
            what.absent_all(args@.take(i as int)),
        decreases args@.len() - i,
    {
        path.push(i);
        let ghost mid = path@;
        let here: bool = find_inner(&args[i], what, path);
        if here {
            proof {
                let n = start.len() as int;
                let inner = path@.skip(n);
                let rest = path@.skip(n + 1);
                assert(path@.take(n + 1) == mid);
                assert(path@.take(n) =~= mid.take(n));
                assert(mid.take(n) =~= start);
                assert(path@[n] == path@.take(n + 1)[n]);
                assert(inner[0] == i);
                assert(inner.skip(1) =~= rest);
            }
            return true;
        }
        path.pop();
        proof {
            assert(path@ =~= start);
            assert(args@.take(i + 1).drop_last() =~= args@.take(i as int));
            assert(args@.take(i + 1).last() == args@[i as int]);
        }
        i = i + 1;
    }
    assert(args@.take(args@.len() as int) =~= args@);
    false
}

/// Find the path to the first thunk in a value tree (DFS).
pub fn find_first_thunk(val: &PluckVal) -> (r: Option<Vec<usize>>)
    ensures
        match r {
            Some(path) => part(*val, path@) is Some && (*part(*val, path@)->0 is Thunk || *part(
                *val,
                path@,
            )->0 is ThunkUnion) && still_before(*val, path@),
            None => still(**val),
        },
{
    let mut path: Vec<usize> = Vec::new();
    if find_inner(val, Sought::Thunk, &mut path) {
        assert(path@.skip(0) =~= path@);
        Some(path)
    } else {
        None
    }
}

/// Find the path to the first non-constant integer in a value tree (DFS).
pub fn find_first_non_const_int_dist(val: &PluckVal) -> (r: Option<Vec<usize>>)
    ensures
        match r {
            Some(path) => part(*val, path@) is Some && (*part(
                *val,
                path@,
            )->0 matches PluckValue::IntDist { bits } && !all_known(bits@)),
            None => known(**val),
        },
{
    let mut path: Vec<usize> = Vec::new();
    if find_inner(val, Sought::Integer, &mut path) {
        assert(path@.skip(0) =~= path@);
        Some(path)
    } else {
        None
    }
}

/// The part of a value at a path.
pub fn get_value_at_path(val: &PluckVal, path: &Vec<usize>) -> (r: PluckVal)
    requires
        part(*val, path@) is Some,
    ensures
        Some(r) == part(*val, path@),
{
    let mut current: PluckVal = val.clone();
    let mut i: usize = 0;
    assert(path@.skip(0) =~= path@);
    while i < path.len()
        invariant
            i <= path@.len(),
            part(current, path@.skip(i as int)) == part(*val, path@),
            part(*val, path@) is Some,
        decreases path@.len() - i,
    {
        assert(path@.skip(i as int)[0] == path@[i as int]);
        assert(path@.skip(i as int).skip(1) =~= path@.skip(i + 1));
        let next: PluckVal = match &*current {
            PluckValue::Value { args, .. } => args[path[i]].clone(),
            PluckValue::FloatMatrix { entries: args, .. } => args[path[i]].clone(),
            _ => current.clone(),
        };
        current = next;
        i = i + 1;
    }
    assert(path@.skip(path@.len() as int) =~= Seq::<usize>::empty());
    current
}

fn replace_from(val: &PluckVal, path: &Vec<usize>, from: usize, new_val: &PluckVal) -> (r: PluckVal)
    requires
        from <= path@.len(),
        part(*val, path@.skip(from as int)) is Some,
    ensures
        forall|a: Worlds| #![trigger r.at(a)]
            val.at(a) is Some && new_val.at(a) is Some ==> r.at(a) == Some(
                replaced(val.at(a)->0, path@.skip(from as int), new_val.at(a)->0),
            ),
        forall|order: Seq<u64>|
            val.over(order) && new_val.over(order) && !(**new_val is ThunkUnion)
                ==> #[trigger] r.over(order),
        !(**val is ThunkUnion) && !(**new_val is ThunkUnion) ==> !(*r is ThunkUnion),
        part(r, path@.skip(from as int)) == Some(*new_val),
    decreases path@.len() - from,
{
    let ghost rest = path@.skip(from as int);
    if from == path.len() {
        return new_val.clone();
    }
    assert(rest.skip(1) =~= path@.skip(from + 1));
    match &**val {
        PluckValue::Value { constructor, args } => {
            let i: usize = path[from];
            let inner: PluckVal = replace_from(&args[i], path, from + 1, new_val);
            let mut new_args: Vec<PluckVal> = values::clone_vals(args);
            new_args.set(i, inner);
            let r: PluckVal = mk_value(*constructor, new_args);
            proof {
                let all = args@.update(i as int, inner);
                assert forall|a: Worlds| #![trigger r.at(a)] val.at(a) is Some && new_val.at(a) is Some implies r.at(
                    a,
                ) == Some(replaced(val.at(a)->0, rest, new_val.at(a)->0)) by {
                    values::lemma_all_at(args@, a);
                    values::lemma_all_at(all, a);
                    let ds = values::all_at(args@, a)->0;
                    assert(args@[i as int].at(a) == Some(ds[i as int]));
                    let e = replaced(ds[i as int], rest.skip(1), new_val.at(a)->0);
                    assert(inner.at(a) == Some(e));
                    let want = ds.update(i as int, e);
                    assert forall|j: int| 0 <= j < all.len() implies (#[trigger] all[j]).at(a) == Some(
                        want[j],
                    ) by {
                        if j != i {
                            assert(args@[j].at(a) == Some(ds[j]));
                        }
                    }
                    let got = values::all_at(all, a)->0;
                    assert forall|j: int| 0 <= j < got.len() implies got[j] == want[j] by {
                        assert(all[j].at(a) == Some(got[j]));
                    }
                    assert(got =~= want);
                }
                assert forall|order: Seq<u64>|
                    val.over(order) && new_val.over(order) && !(**new_val is ThunkUnion) implies #[trigger] r.over(
                    order,
                ) by {
                    values::lemma_all_over(args@, order);
                    values::lemma_all_over(all, order);
                    assert(args@[i as int].over(order));
                    assert(inner.over(order));
                    assert forall|j: int| 0 <= j < all.len() implies (#[trigger] all[j]).over(order) by {
                        if j != i {
                            assert(args@[j].over(order));
                        }
                    }
                }
            }
            r
        },
        PluckValue::FloatMatrix { entries: args, shape } => {
            let i: usize = path[from];
            let inner: PluckVal = replace_from(&args[i], path, from + 1, new_val);
            let mut new_args: Vec<PluckVal> = values::clone_vals(args);
            new_args.set(i, inner);
            let r: PluckVal = mk_float_matrix(new_args, clone_shape(shape));
            proof {
                let all = args@.update(i as int, inner);
                assert forall|a: Worlds| #![trigger r.at(a)] val.at(a) is Some && new_val.at(a) is Some implies r.at(
                    a,
                ) == Some(replaced(val.at(a)->0, rest, new_val.at(a)->0)) by {
                    values::lemma_all_at(args@, a);
                    values::lemma_all_at(all, a);
                    let ds = values::all_at(args@, a)->0;
                    assert(args@[i as int].at(a) == Some(ds[i as int]));
                    let e = replaced(ds[i as int], rest.skip(1), new_val.at(a)->0);
                    assert(inner.at(a) == Some(e));
                    let want = ds.update(i as int, e);
                    assert forall|j: int| 0 <= j < all.len() implies (#[trigger] all[j]).at(a) == Some(
                        want[j],
                    ) by {
                        if j != i {
                            assert(args@[j].at(a) == Some(ds[j]));
                        }
                    }
                    let got = values::all_at(all, a)->0;
                    assert forall|j: int| 0 <= j < got.len() implies got[j] == want[j] by {
                        assert(all[j].at(a) == Some(got[j]));
                    }
                    assert(got =~= want);
                }
                assert forall|order: Seq<u64>|
                    val.over(order) && new_val.over(order) && !(**new_val is ThunkUnion) implies #[trigger] r.over(
                    order,
                ) by {
                    values::lemma_all_over(args@, order);
                    values::lemma_all_over(all, order);
                    assert(args@[i as int].over(order));
                    assert(inner.over(order));
                    assert forall|j: int| 0 <= j < all.len() implies (#[trigger] all[j]).over(order) by {
                        if j != i {
                            assert(args@[j].over(order));
                        }
                    }
                }
            }
            r
        },
        _ => val.clone(),
    }
}

/// The value with another one at a path.
pub fn replace_at_path(val: &PluckVal, path: &Vec<usize>, new_val: &PluckVal) -> (r: PluckVal)
    requires
        part(*val, path@) is Some,
    ensures
        forall|a: Worlds| #![trigger r.at(a)]
            val.at(a) is Some && new_val.at(a) is Some ==> r.at(a) == Some(
                replaced(val.at(a)->0, path@, new_val.at(a)->0),
            ),
        forall|order: Seq<u64>|
            val.over(order) && new_val.over(order) && !(**new_val is ThunkUnion)
                ==> #[trigger] r.over(order),
        part(r, path@) == Some(*new_val),
{
    assert(path@.skip(0) =~= path@);
    replace_from(val, path, 0, new_val)
}

/// The worlds of a distribution: those in which everything is evaluated, and
/// those for which there were not enough steps.
pub struct FullDistribution {
    pub resolved: Vec<World>,
    pub pending: Vec<World>,
    pub steps_left: usize,
}

/// The values of all worlds are evaluated, in constructor arguments and
/// matrix entries too, and each world is possible.
pub open spec fn all_resolved(s: Seq<World>) -> bool {
    forall|i: int|
        0 <= i < s.len() ==> still(*(#[trigger] s[i]).0) && known(*s[i].0) && s[i].1
            != BooleanFunction::False
}

/// An integer, all of whose bits are constants or not.
pub open spec fn whole_number(v: PluckValue, constant: bool) -> bool {
    v matches PluckValue::IntDist { bits } && all_known(bits@) == constant
}

/// The worlds differ from `e` in one part, which is a thunk there and
/// evaluated here, or an open integer there and a constant here.
pub open spec fn parted(e: World, path: Seq<usize>, new: Seq<World>) -> bool {
    part(e.0, path) matches Some(p) && {
        ||| !values::is_head(*p) && forall|i: int|
            0 <= i < new.len() ==> (part((#[trigger] new[i]).0, path) matches Some(q) && values::is_head(*q))
        ||| whole_number(*p, false) && forall|i: int|
            0 <= i < new.len() ==> (part((#[trigger] new[i]).0, path) matches Some(q) && whole_number(
                *q,
                true,
            ))
    }
}

/// A value with a thunk or an open integer in it is not resolved.
proof fn lemma_part_open(v: PluckVal, path: Seq<usize>)
    requires
        part(v, path) is Some,
        !values::is_head(*part(v, path)->0) || whole_number(*part(v, path)->0, false),
    ensures
        !still(*v) || !known(*v),
    decreases path.len(),
{
    if path.len() > 0 {
        match *v {
            PluckValue::Value { args, .. } => {
                let i = path[0] as int;
                lemma_part_open(args@[i], path.skip(1));
                if all_still(args@) && known_all(args@) {
                    lemma_all_resolved(args@, i);
                }
            },
            PluckValue::FloatMatrix { entries: args, .. } => {
                let i = path[0] as int;
                lemma_part_open(args@[i], path.skip(1));
                if all_still(args@) && known_all(args@) {
                    lemma_all_resolved(args@, i);
                }
            },
            _ => {},
        }
    }
}

proof fn lemma_all_resolved(s: Seq<PluckVal>, i: int)
    requires
        all_still(s),
        known_all(s),
        0 <= i < s.len(),
    ensures
        still(*s[i]),
        known(*s[i]),
    decreases s.len(),
{
    if i < s.len() - 1 {
        lemma_all_resolved(s.drop_last(), i);
        assert(s.drop_last()[i] == s[i]);
    }
}

/// A value with a thunk in it is not evaluated.
proof fn lemma_part_open_thunk(v: PluckVal, path: Seq<usize>)
    requires
        part(v, path) is Some,
        !values::is_head(*part(v, path)->0),
    ensures
        !still(*v),
    decreases path.len(),
{
    if path.len() > 0 {
        match *v {
            PluckValue::Value { args, .. } => {
                let i = path[0] as int;
                lemma_part_open_thunk(args@[i], path.skip(1));
                if all_still(args@) {
                    lemma_still_at(args@, i);
                }
            },
            PluckValue::FloatMatrix { entries: args, .. } => {
                let i = path[0] as int;
                lemma_part_open_thunk(args@[i], path.skip(1));
                if all_still(args@) {
                    lemma_still_at(args@, i);
                }
            },
            _ => {},
        }
    }
}

proof fn lemma_still_at(s: Seq<PluckVal>, i: int)
    requires
        all_still(s),
        0 <= i < s.len(),
    ensures
        still(*s[i]),
    decreases s.len(),
{
    if i < s.len() - 1 {
        lemma_still_at(s.drop_last(), i);
        assert(s.drop_last()[i] == s[i]);
    }
}

/// One world is worked on: the last of the queue. An impossible one is
/// dropped, a resolved one is put aside, and any other gives way to worlds in
/// which one more part is evaluated.
pub open spec fn worked(q: Seq<World>, r: Seq<World>, next: Seq<World>, done: Seq<World>) -> bool {
    q.len() > 0 && {
        let e = q.last();
        let rest = q.drop_last();
        if e.1 == BooleanFunction::False {
            next == rest && done == r
        } else if still(*e.0) && known(*e.0) {
            next == rest && done == seq![e] + r
        } else {
            done == r && exists|path: Seq<usize>, new: Seq<World>| #[trigger]
                parted(e, path, new) && next == rest + new
        }
    }
}

/// After `n` worlds were worked on, these are in the queue and those are put
/// aside.
pub open spec fn worked_through(first: Seq<World>, n: nat, q: Seq<World>, r: Seq<World>) -> bool
    decreases n,
{
    if n == 0 {
        q == first && r == Seq::<World>::empty()
    } else {
        exists|p: Seq<World>, s: Seq<World>|
            worked_through(first, (n - 1) as nat, p, s) && #[trigger] worked(p, s, q, r)
    }
}

proof fn lemma_one_more(
    first: Seq<World>,
    n: nat,
    p: Seq<World>,
    s: Seq<World>,
    q: Seq<World>,
    r: Seq<World>,
)
    requires
        worked_through(first, n, p, s),
        worked(p, s, q, r),
    ensures
        worked_through(first, n + 1, q, r),
{
    assert((n + 1 - 1) as nat == n);
}

/// The choice of one list of worlds or the other.
pub open spec fn both(s: Seq<World>, t: Seq<World>, a: Worlds) -> Outcome {
    values::either(values::pick(s, a), values::pick(t, a))
}

/// An outcome that stands for another one, which is evaluated further.
pub open spec fn stands_for(now: Outcome, x: Model, whole: Outcome) -> bool {
    &&& now != Outcome::Stuck
    &&& forall|q: Outcome| #[trigger] finishes(now, x, q) ==> finishes(whole, x, q)
    &&& forall|f: nat| semantics::kept(#[trigger] ended(whole, x, f), ended(now, x, f))
}

impl<'a, F: Fn(RealOp, u64, u64) -> u64, G: Fn(usize, Vec<u64>) -> bool> CompilerCtx<'a, F, G> {
    /// The worlds stand for the first ones.
    pub open spec fn continues(&self, first: Seq<World>, s: Seq<World>, t: Seq<World>) -> bool {
        forall|a: Worlds, x: Model| #[trigger]
            self.allows(a, x) && values::pick(first, a) != Outcome::Stuck ==> stands_for(
                both(s, t, a),
                x,
                values::pick(first, a),
            )
    }

    /// The worlds of a value with an evaluated part, under the guard.
    fn with_parts(&self, val: &PluckVal, guard: &BooleanFunction, path: &Vec<usize>, subs: &Vec<World>) -> (r:
        Vec<World>)
        requires
            self.wf(),
            part(*val, path@) is Some,
            val.over(self.vars()),
            guard.wf(self.vars()),
            values::entries_over(subs@, self.vars()),
            values::heads(subs@),
        ensures
            values::entries_over(r@, self.vars()),
            forall|i: int|
                0 <= i < r@.len() ==> (part((#[trigger] r@[i]).0, path@) matches Some(q) && values::is_head(*q)),
            forall|a: Worlds| #![trigger values::pick(r@, a)]
                !guard.eval(a) ==> values::pick(r@, a) == Outcome::Fail,
            forall|a: Worlds| #![trigger values::pick(r@, a)]
                guard.eval(a) && val.at(a) is Some ==> match values::pick(subs@, a) {
                    Outcome::Fail => values::pick(r@, a) == Outcome::Fail,
                    Outcome::Done(e) => values::pick(r@, a) == Outcome::Done(
                        replaced(val.at(a)->0, path@, e),
                    ),
                    Outcome::Stuck => true,
                },
    {
        let mut r: Vec<World> = Vec::new();
        let mut i: usize = 0;
        assert(subs@.take(0) =~= Seq::<World>::empty());
        while i < subs.len()
            invariant
                i <= subs@.len(),
                self.wf(),
                part(*val, path@) is Some,
                val.over(self.vars()),
                guard.wf(self.vars()),
                values::entries_over(subs@, self.vars()),
                values::heads(subs@),
                values::entries_over(r@, self.vars()),
                forall|i: int|
                    0 <= i < r@.len() ==> (part((#[trigger] r@[i]).0, path@) matches Some(q)
                        && values::is_head(*q)),
                forall|a: Worlds| #![trigger values::pick(r@, a)]
                    !guard.eval(a) ==> values::pick(r@, a) == Outcome::Fail,
                forall|a: Worlds| #![trigger values::pick(r@, a)]
                    guard.eval(a) && val.at(a) is Some ==> match values::pick(
                        subs@.take(i as int),
                        a,
                    ) {
                        Outcome::Fail => values::pick(r@, a) == Outcome::Fail,
                        Outcome::Done(e) => values::pick(r@, a) == Outcome::Done(
                            replaced(val.at(a)->0, path@, e),
                        ),
                        Outcome::Stuck => true,
                    },
            decreases subs@.len() - i,
        {
            proof {
                values::lemma_entries_over(subs@, self.vars());
                assert(subs@[i as int].0.over(self.vars()));
            }
            let ghost before = r@;
            let sub: PluckVal = subs[i].0.clone();
            let both_hold: BooleanFunction = self.state.factorizer.and(guard, &subs[i].1);
            let ghost e = subs@[i as int];
            proof {
                assert forall|a: Worlds| #[trigger] values::pick(subs@.take(i + 1), a) == values::either(
                    values::pick(subs@.take(i as int), a),
                    values::option(e, a),
                ) by {
                    assert(subs@.take(i + 1) =~= subs@.take(i as int).push(e));
                    values::lemma_pick_push(subs@.take(i as int), e, a);
                }
            }
            if !both_hold.is_false() {
                let v: PluckVal = replace_at_path(val, path, &sub);
                r.push((v, both_hold));
                proof {
                    let w = (v, both_hold);
                    assert(r@.drop_last() =~= before);
                    assert(v.over(self.vars()));
                    assert forall|a: Worlds| #![trigger values::pick(r@, a)] !guard.eval(a) implies values::pick(
                        r@,
                        a,
                    ) == Outcome::Fail by {
                        values::lemma_pick_push(before, w, a);
                        assert(!both_hold.eval(a));
                        assert(values::pick(before, a) == Outcome::Fail);
                    }
                    assert forall|a: Worlds| #![trigger values::pick(r@, a)] guard.eval(a) && val.at(a) is Some implies match values::pick(
                        subs@.take(i + 1),
                        a,
                    ) {
                        Outcome::Fail => values::pick(r@, a) == Outcome::Fail,
                        Outcome::Done(e) => values::pick(r@, a) == Outcome::Done(
                            replaced(val.at(a)->0, path@, e),
                        ),
                        Outcome::Stuck => true,
                    } by {
                        values::lemma_pick_push(before, w, a);
                        assert(both_hold.eval(a) == e.1.eval(a));
                        assert(values::pick(before, a) == values::pick(before, a));
                        assert(v.at(a) == v.at(a));
                    }
                }
            } else {
                proof {
                    assert forall|a: Worlds| #![trigger values::pick(r@, a)] guard.eval(a) && val.at(a) is Some implies match values::pick(
                        subs@.take(i + 1),
                        a,
                    ) {
                        Outcome::Fail => values::pick(r@, a) == Outcome::Fail,
                        Outcome::Done(e) => values::pick(r@, a) == Outcome::Done(
                            replaced(val.at(a)->0, path@, e),
                        ),
                        Outcome::Stuck => true,
                    } by {
                        assert(!both_hold.eval(a));
                        assert(!e.1.eval(a));
                    }
                }
            }
            i = i + 1;
        }
        assert(subs@.take(subs@.len() as int) =~= subs@);
        r
    }
}

/// If a thunk in a datum cannot be evaluated so deep, neither can the whole.
proof fn lemma_finish_stuck(d: Datum, path: Seq<usize>, td: Datum, x: Model, f: nat)
    requires
        datum_at(d, path) == Some(td),
        calm_before(d, path),
        semantics::force(td, x, f) == Outcome::Stuck,
    ensures
        finish(d, x, f) == Outcome::Stuck,
    decreases path.len(),
{
    if path.len() > 0 {
        match d {
            Datum::Value { args, .. } => {
                let i = path[0] as int;
                lemma_finish_stuck(args[i], path.skip(1), td, x, f);
                lemma_all_calm(args.take(i), x, f);
                assert(args.take(i + 1).drop_last() =~= args.take(i));
                lemma_stuck_prefix(args, i + 1, args.len() as int, x, f);
                assert(args.take(args.len() as int) =~= args);
            },
            Datum::Matrix { entries: args, .. } => {
                let i = path[0] as int;
                lemma_finish_stuck(args[i], path.skip(1), td, x, f);
                lemma_all_calm(args.take(i), x, f);
                assert(args.take(i + 1).drop_last() =~= args.take(i));
                lemma_stuck_prefix(args, i + 1, args.len() as int, x, f);
                assert(args.take(args.len() as int) =~= args);
            },
            _ => {},
        }
    }
}

proof fn lemma_stuck_prefix(s: Seq<Datum>, m: int, n: int, x: Model, g: nat)
    requires
        0 <= m <= n <= s.len(),
        finish_all(s.take(m), x, g) == Err::<Seq<Datum>, Outcome>(Outcome::Stuck),
    ensures
        finish_all(s.take(n), x, g) == Err::<Seq<Datum>, Outcome>(Outcome::Stuck),
    decreases n,
{
    if m < n {
        lemma_stuck_prefix(s, m, n - 1, x, g);
        assert(s.take(n).drop_last() =~= s.take(n - 1));
    }
}

/// With a thunk evaluated, the whole can be evaluated as deep.
proof fn lemma_finish_back(d: Datum, path: Seq<usize>, td: Datum, e: Datum, x: Model, f: nat)
    requires
        datum_at(d, path) == Some(td),
        semantics::force(td, x, f) == Outcome::Done(e),
    ensures
        semantics::kept(finish(d, x, f), finish(replaced(d, path, e), x, f)),
    decreases path.len(),
{
    if path.len() == 0 {
        if f > 0 {
            lemma_finish_deeper(e, x, (f - 1) as nat, f);
        }
    } else {
        match d {
            Datum::Value { args, .. } => {
                let i = path[0] as int;
                let r = replaced(args[i], path.skip(1), e);
                let other = args.update(i, r);
                lemma_finish_back(args[i], path.skip(1), td, e, x, f);
                lemma_prefix_back(args, i, r, x, f, args.len() as int);
                assert(args.take(args.len() as int) =~= args);
                assert(other.take(args.len() as int) =~= other);
            },
            Datum::Matrix { entries: args, .. } => {
                let i = path[0] as int;
                let r = replaced(args[i], path.skip(1), e);
                let other = args.update(i, r);
                lemma_finish_back(args[i], path.skip(1), td, e, x, f);
                lemma_prefix_back(args, i, r, x, f, args.len() as int);
                assert(args.take(args.len() as int) =~= args);
                assert(other.take(args.len() as int) =~= other);
            },
            _ => {},
        }
    }
}

proof fn lemma_prefix_back(s: Seq<Datum>, i: int, r: Datum, x: Model, f: nat, n: int)
    requires
        0 <= i < s.len(),
        0 <= n <= s.len(),
        semantics::kept(finish(s[i], x, f), finish(r, x, f)),
    ensures
        finish_all(s.take(n), x, f) == Err::<Seq<Datum>, Outcome>(Outcome::Stuck) || finish_all(
            s.take(n),
            x,
            f,
        ) == finish_all(s.update(i, r).take(n), x, f),
    decreases n,
{
    if n > 0 {
        let t = s.update(i, r);
        lemma_prefix_back(s, i, r, x, f, n - 1);
        assert(s.take(n).drop_last() =~= s.take(n - 1));
        assert(t.take(n).drop_last() =~= t.take(n - 1));
    }
}

/// An outcome, with every thunk in it evaluated.
pub open spec fn ended(o: Outcome, x: Model, f: nat) -> Outcome {
    match o {
        Outcome::Done(d) => finish(d, x, f),
        _ => o,
    }
}

/// A list of known bits.
fn known_bits(s: &Vec<bool>) -> (r: Vec<BooleanFunction>)
    ensures
        all_known(r@),
        forall|order: Seq<u64>| #[trigger] values::bits_over(r@, order),
        forall|a: Worlds| #[trigger] values::bits_at(r@, a) == s@,
{
    let mut r: Vec<BooleanFunction> = Vec::new();
    let mut i: usize = 0;
    while i < s.len()
        invariant
            i <= s@.len(),
            r@.len() == i,
            all_known(r@),
            forall|j: int| 0 <= j < i ==> (#[trigger] r@[j] == BooleanFunction::True) == s@[j],
        decreases s@.len() - i,
    {
        if s[i] {
            r.push(BooleanFunction::true_ptr());
        } else {
            r.push(BooleanFunction::false_ptr());
        }
        i = i + 1;
    }
    proof {
        assert forall|a: Worlds| #[trigger] values::bits_at(r@, a) == s@ by {
            assert forall|j: int| 0 <= j < r@.len() implies r@[j].eval(a) == s@[j] by {
                assert((r@[j] == BooleanFunction::True) == s@[j]);
            }
            assert(values::bits_at(r@, a) =~= s@);
        }
        assert forall|order: Seq<u64>| #[trigger] values::bits_over(r@, order) by {
            assert forall|j: int| 0 <= j < r@.len() implies (#[trigger] r@[j]).wf(order) by {
                assert(r@[j] == BooleanFunction::True || r@[j] == BooleanFunction::False);
            }
        }
    }
    r
}

impl<'a, F: Fn(RealOp, u64, u64) -> u64, G: Fn(usize, Vec<u64>) -> bool> CompilerCtx<'a, F, G> {
    /// The worlds of a value by what an integer in it is, under the guard.
    fn with_integers(&self, val: &PluckVal, guard: &BooleanFunction, path: &Vec<usize>) -> (r: Vec<World>)
        requires
            self.wf(),
            part(*val, path@) is Some,
            *part(*val, path@)->0 is IntDist,
            val.over(self.vars()),
            guard.wf(self.vars()),
        ensures
            values::entries_over(r@, self.vars()),
            forall|i: int|
                0 <= i < r@.len() ==> (part((#[trigger] r@[i]).0, path@) matches Some(q) && whole_number(
                    *q,
                    true,
                )),
            forall|a: Worlds| #![trigger values::pick(r@, a)]
                !guard.eval(a) ==> values::pick(r@, a) == Outcome::Fail,
            forall|a: Worlds| #![trigger values::pick(r@, a)]
                guard.eval(a) && val.at(a) is Some ==> values::pick(r@, a) == Outcome::Done(
                    val.at(a)->0,
                ),
    {
        let mut r: Vec<World> = Vec::new();
        let integer: PluckVal = get_value_at_path(val, path);
        proof {
            lemma_part_over(*val, path@, self.vars());
        }
        match &*integer {
            PluckValue::IntDist { bits } => {
                let dist: IntDist = IntDist::new(clone_bits(bits));
                let expanded: Vec<(Vec<bool>, BooleanFunction)> = enumerate_int_dist(
                    &dist,
                    guard,
                    &self.state.factorizer,
                );
                let mut i: usize = 0;
                assert(expanded@.take(0) =~= Seq::<(Vec<bool>, BooleanFunction)>::empty());
                while i < expanded.len()
                    invariant
                        i <= expanded@.len(),
                        part(*val, path@) == Some(integer),
                        *integer matches PluckValue::IntDist { bits: b } && b == *bits,
                        dist.bits@ == bits@,
                        val.over(self.vars()),
                        forall|k: int|
                            0 <= k < expanded@.len() ==> int_dists::enumerated(
                                &dist,
                                #[trigger] expanded@[k],
                                &self.state.factorizer,
                            ),
                        values::entries_over(r@, self.vars()),
                        forall|i: int|
                            0 <= i < r@.len() ==> (part((#[trigger] r@[i]).0, path@) matches Some(q)
                                && whole_number(*q, true)),
                        forall|a: Worlds| #![trigger values::pick(r@, a)]
                            int_dists::hits(expanded@.take(i as int), a) == 0 ==> values::pick(r@, a)
                                == Outcome::Fail,
                        forall|a: Worlds| #![trigger values::pick(r@, a)]
                            int_dists::hits(expanded@.take(i as int), a) == 1 && val.at(a) is Some
                                ==> values::pick(r@, a) == Outcome::Done(val.at(a)->0),
                    decreases expanded@.len() - i,
                {
                    let ghost before = r@;
                    let ghost e = expanded@[i as int];
                    let known: PluckVal = mk_int_dist(known_bits(&expanded[i].0));
                    let v: PluckVal = replace_at_path(val, path, &known);
                    let world: BooleanFunction = expanded[i].1.clone();
                    r.push((v, world));
                    proof {
                        let w = (v, world);
                        assert(int_dists::enumerated(&dist, e, &self.state.factorizer));
                        assert(known.over(self.vars()));
                        assert(v.over(self.vars()));
                        assert(r@.drop_last() =~= before);
                        let head = expanded@.take(i as int);
                        let next = expanded@.take(i + 1);
                        assert(next.drop_last() =~= head);
                        assert(next.last() == e);
                        assert forall|a: Worlds| #![trigger values::pick(r@, a)] int_dists::hits(next, a)
                            == 0 implies values::pick(r@, a) == Outcome::Fail by {
                            values::lemma_pick_push(before, w, a);
                            assert(values::pick(before, a) == values::pick(before, a));
                        }
                        assert forall|a: Worlds| #![trigger values::pick(r@, a)] int_dists::hits(next, a)
                            == 1 && val.at(a) is Some implies values::pick(r@, a) == Outcome::Done(
                            val.at(a)->0,
                        ) by {
                            values::lemma_pick_push(before, w, a);
                            assert(values::pick(before, a) == values::pick(before, a));
                            if e.1.eval(a) {
                                lemma_part(*val, path@, a);
                                assert(dist.at(a) == e.0@);
                                assert(known.at(a) == Some(Datum::Int(e.0@)));
                                lemma_replaced_same(val.at(a)->0, path@, Datum::Int(e.0@));
                                assert(v.at(a) == Some(val.at(a)->0));
                            }
                        }
                    }
                    i = i + 1;
                }
                assert(expanded@.take(expanded@.len() as int) =~= expanded@);
                proof {
                    assert forall|a: Worlds| #![trigger values::pick(r@, a)] !guard.eval(a) implies values::pick(
                        r@,
                        a,
                    ) == Outcome::Fail by {
                        assert(int_dists::hits(expanded@, a) == 0);
                    }
                    assert forall|a: Worlds| #![trigger values::pick(r@, a)] guard.eval(a) && val.at(a) is Some implies values::pick(
                        r@,
                        a,
                    ) == Outcome::Done(val.at(a)->0) by {
                        assert(int_dists::hits(expanded@, a) == 1);
                    }
                }
            },
            _ => {},
        }
        r
    }

    /// With a thunk in one world evaluated, the worlds still stand for the
    /// first ones.
    proof fn lemma_thunk_step(
        &self,
        next: &Self,
        first: Seq<World>,
        queue: Seq<World>,
        e: World,
        res: Seq<World>,
        path: Seq<usize>,
        subs: GuardedWorlds,
        new: Seq<World>,
    )
        requires
            self.step(next),
            self.continues(first, queue.push(e), res),
            part(e.0, path) is Some,
            still_before(e.0, path),
            next.right(subs, ctx::forcing(part(e.0, path)->0)),
            ctx::covers(subs, e.1),
            forall|a: Worlds| #![trigger values::pick(new, a)]
                !e.1.eval(a) ==> values::pick(new, a) == Outcome::Fail,
            forall|a: Worlds| #![trigger values::pick(new, a)]
                e.1.eval(a) && e.0.at(a) is Some ==> match values::pick(subs.0@, a) {
                    Outcome::Fail => values::pick(new, a) == Outcome::Fail,
                    Outcome::Done(d) => values::pick(new, a) == Outcome::Done(
                        replaced(e.0.at(a)->0, path, d),
                    ),
                    Outcome::Stuck => true,
                },
        ensures
            next.continues(first, queue + new, res),
    {
        let thunk = part(e.0, path)->0;
        let s = ctx::forcing(thunk);
        assert forall|a: Worlds, x: Model| #[trigger]
            next.allows(a, x) && values::pick(first, a) != Outcome::Stuck implies stands_for(
            both(queue + new, res, a),
            x,
            values::pick(first, a),
        ) by {
            assert(next.state.fits(a, x));
            assert(self.allows(a, x));
            let whole = values::pick(first, a);
            let old_now = both(queue.push(e), res, a);
            let now = both(queue + new, res, a);
            assert(stands_for(old_now, x, whole));
            values::lemma_pick_push(queue, e, a);
            values::lemma_pick_concat(queue, new, a);
            assert(values::pick(new, a) == values::pick(new, a));
            if e.1.eval(a) {
                assert(e.0.at(a) is Some);
                let d = e.0.at(a)->0;
                assert(old_now == Outcome::Done(d));
                lemma_part(e.0, path, a);
                let td = thunk.at(a)->0;
                let o = values::pick(subs.0@, a);
                assert(subs.1.eval(a));
                assert(s(a, x, 0) is Some);
                assert(ctx::reached(s, a, x, o));
                let f0 = choose|f: nat| #[trigger] s(a, x, f) == Some(o);
                super::kont::lemma_forcing_sound(thunk);
                assert(semantics::force(td, x, f0) == o);
                if o is Done {
                    let g = o->Done_0;
                    assert(now == Outcome::Done(replaced(d, path, g)));
                    assert forall|q: Outcome| #[trigger] finishes(now, x, q) implies finishes(whole, x, q) by {
                        let f = choose|f: nat| #[trigger] finish(replaced(d, path, g), x, f) == q;
                        let m = (if f < f0 {
                            f0
                        } else {
                            f
                        }) + 1;
                        lemma_finish_replaced(d, path, td, g, x, f0, f, m);
                        assert(finish(d, x, m) == q);
                        assert(finishes(old_now, x, q));
                    }
                    assert forall|f: nat| semantics::kept(#[trigger] ended(whole, x, f), ended(now, x, f)) by {
                        ctx::lemma_reached(s, a, x, o, f);
                        assert(semantics::kept(ended(whole, x, f), ended(old_now, x, f)));
                        if semantics::force(td, x, f) == o {
                            lemma_finish_back(d, path, td, g, x, f);
                        } else {
                            assert(s(a, x, f) == Some(semantics::force(td, x, f)));
                            lemma_finish_stuck(d, path, td, x, f);
                        }
                    }
                } else {
                    assert(now == Outcome::Fail);
                    assert forall|q: Outcome| #[trigger] finishes(now, x, q) implies finishes(whole, x, q) by {
                        lemma_finish_failed(d, path, td, x, f0, f0 + 1);
                        assert(finish(d, x, f0 + 1) == q);
                        assert(finishes(old_now, x, q));
                    }
                    assert forall|f: nat| semantics::kept(#[trigger] ended(whole, x, f), ended(now, x, f)) by {
                        ctx::lemma_reached(s, a, x, o, f);
                        assert(s(a, x, f) == Some(semantics::force(td, x, f)));
                        assert(semantics::kept(ended(whole, x, f), ended(old_now, x, f)));
                        if semantics::force(td, x, f) == o {
                            if f > 0 {
                                lemma_finish_failed(d, path, td, x, f, f);
                            }
                        } else {
                            lemma_finish_stuck(d, path, td, x, f);
                        }
                    }
                }
            } else {
                assert(now == old_now);
            }
        }
    }

    /// With an integer in one world known, the worlds still stand for the
    /// first ones.
    proof fn lemma_same_step(&self, first: Seq<World>, queue: Seq<World>, e: World, res: Seq<World>, new: Seq<World>)
        requires
            self.continues(first, queue.push(e), res),
            forall|a: Worlds| #![trigger values::pick(new, a)]
                !e.1.eval(a) ==> values::pick(new, a) == Outcome::Fail,
            forall|a: Worlds| #![trigger values::pick(new, a)]
                e.1.eval(a) && e.0.at(a) is Some ==> values::pick(new, a) == Outcome::Done(
                    e.0.at(a)->0,
                ),
        ensures
            self.continues(first, queue + new, res),
    {
        assert forall|a: Worlds, x: Model| #[trigger]
            self.allows(a, x) && values::pick(first, a) != Outcome::Stuck implies stands_for(
            both(queue + new, res, a),
            x,
            values::pick(first, a),
        ) by {
            assert(stands_for(both(queue.push(e), res, a), x, values::pick(first, a)));
            values::lemma_pick_push(queue, e, a);
            values::lemma_pick_concat(queue, new, a);
            assert(values::pick(new, a) == values::pick(new, a));
        }
    }

    proof fn lemma_resolved_step(&self, first: Seq<World>, queue: Seq<World>, e: World, res: Seq<World>)
        requires
            self.continues(first, queue.push(e), res),
        ensures
            self.continues(first, queue, seq![e] + res),
    {
        assert forall|a: Worlds, x: Model| #[trigger]
            self.allows(a, x) && values::pick(first, a) != Outcome::Stuck implies stands_for(
            both(queue, seq![e] + res, a),
            x,
            values::pick(first, a),
        ) by {
            assert(stands_for(both(queue.push(e), res, a), x, values::pick(first, a)));
            values::lemma_pick_push(queue, e, a);
            values::lemma_pick_concat(seq![e], res, a);
            values::lemma_pick_single(e);
            assert(values::pick(seq![e], a) == values::option(e, a));
        }
    }

    /// Under the guard of a world what is in it has a definite value.
    proof fn lemma_world_total(
        &self,
        first: Seq<World>,
        queue: Seq<World>,
        e: World,
        res: Seq<World>,
        path: Seq<usize>,
    )
        requires
            self.continues(first, queue.push(e), res),
            part(e.0, path) is Some,
            forall|a: Worlds, x: Model| #[trigger]
                self.allows(a, x) ==> values::pick(first, a) != Outcome::Stuck,
        ensures
            self.total(e.1, ctx::forcing(part(e.0, path)->0)),
    {
        let s = ctx::forcing(part(e.0, path)->0);
        assert forall|a: Worlds, x: Model| #[trigger] self.allows(a, x) && e.1.eval(a) implies s(a, x, 0) is Some by {
            assert(stands_for(both(queue.push(e), res, a), x, values::pick(first, a)));
            values::lemma_pick_push(queue, e, a);
            lemma_part(e.0, path, a);
        }
    }

    /// If a thunk cannot be evaluated, some first world cannot either.
    proof fn lemma_world_stuck(
        &self,
        next: &Self,
        first: Seq<World>,
        queue: Seq<World>,
        e: World,
        res: Seq<World>,
        path: Seq<usize>,
    )
        requires
            self.step(next),
            self.continues(first, queue.push(e), res),
            part(e.0, path) is Some,
            still_before(e.0, path),
            forall|a: Worlds, x: Model| #[trigger]
                self.allows(a, x) ==> values::pick(first, a) != Outcome::Stuck,
            next.stuck(e.1, ctx::forcing(part(e.0, path)->0)),
        ensures
            next.unfinished(first),
    {
        let thunk = part(e.0, path)->0;
        let s = ctx::forcing(thunk);
        let f = next.fuel();
        let (a, x) = choose|a: Worlds, x: Model| #[trigger]
            next.allows(a, x) && e.1.eval(a) && s(a, x, f) == Some(Outcome::Stuck);
        assert(next.state.fits(a, x));
        assert(self.allows(a, x));
        let whole = values::pick(first, a);
        let now = both(queue.push(e), res, a);
        assert(stands_for(now, x, whole));
        values::lemma_pick_push(queue, e, a);
        lemma_part(e.0, path, a);
        lemma_finish_stuck(e.0.at(a)->0, path, thunk.at(a)->0, x, f);
        assert(ended(now, x, f) == Outcome::Stuck);
        assert(semantics::kept(ended(whole, x, f), ended(now, x, f)));
        assert(next.allows(a, x) && ended(values::pick(first, a), x, next.fuel()) == Outcome::Stuck);
    }

    /// Somewhere the worlds cannot be evaluated within the limit.
    pub open spec fn unfinished(&self, first: Seq<World>) -> bool {
        exists|a: Worlds, x: Model| #[trigger]
            self.allows(a, x) && ended(values::pick(first, a), x, self.fuel()) == Outcome::Stuck
    }

    /// A world may stand anywhere among the pending ones.
    proof fn lemma_aside_step(
        &self,
        first: Seq<World>,
        lost: Seq<World>,
        queue: Seq<World>,
        e: World,
        res: Seq<World>,
    )
        requires
            self.continues(first, (lost + queue).push(e), res),
        ensures
            self.continues(first, lost.push(e) + queue, res),
    {
        assert forall|a: Worlds, x: Model| #[trigger]
            self.allows(a, x) && values::pick(first, a) != Outcome::Stuck implies stands_for(
            both(lost.push(e) + queue, res, a),
            x,
            values::pick(first, a),
        ) by {
            assert(stands_for(both((lost + queue).push(e), res, a), x, values::pick(first, a)));
            values::lemma_pick_push(lost + queue, e, a);
            values::lemma_pick_push(lost, e, a);
            values::lemma_pick_concat(lost, queue, a);
            values::lemma_pick_concat(lost.push(e), queue, a);
        }
    }

    /// What is left when no thunk can be evaluated any more: the worlds
    /// without thunks are resolved, and the others stay pending.
    fn without_thunks(
        &self,
        queue: Vec<World>,
        resolved: Vec<World>,
        e: World,
        budget: usize,
        Ghost(first): Ghost<Seq<World>>,
    ) -> (r: FullDistribution)
        requires
            self.wf(),
            values::entries_over(queue@, self.vars()),
            values::entries_over(resolved@, self.vars()),
            values::entries_over(seq![e], self.vars()),
            all_resolved(resolved@),
            !still(*e.0),
            self.continues(first, queue@.push(e), resolved@),
        ensures
            self.salvaged(first, r),
    {
        let mut queue: Vec<World> = queue;
        let mut resolved: Vec<World> = resolved;
        let mut lost: Vec<World> = Vec::new();
        let mut steps: usize = budget;
        proof {
            assert(lost@ + queue@ =~= queue@);
            self.lemma_aside_step(first, lost@, queue@, e, resolved@);
            assert(lost@.push(e) =~= seq![e]);
        }
        lost.push(e);
        while steps > 0 && queue.len() > 0
            invariant
                self.wf(),
                values::entries_over(queue@, self.vars()),
                values::entries_over(resolved@, self.vars()),
                values::entries_over(lost@, self.vars()),
                all_resolved(resolved@),
                forall|i: int| 0 <= i < lost@.len() ==> !still(*(#[trigger] lost@[i]).0),
                self.continues(first, lost@ + queue@, resolved@),
            decreases steps,
        {
            steps = steps - 1;
            let ghost before = queue@;
            let ghost res = resolved@;
            let ghost aside = lost@;
            let (val, guard) = match queue.pop() {
                Some(w) => w,
                None => {
                    return FullDistribution { resolved, pending: lost, steps_left: steps };
                },
            };
            let ghost e = (val, guard);
            proof {
                assert(before =~= queue@.push(e));
                assert(before.drop_last() =~= queue@);
                assert(values::entries_over(queue@, self.vars()));
                assert(aside + before =~= (aside + queue@).push(e));
                assert(values::entries_over(before, self.vars()));
                values::lemma_entries_over(before, self.vars());
                assert(before[before.len() - 1] == e);
            }
            if guard.is_false() {
                proof {
                    let none = Seq::<World>::empty();
                    self.lemma_same_step(first, aside + queue@, e, res, none);
                    assert((aside + queue@) + none =~= aside + queue@);
                }
            } else {
                match find_first_thunk(&val) {
                    Some(path) => {
                        proof {
                            self.lemma_aside_step(first, aside, queue@, e, res);
                            lemma_part_open_thunk(val, path@);
                        }
                        lost.push((val, guard));
                        proof {
                            assert(lost@ =~= aside.push(e));
                            assert(lost@.drop_last() =~= aside);
                        }
                    },
                    None => match find_first_non_const_int_dist(&val) {
                        Some(path) => {
                            let mut new: Vec<World> = self.with_integers(&val, &guard, &path);
                            let ghost added = new@;
                            let ghost rest = queue@;
                            proof {
                                self.lemma_same_step(first, aside + rest, e, res, added);
                                lemma_entries_over_concat(rest, added, self.vars());
                            }
                            queue.append(&mut new);
                            proof {
                                assert(queue@ =~= rest + added);
                                assert((aside + rest) + added =~= aside + queue@);
                            }
                        },
                        None => {
                            resolved.insert(0, (val, guard));
                            proof {
                                self.lemma_resolved_step(first, aside + queue@, e, res);
                                assert(resolved@ =~= seq![e] + res);
                                values::lemma_pick_single(e);
                                assert(seq![e].drop_last() =~= Seq::<World>::empty());
                                assert(values::entries_over(seq![e], self.vars()));
                                lemma_entries_over_concat(seq![e], res, self.vars());
                                assert forall|i: int| 0 <= i < resolved@.len() implies still(
                                    *(#[trigger] resolved@[i]).0,
                                ) && known(*resolved@[i].0) && resolved@[i].1 != BooleanFunction::False by {
                                    if i > 0 {
                                        assert(resolved@[i] == res[i - 1]);
                                    }
                                }
                            }
                        },
                    },
                }
            }
        }
        let ghost (aside, rest) = (lost@, queue@);
        proof {
            lemma_entries_over_concat(aside, rest, self.vars());
        }
        lost.append(&mut queue);
        assert(lost@ =~= aside + rest);
        FullDistribution { resolved, pending: lost, steps_left: steps }
    }

    /// The worlds stand for the first ones, those that are put aside are
    /// resolved, and unless the steps are used up only worlds with thunks are
    /// pending.
    pub open spec fn salvaged(&self, first: Seq<World>, r: FullDistribution) -> bool {
        &&& all_resolved(r.resolved@)
        &&& values::entries_over(r.resolved@, self.vars())
        &&& values::entries_over(r.pending@, self.vars())
        &&& self.continues(first, r.pending@, r.resolved@)
        &&& r.steps_left > 0 ==> forall|i: int|
            0 <= i < r.pending@.len() ==> !still(*(#[trigger] r.pending@[i]).0)
    }

    /// Iteratively forces all thunks and integers in the values of worlds
    /// until none remain, or `budget` worlds were worked on. At a limit the
    /// worlds that need no more evaluation are resolved all the same.
    #[verifier::rlimit(50)]
    pub fn infer_full_distribution(&mut self, initial_results: Vec<World>, budget: usize) -> (r:
        FullDistribution)
        requires
            old(self).wf(),
            !old(self).state.hit_limit,
            values::entries_over(initial_results@, old(self).vars()),
            forall|a: Worlds, x: Model| #[trigger]
                old(self).allows(a, x) ==> values::pick(initial_results@, a) != Outcome::Stuck,
        ensures
            old(self).step(final(self)),
            if final(self).state.hit_limit {
                final(self).unfinished(initial_results@) && final(self).salvaged(initial_results@, r)
            } else {
                &&& all_resolved(r.resolved@)
                &&& values::entries_over(r.resolved@, final(self).vars())
                &&& values::entries_over(r.pending@, final(self).vars())
                &&& final(self).continues(initial_results@, r.pending@, r.resolved@)
                &&& r.steps_left <= budget
                &&& worked_through(
                    initial_results@,
                    (budget - r.steps_left) as nat,
                    r.pending@,
                    r.resolved@,
                )
                &&& r.pending@.len() > 0 ==> r.steps_left == 0
            },
    {
        let ghost start = *self;
        let ghost first = initial_results@;
        let mut queue: Vec<World> = initial_results;
        let mut resolved: Vec<World> = Vec::new();
        let mut steps: usize = budget;
        proof {
            self.lemma_step_refl();
            assert(resolved@ =~= Seq::<World>::empty());
        }
        while steps > 0 && queue.len() > 0
            invariant
                start.step(self),
                !self.state.hit_limit,
                forall|a: Worlds, x: Model| #[trigger]
                    self.allows(a, x) ==> values::pick(first, a) != Outcome::Stuck,
                values::entries_over(queue@, self.vars()),
                values::entries_over(resolved@, self.vars()),
                all_resolved(resolved@),
                self.continues(first, queue@, resolved@),
                start == *old(self),
                first == initial_results@,
                steps <= budget,
                worked_through(first, (budget - steps) as nat, queue@, resolved@),
            decreases steps,
        {
            steps = steps - 1;
            let ghost before = queue@;
            let ghost res = resolved@;
            let (val, guard) = match queue.pop() {
                Some(w) => w,
                None => {
                    return FullDistribution { resolved, pending: queue, steps_left: steps };
                },
            };
            let ghost e = (val, guard);
            proof {
                assert(before =~= queue@.push(e));
                assert(before.drop_last() =~= queue@);
                assert(values::entries_over(queue@, self.vars()));
            }
            if guard.is_false() {
                proof {
                    let none = Seq::<World>::empty();
                    self.lemma_same_step(first, queue@, e, res, none);
                    assert(queue@ + none =~= queue@);
                    assert(worked(before, res, queue@, res));
                }
            } else {
                match find_first_thunk(&val) {
                    Some(path) => {
                        let thunk: PluckVal = get_value_at_path(&val, &path);
                        let ghost now = *self;
                        proof {
                            lemma_part_over(val, path@, self.vars());
                            self.lemma_world_total(first, queue@, e, res, path@);
                        }
                        let subs: GuardedWorlds = self.evaluate_thunk(&thunk, &guard);
                        proof {
                            start.lemma_step_trans(&now, self);
                            if self.state.hit_limit {
                                now.lemma_world_stuck(self, first, queue@, e, res, path@);
                            }
                        }
                        if self.state.hit_limit {
                            proof {
                                values::lemma_over_grows(&*val, now.vars(), self.vars());
                                values::lemma_entries_over_grows(queue@, now.vars(), self.vars());
                                values::lemma_entries_over_grows(res, now.vars(), self.vars());
                                assert(guard.wf(self.vars()));
                                values::lemma_pick_single(e);
                                assert(values::entries_over(seq![e], self.vars()));
                                lemma_part_open_thunk(val, path@);
                                assert(self.continues(first, queue@.push(e), res)) by {
                                    assert forall|a: Worlds, x: Model| #[trigger]
                                        self.allows(a, x) && values::pick(first, a) != Outcome::Stuck implies stands_for(
                                        both(queue@.push(e), res, a),
                                        x,
                                        values::pick(first, a),
                                    ) by {
                                        assert(self.state.fits(a, x));
                                        assert(now.allows(a, x));
                                    }
                                }
                            }
                            return self.without_thunks(
                                queue,
                                resolved,
                                (val, guard),
                                steps,
                                Ghost(first),
                            );
                        }
                        proof {
                            values::lemma_over_grows(&*val, now.vars(), self.vars());
                            values::lemma_entries_over_grows(queue@, now.vars(), self.vars());
                            values::lemma_entries_over_grows(res, now.vars(), self.vars());
                            assert(guard.wf(self.vars()));
                        }
                        let mut new: Vec<World> = self.with_parts(&val, &guard, &path, &subs.0);
                        let ghost added = new@;
                        proof {
                            now.lemma_thunk_step(
                                self,
                                first,
                                queue@,
                                e,
                                res,
                                path@,
                                subs,
                                added,
                            );
                            lemma_entries_over_concat(queue@, added, self.vars());
                            assert forall|a: Worlds, x: Model| #[trigger] self.allows(a, x) implies values::pick(
                                first,
                                a,
                            ) != Outcome::Stuck by {
                                assert(self.state.fits(a, x));
                                assert(now.allows(a, x));
                            }
                        }
                        let ghost rest = queue@;
                        queue.append(&mut new);
                        proof {
                            assert(parted(e, path@, added));
                            assert(!still(*e.0) || !known(*e.0)) by {
                                lemma_part_open(e.0, path@);
                            }
                            assert(queue@ =~= rest + added);
                            assert(worked(before, res, queue@, res));
                        }
                    },
                    None => match find_first_non_const_int_dist(&val) {
                        Some(path) => {
                            let mut new: Vec<World> = self.with_integers(&val, &guard, &path);
                            let ghost added = new@;
                            proof {
                                self.lemma_same_step(first, queue@, e, res, added);
                                lemma_entries_over_concat(queue@, added, self.vars());
                            }
                            let ghost rest = queue@;
                            queue.append(&mut new);
                            proof {
                                assert(parted(e, path@, added));
                                assert(!still(*e.0) || !known(*e.0)) by {
                                    lemma_part_open(e.0, path@);
                                }
                                assert(queue@ =~= rest + added);
                                assert(worked(before, res, queue@, res));
                            }
                        },
                        None => {
                            resolved.insert(0, (val, guard));
                            proof {
                                self.lemma_resolved_step(first, queue@, e, res);
                                assert(resolved@ =~= seq![e] + res);
                                assert(worked(before, res, queue@, resolved@));
                                values::lemma_pick_single(e);
                                assert(values::entries_over(seq![e], self.vars()));
                                lemma_entries_over_concat(seq![e], res, self.vars());
                                assert forall|i: int| 0 <= i < resolved@.len() implies still(
                                    *(#[trigger] resolved@[i]).0,
                                ) && known(*resolved@[i].0) && resolved@[i].1 != BooleanFunction::False by {
                                    if i > 0 {
                                        assert(resolved@[i] == res[i - 1]);
                                    }
                                }
                            }
                        },
                    },
                }
            }
            proof {
                lemma_one_more(
                    first,
                    (budget - steps - 1) as nat,
                    before,
                    res,
                    queue@,
                    resolved@,
                );
                assert((budget - steps - 1) as nat + 1 == (budget - steps) as nat);
            }
        }
        FullDistribution { resolved, pending: queue, steps_left: steps }
    }
}

proof fn lemma_entries_over_concat(s: Seq<World>, t: Seq<World>, order: Seq<u64>)
    requires
        values::entries_over(s, order),
        values::entries_over(t, order),
    ensures
        values::entries_over(s + t, order),
    decreases t.len(),
{
    if t.len() == 0 {
        assert(s + t =~= s);
    } else {
        lemma_entries_over_concat(s, t.drop_last(), order);
        assert((s + t).drop_last() =~= s + t.drop_last());
    }
}

} // verus!
