//! What evaluating a value throughout is for: nothing in it is left to
//! evaluate, and what needs no evaluation is as it was.

use vstd::prelude::*;

use super::assignment;
use super::assignment::Assignment;
use super::forcing;
use super::lazy_kc::distribution;
use super::lazy_kc::monad::World;
use super::lazy_kc::semantics;
use super::lazy_kc::semantics::Model;
use crate::discrete_factorizations::BooleanFunction;
use crate::language::types::Symbol;
use crate::language::values::{Datum, Outcome};

verus! {

/// No thunk and nothing that stands for a continuous variable, anywhere in
/// the datum if `drawn`, and else no thunk.
pub open spec fn bare(d: Datum, drawn: bool) -> bool
    decreases d,
{
    match d {
        Datum::Thunk { .. } => false,
        Datum::Value { args, .. } => forall|i: int|
            0 <= i < args.len() ==> bare(#[trigger] args[i], drawn),
        Datum::Matrix { entries, .. } => forall|i: int|
            0 <= i < entries.len() ==> bare(#[trigger] entries[i], drawn),
        Datum::Native(_) | Datum::Closure { .. } | Datum::Int(_) => true,
        _ => !drawn,
    }
}

/// A value that is evaluated throughout has nothing left to evaluate, and one
/// that has nothing to evaluate is the same afterwards.
pub proof fn lemma_finished(d: Datum, x: Model, f: nat)
    ensures
        distribution::finish(d, x, f) matches Outcome::Done(e) ==> bare(e, false),
        bare(d, false) ==> distribution::finish(d, x, f) == Outcome::Done(d),
    decreases f, d,
{
    match d {
        Datum::Thunk { .. } => {
            if f > 0 {
                if let Outcome::Done(e) = semantics::force(d, x, f) {
                    lemma_finished(e, x, (f - 1) as nat);
                }
            }
        },
        Datum::Value { args, .. } => lemma_all_finished(args, x, f),
        Datum::Matrix { entries, .. } => lemma_all_finished(entries, x, f),
        _ => {},
    }
}

proof fn lemma_all_finished(s: Seq<Datum>, x: Model, f: nat)
    ensures
        match distribution::finish_all(s, x, f) {
            Ok(t) => t.len() == s.len() && forall|i: int|
                0 <= i < t.len() ==> bare(#[trigger] t[i], false),
            Err(o) => !(o is Done),
        },
        (forall|i: int| 0 <= i < s.len() ==> bare(#[trigger] s[i], false))
            ==> distribution::finish_all(s, x, f) == Ok::<Seq<Datum>, Outcome>(s),
    decreases f, s,
{
    if s.len() > 0 {
        let p = s.drop_last();
        lemma_all_finished(p, x, f);
        lemma_finished(s.last(), x, f);
        if forall|i: int| 0 <= i < s.len() ==> bare(#[trigger] s[i], false) {
            assert forall|i: int| 0 <= i < p.len() implies bare(#[trigger] p[i], false) by {
                assert(p[i] == s[i]);
            }
            assert(bare(s[s.len() - 1], false));
            assert(p.push(s.last()) =~= s);
        }
    } else {
        assert(s =~= Seq::empty());
    }
}

/// A sample of a value has nothing left to evaluate or to draw, and a value
/// in which there is nothing of the kind is its own sample.
pub proof fn lemma_realized(d: Datum, asg: Assignment, x: Model, f: nat)
    ensures
        forcing::realized(d, asg, x, f) matches Outcome::Done(e) ==> bare(e, true),
        bare(d, true) ==> forcing::realized(d, asg, x, f) == Outcome::Done(d),
    decreases f, d,
{
    match d {
        Datum::Thunk { .. } => {
            if f > 0 {
                if let Outcome::Done(e) = semantics::force(d, x, f) {
                    lemma_realized(e, asg, x, (f - 1) as nat);
                }
            }
        },
        Datum::Value { args, .. } => lemma_all_realized(args, asg, x, f),
        Datum::Matrix { entries, .. } => lemma_all_realized(entries, asg, x, f),
        _ => {
            if let Some(Ok(e)) = assignment::value_of(d, asg, x.yes, x.arith) {
                if let Datum::Value { args, .. } = e {
                    assert forall|i: int| 0 <= i < args.len() implies bare(
                        #[trigger] args[i],
                        true,
                    ) by {}
                }
                assert(bare(e, true));
            }
        },
    }
}

proof fn lemma_all_realized(s: Seq<Datum>, asg: Assignment, x: Model, f: nat)
    ensures
        match forcing::realized_all(s, asg, x, f) {
            Ok(t) => t.len() == s.len() && forall|i: int|
                0 <= i < t.len() ==> bare(#[trigger] t[i], true),
            Err(o) => !(o is Done),
        },
        (forall|i: int| 0 <= i < s.len() ==> bare(#[trigger] s[i], true)) ==> forcing::realized_all(
            s,
            asg,
            x,
            f,
        ) == Ok::<Seq<Datum>, Outcome>(s),
    decreases f, s,
{
    if s.len() > 0 {
        let p = s.drop_last();
        lemma_all_realized(p, asg, x, f);
        lemma_realized(s.last(), asg, x, f);
        if forall|i: int| 0 <= i < s.len() ==> bare(#[trigger] s[i], true) {
            assert forall|i: int| 0 <= i < p.len() implies bare(#[trigger] p[i], true) by {
                assert(p[i] == s[i]);
            }
            assert(bare(s[s.len() - 1], true));
            assert(p.push(s.last()) =~= s);
        }
    } else {
        assert(s =~= Seq::empty());
    }
}

/// The sample of a continuous variable is its value, in whatever it stands;
/// the parts of a value are sampled each for itself.
pub proof fn lemma_parts_realized(
    d: Datum,
    asg: Assignment,
    x: Model,
    f: nat,
    e: Datum,
    i: int,
)
    requires
        forcing::realized(d, asg, x, f) == Outcome::Done(e),
        0 <= i,
    ensures
        match d {
            Datum::Value { constructor, args } => e matches Datum::Value {
                constructor: c,
                args: s,
            } && c == constructor && s.len() == args.len() && (i < args.len() ==> forcing::realized(
                args[i],
                asg,
                x,
                f,
            ) == Outcome::Done(s[i])),
            Datum::Matrix { entries, shape } => e matches Datum::Matrix {
                entries: s,
                shape: p,
            } && p == shape && s.len() == entries.len() && (i < entries.len() ==> forcing::realized(
                entries[i],
                asg,
                x,
                f,
            ) == Outcome::Done(s[i])),
            _ => true,
        },
{
    match d {
        Datum::Value { args, .. } => {
            lemma_all_realized(args, asg, x, f);
            lemma_each_realized(args, asg, x, f, i);
        },
        Datum::Matrix { entries, .. } => {
            lemma_all_realized(entries, asg, x, f);
            lemma_each_realized(entries, asg, x, f, i);
        },
        _ => {},
    }
}

proof fn lemma_each_realized(s: Seq<Datum>, asg: Assignment, x: Model, f: nat, i: int)
    requires
        forcing::realized_all(s, asg, x, f) is Ok,
        0 <= i,
    ensures
        ({
            let t = forcing::realized_all(s, asg, x, f)->Ok_0;
            t.len() == s.len() && (i < s.len() ==> forcing::realized(s[i], asg, x, f)
                == Outcome::Done(t[i]))
        }),
    decreases s.len(),
{
    if s.len() > 0 {
        lemma_each_realized(s.drop_last(), asg, x, f, i);
    }
}

/// The parts of a value are evaluated each for itself.
pub proof fn lemma_parts_finished(d: Datum, x: Model, f: nat, e: Datum, i: int)
    requires
        distribution::finish(d, x, f) == Outcome::Done(e),
        0 <= i,
    ensures
        match d {
            Datum::Value { constructor, args } => e matches Datum::Value {
                constructor: c,
                args: s,
            } && c == constructor && s.len() == args.len() && (i < args.len()
                ==> distribution::finish(args[i], x, f) == Outcome::Done(s[i])),
            Datum::Matrix { entries, shape } => e matches Datum::Matrix {
                entries: s,
                shape: p,
            } && p == shape && s.len() == entries.len() && (i < entries.len()
                ==> distribution::finish(entries[i], x, f) == Outcome::Done(s[i])),
            _ => true,
        },
{
    match d {
        Datum::Value { args, .. } => {
            lemma_all_finished(args, x, f);
            lemma_each_finished(args, x, f, i);
        },
        Datum::Matrix { entries, .. } => {
            lemma_all_finished(entries, x, f);
            lemma_each_finished(entries, x, f, i);
        },
        _ => {},
    }
}

proof fn lemma_each_finished(s: Seq<Datum>, x: Model, f: nat, i: int)
    requires
        distribution::finish_all(s, x, f) is Ok,
        0 <= i,
    ensures
        ({
            let t = distribution::finish_all(s, x, f)->Ok_0;
            t.len() == s.len() && (i < s.len() ==> distribution::finish(s[i], x, f)
                == Outcome::Done(t[i]))
        }),
    decreases s.len(),
{
    if s.len() > 0 {
        lemma_each_finished(s.drop_last(), x, f, i);
    }
}

/// The guard of the first world that is `True` and possible, if there is one.
pub proof fn lemma_first_true(s: Seq<World>, yes: Symbol)
    ensures
        match forcing::first_true(s, yes) {
            Some(g) => exists|i: int|
                0 <= i < s.len() && forcing::affirms(#[trigger] s[i], yes) && s[i].1 == g
                    && g != BooleanFunction::False && forall|j: int|
                    0 <= j < i ==> !forcing::affirms(#[trigger] s[j], yes),
            None => forall|i: int| 0 <= i < s.len() ==> !forcing::affirms(#[trigger] s[i], yes),
        },
    decreases s.len(),
{
    if s.len() > 0 {
        let t = s.skip(1);
        if forcing::affirms(s[0], yes) {
            assert(s[0].1 == forcing::first_true(s, yes)->0);
        } else {
            lemma_first_true(t, yes);
            match forcing::first_true(t, yes) {
                Some(g) => {
                    let i = choose|i: int|
                        0 <= i < t.len() && forcing::affirms(#[trigger] t[i], yes) && t[i].1 == g
                            && g != BooleanFunction::False && forall|j: int|
                            0 <= j < i ==> !forcing::affirms(#[trigger] t[j], yes);
                    assert(s[i + 1] == t[i]);
                    assert forall|j: int| 0 <= j < i + 1 implies !forcing::affirms(
                        #[trigger] s[j],
                        yes,
                    ) by {
                        if j > 0 {
                            assert(s[j] == t[j - 1]);
                        }
                    }
                },
                None => {
                    assert forall|i: int| 0 <= i < s.len() implies !forcing::affirms(
                        #[trigger] s[i],
                        yes,
                    ) by {
                        if i > 0 {
                            assert(s[i] == t[i - 1]);
                        }
                    }
                },
            }
        }
    }
}

} // verus!
