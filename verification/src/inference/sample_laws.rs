//! What the sample of a symbolic value is for: it is the number that the
//! value stands for, given the numbers that were drawn for its variables.

use vstd::prelude::*;

use super::assignment;
use super::assignment::Assignment;
use super::lazy_kc::affine;
use super::lazy_kc::affine::{Affine, FloatOp};
use super::lazy_kc::affine_laws;
use super::lazy_kc::affine_laws::Drawn;
use crate::language::pexpr::Const;
use crate::language::types::Symbol;
use crate::language::values::Datum;
use crate::utils::exact;
use crate::utils::exact::Field;
use crate::utils::reals::{Arithmetic, RealOp};

verus! {

/// The value that was drawn under the name; zero, if none was.
pub open spec fn drawn<V>(k: Field<V>, s: Seq<(u64, u64)>) -> Drawn<V> {
    |n: u64|
        if exists|i: int| #[trigger] first_at(s, n, i) {
            (k.value)(s[choose|i: int| #[trigger] first_at(s, n, i)].1)
        } else {
            k.zero
        }
}

/// The first entry under the name stands at `i`.
pub open spec fn first_at(s: Seq<(u64, u64)>, n: u64, i: int) -> bool {
    0 <= i < s.len() && s[i].0 == n && forall|j: int| 0 <= j < i ==> (#[trigger] s[j]).0 != n
}

/// What is found under a name is the first entry, if there is one.
pub proof fn lemma_found(s: Seq<(u64, u64)>, n: u64)
    ensures
        match assignment::found(s, n) {
            Some(v) => exists|i: int| #[trigger] first_at(s, n, i) && s[i].1 == v,
            None => forall|i: int| 0 <= i < s.len() ==> (#[trigger] s[i]).0 != n,
        },
    decreases s.len(),
{
    if s.len() > 0 {
        let t = s.skip(1);
        lemma_found(t, n);
        if s[0].0 == n {
            assert(first_at(s, n, 0));
        } else {
            match assignment::found(t, n) {
                Some(v) => {
                    let i = choose|i: int| #[trigger] first_at(t, n, i) && t[i].1 == v;
                    assert forall|j: int| 0 <= j < i + 1 implies (#[trigger] s[j]).0 != n by {
                        if j > 0 {
                            assert(t[j - 1] == s[j]);
                        }
                    }
                    assert(first_at(s, n, i + 1));
                },
                None => {
                    assert forall|i: int| 0 <= i < s.len() implies (#[trigger] s[i]).0 != n by {
                        if i > 0 {
                            assert(t[i - 1] == s[i]);
                        }
                    }
                },
            }
        }
    }
}

proof fn lemma_drawn<V>(k: Field<V>, s: Seq<(u64, u64)>, n: u64)
    ensures
        assignment::found(s, n) matches Some(v) ==> drawn(k, s)(n) == (k.value)(v),
{
    lemma_found(s, n);
    if let Some(v) = assignment::found(s, n) {
        let i = choose|i: int| #[trigger] first_at(s, n, i) && s[i].1 == v;
        let j = choose|j: int| #[trigger] first_at(s, n, j);
        assert(first_at(s, n, i));
        assert(first_at(s, n, j));
        assert(i == j) by {
            if i < j {
                assert(s[i].0 != n);
            } else if j < i {
                assert(s[j].0 != n);
            }
        }
    }
}

proof fn lemma_dot_first<V>(k: Field<V>, s: Seq<(u64, u64)>, env: Drawn<V>)
    requires
        k.laws(),
        s.len() > 0,
    ensures
        affine_laws::dot(k, s, env) == (k.plus)(
            affine_laws::term(k, s[0], env),
            affine_laws::dot(k, s.skip(1), env),
        ),
    decreases s.len(),
{
    let p = s.drop_last();
    let z = affine_laws::term(k, s.last(), env);
    if s.len() == 1 {
        assert(p =~= Seq::<(u64, u64)>::empty());
        assert(s.skip(1) =~= Seq::<(u64, u64)>::empty());
        exact::plus_zero(k, z);
    } else {
        lemma_dot_first(k, p, env);
        assert(p.skip(1) =~= s.skip(1).drop_last());
        assert(s.skip(1).last() == s.last());
        exact::plus_assoc(
            k,
            affine_laws::term(k, s[0], env),
            affine_laws::dot(k, p.skip(1), env),
            z,
        );
    }
}

proof fn lemma_affine_value<V>(
    k: Field<V>,
    total: u64,
    s: Seq<(u64, u64)>,
    vals: Seq<(u64, u64)>,
    f: Arithmetic,
)
    requires
        k.exact(f),
    ensures
        assignment::affine_value(total, s, vals, f) matches Ok(b) ==> (k.value)(b) == (k.plus)(
            (k.value)(total),
            affine_laws::dot(k, s, drawn(k, vals)),
        ),
    decreases s.len(),
{
    exact::exact_laws(k, f);
    if s.len() == 0 {
        exact::plus_zero(k, (k.value)(total));
    } else if let Some(v) = assignment::found(vals, s[0].0) {
        let p = f(RealOp::Product, s[0].1, v);
        let next = f(RealOp::Sum, total, p);
        lemma_drawn(k, vals, s[0].0);
        lemma_affine_value(k, next, s.skip(1), vals, f);
        exact::exact_product(k, s[0].1, v, f);
        exact::exact_sum(k, total, p, f);
        lemma_dot_first(k, s, drawn(k, vals));
        exact::plus_assoc(
            k,
            (k.value)(total),
            (k.value)(p),
            affine_laws::dot(k, s.skip(1), drawn(k, vals)),
        );
    }
}

/// The number that a datum stands for, given the numbers that were drawn: a
/// number stands for itself, a Gaussian expression for its constant plus its
/// coefficients times their variables, a scaled rate for its scale times its
/// variable, and an exponential draw for what was drawn.
pub open spec fn stands_for<V>(k: Field<V>, d: Datum, gauss: Drawn<V>, gamma: Drawn<V>) -> V {
    match d {
        Datum::Native(Const::Float(b)) => (k.value)(b),
        Datum::Native(Const::Int(i)) => k.integer(i as int),
        Datum::Gaussian { constant, coefficients } => (k.plus)(
            (k.value)(constant),
            affine_laws::dot(k, coefficients, gauss),
        ),
        Datum::Gamma { name, scale } => (k.times)((k.value)(scale), gamma(name)),
        Datum::Exponential { name, .. } => gamma(name),
        _ => k.zero,
    }
}

/// The sample of a Gaussian expression, a rate or an exponential draw is the
/// number that it stands for.
pub proof fn lemma_sample_is_value<V>(k: Field<V>, d: Datum, a: Assignment, yes: Symbol, f: Arithmetic)
    requires
        k.exact(f),
        d is Gaussian || d is Gamma || d is Exponential,
    ensures
        assignment::value_of(d, a, yes, f) is Some,
        assignment::value_of(d, a, yes, f)->0 matches Ok(e) ==> e matches Datum::Native(
            Const::Float(b),
        ) && (k.value)(b) == stands_for(k, d, drawn(k, a.gaussian@), drawn(k, a.gamma@)),
{
    exact::exact_laws(k, f);
    match d {
        Datum::Gaussian { constant, coefficients } => {
            lemma_affine_value(k, constant, coefficients, a.gaussian@, f);
        },
        Datum::Gamma { name, scale } => {
            lemma_drawn(k, a.gamma@, name);
            if let Some(v) = assignment::found(a.gamma@, name) {
                exact::exact_product(k, scale, v, f);
            }
        },
        Datum::Exponential { name, .. } => {
            lemma_drawn(k, a.gamma@, name);
        },
        _ => {},
    }
}

/// Sampling goes with the operations: the sample of the result of an
/// operation is what the operation makes of the samples of the operands.
pub proof fn lemma_sample_of_operation<V>(
    k: Field<V>,
    op: FloatOp,
    p: Affine,
    q: Affine,
    a: Assignment,
    yes: Symbol,
    f: Arithmetic,
    x: u64,
    y: u64,
    z: u64,
)
    requires
        k.exact(f),
        affine_laws::coarse(k),
        affine::combined(op, p, q, f) is Some,
        sampled(p, a, yes, f, x),
        sampled(q, a, yes, f, y),
        sampled(affine::combined(op, p, q, f)->0, a, yes, f, z),
        op == FloatOp::Div ==> (k.value)(y) != k.zero,
    ensures
        affine_laws::makes(k, op, (k.value)(x), (k.value)(y), (k.value)(z)),
{
    let r = affine::combined(op, p, q, f)->0;
    lemma_sample_is_value(k, expression(p), a, yes, f);
    lemma_sample_is_value(k, expression(q), a, yes, f);
    lemma_sample_is_value(k, expression(r), a, yes, f);
    affine_laws::lemma_operation_on_values(k, op, p, q, drawn(k, a.gaussian@), f);
}

pub open spec fn expression(p: Affine) -> Datum {
    Datum::Gaussian { constant: p.0, coefficients: p.1 }
}

/// The expression is sampled as the number.
pub open spec fn sampled(p: Affine, a: Assignment, yes: Symbol, f: Arithmetic, b: u64) -> bool {
    assignment::value_of(expression(p), a, yes, f) == Some(
        Ok::<Datum, u64>(Datum::Native(Const::Float(b))),
    )
}

/// An expression without variables is sampled as its constant.
pub proof fn lemma_constant_sampled(c: u64, a: Assignment, yes: Symbol, f: Arithmetic)
    ensures
        sampled((c, Seq::empty()), a, yes, f, c),
{
}

/// A variable is drawn under the name.
pub open spec fn has_draw(s: Seq<(u64, u64)>, n: u64) -> bool {
    exists|i: int| 0 <= i < s.len() && (#[trigger] s[i]).0 == n
}

proof fn lemma_has_draw(s: Seq<(u64, u64)>, n: u64)
    ensures
        has_draw(s, n) == (assignment::found(s, n) is Some),
{
    lemma_found(s, n);
    if let Some(v) = assignment::found(s, n) {
        let i = choose|i: int| #[trigger] first_at(s, n, i) && s[i].1 == v;
        assert(s[i].0 == n);
    }
}

/// A Gaussian expression can be sampled exactly if each of its variables was
/// drawn; otherwise the first variable that was not is named.
pub proof fn lemma_sampled_or_missing(c: u64, s: Seq<(u64, u64)>, vals: Seq<(u64, u64)>, f: Arithmetic)
    ensures
        match assignment::affine_value(c, s, vals, f) {
            Ok(_) => forall|i: int| 0 <= i < s.len() ==> has_draw(vals, (#[trigger] s[i]).0),
            Err(n) => exists|i: int|
                0 <= i < s.len() && (#[trigger] s[i]).0 == n && !has_draw(vals, n) && forall|j: int|
                    0 <= j < i ==> has_draw(vals, (#[trigger] s[j]).0),
        },
    decreases s.len(),
{
    if s.len() > 0 {
        lemma_has_draw(vals, s[0].0);
        match assignment::found(vals, s[0].0) {
            Some(v) => {
                let t = s.skip(1);
                let d = f(RealOp::Sum, c, f(RealOp::Product, s[0].1, v));
                lemma_sampled_or_missing(d, t, vals, f);
                match assignment::affine_value(d, t, vals, f) {
                    Ok(_) => {
                        assert forall|i: int| 0 <= i < s.len() implies has_draw(
                            vals,
                            (#[trigger] s[i]).0,
                        ) by {
                            if i > 0 {
                                assert(has_draw(vals, t[i - 1].0));
                            }
                        }
                    },
                    Err(n) => {
                        let i = choose|i: int|
                            0 <= i < t.len() && (#[trigger] t[i]).0 == n && !has_draw(vals, n)
                                && forall|j: int|
                                0 <= j < i ==> has_draw(vals, (#[trigger] t[j]).0);
                        assert(s[i + 1].0 == n);
                        assert forall|j: int| 0 <= j < i + 1 implies has_draw(
                            vals,
                            (#[trigger] s[j]).0,
                        ) by {
                            if j > 0 {
                                assert(has_draw(vals, t[j - 1].0));
                            }
                        }
                    },
                }
            },
            None => {
                assert(s[0].0 == s[0].0);
            },
        }
    }
}

/// The element of the sample of a Dirichlet vector is the sample of the
/// element.
pub proof fn lemma_sampled_element(
    name: u64,
    index: usize,
    categories: usize,
    a: Assignment,
    yes: Symbol,
    f: Arithmetic,
)
    requires
        index < categories,
        assignment::value_of(Datum::DirichletVector { name, categories }, a, yes, f)->0 is Ok,
    ensures
        assignment::value_of(
            Datum::DirichletVector { name, categories },
            a,
            yes,
            f,
        ) matches Some(Ok(Datum::Value { constructor, args })) && constructor == yes && args.len()
            == categories && assignment::value_of(
            Datum::DirichletProbability { name, index, categories },
            a,
            yes,
            f,
        ) == Some(Ok::<Datum, u64>(args[index as int])),
{
}

/// A symbolic value can be sampled exactly if its variables were drawn. The
/// sample of a probability or of an exponential draw is the number that was
/// drawn first under its name, and that of a Poisson draw its whole part.
pub proof fn lemma_sampled_where_drawn(d: Datum, a: Assignment, yes: Symbol, f: Arithmetic)
    ensures
        match d {
            Datum::Gaussian { coefficients, .. } => (assignment::value_of(d, a, yes, f)->0 is Ok)
                <==> forall|i: int|
                0 <= i < coefficients.len() ==> has_draw(
                    a.gaussian@,
                    (#[trigger] coefficients[i]).0,
                ),
            Datum::Gamma { name, .. } => (assignment::value_of(d, a, yes, f)->0 is Ok) <==> has_draw(
                a.gamma@,
                name,
            ),
            Datum::Probability(name) => {
                &&& (assignment::value_of(d, a, yes, f)->0 is Ok) <==> has_draw(a.beta@, name)
                &&& forall|i: int| #[trigger]
                    first_at(a.beta@, name, i) ==> assignment::value_of(d, a, yes, f) == Some(
                        Ok::<Datum, u64>(Datum::Native(Const::Float(a.beta@[i].1))),
                    )
            },
            Datum::Exponential { name, .. } => {
                &&& (assignment::value_of(d, a, yes, f)->0 is Ok) <==> has_draw(a.gamma@, name)
                &&& forall|i: int| #[trigger]
                    first_at(a.gamma@, name, i) ==> assignment::value_of(d, a, yes, f) == Some(
                        Ok::<Datum, u64>(Datum::Native(Const::Float(a.gamma@[i].1))),
                    )
            },
            Datum::Poisson { name, .. } => {
                &&& (assignment::value_of(d, a, yes, f)->0 is Ok) <==> has_draw(a.gamma@, name)
                &&& forall|i: int| #[trigger]
                    first_at(a.gamma@, name, i) ==> assignment::value_of(d, a, yes, f) == Some(
                        Ok::<Datum, u64>(
                            Datum::Native(
                                Const::Int(f(RealOp::ToInt, a.gamma@[i].1, 0) as i64),
                            ),
                        ),
                    )
            },
            _ => true,
        },
{
    match d {
        Datum::Gaussian { constant, coefficients } => {
            lemma_sampled_or_missing(constant, coefficients, a.gaussian@, f);
        },
        Datum::Gamma { name, .. } => lemma_has_draw(a.gamma@, name),
        Datum::Probability(name) => lemma_first(a.beta@, name),
        Datum::Exponential { name, .. } => lemma_first(a.gamma@, name),
        Datum::Poisson { name, .. } => lemma_first(a.gamma@, name),
        _ => {},
    }
}

proof fn lemma_first(s: Seq<(u64, u64)>, n: u64)
    ensures
        has_draw(s, n) == (assignment::found(s, n) is Some),
        forall|i: int| #[trigger] first_at(s, n, i) ==> assignment::found(s, n) == Some(s[i].1),
{
    lemma_has_draw(s, n);
    lemma_found(s, n);
    assert forall|i: int| #[trigger] first_at(s, n, i) implies assignment::found(s, n) == Some(
        s[i].1,
    ) by {
        assert(s[i].0 == n);
        let v = assignment::found(s, n)->0;
        let j = choose|j: int| #[trigger] first_at(s, n, j) && s[j].1 == v;
        if i < j {
            assert(s[i].0 != n);
        } else if j < i {
            assert(s[j].0 != n);
        }
    }
}

} // verus!
