//! What random primitives are for: which variables and events they are
//! about, and that no two events are taken for each other.

use vstd::prelude::*;

use super::affine_laws;
use super::affine_laws::Drawn;
use super::semantics;
use super::semantics::{Event, Law, Model};
use super::test_laws;
use crate::inference::sample_laws;
use crate::language::pexpr::Const;
use crate::language::primitives::Primitive;
use crate::language::values::{Datum, Outcome};
use crate::utils::exact;
use crate::utils::exact::Field;
use crate::utils::reals;
use crate::utils::reals::RealOp;

verus! {

proof fn lemma_flattened(s: Seq<(u64, u64)>, t: Seq<(u64, u64)>)
    requires
        semantics::flattened(s) == semantics::flattened(t),
    ensures
        s == t,
    decreases s.len(),
{
    lemma_flattened_len(s);
    lemma_flattened_len(t);
    if s.len() > 0 {
        let (p, q) = (semantics::flattened(s), semantics::flattened(t));
        let n = 2 * (s.len() - 1);
        assert(p[n] == s.last().0 && p[n + 1] == s.last().1);
        assert(q[n] == t.last().0 && q[n + 1] == t.last().1);
        lemma_flattened_len(s.drop_last());
        lemma_flattened_len(t.drop_last());
        assert(semantics::flattened(s.drop_last()) =~= p.take(n));
        assert(semantics::flattened(t.drop_last()) =~= q.take(n));
        lemma_flattened(s.drop_last(), t.drop_last());
        assert(s =~= s.drop_last().push(s.last()));
        assert(t =~= t.drop_last().push(t.last()));
    } else {
        assert(s =~= t);
    }
}

proof fn lemma_flattened_len(s: Seq<(u64, u64)>)
    ensures
        semantics::flattened(s).len() == 2 * s.len(),
    decreases s.len(),
{
    if s.len() > 0 {
        lemma_flattened_len(s.drop_last());
    }
}

/// The numbers of an event tell it from all others.
#[verifier::rlimit(40)]
pub proof fn lemma_events_told_apart(a: Event, b: Event)
    requires
        a.code() == b.code(),
    ensures
        a == b,
{
    let (c, d) = (a.code(), b.code());
    assert(c[0] == d[0]);
    match (a, b) {
        (Event::Constant(p), Event::Constant(q)) => {
            assert(c[1] == d[1]);
        },
        (Event::Beta(p), Event::Beta(q)) => {
            assert(c[1] == d[1]);
        },
        (Event::ProbPin(..), Event::ProbPin(..)) => {
            assert(c[1] == d[1] && c[2] == d[2]);
        },
        (Event::Element { .. }, Event::Element { .. }) => {
            assert(c[1] == d[1] && c[2] == d[2] && c[3] == d[3]);
        },
        (Event::Stick { .. }, Event::Stick { .. }) => {
            assert(c[1] == d[1] && c[2] == d[2]);
        },
        (Event::VecPin { value: s, .. }, Event::VecPin { value: t, .. }) => {
            assert(c[1] == d[1]);
            assert(s =~= c.skip(2));
            assert(t =~= d.skip(2));
        },
        (Event::RatePin { .. }, Event::RatePin { .. }) => {
            assert(c[1] == d[1] && c[2] == d[2] && c[3] == d[3]);
        },
        (Event::ExpEq { .. }, Event::ExpEq { .. }) => {
            assert(c[1] == d[1] && c[2] == d[2] && c[3] == d[3] && c[4] == d[4]);
        },
        (Event::ExpInterval { .. }, Event::ExpInterval { .. }) => {
            assert(c[1] == d[1] && c[2] == d[2] && c[3] == d[3] && c[4] == d[4] && c[5] == d[5]);
        },
        (Event::PoissonEq { .. }, Event::PoissonEq { .. }) => {
            assert(c[1] == d[1] && c[2] == d[2] && c[3] == d[3] && c[4] == d[4]);
        },
        (Event::PoissonInterval { .. }, Event::PoissonInterval { .. }) => {
            assert(c[1] == d[1] && c[2] == d[2] && c[3] == d[3] && c[4] == d[4] && c[5] == d[5]);
        },
        (
            Event::GaussianObs { coefficients: s, .. },
            Event::GaussianObs { coefficients: t, .. },
        ) => {
            assert(c[1] == d[1] && c[2] == d[2]);
            assert(semantics::flattened(s) =~= c.skip(3));
            assert(semantics::flattened(t) =~= d.skip(3));
            lemma_flattened(s, t);
        },
        _ => {},
    }
}

/// The events of probability zero are those that a variable with a density
/// has one value.
pub proof fn lemma_events_of_probability_zero(e: Event)
    ensures
        match e {
            Event::ProbPin(..)
            | Event::VecPin { .. }
            | Event::RatePin { .. }
            | Event::ExpEq { .. }
            | Event::GaussianObs { .. } => e.pinned(),
            Event::Constant(_)
            | Event::Beta(_)
            | Event::Element { .. }
            | Event::Stick { .. }
            | Event::ExpInterval { .. }
            | Event::PoissonEq { .. }
            | Event::PoissonInterval { .. } => !e.pinned(),
        },
{
}

/// `q` is one less than `p`.
pub open spec fn one_less<V>(k: Field<V>, q: u64, p: u64) -> bool {
    (k.plus)((k.value)(q), k.one) == (k.value)(p)
}

/// A flip comes out as the event with its probability does; one whose
/// probability is closer than 10⁻¹⁵ to 0 or 1 is certain.
pub proof fn lemma_flip<V>(k: Field<V>, x: Model, cs: Seq<i32>, p: u64, got: Seq<Datum>)
    requires
        k.exact(x.arith),
    ensures
        ({
            let o = semantics::settled(
                Primitive::Flip,
                seq![Datum::Native(Const::Float(p))],
                got,
                cs,
                x,
            );
            exists|q: u64| #[trigger]
                one_less(k, q, p) && {
                    if test_laws::near(p) {
                        test_laws::says(o, x, false)
                    } else if test_laws::near(q) {
                        test_laws::says(o, x, true)
                    } else {
                        test_laws::says(o, x, (x.flips)(cs.push(1), Event::Constant(p).code()))
                    }
                }
        }),
{
    exact::exact_laws(k, x.arith);
    let q = (x.arith)(RealOp::Difference, p, reals::ONE);
    exact::exact_difference(k, p, reals::ONE, x.arith);
    exact::minus_plus(k, (k.value)(p), k.one);
    assert(one_less(k, q, p));
}

/// A flip with a variable as its probability is the event of that variable.
pub proof fn lemma_flip_of_variable(
    x: Model,
    cs: Seq<i32>,
    name: u64,
    index: usize,
    categories: usize,
    got: Seq<Datum>,
)
    ensures
        test_laws::says(
            semantics::settled(Primitive::Flip, seq![Datum::Probability(name)], got, cs, x),
            x,
            (x.flips)(cs.push(1), Event::Beta(name).code()),
        ),
        test_laws::says(
            semantics::settled(
                Primitive::Flip,
                seq![Datum::DirichletProbability { name, index, categories }],
                got,
                cs,
                x,
            ),
            x,
            (x.flips)(cs.push(1), Event::Element { name, index, categories }.code()),
        ),
{
}

/// The number is that of the value.
pub open spec fn reads_as<V>(k: Field<V>, d: Datum, b: u64) -> bool {
    match d {
        Datum::Native(Const::Float(c)) => b == c,
        Datum::Native(Const::Int(i)) => (k.value)(b) == k.integer(i as int),
        _ => false,
    }
}

pub open spec fn scalar(d: Datum) -> bool {
    match d {
        Datum::Native(Const::Float(_)) => true,
        Datum::Native(Const::Int(_)) => true,
        _ => false,
    }
}

proof fn lemma_reads<V>(k: Field<V>, x: Model, d: Datum)
    requires
        k.exact(x.arith),
    ensures
        match semantics::number(x, d) {
            Some(b) => reads_as(k, d, b),
            None => !scalar(d),
        },
{
    if let Datum::Native(Const::Int(i)) = d {
        exact::exact_integer(k, i, 0, x.arith);
    }
}

pub open spec fn both_read<V>(k: Field<V>, a: Datum, b: Datum, p: u64, q: u64) -> bool {
    reads_as(k, a, p) && reads_as(k, b, q)
}

/// `beta`, `gamma` and `gaussian` of two numbers give the variable that has
/// this distribution at the callstack: the first number is the first
/// parameter. The parameters of a Gamma distribution are positive.
pub proof fn lemma_variable_drawn<V>(
    k: Field<V>,
    x: Model,
    cs: Seq<i32>,
    a: Datum,
    b: Datum,
    got: Seq<Datum>,
    gauss: Drawn<V>,
    gamma: Drawn<V>,
)
    requires
        k.exact(x.arith),
        scalar(a),
        scalar(b),
    ensures
        exists|p: u64, q: u64| #[trigger]
            both_read(k, a, b, p, q) && {
                let vals = seq![a, b];
                &&& semantics::settled(Primitive::Beta, vals, got, cs, x) == Outcome::Done(
                    Datum::Probability((x.names)(cs, Law::Beta { a: p, b: q })),
                )
                &&& semantics::settled(Primitive::Gaussian, vals, got, cs, x) matches Outcome::Done(
                    d,
                ) && sample_laws::stands_for(k, d, gauss, gamma) == gauss(
                    (x.names)(cs, Law::Gaussian { mu: p, sigma: q }),
                )
                &&& if reals::below(0, p) && reals::below(0, q) {
                    semantics::settled(Primitive::Gamma, vals, got, cs, x) matches Outcome::Done(d)
                        && sample_laws::stands_for(k, d, gauss, gamma) == gamma(
                        (x.names)(cs, Law::Gamma { shape: p, rate: q }),
                    )
                } else {
                    semantics::settled(Primitive::Gamma, vals, got, cs, x) == Outcome::Stuck
                }
            },
{
    exact::exact_laws(k, x.arith);
    lemma_reads(k, x, a);
    lemma_reads(k, x, b);
    let (p, q) = (semantics::number(x, a)->0, semantics::number(x, b)->0);
    let vals = seq![a, b];
    assert(vals[0] == a && vals[1] == b);
    let g = (x.names)(cs, Law::Gaussian { mu: p, sigma: q });
    let u = gauss(g);
    let s = seq![(g, reals::ONE)];
    assert(s.drop_last() =~= Seq::<(u64, u64)>::empty());
    reveal_with_fuel(affine_laws::dot, 3);
    exact::times_one(k, u);
    exact::plus_zero(k, u);
    exact::times_one(k, gamma((x.names)(cs, Law::Gamma { shape: p, rate: q })));
    assert(both_read(k, a, b, p, q));
}

/// A Poisson or exponential draw from a rate is the draw of that rate at its
/// scale; from a positive number, that of the rate that is known to be the
/// number, at the scale 1. There is none from other numbers.
pub proof fn lemma_drawn_from_rate<V>(
    k: Field<V>,
    x: Model,
    cs: Seq<i32>,
    name: u64,
    scale: u64,
    v: Datum,
    got: Seq<Datum>,
)
    requires
        k.exact(x.arith),
        scalar(v),
    ensures
        semantics::settled(
            Primitive::Poisson,
            seq![Datum::Gamma { name, scale }],
            got,
            cs,
            x,
        ) == Outcome::Done(
            Datum::Poisson {
                name: (x.names)(cs, Law::Draw { poisson: true, gamma: name, scale }),
                gamma: name,
                scale,
            },
        ),
        semantics::settled(
            Primitive::Exponential,
            seq![Datum::Gamma { name, scale }],
            got,
            cs,
            x,
        ) == Outcome::Done(
            Datum::Exponential {
                name: (x.names)(cs, Law::Draw { poisson: false, gamma: name, scale }),
                gamma: name,
                scale,
            },
        ),
        exists|r: u64| #[trigger]
            reads_as(k, v, r) && {
                let known = (x.names)(cs, Law::Pinned { value: r });
                let p = semantics::settled(Primitive::Poisson, seq![v], got, cs, x);
                let e = semantics::settled(Primitive::Exponential, seq![v], got, cs, x);
                if reals::below(0, r) {
                    &&& p matches Outcome::Done(Datum::Poisson { gamma: g, scale: s, name: n })
                        && g == known && (k.value)(s) == k.one && n == (x.names)(
                        cs,
                        Law::Draw { poisson: true, gamma: g, scale: s },
                    )
                    &&& e matches Outcome::Done(Datum::Exponential { gamma: g, scale: s, name: n })
                        && g == known && (k.value)(s) == k.one && n == (x.names)(
                        cs,
                        Law::Draw { poisson: false, gamma: g, scale: s },
                    )
                } else {
                    p == Outcome::Stuck && e == Outcome::Stuck
                }
            },
{
    exact::exact_laws(k, x.arith);
    lemma_reads(k, x, v);
    let r = semantics::number(x, v)->0;
    assert(seq![v][0] == v);
    assert(reads_as(k, v, r));
}

/// Numbers that are those of values, one by one.
pub open spec fn all_read<V>(k: Field<V>, s: Seq<Datum>, t: Seq<u64>) -> bool {
    s.len() == t.len() && forall|i: int| 0 <= i < s.len() ==> reads_as(k, #[trigger] s[i], t[i])
}

proof fn lemma_all_read<V>(k: Field<V>, x: Model, s: Seq<Datum>)
    requires
        k.exact(x.arith),
    ensures
        match semantics::numbers(x, s) {
            Some(t) => all_read(k, s, t),
            None => exists|i: int| 0 <= i < s.len() && !scalar(#[trigger] s[i]),
        },
    decreases s.len(),
{
    if s.len() > 0 {
        let p = s.drop_last();
        lemma_all_read(k, x, p);
        lemma_reads(k, x, s.last());
        match semantics::numbers(x, p) {
            Some(q) => {
                if let Some(t) = semantics::numbers(x, s) {
                    assert forall|i: int| 0 <= i < s.len() implies reads_as(
                        k,
                        #[trigger] s[i],
                        t[i],
                    ) by {
                        if i < p.len() {
                            assert(p[i] == s[i]);
                            assert(q[i] == t[i]);
                        }
                    }
                } else {
                    assert(!scalar(s[s.len() - 1]));
                }
            },
            None => {
                let i = choose|i: int| 0 <= i < p.len() && !scalar(#[trigger] p[i]);
                assert(s[i] == p[i]);
            },
        }
    }
}

/// `dirichlet` of numbers gives the vector of the variable that has them as
/// its parameters, with as many elements; the element at a place from 0 on is
/// that of this vector, and there is none behind the last.
pub proof fn lemma_vector_drawn<V>(
    k: Field<V>,
    x: Model,
    cs: Seq<i32>,
    vals: Seq<Datum>,
    i: i64,
    got: Seq<Datum>,
)
    requires
        k.exact(x.arith),
        vals.len() <= usize::MAX,
        forall|i: int| 0 <= i < vals.len() ==> scalar(#[trigger] vals[i]),
    ensures
        exists|t: Seq<u64>| #[trigger]
            all_read(k, vals, t) && {
                let name = (x.names)(cs, Law::Dirichlet { alphas: t });
                &&& semantics::settled(Primitive::Dirichlet, vals, got, cs, x) matches Outcome::Done(
                    d,
                ) && d == (Datum::DirichletVector { name, categories: vals.len() as usize })
                    && semantics::settled(
                    Primitive::Index,
                    seq![d, Datum::Native(Const::Int(i))],
                    got,
                    cs,
                    x,
                ) == (if 0 <= i < vals.len() {
                    Outcome::Done(
                        Datum::DirichletProbability {
                            name,
                            index: i as usize,
                            categories: vals.len() as usize,
                        },
                    )
                } else {
                    Outcome::Stuck
                })
            },
{
    lemma_all_read(k, x, vals);
    let t = semantics::numbers(x, vals)->0;
    assert(all_read(k, vals, t));
    let d = Datum::DirichletVector {
        name: (x.names)(cs, Law::Dirichlet { alphas: t }),
        categories: vals.len() as usize,
    };
    let v = seq![d, Datum::Native(Const::Int(i))];
    assert(v[0] == d && v[1] == Datum::Native(Const::Int(i)));
}

proof fn lemma_constants<V>(k: Field<V>, x: Model, s: Seq<Datum>)
    requires
        k.exact(x.arith),
        forall|i: int| 0 <= i < s.len() ==> scalar(#[trigger] s[i]),
    ensures
        semantics::constants(x, s) matches Some(t) && all_read(k, s, t),
    decreases s.len(),
{
    if s.len() > 0 {
        let p = s.drop_last();
        assert forall|i: int| 0 <= i < p.len() implies scalar(#[trigger] p[i]) by {
            assert(p[i] == s[i]);
        }
        lemma_constants(k, x, p);
        assert(scalar(s[s.len() - 1]));
        lemma_reads(k, x, s.last());
        let (q, t) = (semantics::constants(x, p)->0, semantics::constants(x, s)->0);
        assert forall|i: int| 0 <= i < s.len() implies reads_as(k, #[trigger] s[i], t[i]) by {
            if i < p.len() {
                assert(p[i] == s[i]);
                assert(q[i] == t[i]);
            }
        }
    }
}

/// A covariance matrix agrees with itself when rows and columns are swapped,
/// but for less than 10⁻⁹.
pub open spec fn balanced(x: Model, n: int, cov: Seq<u64>) -> bool {
    forall|r: int, c: int|
        0 <= r < c < n ==> #[trigger] reals::smaller(
            (x.arith)(RealOp::Difference, cov[r * n + c], cov[c * n + r]),
            0x3e11_2e0b_e826_d695u64,
        )
}

/// `gaussian` of a vector of means and a matrix of covariances, in numbers,
/// gives the vector of the correlated variables with these at the callstack,
/// in their order.
pub proof fn lemma_block_drawn<V>(
    k: Field<V>,
    x: Model,
    cs: Seq<i32>,
    mu: Seq<Datum>,
    sigma: Seq<Datum>,
    n: usize,
    got: Seq<Datum>,
    i: int,
    gauss: Drawn<V>,
    gamma: Drawn<V>,
)
    requires
        k.exact(x.arith),
        mu.len() == n,
        sigma.len() == n * n,
        got.len() == n + n * n,
        forall|j: int| 0 <= j < got.len() ==> scalar(#[trigger] got[j]),
        0 <= i < n,
    ensures
        semantics::wants(
            Primitive::Gaussian,
            seq![
                Datum::Matrix { entries: mu, shape: seq![n] },
                Datum::Matrix { entries: sigma, shape: seq![n, n] },
            ],
        ) == Seq::new(
            (mu + sigma).len(),
            |j: int| (semantics::Depth::Head, (mu + sigma)[j]),
        ),
        exists|all: Seq<u64>| #[trigger]
            all_read(k, got, all) && {
                let o = semantics::settled(
                    Primitive::Gaussian,
                    seq![
                        Datum::Matrix { entries: mu, shape: seq![n] },
                        Datum::Matrix { entries: sigma, shape: seq![n, n] },
                    ],
                    got,
                    cs,
                    x,
                );
                let cov = all.skip(n as int);
                if balanced(x, n as int, cov) && (x.covariance)(n as nat, cov) {
                    o matches Outcome::Done(Datum::Matrix { entries, shape }) && shape == seq![n]
                        && entries.len() == n && sample_laws::stands_for(
                        k,
                        entries[i],
                        gauss,
                        gamma,
                    ) == gauss((x.blocks)(cs, all)[i])
                } else {
                    o == Outcome::Stuck
                }
            },
{
    exact::exact_laws(k, x.arith);
    lemma_constants(k, x, got);
    let all = semantics::constants(x, got)->0;
    assert(all_read(k, got, all));
    let a = Datum::Matrix { entries: mu, shape: seq![n] };
    let b = Datum::Matrix { entries: sigma, shape: seq![n, n] };
    let vals = seq![a, b];
    assert(vals[0] == a && vals[1] == b);
    let g = (x.blocks)(cs, all)[i];
    let s = seq![(g, reals::ONE)];
    assert(s.drop_last() =~= Seq::<(u64, u64)>::empty());
    reveal_with_fuel(affine_laws::dot, 3);
    exact::times_one(k, gauss(g));
    exact::plus_zero(k, gauss(g));
    assert(balanced(x, n as int, all.skip(n as int)) == semantics::symmetric(
        x,
        n as int,
        all.skip(n as int),
    ));
}

/// A float that is a number.
pub open spec fn proper(d: Datum) -> bool {
    match d {
        Datum::Native(Const::Float(b)) => !reals::nan(b),
        _ => false,
    }
}

/// A Dirichlet vector tested for being a vector of numbers is the event that
/// the variable has this value; vectors of numbers are equal if their numbers
/// are.
pub proof fn lemma_vector_tested<V>(
    k: Field<V>,
    x: Model,
    cs: Seq<i32>,
    name: u64,
    s: Seq<Datum>,
    r: Seq<Datum>,
    got: Seq<Datum>,
    both: Seq<Datum>,
)
    requires
        k.exact(x.arith),
        s.len() <= usize::MAX,
        got.len() == s.len(),
        both.len() == s.len() + r.len(),
        forall|i: int| 0 <= i < got.len() ==> proper(#[trigger] got[i]),
        forall|i: int| 0 <= i < both.len() ==> proper(#[trigger] both[i]),
    ensures
        ({
            let v = Datum::Matrix { entries: s, shape: seq![s.len() as usize] };
            let w = Datum::Matrix { entries: r, shape: seq![r.len() as usize] };
            let d = Datum::DirichletVector { name, categories: s.len() as usize };
            let one = semantics::settled(Primitive::DirichletEq, seq![d, v], got, cs, x);
            let two = semantics::settled(Primitive::DirichletEq, seq![w, v], both, cs, x);
            &&& semantics::wants(Primitive::DirichletEq, seq![d, v]) == Seq::new(
                s.len(),
                |i: int| (semantics::Depth::Head, s[i]),
            )
            &&& semantics::wants(Primitive::DirichletEq, seq![w, v]) == Seq::new(
                (s + r).len(),
                |i: int| (semantics::Depth::Head, (s + r)[i]),
            )
            &&& exists|t: Seq<u64>| #[trigger]
                all_read(k, got, t) && test_laws::says(
                    one,
                    x,
                    (x.flips)(cs.push(2), Event::VecPin { name, value: t }.code()),
                )
            &&& exists|t: Seq<u64>| #[trigger]
                all_read(k, both, t) && test_laws::says(
                    two,
                    x,
                    s.len() == r.len() && forall|i: int|
                        0 <= i < s.len() ==> reals::equal(#[trigger] t[i], t[s.len() + i]),
                )
        }),
{
    lemma_all_read(k, x, got);
    lemma_all_read(k, x, both);
    assert forall|i: int| 0 <= i < got.len() implies scalar(#[trigger] got[i]) by {}
    assert forall|i: int| 0 <= i < both.len() implies scalar(#[trigger] both[i]) by {}
    let t = semantics::numbers(x, got)->0;
    let u = semantics::numbers(x, both)->0;
    assert(all_read(k, got, t));
    assert(all_read(k, both, u));
    assert forall|i: int| 0 <= i < t.len() implies !reals::nan(#[trigger] t[i]) by {
        assert(reads_as(k, got[i], t[i]));
    }
    assert forall|i: int| 0 <= i < u.len() implies !reals::nan(#[trigger] u[i]) by {
        assert(reads_as(k, both[i], u[i]));
    }
    let n = s.len() as int;
    let (p, q) = (u.take(n), u.skip(n));
    assert(forall|i: int| 0 <= i < p.len() ==> p[i] == #[trigger] u[i]);
    assert(forall|i: int| 0 <= i < q.len() ==> q[i] == #[trigger] u[n + i]);
    assert(semantics::vectors_equal(p, q) == (s.len() == r.len() && forall|i: int|
        0 <= i < s.len() ==> reals::equal(#[trigger] u[i], u[s.len() + i]))) by {
        if semantics::vectors_equal(p, q) {
            assert forall|i: int| 0 <= i < s.len() implies reals::equal(
                #[trigger] u[i],
                u[s.len() + i],
            ) by {
                assert(reals::equal(p[i], q[i]));
            }
        }
    }
    let v = Datum::Matrix { entries: s, shape: seq![s.len() as usize] };
    let w = Datum::Matrix { entries: r, shape: seq![r.len() as usize] };
    let d = Datum::DirichletVector { name, categories: s.len() as usize };
    assert(seq![d, v][0] == d && seq![d, v][1] == v);
    assert(seq![w, v][0] == w && seq![w, v][1] == v);
}

/// A Dirichlet vector pinned to a vector holds exactly if it is tested to be
/// that vector, and fails if their lengths differ.
pub proof fn lemma_vector_pinned(
    x: Model,
    cs: Seq<i32>,
    name: u64,
    categories: usize,
    s: Seq<Datum>,
    shape: Seq<usize>,
    fuel: nat,
    b: bool,
)
    requires
        x.yes != x.no,
        shape.len() == 1,
    ensures
        ({
            let d = Datum::DirichletVector { name, categories };
            let v = Datum::Matrix { entries: s, shape };
            let o = semantics::supplied(
                Primitive::DirichletEq,
                seq![d, v],
                0,
                Seq::empty(),
                cs,
                x,
                fuel,
            );
            let r = semantics::pin(d, v, cs, x, fuel);
            if s.len() != categories {
                r == Outcome::Fail
            } else {
                test_laws::says(o, x, b) ==> test_laws::confirms(r, x, b)
            }
        }),
{
}

} // verus!
