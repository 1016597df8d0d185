//! What the variables of a value are for: its sample depends on them alone,
//! and those of a value with parts are those of the parts.

use vstd::prelude::*;

use super::naming;
use super::naming::{NameStyle, Steps};
use super::positions;
use crate::discrete_factorizations::Worlds;
use crate::inference::assignment;
use crate::inference::assignment::Assignment;
use crate::inference::sampling::GammaDraw;
use crate::language::types::Symbol;
use crate::language::values;
use crate::language::values::{Datum, PluckVal, PluckValue, Position};
use crate::utils::decimal;
use crate::utils::reals::{Arithmetic, RealOp};

verus! {

/// The assignments have the same values for a variable.
pub open spec fn agree_on(a: Assignment, b: Assignment, n: u64) -> bool {
    &&& assignment::found(a.beta@, n) == assignment::found(b.beta@, n)
    &&& assignment::found_all(a.dirichlet@, n) == assignment::found_all(b.dirichlet@, n)
    &&& assignment::found(a.gamma@, n) == assignment::found(b.gamma@, n)
    &&& assignment::found(a.gaussian@, n) == assignment::found(b.gaussian@, n)
}

proof fn lemma_affine_depends(
    c: u64,
    s: Seq<(u64, u64)>,
    x: Seq<(u64, u64)>,
    y: Seq<(u64, u64)>,
    f: Arithmetic,
)
    requires
        forall|i: int|
            0 <= i < s.len() ==> assignment::found(x, (#[trigger] s[i]).0) == assignment::found(
                y,
                s[i].0,
            ),
    ensures
        assignment::affine_value(c, s, x, f) == assignment::affine_value(c, s, y, f),
        assignment::affine_value(c, s, x, f) matches Err(n) ==> values::names_in(s).contains(n),
    decreases s.len(),
{
    if s.len() > 0 {
        assert(assignment::found(x, s[0].0) == assignment::found(y, s[0].0));
        if let Some(v) = assignment::found(x, s[0].0) {
            let d = f(
                RealOp::Sum,
                c,
                f(RealOp::Product, s[0].1, v),
            );
            let t = s.skip(1);
            assert forall|i: int| 0 <= i < t.len() implies assignment::found(
                x,
                (#[trigger] t[i]).0,
            ) == assignment::found(y, t[i].0) by {
                assert(t[i] == s[i + 1]);
            }
            lemma_affine_depends(d, t, x, y, f);
            if let Err(n) = assignment::affine_value(d, t, x, f) {
                let i = choose|i: int| 0 <= i < t.len() && (#[trigger] t[i]).0 == n;
                assert(s[i + 1] == t[i]);
            }
        }
    }
}

/// The sample of a symbolic value depends on its variables alone, and a
/// variable that is missing is one of them.
pub proof fn lemma_sample_depends_on_variables(
    v: PluckValue,
    w: Worlds,
    d: Datum,
    a: Assignment,
    b: Assignment,
    yes: Symbol,
    f: Arithmetic,
)
    requires
        !(v is ThunkUnion),
        v.at(w) == Some(d),
        forall|n: u64| #[trigger] values::variables_of(v).contains(n) ==> agree_on(a, b, n),
    ensures
        assignment::value_of(d, a, yes, f) == assignment::value_of(d, b, yes, f),
        assignment::value_of(d, a, yes, f) matches Some(Err(n)) ==> values::variables_of(v).contains(
            n,
        ),
{
    match v {
        PluckValue::GaussianExpr { constant, coefficients } => {
            let s = coefficients@;
            assert forall|i: int| 0 <= i < s.len() implies assignment::found(
                a.gaussian@,
                (#[trigger] s[i]).0,
            ) == assignment::found(b.gaussian@, s[i].0) by {
                assert(values::variables_of(v).contains(s[i].0));
            }
            assert(d == Datum::Gaussian { constant, coefficients: s });
            lemma_affine_depends(constant, s, a.gaussian@, b.gaussian@, f);
        },
        PluckValue::Probability(n)
        | PluckValue::DirichletProbability { name: n, .. }
        | PluckValue::DirichletVector { name: n, .. }
        | PluckValue::Gamma { name: n, .. }
        | PluckValue::Exponential { name: n, .. }
        | PluckValue::Poisson { name: n, .. } => {
            assert(values::variables_of(v).contains(n));
            assert(agree_on(a, b, n));
        },
        _ => {},
    }
}

/// The rate of a draw is among its variables.
pub proof fn lemma_draw_has_rate(name: u64, gamma: u64, scale: u64)
    ensures
        values::variables_of(PluckValue::Poisson { name, gamma, scale }).contains(gamma),
        values::variables_of(PluckValue::Exponential { name, gamma, scale }).contains(gamma),
{
}

/// The parts of a value: the arguments of a constructor, or the entries of a
/// matrix.
pub open spec fn parts(v: &PluckValue) -> Option<Seq<PluckVal>> {
    match v {
        PluckValue::Value { args, .. } => Some(args@),
        PluckValue::FloatMatrix { entries, .. } => Some(entries@),
        _ => None,
    }
}

proof fn lemma_reach_all(s: Seq<PluckVal>, n: u64)
    ensures
        positions::reach_all(s).contains(n) <==> exists|i: int|
            0 <= i < s.len() && positions::reach(&*(#[trigger] s[i])).contains(n),
    decreases s.len(),
{
    if s.len() > 0 {
        let p = s.drop_last();
        lemma_reach_all(p, n);
        if positions::reach_all(p).contains(n) {
            let i = choose|i: int|
                0 <= i < p.len() && positions::reach(&*(#[trigger] p[i])).contains(n);
            assert(s[i] == p[i]);
        }
        if positions::reach(&*s.last()).contains(n) {
            assert(positions::reach(&*s[s.len() - 1]).contains(n));
        }
        if exists|i: int| 0 <= i < s.len() && positions::reach(&*(#[trigger] s[i])).contains(n) {
            let i = choose|i: int|
                0 <= i < s.len() && positions::reach(&*(#[trigger] s[i])).contains(n);
            if i < p.len() {
                assert(p[i] == s[i]);
            }
        }
    }
}

/// A value with parts refers to the variables of its parts, and any other to
/// its own.
pub proof fn lemma_reach(v: &PluckValue, n: u64)
    ensures
        match parts(v) {
            Some(s) => positions::reach(v).contains(n) <==> exists|i: int|
                0 <= i < s.len() && positions::reach(&*(#[trigger] s[i])).contains(n),
            None => positions::reach(v).contains(n) <==> values::variables_of(*v).contains(n),
        },
{
    if let Some(s) = parts(v) {
        lemma_reach_all(s, n);
    }
}

proof fn lemma_draws_all(s: Seq<PluckVal>, d: GammaDraw)
    ensures
        positions::draws_in_all(s).contains(d) <==> exists|i: int|
            0 <= i < s.len() && positions::draws_in(&*(#[trigger] s[i])).contains(d),
    decreases s.len(),
{
    if s.len() > 0 {
        let p = s.drop_last();
        lemma_draws_all(p, d);
        let (x, y) = (positions::draws_in_all(p), positions::draws_in(&*s.last()));
        let r = x + y;
        if x.contains(d) {
            let j = x.index_of(d);
            assert(r[j] == d);
            let i = choose|i: int|
                0 <= i < p.len() && positions::draws_in(&*(#[trigger] p[i])).contains(d);
            assert(s[i] == p[i]);
        }
        if y.contains(d) {
            let j = y.index_of(d);
            assert(r[x.len() + j] == d);
            assert(positions::draws_in(&*s[s.len() - 1]).contains(d));
        }
        if r.contains(d) {
            let j = r.index_of(d);
            if j < x.len() {
                assert(x[j] == d);
            } else {
                assert(y[j - x.len()] == d);
            }
        }
        if exists|i: int| 0 <= i < s.len() && positions::draws_in(&*(#[trigger] s[i])).contains(d) {
            let i = choose|i: int|
                0 <= i < s.len() && positions::draws_in(&*(#[trigger] s[i])).contains(d);
            if i < p.len() {
                assert(p[i] == s[i]);
            }
        }
    }
}

/// The draws of a value with parts are those of its parts; a draw is one
/// itself, of its kind and with its rate.
pub proof fn lemma_draws(v: &PluckValue, d: GammaDraw)
    ensures
        match parts(v) {
            Some(s) => positions::draws_in(v).contains(d) <==> exists|i: int|
                0 <= i < s.len() && positions::draws_in(&*(#[trigger] s[i])).contains(d),
            None => positions::draws_in(v).contains(d) <==> match v {
                PluckValue::Poisson { name, gamma, scale } => d.poisson && d.draw == *name
                    && d.gamma == *gamma && d.scale == *scale,
                PluckValue::Exponential { name, gamma, scale } => !d.poisson && d.draw == *name
                    && d.gamma == *gamma && d.scale == *scale,
                _ => false,
            },
        },
{
    if let Some(s) = parts(v) {
        lemma_draws_all(s, d);
    } else {
        let r = positions::draws_in(v);
        if r.len() > 0 {
            assert(r.len() == 1);
            assert(r.contains(r[0]));
            if r.contains(d) {
                let i = r.index_of(d);
                assert(i == 0);
            }
        }
    }
}

proof fn lemma_spots_all(s: Seq<PluckVal>, path: Steps, c: Symbol, e: (Steps, Position))
    ensures
        positions::spots_in(s, path, c).contains(e) <==> exists|i: int|
            0 <= i < s.len() && positions::spots(
                &*(#[trigger] s[i]),
                path.push((c, i as usize)),
            ).contains(e),
    decreases s.len(),
{
    let r = positions::spots_in(s, path, c);
    if s.len() > 0 {
        let p = s.drop_last();
        lemma_spots_all(p, path, c, e);
        let x = positions::spots_in(p, path, c);
        let y = positions::spots(&*s.last(), path.push((c, (s.len() - 1) as usize)));
        assert(r == x + y);
        if x.contains(e) {
            let j = x.index_of(e);
            assert(r[j] == e);
            let i = choose|i: int|
                0 <= i < p.len() && positions::spots(
                    &*(#[trigger] p[i]),
                    path.push((c, i as usize)),
                ).contains(e);
            assert(s[i] == p[i]);
        }
        if y.contains(e) {
            let j = y.index_of(e);
            assert(r[x.len() + j] == e);
            let i = s.len() - 1;
            assert(positions::spots(&*s[i], path.push((c, i as usize))).contains(e));
        }
        if r.contains(e) {
            let j = r.index_of(e);
            if j < x.len() {
                assert(x[j] == e);
            } else {
                assert(y[j - x.len()] == e);
            }
        }
        if exists|i: int|
            0 <= i < s.len() && positions::spots(
                &*(#[trigger] s[i]),
                path.push((c, i as usize)),
            ).contains(e) {
            let i = choose|i: int|
                0 <= i < s.len() && positions::spots(
                    &*(#[trigger] s[i]),
                    path.push((c, i as usize)),
                ).contains(e);
            if i < p.len() {
                assert(p[i] == s[i]);
            }
        }
    }
}

/// The symbolic parts of a value are found where the steps lead: by the
/// constructor and the place of each argument, or the greatest symbol and the
/// place of each entry.
pub proof fn lemma_spots(v: &PluckValue, path: Steps, e: (Steps, Position))
    requires
        values::position_of(*v) is None,
    ensures
        match parts(v) {
            Some(s) => {
                let c = match v {
                    PluckValue::Value { constructor, .. } => *constructor,
                    _ => 0xffff_ffffu32,
                };
                positions::spots(v, path).contains(e) <==> exists|i: int|
                    0 <= i < s.len() && positions::spots(
                        &*(#[trigger] s[i]),
                        path.push((c, i as usize)),
                    ).contains(e)
            },
            None => !positions::spots(v, path).contains(e),
        },
{
    if let Some(s) = parts(v) {
        let c = match v {
            PluckValue::Value { constructor, .. } => *constructor,
            _ => 0xffff_ffffu32,
        };
        lemma_spots_all(s, path, c, e);
    }
}

/// A symbolic value is found where it stands: under its name, a rate with
/// its scale and a draw at the scale 1, and a Gaussian expression as it is.
pub proof fn lemma_spot(v: &PluckValue, path: Steps)
    ensures
        match v {
            PluckValue::Probability(n) => positions::spots(v, path) == seq![
                (path, Position::Beta(*n)),
            ],
            PluckValue::DirichletProbability { name, .. }
            | PluckValue::DirichletVector { name, .. } => positions::spots(v, path) == seq![
                (path, Position::Dirichlet(*name)),
            ],
            PluckValue::Gamma { name, scale } => positions::spots(v, path) == seq![
                (path, Position::Gamma { name: *name, scale: *scale }),
            ],
            PluckValue::Exponential { name, .. } | PluckValue::Poisson { name, .. } => positions::spots(
                v,
                path,
            ) == seq![(path, Position::Gamma { name: *name, scale: 0x3ff0_0000_0000_0000u64 })],
            PluckValue::GaussianExpr { constant, coefficients } => coefficients@.len() > 0
                ==> positions::spots(v, path) == seq![
                (path, Position::Gaussian { constant: *constant, coefficients: coefficients@ }),
            ],
            _ => true,
        },
{
}

proof fn lemma_letters(style: NameStyle)
    ensures
        naming::letters(style).no_duplicates(),
        forall|i: int|
            0 <= i < naming::letters(style).len() ==> (#[trigger] naming::letters(style)[i]).len()
                == 1,
        naming::letters(style).len() > 0,
{
    reveal_strlit("x");
    reveal_strlit("y");
    reveal_strlit("z");
    reveal_strlit("w");
    reveal_strlit("v");
    reveal_strlit("u");
    reveal_strlit("t");
    reveal_strlit("s");
    reveal_strlit("r");
    reveal_strlit("p");
    reveal_strlit("q");
    reveal_strlit("λ");
    reveal_strlit("μ");
    reveal_strlit("ν");
    reveal_strlit("κ");
    reveal_strlit("θ");
    reveal_strlit("ρ");
    reveal_strlit("σ");
    reveal_strlit("τ");
    let s = naming::letters(style);
    assert forall|i: int, j: int| 0 <= i < s.len() && 0 <= j < s.len() && i != j implies s[i]
        != s[j] by {
        assert(s[i][0] != s[j][0]);
    }
}

/// No two generated names are equal.
pub proof fn lemma_names_differ(style: NameStyle, i: nat, j: nat)
    requires
        naming::nth_name(style, i) == naming::nth_name(style, j),
    ensures
        i == j,
{
    lemma_letters(style);
    let n = naming::letters(style).len();
    let t = naming::stem_text(style);
    reveal_strlit("x");
    reveal_strlit("p");
    reveal_strlit("λ_");
    decimal::lemma_decimal_read(i + 1);
    decimal::lemma_decimal_read(j + 1);
    if i >= n && j >= n {
        let (a, b) = (decimal::decimal(i + 1), decimal::decimal(j + 1));
        assert((t + a).skip(t.len() as int) =~= a);
        assert((t + b).skip(t.len() as int) =~= b);
        decimal::lemma_decimal_tells(i + 1, j + 1);
    }
}

} // verus!
