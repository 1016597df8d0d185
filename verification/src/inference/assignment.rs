//! Sampled values of the continuous variables.

use vstd::prelude::*;

use super::lazy_kc::state::clone_numbers;
use crate::discrete_factorizations::Worlds;
use crate::language::pexpr::Const;
use crate::language::types::Symbol;
use crate::language::values;
use crate::language::values::{
    mk_native_float, mk_native_int, mk_value, Datum, PluckVal, PluckValue,
};
use crate::utils::reals;
use crate::utils::reals::{compute, Arithmetic, RealOp};

verus! {

/// The values of the variables of each family, by name. Numbers stand by
/// their bits.
#[derive(Debug)]
pub struct Assignment {
    pub beta: Vec<(u64, u64)>,
    pub dirichlet: Vec<(u64, Vec<u64>)>,
    pub gamma: Vec<(u64, u64)>,
    pub gaussian: Vec<(u64, u64)>,
}

/// The number that stands first under a name.
pub open spec fn found(s: Seq<(u64, u64)>, name: u64) -> Option<u64>
    decreases s.len(),
{
    if s.len() == 0 {
        None
    } else if s[0].0 == name {
        Some(s[0].1)
    } else {
        found(s.skip(1), name)
    }
}

/// The numbers that stand first under a name.
pub open spec fn found_all(s: Seq<(u64, Vec<u64>)>, name: u64) -> Option<Seq<u64>>
    decreases s.len(),
{
    if s.len() == 0 {
        None
    } else if s[0].0 == name {
        Some(s[0].1@)
    } else {
        found_all(s.skip(1), name)
    }
}

fn look_up(s: &Vec<(u64, u64)>, name: u64) -> (r: Option<u64>)
    ensures
        r == found(s@, name),
{
    let mut i: usize = 0;
    assert(s@.skip(0) =~= s@);
    while i < s.len()
        invariant
            i <= s@.len(),
            found(s@, name) == found(s@.skip(i as int), name),
        decreases s@.len() - i,
    {
        assert(s@.skip(i as int)[0] == s@[i as int]);
        assert(s@.skip(i as int).skip(1) =~= s@.skip(i + 1));
        if s[i].0 == name {
            return Some(s[i].1);
        }
        i = i + 1;
    }
    None
}

impl Assignment {
    /// The value of a Beta variable.
    pub fn beta_value(&self, name: u64) -> (r: Option<u64>)
        ensures
            r == found(self.beta@, name),
    {
        look_up(&self.beta, name)
    }

    /// The value of a variable of the gamma family: a rate, or a draw.
    pub fn gamma_value(&self, name: u64) -> (r: Option<u64>)
        ensures
            r == found(self.gamma@, name),
    {
        look_up(&self.gamma, name)
    }

    /// The value of a Gaussian variable.
    pub fn gaussian_value(&self, name: u64) -> (r: Option<u64>)
        ensures
            r == found(self.gaussian@, name),
    {
        look_up(&self.gaussian, name)
    }

    /// The value of a Dirichlet variable.
    pub fn dirichlet_value(&self, name: u64) -> (r: Option<Vec<u64>>)
        ensures
            match r {
                Some(v) => found_all(self.dirichlet@, name) == Some(v@),
                None => found_all(self.dirichlet@, name) is None,
            },
    {
        let s: &Vec<(u64, Vec<u64>)> = &self.dirichlet;
        let mut i: usize = 0;
        assert(s@.skip(0) =~= s@);
        while i < s.len()
            invariant
                i <= s@.len(),
                s == self.dirichlet,
                found_all(s@, name) == found_all(s@.skip(i as int), name),
            decreases s@.len() - i,
        {
            assert(s@.skip(i as int)[0] == s@[i as int]);
            assert(s@.skip(i as int).skip(1) =~= s@.skip(i + 1));
            if s[i].0 == name {
                return Some(clone_numbers(&s[i].1));
            }
            i = i + 1;
        }
        None
    }
}

/// `total` and the products of the coefficients with the values of their
/// variables.
pub open spec fn affine_value(total: u64, s: Seq<(u64, u64)>, vals: Seq<(u64, u64)>, f: Arithmetic) -> Result<u64, u64>
    decreases s.len(),
{
    if s.len() == 0 {
        Ok(total)
    } else {
        match found(vals, s[0].0) {
            Some(v) => affine_value(
                f(RealOp::Sum, total, f(RealOp::Product, s[0].1, v)),
                s.skip(1),
                vals,
                f,
            ),
            None => Err(s[0].0),
        }
    }
}

pub open spec fn number(b: u64) -> Datum {
    Datum::Native(Const::Float(b))
}

pub open spec fn numbers(s: Seq<u64>) -> Seq<Datum> {
    Seq::new(s.len(), |i: int| number(s[i]))
}

/// What a symbolic datum is under an assignment of the continuous variables;
/// the variable that is missing, if one is.
pub open spec fn value_of(d: Datum, a: Assignment, yes: Symbol, f: Arithmetic) -> Option<Result<Datum, u64>> {
    match d {
        Datum::Probability(name) => match found(a.beta@, name) {
            Some(p) => Some(Ok(number(p))),
            None => Some(Err(name)),
        },
        Datum::DirichletProbability { name, index, .. } => match found_all(a.dirichlet@, name) {
            Some(ps) => if index < ps.len() {
                Some(Ok(number(ps[index as int])))
            } else {
                Some(Err(name))
            },
            None => Some(Err(name)),
        },
        Datum::DirichletVector { name, categories } => match found_all(a.dirichlet@, name) {
            Some(ps) => if ps.len() == categories {
                Some(Ok(Datum::Value { constructor: yes, args: numbers(ps) }))
            } else {
                Some(Err(name))
            },
            None => Some(Err(name)),
        },
        Datum::Gaussian { constant, coefficients } => match affine_value(
            constant,
            coefficients,
            a.gaussian@,
            f,
        ) {
            Ok(v) => Some(Ok(number(v))),
            Err(n) => Some(Err(n)),
        },
        Datum::Gamma { name, scale } => match found(a.gamma@, name) {
            Some(v) => Some(Ok(number(f(RealOp::Product, scale, v)))),
            None => Some(Err(name)),
        },
        Datum::Exponential { name, .. } => match found(a.gamma@, name) {
            Some(v) => Some(Ok(number(v))),
            None => Some(Err(name)),
        },
        Datum::Poisson { name, .. } => match found(a.gamma@, name) {
            Some(v) => Some(Ok(Datum::Native(Const::Int(f(RealOp::ToInt, v, 0) as i64)))),
            None => Some(Err(name)),
        },
        _ => None,
    }
}

impl PluckValue {
    /// What a symbolic value is under an assignment of the continuous
    /// variables; the variable that is missing, if one is. None for values
    /// that are not symbolic.
    ///
    /// A Gamma value is its variable times its scale. A draw was made at the
    /// scaled rate already, so the scale does not count again.
    pub fn force_symbolic<F: Fn(RealOp, u64, u64) -> u64>(&self, a: &Assignment, true_sym: Symbol, reals: &F) -> (r:
        Option<Result<PluckVal, u64>>)
        requires
            reals::settled(*reals),
        ensures
            match (values::symbol_of(*self), r) {
                (Some(d), Some(Ok(v))) => {
                    &&& values::concrete(*v)
                    &&& values::is_head(*v) && forall|order: Seq<u64>| #[trigger] v.over(order)
                    &&& forall|w: Worlds| #[trigger]
                        v.at(w) is Some && value_of(d, *a, true_sym, reals::operations(*reals))
                            == Some(Ok::<Datum, u64>(v.at(w)->0))
                },
                (Some(d), Some(Err(n))) => value_of(
                    d,
                    *a,
                    true_sym,
                    reals::operations(*reals),
                ) == Some(Err::<Datum, u64>(n)),
                (Some(_), None) => false,
                (None, r) => r is None,
            },
    {
        match self {
            PluckValue::Probability(name) => match a.beta_value(*name) {
                Some(p) => Some(Ok(mk_native_float(p))),
                None => Some(Err(*name)),
            },
            PluckValue::DirichletProbability { name, index, .. } => match a.dirichlet_value(*name) {
                Some(ps) => if *index < ps.len() {
                    Some(Ok(mk_native_float(ps[*index])))
                } else {
                    Some(Err(*name))
                },
                None => Some(Err(*name)),
            },
            PluckValue::DirichletVector { name, categories } => match a.dirichlet_value(*name) {
                Some(ps) => if ps.len() == *categories {
                    let args: Vec<PluckVal> = float_values(&ps);
                    let ghost seen = args@;
                    let v: PluckVal = mk_value(true_sym, args);
                    proof {
                        assert(values::concrete(*v));
                        assert forall|order: Seq<u64>| #[trigger] v.over(order) by {
                            assert(values::all_over(seen, order));
                        }
                        assert forall|w: Worlds| #[trigger]
                            v.at(w) is Some && v.at(w)->0 == (Datum::Value {
                                constructor: true_sym,
                                args: numbers(ps@),
                            }) by {
                            assert(values::all_at(seen, w) == Some(numbers(ps@)));
                        }
                    }
                    Some(Ok(v))
                } else {
                    Some(Err(*name))
                },
                None => Some(Err(*name)),
            },
            PluckValue::GaussianExpr { constant, coefficients } => {
                let ghost f = reals::operations(*reals);
                let ghost whole = affine_value(*constant, coefficients@, a.gaussian@, f);
                let mut total: u64 = *constant;
                let mut i: usize = 0;
                assert(coefficients@.skip(0) =~= coefficients@);
                while i < coefficients.len()
                    invariant
                        i <= coefficients@.len(),
                        reals::settled(*reals),
                        f == reals::operations(*reals),
                        whole == affine_value(total, coefficients@.skip(i as int), a.gaussian@, f),
                        *self matches PluckValue::GaussianExpr { constant: c, coefficients: cs } && cs == coefficients && whole
                            == affine_value(c, cs@, a.gaussian@, f),
                    decreases coefficients@.len() - i,
                {
                    assert(coefficients@.skip(i as int)[0] == coefficients@[i as int]);
                    assert(coefficients@.skip(i as int).skip(1) =~= coefficients@.skip(i + 1));
                    match a.gaussian_value(coefficients[i].0) {
                        Some(v) => {
                            let term: u64 = compute(reals, RealOp::Product, coefficients[i].1, v);
                            total = compute(reals, RealOp::Sum, total, term);
                        },
                        None => {
                            return Some(Err(coefficients[i].0));
                        },
                    }
                    i = i + 1;
                }
                Some(Ok(mk_native_float(total)))
            },
            PluckValue::Gamma { name, scale } => match a.gamma_value(*name) {
                Some(v) => Some(Ok(mk_native_float(compute(reals, RealOp::Product, *scale, v)))),
                None => Some(Err(*name)),
            },
            PluckValue::Exponential { name, .. } => match a.gamma_value(*name) {
                Some(v) => Some(Ok(mk_native_float(v))),
                None => Some(Err(*name)),
            },
            PluckValue::Poisson { name, .. } => match a.gamma_value(*name) {
                Some(v) => {
                    let count: u64 = compute(reals, RealOp::ToInt, v, 0);
                    Some(Ok(mk_native_int(#[verifier::truncate] (count as i64))))
                },
                None => Some(Err(*name)),
            },
            _ => None,
        }
    }
}

/// The numbers as values.
fn float_values(s: &Vec<u64>) -> (r: Vec<PluckVal>)
    ensures
        forall|w: Worlds| #[trigger]
            values::all_at(r@, w) == Some(numbers(s@)),
        forall|order: Seq<u64>| #[trigger] values::all_over(r@, order),
        values::all_concrete(r@),
{
    let mut out: Vec<PluckVal> = Vec::new();
    let mut i: usize = 0;
    assert(numbers(s@.take(0)) =~= Seq::<Datum>::empty());
    while i < s.len()
        invariant
            i <= s@.len(),
            forall|w: Worlds| #[trigger]
                values::all_at(out@, w) == Some(numbers(s@.take(i as int))),
            forall|order: Seq<u64>| #[trigger] values::all_over(out@, order),
            values::all_concrete(out@),
        decreases s@.len() - i,
    {
        let ghost before = out@;
        out.push(mk_native_float(s[i]));
        proof {
            assert(out@.drop_last() =~= before);
            assert(values::concrete(*out@.last()));
            assert forall|order: Seq<u64>| #[trigger] values::all_over(out@, order) by {
                assert(values::all_over(before, order));
                assert(out@.last().over(order));
            }
            assert(numbers(s@.take(i + 1)) =~= numbers(s@.take(i as int)).push(
                number(s@[i as int]),
            ));
            assert forall|w: Worlds| #[trigger]
                values::all_at(out@, w) == Some(numbers(s@.take(i + 1))) by {
                assert(values::all_at(before, w) == Some(numbers(s@.take(i as int))));
                assert(out@.last().at(w) == Some(number(s@[i as int])));
            }
        }
        i = i + 1;
    }
    assert(s@.take(s@.len() as int) =~= s@);
    out
}

} // verus!
