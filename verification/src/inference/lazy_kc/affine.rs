//! Affine combinations of Gaussian variables: a constant and coefficients by
//! variable, in the order of the variables.

use vstd::prelude::*;

use crate::utils::reals;
use crate::utils::reals::{
    compute, real_equal, real_smaller, Arithmetic, RealOp, INFINITY, ONE, SIGN, ZERO,
};

verus! {

/// The bits of 10⁻³⁰: a coefficient below it in magnitude is dropped.
pub const NEGLIGIBLE: u64 = 0x39b4_484b_feeb_c2a0;

/// The bits of -1.
pub const MINUS_ONE: u64 = 0xbff0_0000_0000_0000;

/// The float operations of the language.
#[derive(Debug, Clone, Copy, PartialEq, Eq, Structural)]
pub enum FloatOp {
    Add,
    Sub,
    Mul,
    Div,
}

/// A constant and the coefficients of variables.
pub type Affine = (u64, Seq<(u64, u64)>);

/// How many of the coefficients stand before the variable `k`.
pub open spec fn place(s: Seq<(u64, u64)>, k: u64) -> nat
    decreases s.len(),
{
    if s.len() == 0 || s[0].0 >= k {
        0
    } else {
        1 + place(s.skip(1), k)
    }
}

/// The coefficients with `v` added to that of the variable `k`; a coefficient
/// that becomes negligible is dropped. None if the sum is not a number.
pub open spec fn with_term(s: Seq<(u64, u64)>, k: u64, v: u64, f: Arithmetic) -> Option<
    Seq<(u64, u64)>,
> {
    let p = place(s, k) as int;
    let known = p < s.len() && s[p].0 == k;
    let c = f(
        RealOp::Sum,
        if known {
            s[p].1
        } else {
            ZERO
        },
        v,
    );
    if reals::nan(c) {
        None
    } else if reals::smaller(c, NEGLIGIBLE) {
        if known {
            Some(s.remove(p))
        } else {
            Some(s)
        }
    } else if known {
        Some(s.update(p, (k, c)))
    } else {
        Some(s.insert(p, (k, c)))
    }
}

/// The coefficients of both lists, added up.
pub open spec fn merged(a: Seq<(u64, u64)>, b: Seq<(u64, u64)>, f: Arithmetic) -> Option<
    Seq<(u64, u64)>,
>
    decreases b.len(),
{
    if b.len() == 0 {
        Some(a)
    } else {
        match merged(a, b.drop_last(), f) {
            Some(s) => with_term(s, b.last().0, b.last().1, f),
            None => None,
        }
    }
}

/// The coefficients, each times `c`.
pub open spec fn scaled(s: Seq<(u64, u64)>, c: u64, f: Arithmetic) -> Option<Seq<(u64, u64)>>
    decreases s.len(),
{
    if s.len() == 0 {
        Some(Seq::empty())
    } else {
        let p = f(RealOp::Product, s.last().1, c);
        match scaled(s.drop_last(), c, f) {
            Some(t) => if reals::nan(p) {
                None
            } else {
                Some(t.push((s.last().0, p)))
            },
            None => None,
        }
    }
}

/// A constant with coefficients, if there are any.
pub open spec fn paired(c: u64, m: Option<Seq<(u64, u64)>>) -> Option<Affine> {
    match m {
        Some(m) => Some((c, m)),
        None => None,
    }
}

/// An operation on two affine combinations. None where the result is not
/// affine, or not a number.
pub open spec fn combined(op: FloatOp, a: Affine, b: Affine, f: Arithmetic) -> Option<Affine> {
    match op {
        FloatOp::Add => paired(f(RealOp::Sum, a.0, b.0), merged(a.1, b.1, f)),
        FloatOp::Sub => match scaled(b.1, MINUS_ONE, f) {
            Some(m) => paired(f(RealOp::Difference, a.0, b.0), merged(a.1, m, f)),
            None => None,
        },
        FloatOp::Mul => if a.1.len() > 0 && b.1.len() > 0 {
            None
        } else if a.1.len() == 0 {
            paired(f(RealOp::Product, a.0, b.0), scaled(b.1, a.0, f))
        } else {
            paired(f(RealOp::Product, a.0, b.0), scaled(a.1, b.0, f))
        },
        FloatOp::Div => if b.1.len() > 0 || reals::equal(b.0, ZERO) {
            None
        } else {
            paired(
                f(RealOp::Quotient, a.0, b.0),
                scaled(a.1, f(RealOp::Quotient, ONE, b.0), f),
            )
        },
    }
}

/// Is `b` the bits of something that is not a number?
pub fn is_nan(b: u64) -> (r: bool)
    ensures
        r == reals::nan(b),
{
    if b >= SIGN {
        b - SIGN > INFINITY
    } else {
        b > INFINITY
    }
}

fn find_place(s: &Vec<(u64, u64)>, k: u64) -> (p: usize)
    ensures
        p == place(s@, k),
        p <= s@.len(),
{
    let mut p: usize = 0;
    assert(s@.skip(0) =~= s@);
    while p < s.len() && s[p].0 < k
        invariant
            p <= s@.len(),
            place(s@, k) == p + place(s@.skip(p as int), k),
        decreases s@.len() - p,
    {
        assert(s@.skip(p as int).skip(1) =~= s@.skip(p + 1));
        p = p + 1;
    }
    p
}

fn add_term<F: Fn(RealOp, u64, u64) -> u64>(s: &mut Vec<(u64, u64)>, k: u64, v: u64, f: &F) -> (ok: bool)
    requires
        reals::settled(*f),
    ensures
        ok == (with_term(old(s)@, k, v, reals::operations(*f)) is Some),
        ok ==> with_term(old(s)@, k, v, reals::operations(*f)) == Some(final(s)@),
{
    let p: usize = find_place(s, k);
    let known: bool = p < s.len() && s[p].0 == k;
    let before: u64 = if known {
        s[p].1
    } else {
        ZERO
    };
    let c: u64 = compute(f, RealOp::Sum, before, v);
    if is_nan(c) {
        return false;
    }
    if real_smaller(c, NEGLIGIBLE) {
        if known {
            s.remove(p);
        }
    } else if known {
        s.set(p, (k, c));
    } else {
        s.insert(p, (k, c));
    }
    true
}

/// The coefficients of both lists, added up.
pub fn merge_coefficients<F: Fn(RealOp, u64, u64) -> u64>(
    a: &Vec<(u64, u64)>,
    b: &Vec<(u64, u64)>,
    f: &F,
) -> (r: Option<Vec<(u64, u64)>>)
    requires
        reals::settled(*f),
    ensures
        match r {
            Some(m) => merged(a@, b@, reals::operations(*f)) == Some(m@),
            None => merged(a@, b@, reals::operations(*f)) is None,
        },
{
    let mut s: Vec<(u64, u64)> = crate::language::values::clone_pairs(a);
    let mut i: usize = 0;
    while i < b.len()
        invariant
            i <= b@.len(),
            reals::settled(*f),
            merged(a@, b@.take(i as int), reals::operations(*f)) == Some(s@),
        decreases b@.len() - i,
    {
        let ok: bool = add_term(&mut s, b[i].0, b[i].1, f);
        proof {
            assert(b@.take(i + 1).drop_last() =~= b@.take(i as int));
            if !ok {
                lemma_merged_none(a@, b@, i + 1, reals::operations(*f));
            }
        }
        if !ok {
            return None;
        }
        i = i + 1;
    }
    assert(b@.take(b@.len() as int) =~= b@);
    Some(s)
}

proof fn lemma_merged_none(a: Seq<(u64, u64)>, b: Seq<(u64, u64)>, n: int, f: Arithmetic)
    requires
        0 <= n <= b.len(),
        merged(a, b.take(n), f) is None,
    ensures
        merged(a, b, f) is None,
    decreases b.len() - n,
{
    if n < b.len() {
        assert(b.take(n + 1).drop_last() =~= b.take(n));
        lemma_merged_none(a, b, n + 1, f);
    } else {
        assert(b.take(n) =~= b);
    }
}

/// The coefficients, each times `c`.
pub fn scale_coefficients<F: Fn(RealOp, u64, u64) -> u64>(s: &Vec<(u64, u64)>, c: u64, f: &F) -> (r:
    Option<Vec<(u64, u64)>>)
    requires
        reals::settled(*f),
    ensures
        match r {
            Some(m) => scaled(s@, c, reals::operations(*f)) == Some(m@),
            None => scaled(s@, c, reals::operations(*f)) is None,
        },
{
    let mut t: Vec<(u64, u64)> = Vec::new();
    let mut i: usize = 0;
    let mut ok: bool = true;
    while i < s.len()
        invariant
            i <= s@.len(),
            reals::settled(*f),
            scaled(s@.take(i as int), c, reals::operations(*f)) == (if ok {
                Some(t@)
            } else {
                None
            }),
        decreases s@.len() - i,
    {
        let p: u64 = compute(f, RealOp::Product, s[i].1, c);
        assert(s@.take(i + 1).drop_last() =~= s@.take(i as int));
        if is_nan(p) {
            ok = false;
        } else if ok {
            t.push((s[i].0, p));
        }
        i = i + 1;
    }
    assert(s@.take(s@.len() as int) =~= s@);
    if ok {
        Some(t)
    } else {
        None
    }
}

/// The exec form of an affine combination.
pub type AffineVal = (u64, Vec<(u64, u64)>);

fn pair_up(c: u64, m: Option<Vec<(u64, u64)>>) -> (r: Option<AffineVal>)
    ensures
        match m {
            Some(m) => r matches Some(p) && p.0 == c && p.1@ == m@,
            None => r is None,
        },
{
    match m {
        Some(m) => Some((c, m)),
        None => None,
    }
}

/// Apply a float operation to two affine combinations. Only one factor of a
/// product may have variables, and a divisor none; a divisor is not zero.
pub fn affine_binop<F: Fn(RealOp, u64, u64) -> u64>(
    op: FloatOp,
    a: &AffineVal,
    b: &AffineVal,
    f: &F,
) -> (r: Option<AffineVal>)
    requires
        reals::settled(*f),
    ensures
        match r {
            Some(p) => combined(op, (a.0, a.1@), (b.0, b.1@), reals::operations(*f)) == Some(
                (p.0, p.1@),
            ),
            None => combined(op, (a.0, a.1@), (b.0, b.1@), reals::operations(*f)) is None,
        },
{
    match op {
        FloatOp::Add => pair_up(
            compute(f, RealOp::Sum, a.0, b.0),
            merge_coefficients(&a.1, &b.1, f),
        ),
        FloatOp::Sub => match scale_coefficients(&b.1, MINUS_ONE, f) {
            Some(m) => pair_up(
                compute(f, RealOp::Difference, a.0, b.0),
                merge_coefficients(&a.1, &m, f),
            ),
            None => None,
        },
        FloatOp::Mul => if a.1.len() > 0 && b.1.len() > 0 {
            None
        } else if a.1.len() == 0 {
            pair_up(compute(f, RealOp::Product, a.0, b.0), scale_coefficients(&b.1, a.0, f))
        } else {
            pair_up(compute(f, RealOp::Product, a.0, b.0), scale_coefficients(&a.1, b.0, f))
        },
        FloatOp::Div => if b.1.len() > 0 || real_equal(b.0, ZERO) {
            None
        } else {
            let inverse: u64 = compute(f, RealOp::Quotient, ONE, b.0);
            pair_up(
                compute(f, RealOp::Quotient, a.0, b.0),
                scale_coefficients(&a.1, inverse, f),
            )
        },
    }
}

} // verus!
