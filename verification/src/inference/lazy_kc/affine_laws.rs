//! What operations on affine combinations of Gaussian variables are for: the
//! value of a result is the operation on the values of the operands.

use vstd::prelude::*;

use super::affine;
use super::affine::{Affine, FloatOp};
use crate::utils::exact;
use crate::utils::exact::Field;
use crate::utils::reals;
use crate::utils::reals::{Arithmetic, RealOp, ONE, ZERO};

verus! {

/// Values of the variables.
pub type Drawn<V> = spec_fn(u64) -> V;

/// The products of the coefficients with the values of their variables, added
/// up.
pub open spec fn dot<V>(k: Field<V>, s: Seq<(u64, u64)>, env: Drawn<V>) -> V
    decreases s.len(),
{
    if s.len() == 0 {
        k.zero
    } else {
        (k.plus)(dot(k, s.drop_last(), env), (k.times)((k.value)(s.last().1), env(s.last().0)))
    }
}

/// The value of an affine combination, given those of its variables: its
/// constant and the products of its coefficients with them, added up.
pub open spec fn worth<V>(k: Field<V>, p: Affine, env: Drawn<V>) -> V {
    (k.plus)((k.value)(p.0), dot(k, p.1, env))
}

/// `r` is what the operation makes of `a` and `b`: their sum; what gives `a`
/// when `b` is added to it; their product; what gives `a` when it is
/// multiplied by `b`.
pub open spec fn makes<V>(k: Field<V>, op: FloatOp, a: V, b: V, r: V) -> bool {
    match op {
        FloatOp::Add => r == (k.plus)(a, b),
        FloatOp::Sub => (k.plus)(r, b) == a,
        FloatOp::Mul => r == (k.times)(a, b),
        FloatOp::Div => (k.times)(r, b) == a,
    }
}

/// Coefficients below 10⁻³⁰ in magnitude count for nothing.
pub open spec fn coarse<V>(k: Field<V>) -> bool {
    forall|c: u64| #[trigger]
        reals::smaller(c, 0x39b4_484b_feeb_c2a0u64) ==> (k.value)(c) == k.zero
}

pub open spec fn term<V>(k: Field<V>, e: (u64, u64), env: Drawn<V>) -> V {
    (k.times)((k.value)(e.1), env(e.0))
}

proof fn lemma_dot_insert<V>(k: Field<V>, s: Seq<(u64, u64)>, p: int, e: (u64, u64), env: Drawn<V>)
    requires
        k.laws(),
        0 <= p <= s.len(),
    ensures
        dot(k, s.insert(p, e), env) == (k.plus)(dot(k, s, env), term(k, e, env)),
    decreases s.len(),
{
    let t = s.insert(p, e);
    let y = term(k, e, env);
    if p == s.len() {
        assert(t.drop_last() =~= s);
    } else {
        let q = s.drop_last();
        let z = term(k, s.last(), env);
        lemma_dot_insert(k, q, p, e, env);
        assert(t.drop_last() =~= q.insert(p, e));
        assert(t.last() == s.last());
        exact::plus_assoc(k, dot(k, q, env), y, z);
        exact::plus_comm(k, y, z);
        exact::plus_assoc(k, dot(k, q, env), z, y);
    }
}

proof fn lemma_dot_remove<V>(k: Field<V>, s: Seq<(u64, u64)>, p: int, env: Drawn<V>)
    requires
        k.laws(),
        0 <= p < s.len(),
    ensures
        dot(k, s, env) == (k.plus)(dot(k, s.remove(p), env), term(k, s[p], env)),
{
    lemma_dot_insert(k, s.remove(p), p, s[p], env);
    assert(s.remove(p).insert(p, s[p]) =~= s);
}

/// Adding to a coefficient adds the product with its variable.
proof fn lemma_with_term<V>(k: Field<V>, s: Seq<(u64, u64)>, n: u64, v: u64, env: Drawn<V>, f: Arithmetic)
    requires
        k.exact(f),
        coarse(k),
        affine::with_term(s, n, v, f) is Some,
    ensures
        dot(k, affine::with_term(s, n, v, f)->0, env) == (k.plus)(
            dot(k, s, env),
            (k.times)((k.value)(v), env(n)),
        ),
{
    let p = affine::place(s, n) as int;
    let r = affine::with_term(s, n, v, f)->0;
    let d = dot(k, s, env);
    let w = (k.times)((k.value)(v), env(n));
    exact::exact_laws(k, f);
    lemma_place(s, n);
    let known = p < s.len() && s[p].0 == n;
    let had = if known {
        s[p].1
    } else {
        ZERO
    };
    let c = f(RealOp::Sum, had, v);
    exact::exact_sum(k, had, v, f);
    exact::times_plus(k, (k.value)(had), (k.value)(v), env(n));
    exact::times_zero(k, env(n));
    exact::plus_zero(k, w);
    exact::plus_zero(k, d);
    let new = (n, c);
    if known {
        let rest = s.remove(p);
        let b = dot(k, rest, env);
        lemma_dot_remove(k, s, p, env);
        exact::plus_assoc(k, b, term(k, s[p], env), w);
        if reals::smaller(c, affine::NEGLIGIBLE) {
            exact::plus_zero(k, b);
        } else {
            lemma_dot_insert(k, rest, p, new, env);
            assert(rest.insert(p, new) =~= s.update(p, new));
        }
    } else if !reals::smaller(c, affine::NEGLIGIBLE) {
        lemma_dot_insert(k, s, p, new, env);
    }
}

proof fn lemma_place(s: Seq<(u64, u64)>, n: u64)
    ensures
        affine::place(s, n) <= s.len(),
    decreases s.len(),
{
    if s.len() > 0 && s[0].0 < n {
        lemma_place(s.skip(1), n);
    }
}

proof fn lemma_merged<V>(k: Field<V>, a: Seq<(u64, u64)>, b: Seq<(u64, u64)>, env: Drawn<V>, f: Arithmetic)
    requires
        k.exact(f),
        coarse(k),
        affine::merged(a, b, f) is Some,
    ensures
        dot(k, affine::merged(a, b, f)->0, env) == (k.plus)(dot(k, a, env), dot(k, b, env)),
    decreases b.len(),
{
    exact::exact_laws(k, f);
    if b.len() == 0 {
        exact::plus_zero(k, dot(k, a, env));
    } else {
        let p = b.drop_last();
        lemma_merged(k, a, p, env, f);
        lemma_with_term(k, affine::merged(a, p, f)->0, b.last().0, b.last().1, env, f);
        exact::plus_assoc(k, dot(k, a, env), dot(k, p, env), term(k, b.last(), env));
    }
}

proof fn lemma_scaled<V>(k: Field<V>, s: Seq<(u64, u64)>, c: u64, env: Drawn<V>, f: Arithmetic)
    requires
        k.exact(f),
        affine::scaled(s, c, f) is Some,
    ensures
        dot(k, affine::scaled(s, c, f)->0, env) == (k.times)(dot(k, s, env), (k.value)(c)),
    decreases s.len(),
{
    let z = (k.value)(c);
    exact::exact_laws(k, f);
    if s.len() == 0 {
        exact::times_zero(k, z);
    } else {
        let p = s.drop_last();
        let r = affine::scaled(s, c, f)->0;
        let e = s.last();
        lemma_scaled(k, p, c, env, f);
        assert(r.drop_last() =~= affine::scaled(p, c, f)->0);
        exact::exact_product(k, e.1, c, f);
        exact::times_swap(k, (k.value)(e.1), z, env(e.0));
        exact::times_plus(k, dot(k, p, env), term(k, e, env), z);
    }
}

/// Under every assignment of numbers to the variables, the value of the
/// result of an operation on two affine combinations is what the operation
/// makes of their values.
pub proof fn lemma_operation_on_values<V>(
    k: Field<V>,
    op: FloatOp,
    a: Affine,
    b: Affine,
    env: Drawn<V>,
    f: Arithmetic,
)
    requires
        k.exact(f),
        coarse(k),
        affine::combined(op, a, b, f) is Some,
        op == FloatOp::Div ==> worth(k, b, env) != k.zero,
    ensures
        makes(
            k,
            op,
            worth(k, a, env),
            worth(k, b, env),
            worth(k, affine::combined(op, a, b, f)->0, env),
        ),
{
    let r = affine::combined(op, a, b, f)->0;
    let (a0, b0) = ((k.value)(a.0), (k.value)(b.0));
    let (da, db) = (dot(k, a.1, env), dot(k, b.1, env));
    exact::exact_laws(k, f);
    match op {
        FloatOp::Add => {
            exact::exact_sum(k, a.0, b.0, f);
            lemma_merged(k, a.1, b.1, env, f);
            exact::plus_swap(k, a0, b0, da, db);
        },
        FloatOp::Sub => {
            let m = affine::scaled(b.1, affine::MINUS_ONE, f)->0;
            exact::exact_difference(k, a.0, b.0, f);
            lemma_scaled(k, b.1, affine::MINUS_ONE, env, f);
            lemma_merged(k, a.1, m, env, f);
            let dm = dot(k, m, env);
            let n = (k.minus)(k.zero, k.one);
            // The two parts with variables cancel.
            exact::minus_plus(k, k.zero, k.one);
            exact::times_plus(k, n, k.one, db);
            exact::times_one(k, db);
            exact::times_comm(k, db, n);
            exact::times_zero(k, db);
            exact::plus_assoc(k, da, dm, db);
            exact::plus_zero(k, da);
            exact::minus_plus(k, a0, b0);
            exact::plus_swap(k, (k.minus)(a0, b0), (k.plus)(da, dm), b0, db);
        },
        FloatOp::Mul => {
            exact::exact_product(k, a.0, b.0, f);
            if a.1.len() == 0 {
                lemma_scaled(k, b.1, a.0, env, f);
                exact::plus_zero(k, a0);
                exact::times_plus(k, b0, db, a0);
                exact::times_comm(k, db, a0);
            } else {
                lemma_scaled(k, a.1, b.0, env, f);
                exact::plus_zero(k, b0);
                exact::times_plus(k, a0, da, b0);
            }
        },
        FloatOp::Div => {
            let i = f(RealOp::Quotient, ONE, b.0);
            exact::plus_zero(k, b0);
            exact::exact_quotient(k, a.0, b.0, f);
            exact::exact_quotient(k, ONE, b.0, f);
            lemma_scaled(k, a.1, i, env, f);
            exact::times_plus(k, (k.value)(r.0), dot(k, r.1, env), b0);
            exact::times_assoc(k, da, (k.value)(i), b0);
            exact::times_one(k, da);
        },
    }
}

/// In particular, the difference of two combinations and the second one add
/// up to the first.
pub proof fn lemma_difference_and_sum<V>(k: Field<V>, a: Affine, b: Affine, env: Drawn<V>, f: Arithmetic)
    requires
        k.exact(f),
        coarse(k),
        affine::combined(FloatOp::Sub, a, b, f) matches Some(d) && affine::combined(
            FloatOp::Add,
            d,
            b,
            f,
        ) is Some,
    ensures
        worth(
            k,
            affine::combined(FloatOp::Add, affine::combined(FloatOp::Sub, a, b, f)->0, b, f)->0,
            env,
        ) == worth(k, a, env),
{
    let d = affine::combined(FloatOp::Sub, a, b, f)->0;
    lemma_operation_on_values(k, FloatOp::Sub, a, b, env, f);
    lemma_operation_on_values(k, FloatOp::Add, d, b, env, f);
}

/// Where the arithmetic gives numbers, there is a result of every sum and
/// difference; of a product, if one factor has no variables; and of a
/// quotient, if the divisor has none and is not zero.
pub proof fn lemma_operation_has_result(op: FloatOp, a: Affine, b: Affine, f: Arithmetic)
    requires
        forall|o: RealOp, c: u64, d: u64| !reals::nan(#[trigger] f(o, c, d)),
    ensures
        affine::combined(op, a, b, f) is Some <==> match op {
            FloatOp::Add => true,
            FloatOp::Sub => true,
            FloatOp::Mul => a.1.len() == 0 || b.1.len() == 0,
            FloatOp::Div => b.1.len() == 0 && !reals::equal(b.0, 0),
        },
{
    lemma_merged_there(a.1, b.1, f);
    lemma_scaled_there(b.1, affine::MINUS_ONE, f);
    lemma_scaled_there(b.1, a.0, f);
    lemma_scaled_there(a.1, b.0, f);
    lemma_scaled_there(a.1, f(RealOp::Quotient, ONE, b.0), f);
    if op == FloatOp::Sub {
        lemma_merged_there(a.1, affine::scaled(b.1, affine::MINUS_ONE, f)->0, f);
    }
}

proof fn lemma_merged_there(a: Seq<(u64, u64)>, b: Seq<(u64, u64)>, f: Arithmetic)
    requires
        forall|o: RealOp, c: u64, d: u64| !reals::nan(#[trigger] f(o, c, d)),
    ensures
        affine::merged(a, b, f) is Some,
    decreases b.len(),
{
    if b.len() > 0 {
        lemma_merged_there(a, b.drop_last(), f);
    }
}

proof fn lemma_scaled_there(s: Seq<(u64, u64)>, c: u64, f: Arithmetic)
    requires
        forall|o: RealOp, c: u64, d: u64| !reals::nan(#[trigger] f(o, c, d)),
    ensures
        affine::scaled(s, c, f) is Some,
    decreases s.len(),
{
    if s.len() > 0 {
        lemma_scaled_there(s.drop_last(), c, f);
    }
}

/// The variables stand in increasing order.
pub open spec fn ascending(s: Seq<(u64, u64)>) -> bool {
    forall|i: int, j: int| 0 <= i < j < s.len() ==> (#[trigger] s[i]).0 < (#[trigger] s[j]).0
}

proof fn lemma_place_splits(s: Seq<(u64, u64)>, n: u64)
    requires
        ascending(s),
    ensures
        affine::place(s, n) <= s.len(),
        forall|i: int| 0 <= i < affine::place(s, n) ==> (#[trigger] s[i]).0 < n,
        forall|i: int| affine::place(s, n) <= i < s.len() ==> (#[trigger] s[i]).0 >= n,
    decreases s.len(),
{
    if s.len() > 0 && s[0].0 < n {
        let t = s.skip(1);
        assert forall|i: int, j: int| 0 <= i < j < t.len() implies (#[trigger] t[i]).0 < (#[trigger] t[j]).0 by {
            assert(s[i + 1].0 < s[j + 1].0);
        }
        lemma_place_splits(t, n);
        assert forall|i: int| 0 <= i < affine::place(s, n) implies (#[trigger] s[i]).0 < n by {
            if i > 0 {
                assert(t[i - 1] == s[i]);
            }
        }
        assert forall|i: int| affine::place(s, n) <= i < s.len() implies (#[trigger] s[i]).0 >= n by {
            assert(t[i - 1] == s[i]);
        }
    }
}

/// Adding up coefficients keeps the variables in order, each at most once.
pub proof fn lemma_merged_ascending(a: Seq<(u64, u64)>, b: Seq<(u64, u64)>, f: Arithmetic)
    requires
        ascending(a),
        affine::merged(a, b, f) is Some,
    ensures
        ascending(affine::merged(a, b, f)->0),
    decreases b.len(),
{
    if b.len() > 0 {
        lemma_merged_ascending(a, b.drop_last(), f);
        let s = affine::merged(a, b.drop_last(), f)->0;
        let r = affine::merged(a, b, f)->0;
        let n = b.last().0;
        let p = affine::place(s, n) as int;
        lemma_place_splits(s, n);
        assert forall|i: int, j: int| 0 <= i < j < r.len() implies (#[trigger] r[i]).0 < (#[trigger] r[j]).0 by {
            if r.len() == s.len() {
                assert(s[i].0 < s[j].0);
            } else if r.len() > s.len() {
                let i0 = if i < p {
                    i
                } else {
                    i - 1
                };
                let j0 = if j < p {
                    j
                } else {
                    j - 1
                };
                if i != p && j != p {
                    assert(s[i0].0 < s[j0].0);
                } else if i == p {
                    assert(s[j0].0 >= n);
                    assert(!(p < s.len() && s[p].0 == n));
                    if j0 > p {
                        assert(s[p].0 < s[j0].0);
                    }
                } else {
                    assert(s[i].0 < n);
                }
            } else {
                let i0 = if i < p {
                    i
                } else {
                    i + 1
                };
                let j0 = if j < p {
                    j
                } else {
                    j + 1
                };
                assert(s[i0].0 < s[j0].0);
            }
        }
    }
}

} // verus!
