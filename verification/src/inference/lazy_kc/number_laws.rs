//! What operations on numbers, vectors and matrices are for, whether their
//! entries are known or stand for continuous variables.

use vstd::arithmetic::div_mod;
use vstd::prelude::*;

use super::affine;
use super::affine::{Affine, FloatOp};
use super::affine_laws;
use super::affine_laws::Drawn;
use super::semantics;
use super::semantics::{Depth, Model};
use crate::inference::sample_laws;
use crate::language::pexpr::Const;
use crate::language::primitives::Primitive;
use crate::language::values::{Datum, Outcome};
use crate::utils::exact;
use crate::utils::exact::Field;
use crate::utils::reals;
use crate::utils::reals::RealOp;

verus! {

/// The numbers that data stand for, evaluated or not.
pub type Worth<V> = spec_fn(Datum) -> V;

/// Data that are evaluated stand for their numbers.
pub open spec fn reads<V>(k: Field<V>, w: Worth<V>, gauss: Drawn<V>, gamma: Drawn<V>) -> bool {
    forall|d: Datum| #![trigger w(d)]
        d is Native || d is Gaussian || d is Gamma ==> w(d) == sample_laws::stands_for(
            k,
            d,
            gauss,
            gamma,
        )
}

/// What was evaluated stands for what it was evaluated from; what was not to
/// be evaluated is as it was.
pub open spec fn evaluates<V>(w: Worth<V>, wants: Seq<(Depth, Datum)>, got: Seq<Datum>) -> bool {
    got.len() == wants.len() && forall|n: int| #![trigger got[n]]
        0 <= n < got.len() ==> w(got[n]) == w(wants[n].1) && (wants[n].0 == Depth::Keep ==> got[n]
            == wants[n].1)
}

proof fn lemma_affine_of<V>(
    k: Field<V>,
    x: Model,
    w: Worth<V>,
    d: Datum,
    gauss: Drawn<V>,
    gamma: Drawn<V>,
)
    requires
        k.exact(x.arith),
        reads(k, w, gauss, gamma),
        semantics::affine_of(x, d) is Some,
    ensures
        affine_laws::worth(k, semantics::affine_of(x, d)->0, gauss) == w(d),
{
    exact::exact_laws(k, x.arith);
    assert(w(d) == sample_laws::stands_for(k, d, gauss, gamma));
    let p = semantics::affine_of(x, d)->0;
    exact::plus_zero(k, (k.value)(p.0));
    if let Datum::Native(Const::Int(i)) = d {
        exact::exact_integer(k, i, 0, x.arith);
    }
}

proof fn lemma_packed<V>(k: Field<V>, p: Affine, gauss: Drawn<V>, gamma: Drawn<V>)
    requires
        k.laws(),
    ensures
        sample_laws::stands_for(k, semantics::packed(p), gauss, gamma) == affine_laws::worth(
            k,
            p,
            gauss,
        ),
{
    exact::plus_zero(k, (k.value)(p.0));
}

proof fn lemma_known<V>(
    k: Field<V>,
    x: Model,
    w: Worth<V>,
    d: Datum,
    gauss: Drawn<V>,
    gamma: Drawn<V>,
)
    requires
        k.exact(x.arith),
        reads(k, w, gauss, gamma),
    ensures
        semantics::is_float(d, reals::ZERO) ==> w(d) == k.zero,
        semantics::is_float(d, reals::ONE) ==> w(d) == k.one,
{
    exact::exact_laws(k, x.arith);
    if let Datum::Native(Const::Float(b)) = d {
        assert(w(d) == (k.value)(b));
        exact::exact_equal(k, b, x.arith);
    }
}

/// The operation on two entries.
#[verifier::rlimit(30)]
proof fn lemma_cell<V>(
    k: Field<V>,
    x: Model,
    op: FloatOp,
    a: Datum,
    b: Datum,
    fa: Datum,
    fb: Datum,
    w: Worth<V>,
    gauss: Drawn<V>,
    gamma: Drawn<V>,
)
    requires
        k.exact(x.arith),
        affine_laws::coarse(k),
        reads(k, w, gauss, gamma),
        w(fa) == w(a),
        w(fb) == w(b),
        semantics::cell(x, op, a, b, fa, fb) is Some,
        op == FloatOp::Div ==> w(b) != k.zero,
    ensures
        affine_laws::makes(
            k,
            op,
            w(a),
            w(b),
            affine_laws::worth(k, semantics::cell(x, op, a, b, fa, fb)->0, gauss),
        ),
{
    exact::exact_laws(k, x.arith);
    lemma_known(k, x, w, a, gauss, gamma);
    lemma_known(k, x, w, b, gauss, gamma);
    exact::plus_zero(k, k.zero);
    exact::plus_zero(k, w(a));
    exact::plus_zero(k, w(b));
    exact::times_zero(k, w(a));
    exact::times_zero(k, w(b));
    exact::times_one(k, w(a));
    exact::times_one(k, w(b));
    match semantics::needed(op, a, b) {
        (false, false) => {
            assert(affine_laws::dot(k, Seq::<(u64, u64)>::empty(), gauss) == k.zero);
        },
        (false, true) => lemma_affine_of(k, x, w, fb, gauss, gamma),
        (true, false) => lemma_affine_of(k, x, w, fa, gauss, gamma),
        (true, true) => {
            lemma_affine_of(k, x, w, fa, gauss, gamma);
            lemma_affine_of(k, x, w, fb, gauss, gamma);
            affine_laws::lemma_operation_on_values(
                k,
                op,
                semantics::affine_of(x, fa)->0,
                semantics::affine_of(x, fb)->0,
                gauss,
                x.arith,
            );
        },
    }
}

/// The primitive of an operation.
pub open spec fn primitive(op: FloatOp) -> Primitive {
    match op {
        FloatOp::Add => Primitive::FAdd,
        FloatOp::Sub => Primitive::FSub,
        FloatOp::Mul => Primitive::FMul,
        FloatOp::Div => Primitive::FDiv,
    }
}

/// The entry at `i` of a matrix; anything else stands with every entry.
pub open spec fn entry(d: Datum, i: int) -> Datum {
    match d {
        Datum::Matrix { entries, .. } => entries[i],
        _ => d,
    }
}

proof fn lemma_all_packed(s: Seq<Option<Affine>>)
    requires
        semantics::all_packed(s) is Some,
    ensures
        semantics::all_packed(s)->0.len() == s.len(),
        forall|i: int|
            0 <= i < s.len() ==> (#[trigger] s[i]) is Some && semantics::all_packed(s)->0[i]
                == semantics::packed(s[i]->0),
    decreases s.len(),
{
    if s.len() > 0 {
        let p = s.drop_last();
        lemma_all_packed(p);
        let (t, r) = (semantics::all_packed(p)->0, semantics::all_packed(s)->0);
        assert forall|i: int| 0 <= i < s.len() implies (#[trigger] s[i]) is Some && r[i]
            == semantics::packed(s[i]->0) by {
            if i < p.len() {
                assert(p[i] == s[i]);
                assert(r[i] == t[i]);
            }
        }
    }
}

/// A float operation on two numbers or matrices, entry by entry: each entry of
/// the result is what the operation makes of the entries of the operands, and
/// the result has the shape of the operands. A rate is scaled by numbers in
/// the same way.
#[verifier::rlimit(60)]
pub proof fn lemma_operation<V>(
    k: Field<V>,
    x: Model,
    op: FloatOp,
    a: Datum,
    b: Datum,
    got: Seq<Datum>,
    cs: Seq<i32>,
    w: Worth<V>,
    gauss: Drawn<V>,
    gamma: Drawn<V>,
    d: Datum,
    i: int,
)
    requires
        k.exact(x.arith),
        affine_laws::coarse(k),
        reads(k, w, gauss, gamma),
        evaluates(w, semantics::wants(primitive(op), seq![a, b]), got),
        semantics::settled(primitive(op), seq![a, b], got, cs, x) == Outcome::Done(d),
        op == FloatOp::Div ==> w(entry(b, i)) != k.zero,
        match d {
            Datum::Matrix { entries, .. } => 0 <= i < entries.len(),
            _ => i == 0,
        },
    ensures
        affine_laws::makes(
            k,
            op,
            w(entry(a, i)),
            w(entry(b, i)),
            sample_laws::stands_for(k, entry(d, i), gauss, gamma),
        ),
        (d is Matrix) == (a is Matrix || b is Matrix),
        a matches Datum::Matrix { entries, shape } ==> d matches Datum::Matrix {
            entries: es,
            shape: p,
        } && p == shape && es.len() == entries.len(),
        b matches Datum::Matrix { entries, shape } ==> d matches Datum::Matrix {
            entries: es,
            shape: p,
        } && p == shape && es.len() == entries.len(),
{
    exact::exact_laws(k, x.arith);
    let vals = seq![a, b];
    assert(vals[0] == a && vals[1] == b);
    if a is Gamma || b is Gamma {
        assert(w(a) == w(a) && w(b) == w(b));
        lemma_rate_scaled(k, x, op, a, b, w, gauss, gamma, d);
    } else {
        let pairs = semantics::paired(a, b)->0;
        let cells = semantics::pair_cells(x, op, pairs, got);
        let wants = semantics::wants(primitive(op), vals);
        lemma_all_packed(cells);
        let ds = semantics::all_packed(cells)->0;
        assert(wants == semantics::pair_wants(op, pairs));
        assert(0 <= i < pairs.len());
        assert(pairs[i] == (entry(a, i), entry(b, i)));
        assert(wants[2 * i].1 == pairs[i].0) by {
            assert((2 * i) / 2 == i && (2 * i) % 2 == 0);
        }
        assert(wants[2 * i + 1].1 == pairs[i].1) by {
            assert((2 * i + 1) / 2 == i && (2 * i + 1) % 2 == 1);
        }
        assert(w(got[2 * i]) == w(wants[2 * i].1));
        assert(w(got[2 * i + 1]) == w(wants[2 * i + 1].1));
        assert(cells[i] is Some);
        lemma_cell(
            k,
            x,
            op,
            pairs[i].0,
            pairs[i].1,
            got[2 * i],
            got[2 * i + 1],
            w,
            gauss,
            gamma,
        );
        lemma_packed(k, cells[i]->0, gauss, gamma);
        assert(entry(d, i) == ds[i]);
    }
}

proof fn lemma_rate_scaled<V>(
    k: Field<V>,
    x: Model,
    op: FloatOp,
    a: Datum,
    b: Datum,
    w: Worth<V>,
    gauss: Drawn<V>,
    gamma: Drawn<V>,
    d: Datum,
)
    requires
        k.exact(x.arith),
        reads(k, w, gauss, gamma),
        semantics::scaled_gamma(x.arith, op, a, b) == Some(Outcome::Done(d)),
        op == FloatOp::Div ==> w(b) != k.zero,
    ensures
        d is Gamma,
        !(a is Matrix) && !(b is Matrix),
        affine_laws::makes(
            k,
            op,
            w(a),
            w(b),
            sample_laws::stands_for(k, d, gauss, gamma),
        ),
{
    exact::exact_laws(k, x.arith);
    assert(w(a) == w(a) && w(b) == w(b));
    match (op, a, b) {
        (FloatOp::Mul, Datum::Gamma { name, scale }, Datum::Native(Const::Float(c))) => {
            exact::exact_product(k, scale, c, x.arith);
            exact::times_swap(k, (k.value)(scale), (k.value)(c), gamma(name));
        },
        (FloatOp::Mul, Datum::Native(Const::Float(c)), Datum::Gamma { name, scale }) => {
            exact::exact_product(k, scale, c, x.arith);
            exact::times_swap(k, (k.value)(scale), (k.value)(c), gamma(name));
            exact::times_comm(k, (k.value)(c), (k.times)((k.value)(scale), gamma(name)));
        },
        (FloatOp::Div, Datum::Gamma { name, scale }, Datum::Native(Const::Float(c))) => {
            let q = x.arith;
            exact::exact_quotient(k, scale, c, x.arith);
            exact::times_swap(
                k,
                (k.value)(q(RealOp::Quotient, scale, c)),
                gamma(name),
                (k.value)(c),
            );
        },
        _ => {},
    }
}

proof fn lemma_affine_sum<V>(k: Field<V>, s: Seq<Option<Affine>>, vs: Seq<V>, gauss: Drawn<V>, x: Model)
    requires
        k.exact(x.arith),
        affine_laws::coarse(k),
        semantics::affine_sum(x.arith, s) is Some,
        vs.len() == s.len(),
        forall|i: int|
            0 <= i < s.len() ==> ((#[trigger] s[i]) matches Some(p) ==> affine_laws::worth(k, p, gauss)
                == vs[i]),
    ensures
        affine_laws::worth(k, semantics::affine_sum(x.arith, s)->0, gauss) == total(k, vs),
    decreases s.len(),
{
    exact::exact_laws(k, x.arith);
    if s.len() == 0 {
        exact::plus_zero(k, k.zero);
    } else {
        let (p, us) = (s.drop_last(), vs.drop_last());
        assert forall|i: int| 0 <= i < p.len() implies ((#[trigger] p[i]) matches Some(q)
            ==> affine_laws::worth(k, q, gauss) == us[i]) by {
            assert(p[i] == s[i]);
        }
        lemma_affine_sum(k, p, us, gauss, x);
        let (a, b) = (semantics::affine_sum(x.arith, p)->0, s[s.len() - 1]->0);
        assert(affine::combined(FloatOp::Add, a, b, x.arith) is Some);
        affine_laws::lemma_operation_on_values(k, FloatOp::Add, a, b, gauss, x.arith);
        assert(s[s.len() - 1] == Some(b));
    }
}

/// A float, or an expression in Gaussian variables: the variables are counted.
pub open spec fn variables(d: Datum) -> Option<nat> {
    match d {
        Datum::Native(Const::Float(_)) => Some(0),
        Datum::Gaussian { coefficients, .. } => Some(coefficients.len()),
        _ => None,
    }
}

/// The constant of a float or Gaussian expression.
pub open spec fn constant_of(d: Datum) -> u64 {
    match d {
        Datum::Native(Const::Float(b)) => b,
        Datum::Gaussian { constant, .. } => constant,
        _ => 0,
    }
}

/// Where the arithmetic gives numbers, every two floats or Gaussian
/// expressions have a sum and a difference; a product, if one of them has no
/// variables; and a quotient, if the divisor has no variables and is not zero,
/// or the dividend is the float zero.
pub proof fn lemma_operation_succeeds(
    x: Model,
    op: FloatOp,
    a: Datum,
    b: Datum,
    cs: Seq<i32>,
)
    requires
        forall|o: RealOp, c: u64, d: u64| !reals::nan(#[trigger] (x.arith)(o, c, d)),
        variables(a) is Some,
        variables(b) is Some,
    ensures
        semantics::settled(primitive(op), seq![a, b], seq![a, b], cs, x) is Done <==> match op {
            FloatOp::Add | FloatOp::Sub => true,
            FloatOp::Mul => variables(a) == Some(0nat) || variables(b) == Some(0nat),
            FloatOp::Div => (variables(b) == Some(0nat) && !reals::equal(constant_of(b), 0)) || (
            a is Native && reals::equal(constant_of(a), 0)),
        },
        !(semantics::settled(primitive(op), seq![a, b], seq![a, b], cs, x) is Fail),
{
    let vals = seq![a, b];
    assert(vals[0] == a && vals[1] == b);
    let pairs = seq![(a, b)];
    let cells = semantics::pair_cells(x, op, pairs, vals);
    let (p, q) = (semantics::affine_of(x, a)->0, semantics::affine_of(x, b)->0);
    affine_laws::lemma_operation_has_result(op, p, q, x.arith);
    assert(cells.drop_last() =~= Seq::empty());
    assert(pairs[0] == (a, b));
    reveal_with_fuel(semantics::all_packed, 3);
    assert(cells[0] == semantics::cell(x, op, a, b, a, b));
}

/// A rate is scaled where the scale stays positive: by a number on either
/// side, or divided by one. There is no other arithmetic on rates and draws.
pub proof fn lemma_rates_scaled(
    x: Model,
    op: FloatOp,
    name: u64,
    scale: u64,
    b: Datum,
    got: Seq<Datum>,
    cs: Seq<i32>,
)
    ensures
        ({
            let g = Datum::Gamma { name, scale };
            let left = semantics::settled(primitive(op), seq![g, b], got, cs, x);
            let right = semantics::settled(primitive(op), seq![b, g], got, cs, x);
            &&& left matches Outcome::Done(d) ==> d matches Datum::Gamma { name: n, scale: s }
                && n == name && reals::below(0, s)
            &&& left is Done <==> (b matches Datum::Native(Const::Float(c)) && (op == FloatOp::Mul
                && reals::below(0, (x.arith)(RealOp::Product, scale, c)) || op == FloatOp::Div
                && reals::below(0, (x.arith)(RealOp::Quotient, scale, c))))
            &&& right is Done <==> (b matches Datum::Native(Const::Float(c)) && op == FloatOp::Mul
                && reals::below(0, (x.arith)(RealOp::Product, scale, c)))
            &&& !(left is Fail) && !(right is Fail)
        }),
{
    let g = Datum::Gamma { name, scale };
    assert(seq![g, b][0] == g && seq![g, b][1] == b);
    assert(seq![b, g][0] == b && seq![b, g][1] == g);
}

/// Matrices of different shapes have no sum, difference, product or quotient
/// entry by entry, and those whose inner dimensions differ no matrix product.
pub proof fn lemma_shapes_fit(
    x: Model,
    op: FloatOp,
    a: Seq<Datum>,
    p: Seq<usize>,
    b: Seq<Datum>,
    q: Seq<usize>,
    got: Seq<Datum>,
    cs: Seq<i32>,
)
    ensures
        ({
            let vals = seq![
                Datum::Matrix { entries: a, shape: p },
                Datum::Matrix { entries: b, shape: q },
            ];
            &&& p != q ==> semantics::settled(primitive(op), vals, got, cs, x) == Outcome::Stuck
            &&& 1 <= p.len() <= 2 && 1 <= q.len() <= 2 && p.last() != q[0] ==> semantics::settled(
                Primitive::MatMul,
                vals,
                got,
                cs,
                x,
            ) == Outcome::Stuck
        }),
{
    let vals = seq![
        Datum::Matrix { entries: a, shape: p },
        Datum::Matrix { entries: b, shape: q },
    ];
    assert(vals[0] == Datum::Matrix { entries: a, shape: p });
    assert(vals[1] == Datum::Matrix { entries: b, shape: q });
}

/// Values, added up.
pub open spec fn total<V>(k: Field<V>, vs: Seq<V>) -> V
    decreases vs.len(),
{
    if vs.len() == 0 {
        k.zero
    } else {
        (k.plus)(total(k, vs.drop_last()), vs.last())
    }
}

/// The sum of a vector or matrix is the sum of its entries.
pub proof fn lemma_entries_summed<V>(
    k: Field<V>,
    x: Model,
    entries: Seq<Datum>,
    shape: Seq<usize>,
    got: Seq<Datum>,
    cs: Seq<i32>,
    w: Worth<V>,
    gauss: Drawn<V>,
    gamma: Drawn<V>,
    d: Datum,
)
    requires
        k.exact(x.arith),
        affine_laws::coarse(k),
        reads(k, w, gauss, gamma),
        evaluates(
            w,
            semantics::wants(Primitive::Sum, seq![Datum::Matrix { entries, shape }]),
            got,
        ),
        semantics::settled(
            Primitive::Sum,
            seq![Datum::Matrix { entries, shape }],
            got,
            cs,
            x,
        ) == Outcome::Done(d),
    ensures
        sample_laws::stands_for(k, d, gauss, gamma) == total(
            k,
            Seq::new(entries.len(), |i: int| w(entries[i])),
        ),
{
    exact::exact_laws(k, x.arith);
    let vals = seq![Datum::Matrix { entries, shape }];
    let wants = semantics::wants(Primitive::Sum, vals);
    assert(vals[0] == Datum::Matrix { entries, shape });
    let vs = Seq::new(entries.len(), |i: int| w(entries[i]));
    let s = Seq::new(got.len(), |i: int| semantics::affine_of(x, got[i]));
    assert(got.len() == entries.len());
    assert forall|i: int| 0 <= i < s.len() implies ((#[trigger] s[i]) matches Some(p)
        ==> affine_laws::worth(k, p, gauss) == vs[i]) by {
        if s[i] is Some {
            lemma_affine_of(k, x, w, got[i], gauss, gamma);
            assert(w(got[i]) == w(wants[i].1));
        }
    }
    lemma_affine_sum(k, s, vs, gauss, x);
    lemma_packed(k, semantics::affine_sum(x.arith, s)->0, gauss, gamma);
}

/// The products of the entries of row `i` of one matrix with those of column
/// `j` of another, whose inner dimension is `m` and which has `c` columns.
pub open spec fn row_by_column<V>(
    k: Field<V>,
    w: Worth<V>,
    a: Seq<Datum>,
    b: Seq<Datum>,
    i: int,
    j: int,
    m: int,
    c: int,
) -> Seq<V> {
    Seq::new(m as nat, |q: int| (k.times)(w(a[i * m + q]), w(b[q * c + j])))
}

proof fn lemma_place(i: int, j: int, q: int, m: int, c: int)
    requires
        0 <= j < c,
        0 <= q < m,
        0 <= i,
    ensures
        ((i * c + j) * m + q) / m == i * c + j,
        ((i * c + j) * m + q) % m == q,
        (i * c + j) / c == i,
        (i * c + j) % c == j,
{
    div_mod::lemma_fundamental_div_mod_converse((i * c + j) * m + q, m, i * c + j, q);
    div_mod::lemma_fundamental_div_mod_converse(i * c + j, c, i, j);
}

/// A matrix product: the entry in row `i` and column `j` is the sum of the
/// products of the entries of row `i` with those of column `j`. A vector on
/// the left is a row, and one on the right a column.
#[verifier::rlimit(80)]
pub proof fn lemma_matrix_product<V>(
    k: Field<V>,
    x: Model,
    a: Seq<Datum>,
    p: Seq<usize>,
    b: Seq<Datum>,
    q: Seq<usize>,
    got: Seq<Datum>,
    cs: Seq<i32>,
    w: Worth<V>,
    gauss: Drawn<V>,
    gamma: Drawn<V>,
    d: Datum,
    i: int,
    j: int,
)
    requires
        k.exact(x.arith),
        affine_laws::coarse(k),
        reads(k, w, gauss, gamma),
        p.len() == 1 || p.len() == 2,
        q.len() == 1 || q.len() == 2,
        evaluates(
            w,
            semantics::wants(
                Primitive::MatMul,
                seq![Datum::Matrix { entries: a, shape: p }, Datum::Matrix { entries: b, shape: q }],
            ),
            got,
        ),
        semantics::settled(
            Primitive::MatMul,
            seq![Datum::Matrix { entries: a, shape: p }, Datum::Matrix { entries: b, shape: q }],
            got,
            cs,
            x,
        ) == Outcome::Done(d),
        0 <= i < rows(p),
        0 <= j < columns(q),
    ensures
        p.last() == q[0],
        a.len() == rows(p) * p.last(),
        b.len() == q[0] * columns(q),
        match (p.len() == 1, q.len() == 1) {
            (true, true) => !(d is Matrix),
            (true, false) => d matches Datum::Matrix { shape, .. } && shape == seq![q[1]],
            (false, true) => d matches Datum::Matrix { shape, .. } && shape == seq![p[0]],
            (false, false) => d matches Datum::Matrix { shape, .. } && shape == seq![p[0], q[1]],
        },
        sample_laws::stands_for(k, entry(d, i * columns(q) + j), gauss, gamma) == total(
            k,
            row_by_column(k, w, a, b, i, j, q[0] as int, columns(q)),
        ),
{
    exact::exact_laws(k, x.arith);
    let (da, db) = (Datum::Matrix { entries: a, shape: p }, Datum::Matrix { entries: b, shape: q });
    let vals = seq![da, db];
    assert(vals[0] == da && vals[1] == db);
    let (r, m, c) = semantics::product_shape(da, db)->0;
    assert(r == rows(p) && c == columns(q) && m == q[0]);
    let pairs = semantics::factors(da, db, m as int, c as int, r * c * m);
    let wants = semantics::wants(Primitive::MatMul, vals);
    assert(wants == semantics::pair_wants(FloatOp::Mul, pairs));
    let cells = semantics::pair_cells(x, FloatOp::Mul, pairs, got);
    let sums = Seq::new(
        (r * c) as nat,
        |t: int| semantics::affine_sum(x.arith, semantics::terms(cells, m as int, t)),
    );
    lemma_all_packed(sums);
    let t = i * c + j;
    let ds = semantics::all_packed(sums)->0;
    assert(0 <= t < r * c) by (nonlinear_arith)
        requires
            t == i * c + j,
            0 <= i < r,
            0 <= j < c,
    ;
    assert(sums[t] is Some);
    let s = semantics::terms(cells, m as int, t);
    let vs = row_by_column(k, w, a, b, i, j, m as int, c as int);
    assert((t + 1) * m <= r * c * m && 0 <= t * m && (t + 1) * m == t * m + m) by (nonlinear_arith)
        requires
            0 <= t < r * c,
            0 <= m,
    ;
    assert(s.len() == m);
    assert forall|h: int| 0 <= h < s.len() implies ((#[trigger] s[h]) matches Some(e)
        ==> affine_laws::worth(k, e, gauss) == vs[h]) by {
        let n = t * m + h;
        lemma_place(i, j, h, m as int, c as int);
        assert(s[h] == cells[n]);
        assert(pairs[n] == (a[i * m + h], b[h * c + j]));
        assert((2 * n) / 2 == n && (2 * n) % 2 == 0);
        assert((2 * n + 1) / 2 == n && (2 * n + 1) % 2 == 1);
        assert(w(got[2 * n]) == w(wants[2 * n].1));
        assert(w(got[2 * n + 1]) == w(wants[2 * n + 1].1));
        if cells[n] is Some {
            lemma_cell(
                k,
                x,
                FloatOp::Mul,
                pairs[n].0,
                pairs[n].1,
                got[2 * n],
                got[2 * n + 1],
                w,
                gauss,
                gamma,
            );
        }
    }
    lemma_affine_sum(k, s, vs, gauss, x);
    lemma_packed(k, sums[t]->0, gauss, gamma);
    if p.len() == 1 && q.len() == 1 {
        assert(t == 0);
        lemma_packed_plain(sums[t]->0);
    }
}

proof fn lemma_packed_plain(p: Affine)
    ensures
        !(semantics::packed(p) is Matrix),
{
}

/// The rows of the left factor of a matrix product.
pub open spec fn rows(p: Seq<usize>) -> int {
    if p.len() == 1 {
        1
    } else {
        p[0] as int
    }
}

/// The columns of the right factor of a matrix product.
pub open spec fn columns(q: Seq<usize>) -> int {
    if q.len() == 1 {
        1
    } else {
        q[1] as int
    }
}

/// An entry of a matrix by row and column is the entry by column of the row.
pub proof fn lemma_row_and_column(
    x: Model,
    cs: Seq<i32>,
    entries: Seq<Datum>,
    r: usize,
    c: usize,
    i: i64,
    j: i64,
)
    requires
        entries.len() == r * c,
        0 <= i < r,
        0 <= j < c,
    ensures
        ({
            let m = Datum::Matrix { entries, shape: seq![r, c] };
            let (di, dj) = (Datum::Native(Const::Int(i)), Datum::Native(Const::Int(j)));
            let both = seq![m, di, dj];
            semantics::settled(Primitive::Index, seq![m, di], Seq::empty(), cs, x) matches Outcome::Done(
                row,
            ) && row matches Datum::Matrix { entries: es, shape: p } && p == seq![c] && es.len() == c
                && semantics::wants(Primitive::Index, both) == seq![(Depth::Head, es[j as int])]
                && semantics::wants(Primitive::Index, seq![row, dj]) == seq![
                (Depth::Head, es[j as int]),
            ] && forall|n: int| 0 <= n < c ==> #[trigger] es[n] == entries[i * c + n]
        }),
{
    let m = Datum::Matrix { entries, shape: seq![r, c] };
    let (di, dj) = (Datum::Native(Const::Int(i)), Datum::Native(Const::Int(j)));
    let v = seq![m, di];
    let both = seq![m, di, dj];
    assert((i + 1) * c <= r * c && 0 <= i * c && (i + 1) * c == i * c + c) by (nonlinear_arith)
        requires
            0 <= i < r,
            0 <= c,
    ;
    assert(v[0] == m && v[1] == di);
    assert(both[0] == m && both[1] == di && both[2] == dj);
    let row = entries.subrange(i * c, (i + 1) * c);
    let dr = Datum::Matrix { entries: row, shape: seq![c] };
    let w = seq![dr, dj];
    assert(w[0] == dr && w[1] == dj);
    assert(seq![r, c][0] == r && seq![r, c][1] == c);
    assert(row[j as int] == entries[i * c + j]);
}

} // verus!
