//! Primitive operations on vectors, matrices and affine combinations.

use vstd::prelude::*;

use super::affine;
use super::affine::{merge_coefficients, AffineVal};
use super::ctx;
use super::ctx::CompilerCtx;
use super::monad::{pure_monad, GuardedWorlds};
use super::semantics;
use super::semantics::{Law, Model, SMALL};
use super::settle;
use super::state::Prior;
use crate::discrete_factorizations::Worlds;
use crate::language::pexpr::NativeVal;
use crate::language::values;
use crate::language::values::{
    clone_pairs, mk_dirichlet_probability, mk_float_matrix, mk_gaussian_expr, mk_native_float,
    Datum, Outcome, PluckVal, PluckValue,
};
use crate::utils::reals;
use crate::utils::reals::{compute, real_smaller, RealOp, ONE, ZERO};

verus! {

/// An index into a dimension.
pub open spec fn index_within(v: PluckValue, n: int) -> Option<int> {
    match v {
        PluckValue::Native(NativeVal::Int(i)) => if 0 <= i < n {
            Some(i as int)
        } else {
            None
        },
        _ => None,
    }
}

fn index_of(v: &PluckValue, n: usize) -> (r: Option<usize>)
    ensures
        match r {
            Some(i) => index_within(*v, n as int) == Some(i as int),
            None => index_within(*v, n as int) is None,
        },
{
    match v {
        PluckValue::Native(NativeVal::Int(i)) => {
            if *i >= 0 && (*i as u64) < n as u64 {
                Some(*i as usize)
            } else {
                None
            }
        },
        _ => None,
    }
}

proof fn lemma_index(v: &PluckValue, n: int, a: Worlds)
    requires
        values::is_head(*v),
        v.at(a) is Some,
    ensures
        semantics::index_in(v.at(a)->0, n) == index_within(*v, n),
{
}

/// The place of the entry of a matrix that is asked for.
pub open spec fn place_in(vals: Seq<PluckVal>) -> Option<int> {
    match *vals[0] {
        PluckValue::FloatMatrix { entries, shape } => if shape@.len() == 1 && vals.len() == 2 {
            match index_within(*vals[1], shape@[0] as int) {
                Some(i) => if i < entries@.len() {
                    Some(i)
                } else {
                    None
                },
                None => None,
            }
        } else if shape@.len() == 2 && vals.len() == 3 {
            match (
                index_within(*vals[1], shape@[0] as int),
                index_within(*vals[2], shape@[1] as int),
            ) {
                (Some(i), Some(j)) => if i * shape@[1] + j < entries@.len() {
                    Some(i * shape@[1] + j)
                } else {
                    None
                },
                _ => None,
            }
        } else {
            None
        },
        _ => None,
    }
}

pub proof fn lemma_place(vals: Seq<PluckVal>, a: Worlds)
    requires
        vals.len() >= 1,
        settle::all_heads(vals),
        values::all_at(vals, a) is Some,
    ensures
        semantics::entry_place(values::all_at(vals, a)->0) == place_in(vals),
        place_in(vals) matches Some(i) ==> 0 <= i < entries_in(*vals[0]).len(),
{
    values::lemma_all_at(vals, a);
    assert(vals[0].at(a) is Some);
    match &*vals[0] {
        PluckValue::FloatMatrix { entries, shape } => {
            values::lemma_all_at(entries@, a);
            if shape@.len() == 1 && vals.len() == 2 {
                assert(vals[1].at(a) is Some);
                lemma_index(&*vals[1], shape@[0] as int, a);
            } else if shape@.len() == 2 && vals.len() == 3 {
                assert(vals[1].at(a) is Some);
                assert(vals[2].at(a) is Some);
                lemma_index(&*vals[1], shape@[0] as int, a);
                lemma_index(&*vals[2], shape@[1] as int, a);
                assert forall|i: int, j: int| 0 <= i && 0 <= j implies 0 <= #[trigger] (i
                    * shape@[1] + j) by {
                    assert(0 <= i * shape@[1]) by (nonlinear_arith)
                        requires
                            0 <= i,
                            0 <= shape@[1],
                    ;
                }
            }
        },
        _ => {},
    }
}

/// An entry that is asked for is one.
pub proof fn lemma_place_within(vals: Seq<PluckVal>)
    requires
        vals.len() >= 1,
    ensures
        place_in(vals) matches Some(i) ==> 0 <= i < entries_in(*vals[0]).len(),
{
    match &*vals[0] {
        PluckValue::FloatMatrix { shape, .. } => {
            if shape@.len() == 2 && vals.len() == 3 {
                assert forall|i: int, j: int| 0 <= i && 0 <= j implies 0 <= #[trigger] (i
                    * shape@[1] + j) by {
                    assert(0 <= i * shape@[1]) by (nonlinear_arith)
                        requires
                            0 <= i,
                            0 <= shape@[1],
                    ;
                }
            }
        },
        _ => {},
    }
}

/// The entries of a matrix.
pub open spec fn entries_in(v: PluckValue) -> Seq<PluckVal> {
    match v {
        PluckValue::FloatMatrix { entries, .. } => entries@,
        _ => Seq::empty(),
    }
}

pub(crate) fn place_of(vals: &Vec<PluckVal>) -> (r: Option<usize>)
    requires
        vals@.len() >= 1,
    ensures
        match r {
            Some(i) => place_in(vals@) == Some(i as int) && i < entries_in(*vals@[0]).len(),
            None => place_in(vals@) is None,
        },
{
    match &*vals[0] {
        PluckValue::FloatMatrix { entries, shape } => {
            let total: usize = entries.len();
            if shape.len() == 1 && vals.len() == 2 {
                match index_of(&vals[1], shape[0]) {
                    Some(i) => {
                        if i < total {
                            return Some(i);
                        }
                    },
                    None => {},
                }
            } else if shape.len() == 2 && vals.len() == 3 {
                match (index_of(&vals[1], shape[0]), index_of(&vals[2], shape[1])) {
                    (Some(i), Some(j)) => {
                        proof {
                            assert(0 <= i * shape@[1]) by (nonlinear_arith)
                                requires
                                    0 <= i,
                                    0 <= shape@[1],
                            ;
                        }
                        match i.checked_mul(shape[1]) {
                            Some(row) => match row.checked_add(j) {
                                Some(k) => {
                                    if k < total {
                                        return Some(k);
                                    }
                                },
                                None => {},
                            },
                            None => {},
                        }
                    },
                    _ => {},
                }
            }
            None
        },
        _ => None,
    }
}

/// The values from `from` up to `to`.
fn slice(s: &Vec<PluckVal>, from: usize, to: usize) -> (r: Vec<PluckVal>)
    requires
        from <= to <= s@.len(),
    ensures
        r@ == s@.subrange(from as int, to as int),
{
    let mut r: Vec<PluckVal> = Vec::new();
    let mut i: usize = from;
    while i < to
        invariant
            from <= i <= to <= s@.len(),
            r@ == s@.subrange(from as int, i as int),
        decreases to - i,
    {
        r.push(s[i].clone());
        assert(r@ =~= s@.subrange(from as int, i + 1));
        i = i + 1;
    }
    r
}

impl<'a, F: Fn(RealOp, u64, u64) -> u64, G: Fn(usize, Vec<u64>) -> bool> CompilerCtx<'a, F, G> {
    /// An element of a vector, or an entry or a row of a matrix.
    pub(crate) fn settle_index(&mut self, vals: &Vec<PluckVal>, got: &Vec<PluckVal>) -> (r: Option<
        GuardedWorlds,
    >)
        requires
            old(self).supplies(vals@, got@),
            vals@.len() >= 1,
            settle::all_heads(got@),
            place_in(vals@) is Some ==> got@.len() == 1,
        ensures
            old(self).moved(final(self)),
            final(self).answers(
                r,
                settle::asks(
                    vals@,
                    got@,
                    |ds: Seq<Datum>, gs: Seq<Datum>, x: Model| semantics::indexed(ds, gs),
                ),
            ),
    {
        let ghost s = settle::asks(
            vals@,
            got@,
            |ds: Seq<Datum>, gs: Seq<Datum>, x: Model| semantics::indexed(ds, gs),
        );
        proof {
            self.lemma_step_refl();
            values::lemma_all_over(vals@, self.vars());
            values::lemma_all_over(got@, self.vars());
            assert(vals@[0].over(self.vars()));
            assert forall|a: Worlds| #[trigger] values::all_at(vals@, a) is Some implies semantics::entry_place(
                values::all_at(vals@, a)->0,
            ) == place_in(vals@) && vals@[0].at(a) == Some(values::all_at(vals@, a)->0[0])
                && values::all_at(vals@, a)->0.len() == vals@.len() by {
                lemma_place(vals@, a);
                values::lemma_all_at(vals@, a);
            }
        }
        match &*vals[0] {
            PluckValue::DirichletVector { name, categories } => {
                if vals.len() != 2 {
                    return None;
                }
                proof {
                    assert forall|a: Worlds| #[trigger] values::all_at(vals@, a) is Some implies semantics::index_in(
                        values::all_at(vals@, a)->0[1],
                        *categories as int,
                    ) == index_within(*vals@[1], *categories as int) by {
                        values::lemma_all_at(vals@, a);
                        assert(vals@[1].at(a) is Some);
                        lemma_index(&*vals@[1], *categories as int, a);
                    }
                }
                match index_of(&vals[1], *categories) {
                    Some(i) => {
                        let v: PluckVal = mk_dirichlet_probability(*name, i, *categories);
                        let w: GuardedWorlds = pure_monad(v);
                        proof {
                            self.lemma_gives(v, w, s);
                        }
                        Some(w)
                    },
                    None => None,
                }
            },
            PluckValue::FloatMatrix { entries, shape } => {
                match place_of(vals) {
                    Some(_) => {
                        let v: PluckVal = got[0].clone();
                        let w: GuardedWorlds = pure_monad(v);
                        proof {
                            assert(values::is_head(*got@[0]));
                            assert(got@[0].over(self.vars()));
                            assert forall|a: Worlds, x: Model| #[trigger]
                                self.allows(a, x) && s(a, x) is Some implies v.at(a) is Some && s(a, x)
                                == Some(Outcome::Done(v.at(a)->0)) by {
                                values::lemma_all_at(got@, a);
                                assert(got@[0].at(a) is Some);
                            }
                            self.lemma_gives(v, w, s);
                        }
                        return Some(w);
                    },
                    None => {},
                }
                if shape.len() != 2 || vals.len() != 2 {
                    return None;
                }
                proof {
                    assert forall|a: Worlds| #[trigger] values::all_at(vals@, a) is Some implies semantics::index_in(
                        values::all_at(vals@, a)->0[1],
                        shape@[0] as int,
                    ) == index_within(*vals@[1], shape@[0] as int) && values::all_at(entries@, a) is Some
                        && values::all_at(entries@, a)->0.len() == entries@.len() by {
                        values::lemma_all_at(vals@, a);
                        assert(vals@[1].at(a) is Some);
                        lemma_index(&*vals@[1], shape@[0] as int, a);
                        values::lemma_all_at(entries@, a);
                    }
                }
                match index_of(&vals[1], shape[0]) {
                    Some(i) => {
                        let cols: usize = shape[1];
                        let total: usize = entries.len();
                        let from: usize = match i.checked_mul(cols) {
                            Some(k) => k,
                            None => {
                                proof {
                                    assert((i + 1) * cols >= i * cols) by (nonlinear_arith)
                                        requires
                                            0 <= i,
                                            0 <= cols,
                                    ;
                                }
                                return None;
                            },
                        };
                        proof {
                            assert((i + 1) * cols == i * cols + cols) by (nonlinear_arith);
                        }
                        if total < from || total - from < cols {
                            return None;
                        }
                        let row: Vec<PluckVal> = slice(entries, from, from + cols);
                        let mut width: Vec<usize> = Vec::new();
                        width.push(cols);
                        assert(width@ =~= seq![cols]);
                        let v: PluckVal = mk_float_matrix(row, width);
                        let w: GuardedWorlds = pure_monad(v);
                        proof {
                            values::lemma_all_over(entries@, self.vars());
                            values::lemma_all_over(row@, self.vars());
                            assert forall|j: int| 0 <= j < row@.len() implies (#[trigger] row@[j]).over(
                                self.vars(),
                            ) && !(*row@[j] is ThunkUnion) by {
                                assert(row@[j] == entries@[from + j]);
                            }
                            assert forall|a: Worlds, x: Model| #[trigger]
                                self.allows(a, x) && s(a, x) is Some implies v.at(a) is Some && s(a, x)
                                == Some(Outcome::Done(v.at(a)->0)) by {
                                values::lemma_all_at(entries@, a);
                                values::lemma_all_at(row@, a);
                                let es = values::all_at(entries@, a)->0;
                                assert forall|j: int| 0 <= j < row@.len() implies (
                                #[trigger] row@[j]).at(a) == Some(es[from + j]) by {
                                    assert(row@[j] == entries@[from + j]);
                                }
                                let rs = values::all_at(row@, a)->0;
                                assert forall|j: int| 0 <= j < row@.len() implies rs[j] == es[from + j] by {
                                    assert(row@[j].at(a) == Some(rs[j]));
                                }
                                assert(rs =~= es.subrange(from as int, from + cols));
                            }
                            self.lemma_gives(v, w, s);
                        }
                        Some(w)
                    },
                    None => None,
                }
            },
            _ => None,
        }
    }
}

/// What an affine combination is, if there is one.
pub open spec fn view_of(o: Option<AffineVal>) -> Option<affine::Affine> {
    match o {
        Some(p) => Some((p.0, p.1@)),
        None => None,
    }
}

pub open spec fn views_of(s: Seq<Option<AffineVal>>) -> Seq<Option<affine::Affine>> {
    Seq::new(s.len(), |i: int| view_of(s[i]))
}

/// An affine combination as a value: a number, if it has no variables.
pub(crate) fn pack_affine(p: &AffineVal) -> (r: PluckVal)
    ensures
        values::is_head(*r),
        forall|order: Seq<u64>| #[trigger] r.over(order),
        forall|a: Worlds| #[trigger] r.at(a) == Some(semantics::packed((p.0, p.1@))),
{
    if p.1.len() == 0 {
        mk_native_float(p.0)
    } else {
        mk_gaussian_expr(p.0, clone_pairs(&p.1))
    }
}

/// Affine combinations as values, if all are there.
pub(crate) fn pack_all(s: &Vec<Option<AffineVal>>) -> (r: Option<Vec<PluckVal>>)
    ensures
        match r {
            Some(v) => {
                &&& v@.len() == s@.len()
                &&& settle::all_heads(v@)
                &&& forall|order: Seq<u64>| #[trigger] values::all_over(v@, order)
                &&& semantics::all_packed(views_of(s@)) is Some
                &&& forall|a: Worlds| #[trigger]
                    values::all_at(v@, a) == semantics::all_packed(views_of(s@))
            },
            None => semantics::all_packed(views_of(s@)) is None,
        },
{
    let mut v: Vec<PluckVal> = Vec::new();
    let mut ok: bool = true;
    let mut i: usize = 0;
    assert(views_of(s@).take(0) =~= Seq::<Option<affine::Affine>>::empty());
    while i < s.len()
        invariant
            i <= s@.len(),
            ok ==> v@.len() == i,
            settle::all_heads(v@),
            forall|order: Seq<u64>| #[trigger] values::all_over(v@, order),
            ok == (semantics::all_packed(views_of(s@).take(i as int)) is Some),
            ok ==> forall|a: Worlds| #[trigger]
                values::all_at(v@, a) == semantics::all_packed(views_of(s@).take(i as int)),
        decreases s@.len() - i,
    {
        proof {
            let head = views_of(s@).take(i as int);
            let next = views_of(s@).take(i + 1);
            assert(next.drop_last() =~= head);
            assert(next.last() == view_of(s@[i as int]));
        }
        match &s[i] {
            Some(p) => {
                if ok {
                    let ghost before = v@;
                    let e: PluckVal = pack_affine(p);
                    v.push(e);
                    proof {
                        assert(v@.drop_last() =~= before);
                        assert forall|order: Seq<u64>| #[trigger] values::all_over(v@, order) by {
                            assert(values::all_over(before, order));
                            assert(e.over(order));
                        }
                        assert forall|a: Worlds| #[trigger]
                            values::all_at(v@, a) == semantics::all_packed(
                            views_of(s@).take(i + 1),
                        ) by {
                            assert(values::all_at(before, a) == semantics::all_packed(
                                views_of(s@).take(i as int),
                            ));
                            assert(e.at(a) == Some(semantics::packed((p.0, p.1@))));
                        }
                    }
                }
            },
            None => {
                ok = false;
            },
        }
        i = i + 1;
    }
    assert(views_of(s@).take(s@.len() as int) =~= views_of(s@));
    if ok {
        Some(v)
    } else {
        None
    }
}

impl<'a, F: Fn(RealOp, u64, u64) -> u64, G: Fn(usize, Vec<u64>) -> bool> CompilerCtx<'a, F, G> {
    /// The affine combination that a value is.
    pub open spec fn aff(&self, v: PluckValue) -> Option<affine::Affine> {
        match v {
            PluckValue::GaussianExpr { constant, coefficients } => Some((constant, coefficients@)),
            _ => match self.num(v) {
                Some(b) => Some((b, Seq::empty())),
                None => None,
            },
        }
    }

    pub proof fn lemma_aff(&self, v: &PluckValue, a: Worlds, x: Model)
        requires
            self.suits(x),
            values::is_head(*v),
            v.at(a) is Some,
        ensures
            semantics::affine_of(x, v.at(a)->0) == self.aff(*v),
    {
        self.lemma_num(v, a, x);
    }

    pub(crate) fn affine_parts(&self, v: &PluckValue) -> (r: Option<AffineVal>)
        requires
            reals::settled(*self.reals),
        ensures
            view_of(r) == self.aff(*v),
    {
        match v {
            PluckValue::GaussianExpr { constant, coefficients } => Some(
                (*constant, clone_pairs(coefficients)),
            ),
            _ => match self.number_of(v) {
                Some(b) => {
                    let none: Vec<(u64, u64)> = Vec::new();
                    assert(none@ =~= Seq::<(u64, u64)>::empty());
                    Some((b, none))
                },
                None => None,
            },
        }
    }

    /// The sum of the affine combinations from `from` up to `to`.
    pub(crate) fn sum_affine(&self, s: &Vec<Option<AffineVal>>, from: usize, to: usize) -> (r: Option<AffineVal>)
        requires
            reals::settled(*self.reals),
            from <= to <= s@.len(),
        ensures
            view_of(r) == semantics::affine_sum(
                reals::operations(*self.reals),
                views_of(s@).subrange(from as int, to as int),
            ),
    {
        let ghost all = views_of(s@);
        let ghost f = reals::operations(*self.reals);
        let none: Vec<(u64, u64)> = Vec::new();
        assert(none@ =~= Seq::<(u64, u64)>::empty());
        let mut acc: AffineVal = (ZERO, none);
        let mut ok: bool = true;
        let mut i: usize = from;
        assert(all.subrange(from as int, from as int) =~= Seq::<Option<affine::Affine>>::empty());
        while i < to
            invariant
                from <= i <= to <= s@.len(),
                all == views_of(s@),
                f == reals::operations(*self.reals),
                reals::settled(*self.reals),
                semantics::affine_sum(f, all.subrange(from as int, i as int)) == (if ok {
                    Some((acc.0, acc.1@))
                } else {
                    None
                }),
            decreases to - i,
        {
            proof {
                let next = all.subrange(from as int, i + 1);
                assert(next.drop_last() =~= all.subrange(from as int, i as int));
                assert(next.last() == view_of(s@[i as int]));
            }
            match &s[i] {
                Some(q) => {
                    if ok {
                        let c: u64 = compute(self.reals, RealOp::Sum, acc.0, q.0);
                        match merge_coefficients(&acc.1, &q.1, self.reals) {
                            Some(m) => {
                                acc = (c, m);
                            },
                            None => {
                                ok = false;
                            },
                        }
                    }
                },
                None => {
                    ok = false;
                },
            }
            i = i + 1;
        }
        if ok {
            Some(acc)
        } else {
            None
        }
    }

    /// The sum of the entries of a matrix.
    pub(crate) fn settle_sum(&mut self, vals: &Vec<PluckVal>, got: &Vec<PluckVal>) -> (r: Option<
        GuardedWorlds,
    >)
        requires
            old(self).supplies(vals@, got@),
            vals@.len() == 1,
            settle::all_heads(got@),
        ensures
            old(self).moved(final(self)),
            final(self).answers(
                r,
                settle::asks(
                    vals@,
                    got@,
                    |ds: Seq<Datum>, gs: Seq<Datum>, x: Model| semantics::entry_sum(x, ds[0], gs),
                ),
            ),
    {
        let ghost s = settle::asks(
            vals@,
            got@,
            |ds: Seq<Datum>, gs: Seq<Datum>, x: Model| semantics::entry_sum(x, ds[0], gs),
        );
        proof {
            self.lemma_step_refl();
            settle::lemma_operands(vals@);
        }
        let is_matrix: bool = matches!(&*vals[0], PluckValue::FloatMatrix { .. });
        if !is_matrix {
            return None;
        }
        let mut parts: Vec<Option<AffineVal>> = Vec::new();
        let mut i: usize = 0;
        while i < got.len()
            invariant
                i <= got@.len(),
                reals::settled(*self.reals),
                parts@.len() == i,
                forall|j: int| 0 <= j < i ==> view_of(#[trigger] parts@[j]) == self.aff(*got@[j]),
            decreases got@.len() - i,
        {
            let p: Option<AffineVal> = self.affine_parts(&got[i]);
            parts.push(p);
            i = i + 1;
        }
        let sum: Option<AffineVal> = self.sum_affine(&parts, 0, parts.len());
        proof {
            assert forall|a: Worlds, x: Model| #[trigger] self.allows(a, x) && s(a, x) is Some implies semantics::affine_sum(
                x.arith,
                Seq::new(
                    values::all_at(got@, a)->0.len(),
                    |i: int| semantics::affine_of(x, values::all_at(got@, a)->0[i]),
                ),
            ) == view_of(sum) && vals@[0].at(a) == Some(values::all_at(vals@, a)->0[0]) by {
                values::lemma_all_at(got@, a);
                values::lemma_all_at(vals@, a);
                let gs = values::all_at(got@, a)->0;
                let want = Seq::new(gs.len(), |i: int| semantics::affine_of(x, gs[i]));
                assert forall|j: int| 0 <= j < gs.len() implies want[j] == views_of(parts@)[j] by {
                    assert(got@[j].at(a) == Some(gs[j]));
                    assert(values::is_head(*got@[j]));
                    self.lemma_aff(&*got@[j], a, x);
                    assert(view_of(parts@[j]) == self.aff(*got@[j]));
                }
                assert(want =~= views_of(parts@).subrange(0, parts@.len() as int));
            }
        }
        match sum {
            Some(p) => {
                let v: PluckVal = pack_affine(&p);
                let w: GuardedWorlds = pure_monad(v);
                proof {
                    assert(v.over(self.vars()));
                    assert forall|a: Worlds, x: Model| #[trigger]
                        self.allows(a, x) && s(a, x) is Some implies v.at(a) is Some && s(a, x)
                        == Some(Outcome::Done(v.at(a)->0)) by {
                        assert(v.at(a) == Some(semantics::packed((p.0, p.1@))));
                    }
                    self.lemma_gives(v, w, s);
                }
                Some(w)
            },
            None => None,
        }
    }

    /// The numbers that values are; none has variables.
    pub open spec fn consts(&self, s: Seq<PluckVal>) -> Option<Seq<u64>>
        decreases s.len(),
    {
        if s.len() == 0 {
            Some(Seq::empty())
        } else {
            match (self.consts(s.drop_last()), self.aff(*s.last())) {
                (Some(t), Some(p)) => if p.1.len() == 0 {
                    Some(t.push(p.0))
                } else {
                    None
                },
                _ => None,
            }
        }
    }

    proof fn lemma_consts(&self, s: Seq<PluckVal>, a: Worlds, x: Model)
        requires
            self.suits(x),
            settle::all_heads(s),
            values::all_at(s, a) is Some,
        ensures
            semantics::constants(x, values::all_at(s, a)->0) == self.consts(s),
        decreases s.len(),
    {
        if s.len() > 0 {
            let p = s.drop_last();
            let last = s[s.len() - 1];
            assert(s.last() == last);
            assert forall|i: int| 0 <= i < p.len() implies values::is_head(*(#[trigger] p[i])) by {
                assert(p[i] == s[i]);
            }
            self.lemma_consts(p, a, x);
            self.lemma_aff(&*last, a, x);
            let ds = values::all_at(s, a)->0;
            assert(ds.drop_last() =~= values::all_at(p, a)->0);
        }
    }

    fn constants_of(&self, s: &Vec<PluckVal>) -> (r: Option<Vec<u64>>)
        requires
            reals::settled(*self.reals),
        ensures
            match r {
                Some(v) => self.consts(s@) == Some(v@) && v@.len() == s@.len(),
                None => self.consts(s@) is None,
            },
    {
        let mut v: Vec<u64> = Vec::new();
        let mut ok: bool = true;
        let mut i: usize = 0;
        while i < s.len()
            invariant
                i <= s@.len(),
                reals::settled(*self.reals),
                self.consts(s@.take(i as int)) == (if ok {
                    Some(v@)
                } else {
                    None
                }),
                ok ==> v@.len() == i,
            decreases s@.len() - i,
        {
            assert(s@.take(i + 1).drop_last() =~= s@.take(i as int));
            match self.affine_parts(&s[i]) {
                Some(p) => {
                    if p.1.len() != 0 {
                        ok = false;
                    } else if ok {
                        v.push(p.0);
                    }
                },
                None => {
                    ok = false;
                },
            }
            i = i + 1;
        }
        assert(s@.take(s@.len() as int) =~= s@);
        if ok {
            Some(v)
        } else {
            None
        }
    }

    /// Do the entries of the covariance that have to agree do so? It follows
    /// the means in `all`.
    fn is_symmetric(&self, all: &Vec<u64>, n: usize) -> (b: bool)
        requires
            reals::settled(*self.reals),
            all@.len() == n + n * n,
        ensures
            forall|x: Model| #[trigger]
                self.suits(x) ==> b == semantics::symmetric(x, n as int, all@.skip(n as int)),
    {
        let ghost cov = all@.skip(n as int);
        let ghost f = reals::operations(*self.reals);
        let total: usize = all.len();
        let mut r: usize = 0;
        while r < n
            invariant
                r <= n,
                total == all@.len(),
                all@.len() == n + n * n,
                cov == all@.skip(n as int),
                f == reals::operations(*self.reals),
                reals::settled(*self.reals),
                forall|p: int, q: int|
                    0 <= p < r && p < q < n ==> #[trigger] reals::smaller(
                        f(RealOp::Difference, cov[p * n + q], cov[q * n + p]),
                        SMALL,
                    ),
            decreases n - r,
        {
            let mut c: usize = r + 1;
            while c < n
                invariant
                    r < c <= n,
                    total == all@.len(),
                    all@.len() == n + n * n,
                    cov == all@.skip(n as int),
                    f == reals::operations(*self.reals),
                    reals::settled(*self.reals),
                    forall|p: int, q: int|
                        0 <= p < r && p < q < n ==> #[trigger] reals::smaller(
                            f(RealOp::Difference, cov[p * n + q], cov[q * n + p]),
                            SMALL,
                        ),
                    forall|q: int|
                        r < q < c ==> #[trigger] reals::smaller(
                            f(RealOp::Difference, cov[r * n + q], cov[q * n + r]),
                            SMALL,
                        ),
                decreases n - c,
            {
                proof {
                    assert(0 <= r * n + c < n * n && 0 <= c * n + r < n * n && 0 <= r * n && 0 <= c
                        * n) by (nonlinear_arith)
                        requires
                            0 <= r < c < n,
                    ;
                }
                let one: u64 = all[n + (r * n + c)];
                let two: u64 = all[n + (c * n + r)];
                let off: u64 = compute(self.reals, RealOp::Difference, one, two);
                assert(one == cov[r * n + c] && two == cov[c * n + r]);
                if !real_smaller(off, SMALL) {
                    proof {
                        assert forall|x: Model| #[trigger] self.suits(x) implies !semantics::symmetric(
                            x,
                            n as int,
                            cov,
                        ) by {
                            assert(!reals::smaller(
                                (x.arith)(
                                    RealOp::Difference,
                                    cov[r as int * n as int + c as int],
                                    cov[c as int * n as int + r as int],
                                ),
                                SMALL,
                            ));
                        }
                    }
                    return false;
                }
                c = c + 1;
            }
            r = r + 1;
        }
        true
    }

    /// Can the matrix, which follows the means in `all`, be a covariance?
    fn is_covariance(&self, all: &Vec<u64>, n: usize) -> (b: bool)
        requires
            ctx::steady(*self.covariance),
            n <= all@.len(),
        ensures
            forall|x: Model| #[trigger]
                self.suits(x) ==> b == (x.covariance)(n as nat, all@.skip(n as int)),
    {
        let mut cov: Vec<u64> = Vec::new();
        let mut i: usize = n;
        while i < all.len()
            invariant
                n <= i <= all@.len(),
                cov@ == all@.subrange(n as int, i as int),
            decreases all@.len() - i,
        {
            cov.push(all[i]);
            assert(cov@ =~= all@.subrange(n as int, i + 1));
            i = i + 1;
        }
        assert(cov@ =~= all@.skip(n as int));
        let g = self.covariance;
        let ghost given = cov;
        let b: bool = g(n, cov);
        proof {
            assert(call_ensures(*self.covariance, (n, given), b));
            assert forall|x: Model| #[trigger] self.suits(x) implies b == (x.covariance)(
                n as nat,
                all@.skip(n as int),
            ) by {
                if (x.covariance)(n as nat, all@.skip(n as int)) {
                    let (m, v) = choose|m: usize, v: Vec<u64>|
                        m == n && v@ == all@.skip(n as int) && #[trigger] call_ensures(
                            *self.covariance,
                            (m, v),
                            true,
                        );
                    assert(v@ == given@);
                }
            }
        }
        b
    }

    /// A Gaussian variable, or a block of correlated ones.
    #[verifier::rlimit(40)]
    pub(crate) fn settle_gaussian(&mut self, vals: &Vec<PluckVal>, got: &Vec<PluckVal>) -> (r: Option<
        GuardedWorlds,
    >)
        requires
            old(self).supplies(vals@, got@),
            vals@.len() == 2,
            settle::all_heads(got@),
            got@.len() == (if scalar_in(*vals@[0]) && scalar_in(*vals@[1]) {
                0
            } else {
                entries_in(*vals@[0]).len() + entries_in(*vals@[1]).len()
            }),
        ensures
            old(self).moved(final(self)),
            final(self).answers(
                r,
                settle::asks(
                    vals@,
                    got@,
                    |ds: Seq<Datum>, gs: Seq<Datum>, x: Model|
                        semantics::gaussian(x, old(self).state.callstack@, ds[0], ds[1], gs),
                ),
            ),
    {
        let ghost start = *self;
        let ghost cs = self.state.callstack@;
        let ghost s = settle::asks(
            vals@,
            got@,
            |ds: Seq<Datum>, gs: Seq<Datum>, x: Model| semantics::gaussian(x, cs, ds[0], ds[1], gs),
        );
        proof {
            self.lemma_step_refl();
            settle::lemma_operands(vals@);
        }
        if is_scalar(&vals[0]) && is_scalar(&vals[1]) {
            let (mu, sigma) = match (self.number_of(&vals[0]), self.number_of(&vals[1])) {
                (Some(m), Some(n)) => (m, n),
                _ => {
                    return None;
                },
            };
            let name: u64 = self.state.current_continuous_name(Prior::Gaussian { mu, sigma });
            let v: PluckVal = unit_gaussian(name);
            let w: GuardedWorlds = pure_monad(v);
            proof {
                start.lemma_moved(self);
                assert(v.over(self.vars()));
                assert forall|a: Worlds, x: Model| #[trigger]
                    self.allows(a, x) && s(a, x) is Some implies v.at(a) is Some && s(a, x) == Some(
                    Outcome::Done(v.at(a)->0),
                ) by {
                    assert(self.state.fits(a, x));
                    assert(name == (x.names)(cs, Law::Gaussian { mu, sigma }));
                    assert(v.at(a) == Some(semantics::unit(name)));
                    self.lemma_num(&*vals@[0], a, x);
                    self.lemma_num(&*vals@[1], a, x);
                }
                self.lemma_gives(v, w, s);
            }
            return Some(w);
        }
        self.settle_gaussian_block(vals, got)
    }

    /// A block of correlated Gaussian variables, from a vector of means and a
    /// covariance matrix.
    #[verifier::rlimit(40)]
    fn settle_gaussian_block(&mut self, vals: &Vec<PluckVal>, got: &Vec<PluckVal>) -> (r: Option<
        GuardedWorlds,
    >)
        requires
            old(self).supplies(vals@, got@),
            vals@.len() == 2,
            settle::all_heads(got@),
            !(scalar_in(*vals@[0]) && scalar_in(*vals@[1])),
            got@.len() == entries_in(*vals@[0]).len() + entries_in(*vals@[1]).len(),
        ensures
            old(self).moved(final(self)),
            final(self).answers(
                r,
                settle::asks(
                    vals@,
                    got@,
                    |ds: Seq<Datum>, gs: Seq<Datum>, x: Model|
                        semantics::gaussian(x, old(self).state.callstack@, ds[0], ds[1], gs),
                ),
            ),
    {
        let ghost start = *self;
        let ghost cs = self.state.callstack@;
        let ghost s = settle::asks(
            vals@,
            got@,
            |ds: Seq<Datum>, gs: Seq<Datum>, x: Model| semantics::gaussian(x, cs, ds[0], ds[1], gs),
        );
        proof {
            self.lemma_step_refl();
            settle::lemma_operands(vals@);
            assert forall|a: Worlds, x: Model| #[trigger] self.allows(a, x) && s(a, x) is Some implies semantics::constants(
                x,
                values::all_at(got@, a)->0,
            ) == self.consts(got@) && datum_shape(*vals@[0], a) && datum_shape(*vals@[1], a) by {
                self.lemma_consts(got@, a, x);
                assert(vals@[0].at(a) is Some && vals@[1].at(a) is Some);
                assert(values::is_head(*vals@[0]) && values::is_head(*vals@[1]));
                lemma_datum_shape(&*vals@[0], a);
                lemma_datum_shape(&*vals@[1], a);
            }
        }
        let n: usize = match (&*vals[0], &*vals[1]) {
            (
                PluckValue::FloatMatrix { entries: e, shape: p },
                PluckValue::FloatMatrix { entries: t, shape: q },
            ) => {
                let n: usize = e.len();
                let fits: bool = p.len() == 1 && p[0] == n && q.len() == 2 && q[0] == n && q[1] == n;
                let square: Option<usize> = n.checked_mul(n);
                let m: usize = t.len();
                proof {
                    if fits {
                        assert(p@ =~= seq![n]);
                        assert(q@ =~= seq![n, n]);
                    } else {
                        assert(!(p@ == seq![n] && q@ == seq![n, n])) by {
                            if p@ == seq![n] && q@ == seq![n, n] {
                                assert(p@[0] == n && q@[0] == n && q@[1] == n);
                            }
                        }
                    }
                }
                if !fits || square != Some(m) {
                    return None;
                }
                n
            },
            _ => {
                return None;
            },
        };
        let all: Vec<u64> = match self.constants_of(got) {
            Some(v) => v,
            None => {
                return None;
            },
        };
        if !self.is_symmetric(&all, n) || !self.is_covariance(&all, n) {
            return None;
        }
        let names: Vec<u64> = self.state.current_continuous_names(&all, n);
        proof {
            start.lemma_moved(self);
        }
        let entries: Vec<PluckVal> = unit_gaussians(&names);
        let mut shape: Vec<usize> = Vec::new();
        shape.push(n);
        assert(shape@ =~= seq![n]);
        let ghost es = entries@;
        let v: PluckVal = mk_float_matrix(entries, shape);
        let w: GuardedWorlds = pure_monad(v);
        proof {
            assert(values::all_over(es, self.vars()));
            assert(v.over(self.vars()));
            assert forall|a: Worlds, x: Model| #[trigger] self.allows(a, x) && s(a, x) is Some implies v.at(
                a,
            ) is Some && s(a, x) == Some(Outcome::Done(v.at(a)->0)) by {
                assert(self.state.fits(a, x));
                assert(start.allows(a, x));
                assert(names@ == (x.blocks)(cs, all@));
                values::lemma_all_at(es, a);
                let ds = values::all_at(es, a)->0;
                let want = Seq::new(n as nat, |i: int| semantics::unit((x.blocks)(cs, all@)[i]));
                assert forall|i: int| 0 <= i < n implies ds[i] == want[i] by {
                    assert(es[i].at(a) == Some(ds[i]));
                    assert(es[i].at(a) == Some(semantics::unit(names@[i])));
                }
                assert(ds =~= want);
            }
            self.lemma_gives(v, w, s);
        }
        Some(w)
    }
}

/// The shape and the number of entries of a value are those of its datum.
spec fn datum_shape(v: PluckValue, a: Worlds) -> bool {
    match (v, v.at(a)->0) {
        (
            PluckValue::FloatMatrix { entries, shape },
            Datum::Matrix { entries: e, shape: p },
        ) => shape@ == p && e.len() == entries@.len(),
        (PluckValue::FloatMatrix { .. }, _) => false,
        (_, Datum::Matrix { .. }) => false,
        (_, d) => scalar_in(v) == semantics::is_scalar(d),
    }
}

proof fn lemma_datum_shape(v: &PluckValue, a: Worlds)
    requires
        values::is_head(*v),
        v.at(a) is Some,
    ensures
        datum_shape(*v, a),
{
    match v {
        PluckValue::FloatMatrix { entries, .. } => values::lemma_all_at(entries@, a),
        _ => {},
    }
}

/// A number or an integer.
pub open spec fn scalar_in(v: PluckValue) -> bool {
    v matches PluckValue::Native(NativeVal::Float(_)) || v matches PluckValue::Native(
        NativeVal::Int(_),
    )
}

pub(crate) fn is_scalar(v: &PluckValue) -> (r: bool)
    ensures
        r == scalar_in(*v),
{
    match v {
        PluckValue::Native(NativeVal::Float(_)) => true,
        PluckValue::Native(NativeVal::Int(_)) => true,
        _ => false,
    }
}

/// A Gaussian variable with the coefficient 1.
fn unit_gaussian(name: u64) -> (r: PluckVal)
    ensures
        values::is_head(*r),
        forall|order: Seq<u64>| #[trigger] r.over(order),
        forall|a: Worlds| #[trigger] r.at(a) == Some(semantics::unit(name)),
{
    let mut m: Vec<(u64, u64)> = Vec::new();
    m.push((name, ONE));
    assert(m@ =~= seq![(name, ONE)]);
    mk_gaussian_expr(ZERO, m)
}

fn unit_gaussians(names: &Vec<u64>) -> (r: Vec<PluckVal>)
    ensures
        r@.len() == names@.len(),
        values::no_unions(r@),
        forall|order: Seq<u64>| #[trigger] values::all_over(r@, order),
        forall|i: int, a: Worlds|
            0 <= i < r@.len() ==> #[trigger] r@[i].at(a) == Some(semantics::unit(names@[i])),
{
    let mut r: Vec<PluckVal> = Vec::new();
    let mut i: usize = 0;
    while i < names.len()
        invariant
            i <= names@.len(),
            r@.len() == i,
            values::no_unions(r@),
            forall|order: Seq<u64>| #[trigger] values::all_over(r@, order),
            forall|j: int, a: Worlds|
                0 <= j < i ==> #[trigger] r@[j].at(a) == Some(semantics::unit(names@[j])),
        decreases names@.len() - i,
    {
        let ghost before = r@;
        let e: PluckVal = unit_gaussian(names[i]);
        r.push(e);
        proof {
            assert(r@.drop_last() =~= before);
            assert forall|order: Seq<u64>| #[trigger] values::all_over(r@, order) by {
                assert(values::all_over(before, order));
                assert(e.over(order));
            }
            assert forall|j: int, a: Worlds| 0 <= j < i + 1 implies #[trigger] r@[j].at(a) == Some(
                semantics::unit(names@[j]),
            ) by {
                if j < i {
                    assert(r@[j] == before[j]);
                }
            }
        }
        i = i + 1;
    }
    r
}

} // verus!
