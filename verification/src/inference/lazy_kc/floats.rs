//! Float operations, on numbers, matrices and scaled Gamma variables.

use vstd::prelude::*;

use super::affine;
use super::affine::{affine_binop, AffineVal, FloatOp};
use super::ctx::CompilerCtx;
use super::matrices;
use super::matrices::pack_all;
use super::monad::{pure_monad, GuardedWorlds};
use super::semantics;
use super::semantics::{Depth, Model};
use super::settle;
use crate::discrete_factorizations::Worlds;
use crate::language::pexpr::NativeVal;
use crate::language::values;
use crate::language::values::{
    entry_constant, mk_float_matrix, mk_gamma_scaled, Datum, Outcome, PluckVal, PluckValue,
};
use crate::utils::reals;
use crate::utils::reals::{compute, real_below, real_equal, RealOp, ONE, ZERO};

verus! {

/// The value is exactly this number.
pub open spec fn float_in(v: PluckValue, b: u64) -> bool {
    v matches PluckValue::Native(NativeVal::Float(f)) && reals::equal(f, b)
}

fn has_float(v: &PluckValue, b: u64) -> (r: bool)
    ensures
        r == float_in(*v, b),
{
    match entry_constant(v) {
        Some(f) => real_equal(f, b),
        None => false,
    }
}

/// Which of the operands have to be evaluated.
pub open spec fn needed_in(op: FloatOp, v: PluckValue, w: PluckValue) -> (bool, bool) {
    match op {
        FloatOp::Add => if float_in(v, ZERO) {
            (false, true)
        } else {
            (true, !float_in(w, ZERO))
        },
        FloatOp::Sub => (true, !float_in(w, ZERO)),
        FloatOp::Mul => if float_in(v, ZERO) || float_in(w, ZERO) {
            (false, false)
        } else if float_in(v, ONE) {
            (false, true)
        } else {
            (true, !float_in(w, ONE))
        },
        FloatOp::Div => if float_in(v, ZERO) {
            (false, false)
        } else {
            (true, !float_in(w, ONE))
        },
    }
}

fn needed_of(op: FloatOp, v: &PluckValue, w: &PluckValue) -> (r: (bool, bool))
    ensures
        r == needed_in(op, *v, *w),
{
    match op {
        FloatOp::Add => if has_float(v, ZERO) {
            (false, true)
        } else {
            (true, !has_float(w, ZERO))
        },
        FloatOp::Sub => (true, !has_float(w, ZERO)),
        FloatOp::Mul => if has_float(v, ZERO) || has_float(w, ZERO) {
            (false, false)
        } else if has_float(v, ONE) {
            (false, true)
        } else {
            (true, !has_float(w, ONE))
        },
        FloatOp::Div => if has_float(v, ZERO) {
            (false, false)
        } else {
            (true, !has_float(w, ONE))
        },
    }
}

proof fn lemma_needed(op: FloatOp, v: &PluckValue, w: &PluckValue, a: Worlds)
    requires
        !(v is ThunkUnion),
        !(w is ThunkUnion),
        v.at(a) is Some,
        w.at(a) is Some,
    ensures
        semantics::needed(op, v.at(a)->0, w.at(a)->0) == needed_in(op, *v, *w),
{
}

pub type Pairs = Seq<(PluckVal, PluckVal)>;

/// The operands of an operation entry by entry.
pub open spec fn pairs_in(v: PluckVal, w: PluckVal) -> Option<Pairs> {
    match (*v, *w) {
        (
            PluckValue::FloatMatrix { entries: s, shape: p },
            PluckValue::FloatMatrix { entries: t, shape: q },
        ) => if p@ == q@ && s@.len() == t@.len() {
            Some(Seq::new(s@.len(), |i: int| (s@[i], t@[i])))
        } else {
            None
        },
        (PluckValue::FloatMatrix { entries: s, .. }, _) => Some(
            Seq::new(s@.len(), |i: int| (s@[i], w)),
        ),
        (_, PluckValue::FloatMatrix { entries: t, .. }) => Some(
            Seq::new(t@.len(), |i: int| (v, t@[i])),
        ),
        _ => Some(seq![(v, w)]),
    }
}

/// The pairs are these under an assignment.
pub open spec fn pairs_at(ps: Pairs, a: Worlds, qs: Seq<(Datum, Datum)>) -> bool {
    &&& ps.len() == qs.len()
    &&& forall|i: int|
        0 <= i < ps.len() ==> (#[trigger] ps[i]).0.at(a) == Some(qs[i].0) && ps[i].1.at(a) == Some(
            qs[i].1,
        )
}

/// No union among the pairs.
pub open spec fn plain_pairs(ps: Pairs) -> bool {
    forall|i: int| 0 <= i < ps.len() ==> !(*(#[trigger] ps[i]).0 is ThunkUnion) && !(*ps[i].1 is ThunkUnion)
}

pub open spec fn pairs_over(ps: Pairs, order: Seq<u64>) -> bool {
    forall|i: int| 0 <= i < ps.len() ==> (#[trigger] ps[i]).0.over(order) && ps[i].1.over(order)
}

proof fn lemma_matrix_at(v: &PluckValue, a: Worlds)
    requires
        v.at(a) is Some,
    ensures
        v matches PluckValue::FloatMatrix { entries, shape } ==> (v.at(a)->0 matches Datum::Matrix {
            entries: es,
            shape: p,
        } && p == shape@ && es.len() == entries@.len() && forall|i: int|
            0 <= i < es.len() ==> (#[trigger] entries@[i]).at(a) == Some(es[i])),
        !(v is FloatMatrix) && !(v is ThunkUnion) ==> !(v.at(a)->0 is Matrix),
{
    match v {
        PluckValue::FloatMatrix { entries, .. } => values::lemma_all_at(entries@, a),
        _ => {},
    }
}

pub proof fn lemma_matrix_plain(v: &PluckValue, order: Seq<u64>)
    requires
        v.over(order),
    ensures
        values::no_unions(matrices::entries_in(*v)),
        values::all_over(matrices::entries_in(*v), order),
        forall|i: int|
            0 <= i < matrices::entries_in(*v).len() ==> (#[trigger] matrices::entries_in(
                *v,
            )[i]).over(order),
{
    values::lemma_all_over(matrices::entries_in(*v), order);
}

pub proof fn lemma_pairs(v: PluckVal, w: PluckVal, a: Worlds)
    requires
        values::is_head(*v),
        values::is_head(*w),
        v.at(a) is Some,
        w.at(a) is Some,
    ensures
        match (semantics::paired(v.at(a)->0, w.at(a)->0), pairs_in(v, w)) {
            (Some(qs), Some(ps)) => pairs_at(ps, a, qs),
            (None, None) => true,
            _ => false,
        },
{
    lemma_matrix_at(&*v, a);
    lemma_matrix_at(&*w, a);
}

pub proof fn lemma_pairs_plain(v: PluckVal, w: PluckVal, order: Seq<u64>)
    requires
        values::is_head(*v),
        values::is_head(*w),
        v.over(order),
        w.over(order),
    ensures
        pairs_in(v, w) matches Some(ps) ==> plain_pairs(ps) && pairs_over(ps, order),
{
    lemma_matrix_plain(&*v, order);
    lemma_matrix_plain(&*w, order);
}

pub(crate) fn same_shape(p: &Vec<usize>, q: &Vec<usize>) -> (r: bool)
    ensures
        r == (p@ == q@),
{
    if p.len() != q.len() {
        return false;
    }
    let mut i: usize = 0;
    while i < p.len()
        invariant
            p@.len() == q@.len(),
            i <= p@.len(),
            forall|j: int| 0 <= j < i ==> p@[j] == q@[j],
        decreases p@.len() - i,
    {
        if p[i] != q[i] {
            return false;
        }
        i = i + 1;
    }
    assert(p@ =~= q@);
    true
}

pub(crate) fn clone_shape(p: &Vec<usize>) -> (r: Vec<usize>)
    ensures
        r@ == p@,
{
    let mut r: Vec<usize> = Vec::new();
    let mut i: usize = 0;
    while i < p.len()
        invariant
            i <= p@.len(),
            r@ == p@.take(i as int),
        decreases p@.len() - i,
    {
        r.push(p[i]);
        assert(r@ =~= p@.take(i + 1));
        i = i + 1;
    }
    assert(p@.take(p@.len() as int) =~= p@);
    r
}

/// The entries of both matrices side by side.
fn zip_entries(s: &Vec<PluckVal>, t: &Vec<PluckVal>) -> (r: Vec<(PluckVal, PluckVal)>)
    requires
        s@.len() == t@.len(),
    ensures
        r@ == Seq::new(s@.len(), |i: int| (s@[i], t@[i])),
{
    let mut r: Vec<(PluckVal, PluckVal)> = Vec::new();
    let mut i: usize = 0;
    while i < s.len()
        invariant
            s@.len() == t@.len(),
            i <= s@.len(),
            r@.len() == i,
            forall|j: int| 0 <= j < i ==> #[trigger] r@[j] == (s@[j], t@[j]),
        decreases s@.len() - i,
    {
        r.push((s[i].clone(), t[i].clone()));
        i = i + 1;
    }
    assert(r@ =~= Seq::new(s@.len(), |i: int| (s@[i], t@[i])));
    r
}

/// The operands of an operation entry by entry; a value that is no matrix
/// stands with every entry.
pub(crate) fn pairs_of(v: &PluckVal, w: &PluckVal) -> (r: Option<Vec<(PluckVal, PluckVal)>>)
    ensures
        match r {
            Some(ps) => pairs_in(*v, *w) == Some(ps@),
            None => pairs_in(*v, *w) is None,
        },
{
    match (&**v, &**w) {
        (
            PluckValue::FloatMatrix { entries: s, shape: p },
            PluckValue::FloatMatrix { entries: t, shape: q },
        ) => {
            if s.len() == t.len() && same_shape(p, q) {
                Some(zip_entries(s, t))
            } else {
                None
            }
        },
        (PluckValue::FloatMatrix { entries: s, .. }, _) => {
            let mut r: Vec<(PluckVal, PluckVal)> = Vec::new();
            let mut i: usize = 0;
            while i < s.len()
                invariant
                    i <= s@.len(),
                    r@.len() == i,
                    forall|j: int| 0 <= j < i ==> #[trigger] r@[j] == (s@[j], *w),
                decreases s@.len() - i,
            {
                r.push((s[i].clone(), w.clone()));
                i = i + 1;
            }
            assert(r@ =~= Seq::new(s@.len(), |i: int| (s@[i], *w)));
            Some(r)
        },
        (_, PluckValue::FloatMatrix { entries: t, .. }) => {
            let mut r: Vec<(PluckVal, PluckVal)> = Vec::new();
            let mut i: usize = 0;
            while i < t.len()
                invariant
                    i <= t@.len(),
                    r@.len() == i,
                    forall|j: int| 0 <= j < i ==> #[trigger] r@[j] == (*v, t@[j]),
                decreases t@.len() - i,
            {
                r.push((v.clone(), t[i].clone()));
                i = i + 1;
            }
            assert(r@ =~= Seq::new(t@.len(), |i: int| (*v, t@[i])));
            Some(r)
        },
        _ => {
            let mut r: Vec<(PluckVal, PluckVal)> = Vec::new();
            r.push((v.clone(), w.clone()));
            assert(r@ =~= seq![(*v, *w)]);
            Some(r)
        },
    }
}

pub type Wants = Seq<(Depth, PluckVal)>;

/// Both operands of each pair, each as far as it has to be evaluated.
pub open spec fn pair_wants_in(op: FloatOp, ps: Pairs) -> Wants {
    Seq::new(
        2 * ps.len(),
        |i: int|
            {
                let p = ps[i / 2];
                let n = needed_in(op, *p.0, *p.1);
                if i % 2 == 0 {
                    (semantics::depth_if(n.0), p.0)
                } else {
                    (semantics::depth_if(n.1), p.1)
                }
            },
    )
}

/// These are the values that have to be evaluated under an assignment.
pub open spec fn wants_at(ws: Wants, a: Worlds, qs: Seq<(Depth, Datum)>) -> bool {
    &&& ws.len() == qs.len()
    &&& forall|i: int|
        0 <= i < ws.len() ==> (#[trigger] ws[i]).0 == qs[i].0 && ws[i].1.at(a) == Some(qs[i].1)
}

pub proof fn lemma_pair_wants(op: FloatOp, ps: Pairs, a: Worlds, qs: Seq<(Datum, Datum)>)
    requires
        plain_pairs(ps),
        pairs_at(ps, a, qs),
    ensures
        wants_at(pair_wants_in(op, ps), a, semantics::pair_wants(op, qs)),
{
    let ws = pair_wants_in(op, ps);
    let us = semantics::pair_wants(op, qs);
    assert forall|i: int| 0 <= i < ws.len() implies (#[trigger] ws[i]).0 == us[i].0 && ws[i].1.at(a)
        == Some(us[i].1) by {
        let p = ps[i / 2];
        lemma_needed(op, &*p.0, &*p.1, a);
    }
}

fn depth_if(b: bool) -> (r: Depth)
    ensures
        r == semantics::depth_if(b),
{
    if b {
        Depth::Head
    } else {
        Depth::Keep
    }
}

pub(crate) fn pair_wants_of(op: FloatOp, ps: &Vec<(PluckVal, PluckVal)>) -> (r: Vec<(Depth, PluckVal)>)
    ensures
        r@ == pair_wants_in(op, ps@),
{
    let mut r: Vec<(Depth, PluckVal)> = Vec::new();
    let mut i: usize = 0;
    while i < ps.len()
        invariant
            i <= ps@.len(),
            r@.len() == 2 * i,
            forall|j: int|
                0 <= j < 2 * i ==> #[trigger] r@[j] == pair_wants_in(op, ps@)[j],
        decreases ps@.len() - i,
    {
        let n: (bool, bool) = needed_of(op, &ps[i].0, &ps[i].1);
        r.push((depth_if(n.0), ps[i].0.clone()));
        r.push((depth_if(n.1), ps[i].1.clone()));
        proof {
            assert((2 * i) / 2 == i && (2 * i) % 2 == 0);
            assert((2 * i + 1) / 2 == i && (2 * i + 1) % 2 == 1);
        }
        i = i + 1;
    }
    assert(r@ =~= pair_wants_in(op, ps@));
    r
}

/// The operands that were needed are evaluated.
pub open spec fn fed(ws: Wants, got: Seq<PluckVal>) -> bool {
    &&& ws.len() == got.len()
    &&& forall|i: int|
        0 <= i < got.len() ==> (ws[i].0 != Depth::Keep ==> values::is_head(*(#[trigger] got[i])))
}

/// Scaling of a Gamma variable by a number: `None` if there is no such
/// variable, `Some(None)` where it cannot be scaled so.
pub fn try_scale_gamma<F: Fn(RealOp, u64, u64) -> u64>(
    op: FloatOp,
    a: &PluckValue,
    b: &PluckValue,
    f: &F,
) -> (r: Option<Option<PluckVal>>)
    requires
        reals::settled(*f),
        values::is_head(*a),
        values::is_head(*b),
    ensures
        r is None <==> !is_gamma(*a) && !is_gamma(*b),
        forall|w: Worlds| #![trigger a.at(w), b.at(w)]
            a.at(w) is Some && b.at(w) is Some ==> (match (
                r,
                semantics::scaled_gamma(reals::operations(*f), op, a.at(w)->0, b.at(w)->0),
            ) {
                (None, None) => true,
                (Some(None), Some(o)) => o == Outcome::Stuck,
                (Some(Some(v)), Some(o)) => v.at(w) is Some && o == Outcome::Done(v.at(w)->0),
                _ => false,
            }),
        r matches Some(Some(v)) ==> values::is_head(*v) && forall|order: Seq<u64>| #[trigger]
            v.over(order),
{
    let draw: bool = matches!(a, PluckValue::Exponential { .. }) || matches!(
        a,
        PluckValue::Poisson { .. }
    ) || matches!(b, PluckValue::Exponential { .. }) || matches!(b, PluckValue::Poisson { .. });
    if draw {
        return Some(None);
    }
    let gamma: bool = matches!(a, PluckValue::Gamma { .. }) || matches!(b, PluckValue::Gamma { .. });
    if !gamma {
        return None;
    }
    let (name, scale) = match (op, a, b) {
        (
            FloatOp::Mul,
            PluckValue::Gamma { name, scale },
            PluckValue::Native(NativeVal::Float(c)),
        ) => (*name, compute(f, RealOp::Product, *scale, *c)),
        (
            FloatOp::Mul,
            PluckValue::Native(NativeVal::Float(c)),
            PluckValue::Gamma { name, scale },
        ) => (*name, compute(f, RealOp::Product, *scale, *c)),
        (
            FloatOp::Div,
            PluckValue::Gamma { name, scale },
            PluckValue::Native(NativeVal::Float(c)),
        ) => (*name, compute(f, RealOp::Quotient, *scale, *c)),
        _ => {
            return Some(None);
        },
    };
    if real_below(ZERO, scale) {
        Some(Some(mk_gamma_scaled(name, scale)))
    } else {
        Some(None)
    }
}

impl<'a, F: Fn(RealOp, u64, u64) -> u64, G: Fn(usize, Vec<u64>) -> bool> CompilerCtx<'a, F, G> {
    /// The operation on two entries, of which those that are needed are
    /// evaluated.
    pub open spec fn cell_in(&self, op: FloatOp, v: PluckValue, w: PluckValue, fv: PluckValue, fw: PluckValue) -> Option<
        affine::Affine,
    > {
        match needed_in(op, v, w) {
            (false, false) => Some((ZERO, Seq::empty())),
            (false, true) => self.aff(fw),
            (true, false) => self.aff(fv),
            (true, true) => match (self.aff(fv), self.aff(fw)) {
                (Some(p), Some(q)) => affine::combined(op, p, q, reals::operations(*self.reals)),
                _ => None,
            },
        }
    }

    fn cell_of(&self, op: FloatOp, v: &PluckValue, w: &PluckValue, fv: &PluckValue, fw: &PluckValue) -> (r:
        Option<AffineVal>)
        requires
            reals::settled(*self.reals),
        ensures
            matrices::view_of(r) == self.cell_in(op, *v, *w, *fv, *fw),
    {
        match needed_of(op, v, w) {
            (false, false) => {
                let none: Vec<(u64, u64)> = Vec::new();
                assert(none@ =~= Seq::<(u64, u64)>::empty());
                Some((ZERO, none))
            },
            (false, true) => self.affine_parts(fw),
            (true, false) => self.affine_parts(fv),
            (true, true) => match (self.affine_parts(fv), self.affine_parts(fw)) {
                (Some(p), Some(q)) => affine_binop(op, &p, &q, self.reals),
                _ => None,
            },
        }
    }

    /// The results of an operation on pairs, from their evaluated operands.
    fn cells_of(&self, op: FloatOp, ps: &Vec<(PluckVal, PluckVal)>, got: &Vec<PluckVal>) -> (r: Vec<
        Option<AffineVal>,
    >)
        requires
            reals::settled(*self.reals),
            plain_pairs(ps@),
            fed(pair_wants_in(op, ps@), got@),
        ensures
            r@.len() == ps@.len(),
            forall|a: Worlds, x: Model, qs: Seq<(Datum, Datum)>|
                #![trigger self.suits(x), pairs_at(ps@, a, qs)]
                self.suits(x) && pairs_at(ps@, a, qs) && values::all_at(got@, a) is Some
                    ==> semantics::pair_cells(x, op, qs, values::all_at(got@, a)->0)
                    == matrices::views_of(r@),
    {
        let mut r: Vec<Option<AffineVal>> = Vec::new();
        let mut i: usize = 0;
        let total: usize = got.len();
        while i < ps.len()
            invariant
                i <= ps@.len(),
                reals::settled(*self.reals),
                total == got@.len(),
                got@.len() == 2 * ps@.len(),
                r@.len() == i,
                forall|j: int|
                    0 <= j < i ==> matrices::view_of(#[trigger] r@[j]) == self.cell_in(
                        op,
                        *ps@[j].0,
                        *ps@[j].1,
                        *got@[2 * j],
                        *got@[2 * j + 1],
                    ),
            decreases ps@.len() - i,
        {
            let c: Option<AffineVal> = self.cell_of(
                op,
                &ps[i].0,
                &ps[i].1,
                &got[2 * i],
                &got[2 * i + 1],
            );
            r.push(c);
            i = i + 1;
        }
        proof {
            assert forall|a: Worlds, x: Model, qs: Seq<(Datum, Datum)>|
                #![trigger self.suits(x), pairs_at(ps@, a, qs)]
                self.suits(x) && pairs_at(ps@, a, qs) && values::all_at(got@, a) is Some implies semantics::pair_cells(
                x,
                op,
                qs,
                values::all_at(got@, a)->0,
            ) == matrices::views_of(r@) by {
                values::lemma_all_at(got@, a);
                let gs = values::all_at(got@, a)->0;
                let cs = semantics::pair_cells(x, op, qs, gs);
                assert forall|i: int| 0 <= i < ps@.len() implies cs[i] == matrices::views_of(r@)[i] by {
                    let (m, n) = (2 * i, 2 * i + 1);
                    assert(got@[m].at(a) == Some(gs[m]) && got@[n].at(a) == Some(gs[n]));
                    lemma_needed(op, &*ps@[i].0, &*ps@[i].1, a);
                    let ws = pair_wants_in(op, ps@);
                    assert(m / 2 == i && m % 2 == 0 && n / 2 == i && n % 2 == 1);
                    assert(ws[m].0 == semantics::depth_if(needed_in(op, *ps@[i].0, *ps@[i].1).0));
                    assert(ws[n].0 == semantics::depth_if(needed_in(op, *ps@[i].0, *ps@[i].1).1));
                    if needed_in(op, *ps@[i].0, *ps@[i].1).0 {
                        assert(values::is_head(*got@[m]));
                        self.lemma_aff(&*got@[m], a, x);
                    }
                    if needed_in(op, *ps@[i].0, *ps@[i].1).1 {
                        assert(values::is_head(*got@[n]));
                        self.lemma_aff(&*got@[n], a, x);
                    }
                    assert(matrices::view_of(r@[i]) == self.cell_in(
                        op,
                        *ps@[i].0,
                        *ps@[i].1,
                        *got@[2 * i],
                        *got@[2 * i + 1],
                    ));
                }
                assert(cs =~= matrices::views_of(r@));
            }
        }
        r
    }
}

impl<'a, F: Fn(RealOp, u64, u64) -> u64, G: Fn(usize, Vec<u64>) -> bool> CompilerCtx<'a, F, G> {
    /// A float operation.
    #[verifier::rlimit(30)]
    pub(crate) fn settle_float(&mut self, op: FloatOp, vals: &Vec<PluckVal>, got: &Vec<PluckVal>) -> (r:
        Option<GuardedWorlds>)
        requires
            old(self).supplies(vals@, got@),
            vals@.len() == 2,
            is_gamma(*vals@[0]) || is_gamma(*vals@[1]) || (pairs_in(vals@[0], vals@[1]) matches Some(
                ps,
            ) ==> fed(pair_wants_in(op, ps), got@)),
        ensures
            old(self).moved(final(self)),
            final(self).answers(
                r,
                settle::asks(
                    vals@,
                    got@,
                    |ds: Seq<Datum>, gs: Seq<Datum>, x: Model|
                        semantics::float_result(x, op, ds[0], ds[1], gs),
                ),
            ),
    {
        let ghost s = settle::asks(
            vals@,
            got@,
            |ds: Seq<Datum>, gs: Seq<Datum>, x: Model|
                semantics::float_result(x, op, ds[0], ds[1], gs),
        );
        proof {
            self.lemma_step_refl();
            settle::lemma_operands(vals@);
            values::lemma_all_over(vals@, self.vars());
            assert(vals@[0].over(self.vars()) && vals@[1].over(self.vars()));
            assert(values::is_head(*vals@[0]) && values::is_head(*vals@[1]));
            lemma_pairs_plain(vals@[0], vals@[1], self.vars());
        }
        match try_scale_gamma(op, &vals[0], &vals[1], self.reals) {
            Some(None) => {
                return None;
            },
            Some(Some(v)) => {
                let w: GuardedWorlds = pure_monad(v);
                proof {
                    assert(v.over(self.vars()));
                    self.lemma_gives(v, w, s);
                }
                return Some(w);
            },
            None => {},
        }
        proof {
            assert forall|a: Worlds| #[trigger] values::all_at(vals@, a) is Some implies (match (
                semantics::paired(values::all_at(vals@, a)->0[0], values::all_at(vals@, a)->0[1]),
                pairs_in(vals@[0], vals@[1]),
            ) {
                (Some(qs), Some(ps)) => pairs_at(ps, a, qs),
                (None, None) => true,
                _ => false,
            }) by {
                assert(vals@[0].at(a) is Some && vals@[1].at(a) is Some);
                lemma_pairs(vals@[0], vals@[1], a);
            }
        }
        let ps: Vec<(PluckVal, PluckVal)> = match pairs_of(&vals[0], &vals[1]) {
            Some(ps) => ps,
            None => {
                return None;
            },
        };
        let cells: Vec<Option<AffineVal>> = self.cells_of(op, &ps, got);
        proof {
            assert forall|a: Worlds, x: Model| #[trigger] self.allows(a, x) && s(a, x) is Some implies semantics::pair_cells(
                x,
                op,
                semantics::paired(values::all_at(vals@, a)->0[0], values::all_at(vals@, a)->0[1])->0,
                values::all_at(got@, a)->0,
            ) == matrices::views_of(cells@) by {
                let ds = values::all_at(vals@, a)->0;
                let qs = semantics::paired(ds[0], ds[1])->0;
                assert(values::all_at(vals@, a) is Some);
                assert(self.suits(x));
                assert(pairs_at(ps@, a, qs));
            }
        }
        let es: Vec<PluckVal> = match pack_all(&cells) {
            Some(v) => v,
            None => {
                return None;
            },
        };
        self.finish_float(op, vals, got, es, Ghost(matrices::views_of(cells@)))
    }

    /// The results of a float operation, as a number or a matrix.
    #[verifier::rlimit(30)]
    fn finish_float(
        &mut self,
        op: FloatOp,
        vals: &Vec<PluckVal>,
        got: &Vec<PluckVal>,
        es: Vec<PluckVal>,
        Ghost(cells): Ghost<Seq<Option<affine::Affine>>>,
    ) -> (r: Option<GuardedWorlds>)
        requires
            old(self).supplies(vals@, got@),
            vals@.len() == 2,
            settle::all_heads(es@),
            pairs_in(vals@[0], vals@[1]) is Some,
            es@.len() == pairs_in(vals@[0], vals@[1])->0.len(),
            forall|order: Seq<u64>| #[trigger] values::all_over(es@, order),
            semantics::all_packed(cells) is Some,
            forall|a: Worlds| #[trigger] values::all_at(es@, a) == semantics::all_packed(cells),
            forall|a: Worlds, x: Model| #[trigger]
                old(self).allows(a, x) && values::all_at(vals@, a) is Some && values::all_at(
                    got@,
                    a,
                ) is Some ==> {
                    let ds = values::all_at(vals@, a)->0;
                    &&& semantics::scaled_gamma(x.arith, op, ds[0], ds[1]) is None
                    &&& semantics::paired(ds[0], ds[1]) is Some
                    &&& semantics::pair_cells(
                        x,
                        op,
                        semantics::paired(ds[0], ds[1])->0,
                        values::all_at(got@, a)->0,
                    ) == cells
                },
        ensures
            old(self).moved(final(self)),
            final(self).answers(
                r,
                settle::asks(
                    vals@,
                    got@,
                    |ds: Seq<Datum>, gs: Seq<Datum>, x: Model|
                        semantics::float_result(x, op, ds[0], ds[1], gs),
                ),
            ),
    {
        let ghost s = settle::asks(
            vals@,
            got@,
            |ds: Seq<Datum>, gs: Seq<Datum>, x: Model|
                semantics::float_result(x, op, ds[0], ds[1], gs),
        );
        proof {
            self.lemma_step_refl();
            settle::lemma_operands(vals@);
            assert forall|a: Worlds| #[trigger] values::all_at(vals@, a) is Some implies matrix_like(
                *vals@[0],
                values::all_at(vals@, a)->0[0],
            ) && matrix_like(*vals@[1], values::all_at(vals@, a)->0[1]) by {
                assert(vals@[0].at(a) is Some && vals@[1].at(a) is Some);
                assert(values::is_head(*vals@[0]) && values::is_head(*vals@[1]));
                lemma_matrix_at(&*vals@[0], a);
                lemma_matrix_at(&*vals@[1], a);
            }
        }
        let shape: Option<Vec<usize>> = match (&*vals[0], &*vals[1]) {
            (PluckValue::FloatMatrix { shape, .. }, _) => Some(clone_shape(shape)),
            (_, PluckValue::FloatMatrix { shape, .. }) => Some(clone_shape(shape)),
            _ => None,
        };
        let ghost seen = es@;
        let v: PluckVal = match shape {
            Some(p) => mk_float_matrix(es, p),
            None => es[0].clone(),
        };
        let w: GuardedWorlds = pure_monad(v);
        proof {
            assert(values::all_over(seen, self.vars()));
            values::lemma_all_over(seen, self.vars());
            assert(shape is None ==> values::is_head(*seen[0]) && seen[0].over(self.vars()));
            assert(values::no_unions(seen)) by {
                assert forall|i: int| 0 <= i < seen.len() implies !(*(#[trigger] seen[i]) is ThunkUnion) by {
                    assert(values::is_head(*seen[i]));
                }
            }
            assert(v.over(self.vars()));
            assert forall|a: Worlds, x: Model| #[trigger] self.allows(a, x) && s(a, x) is Some implies v.at(
                a,
            ) is Some && s(a, x) == Some(Outcome::Done(v.at(a)->0)) by {
                assert(values::all_at(vals@, a) is Some);
                assert(values::all_at(seen, a) == semantics::all_packed(cells));
                values::lemma_all_at(seen, a);
                if shape is None {
                    assert(seen[0].at(a) == Some(values::all_at(seen, a)->0[0]));
                }
            }
            self.lemma_gives(v, w, s);
        }
        Some(w)
    }
}

/// The datum is a matrix where the value is, of the same shape.
spec fn matrix_like(v: PluckValue, d: Datum) -> bool {
    match (v, d) {
        (
            PluckValue::FloatMatrix { entries, shape },
            Datum::Matrix { entries: es, shape: p },
        ) => p == shape@ && es.len() == entries@.len(),
        (PluckValue::FloatMatrix { .. }, _) => false,
        (_, Datum::Matrix { .. }) => false,
        _ => true,
    }
}

/// A Gamma variable, or a draw from a distribution that has one.
pub open spec fn is_gamma(v: PluckValue) -> bool {
    v is Gamma || v is Exponential || v is Poisson
}

/// The shape of a matrix product, if its operands fit.
pub open spec fn product_in(v: PluckValue, w: PluckValue) -> Option<(usize, usize, usize)> {
    match (v, w) {
        (
            PluckValue::FloatMatrix { entries: s, shape: p },
            PluckValue::FloatMatrix { entries: t, shape: q },
        ) => match (semantics::lifted(p@, true), semantics::lifted(q@, false)) {
            (Some((r, k, _)), Some((m, c, _))) => if k == m && s@.len() == r * k && t@.len() == m * c
                && r * c <= usize::MAX && r * c * k <= usize::MAX {
                Some((r, k, c))
            } else {
                None
            },
            _ => None,
        },
        _ => None,
    }
}

/// The factors of a matrix product.
pub open spec fn factors_in(v: PluckValue, w: PluckValue, k: int, c: int, n: int) -> Pairs {
    Seq::new(
        n as nat,
        |t: int|
            (
                matrices::entries_in(v)[((t / k) / c) * k + t % k],
                matrices::entries_in(w)[(t % k) * c + (t / k) % c],
            ),
    )
}

/// Rows and columns of an operand of a matrix product.
pub fn lift_for_matmul(shape: &Vec<usize>, left: bool) -> (r: Option<(usize, usize, bool)>)
    ensures
        r == semantics::lifted(shape@, left),
{
    if shape.len() == 1 {
        if left {
            Some((1, shape[0], true))
        } else {
            Some((shape[0], 1, true))
        }
    } else if shape.len() == 2 {
        Some((shape[0], shape[1], false))
    } else {
        None
    }
}

pub(crate) fn product_of(v: &PluckValue, w: &PluckValue) -> (r: Option<(usize, usize, usize)>)
    ensures
        r == product_in(*v, *w),
{
    match (v, w) {
        (
            PluckValue::FloatMatrix { entries: s, shape: p },
            PluckValue::FloatMatrix { entries: t, shape: q },
        ) => match (lift_for_matmul(p, true), lift_for_matmul(q, false)) {
            (Some((r, k, _)), Some((m, c, _))) => {
                if k != m {
                    return None;
                }
                let one: usize = s.len();
                let two: usize = t.len();
                if r.checked_mul(k) != Some(one) || m.checked_mul(c) != Some(two) {
                    return None;
                }
                match r.checked_mul(c) {
                    Some(rc) => match rc.checked_mul(k) {
                        Some(_) => Some((r, k, c)),
                        None => None,
                    },
                    None => None,
                }
            },
            _ => None,
        },
        _ => None,
    }
}

/// Where the factors of a product stand.
proof fn lemma_factor_place(t: int, r: int, k: int, c: int)
    requires
        0 <= t < r * c * k,
        0 <= r,
        0 <= k,
        0 <= c,
    ensures
        k > 0,
        c > 0,
        r > 0,
        0 <= t % k < k,
        0 <= t / k < r * c,
        0 <= (t / k) / c < r,
        0 <= (t / k) % c < c,
        0 <= ((t / k) / c) * k + t % k < r * k,
        0 <= (t % k) * c + (t / k) % c < k * c,
{
    assert(k > 0 && c > 0 && r > 0) by (nonlinear_arith)
        requires
            0 <= t < r * c * k,
            0 <= r,
            0 <= k,
            0 <= c,
    ;
    let u = t / k;
    let m = t % k;
    assert(0 <= m < k && 0 <= u < r * c) by (nonlinear_arith)
        requires
            0 <= t < (r * c) * k,
            k > 0,
            u == t / k,
            m == t % k,
    ;
    let i = u / c;
    let j = u % c;
    assert(0 <= j < c && 0 <= i < r) by (nonlinear_arith)
        requires
            0 <= u < r * c,
            c > 0,
            i == u / c,
            j == u % c,
    ;
    assert(0 <= i * k + m < r * k) by (nonlinear_arith)
        requires
            0 <= i < r,
            0 <= m < k,
    ;
    assert(0 <= m * c + j < k * c) by (nonlinear_arith)
        requires
            0 <= m < k,
            0 <= j < c,
    ;
}

pub proof fn lemma_factors(v: &PluckValue, w: &PluckValue, a: Worlds)
    requires
        values::is_head(*v),
        values::is_head(*w),
        v.at(a) is Some,
        w.at(a) is Some,
    ensures
        semantics::product_shape(v.at(a)->0, w.at(a)->0) == product_in(*v, *w),
        product_in(*v, *w) matches Some((r, k, c)) ==> pairs_at(
            factors_in(*v, *w, k as int, c as int, r * c * k),
            a,
            semantics::factors(v.at(a)->0, w.at(a)->0, k as int, c as int, r * c * k),
        ),
{
    lemma_matrix_at(v, a);
    lemma_matrix_at(w, a);
    match product_in(*v, *w) {
        Some((r, k, c)) => {
            let ps = factors_in(*v, *w, k as int, c as int, r * c * k);
            let qs = semantics::factors(v.at(a)->0, w.at(a)->0, k as int, c as int, r * c * k);
            assert(r * c * k >= 0) by (nonlinear_arith)
                requires
                    r >= 0,
                    c >= 0,
                    k >= 0,
            ;
            assert forall|t: int| 0 <= t < ps.len() implies (#[trigger] ps[t]).0.at(a) == Some(
                qs[t].0,
            ) && ps[t].1.at(a) == Some(qs[t].1) by {
                lemma_factor_place(t, r as int, k as int, c as int);
            }
        },
        None => {},
    }
}

pub proof fn lemma_factors_plain(v: &PluckValue, w: &PluckValue, order: Seq<u64>)
    requires
        v.over(order),
        w.over(order),
    ensures
        product_in(*v, *w) matches Some((r, k, c)) ==> plain_pairs(
            factors_in(*v, *w, k as int, c as int, r * c * k),
        ) && pairs_over(factors_in(*v, *w, k as int, c as int, r * c * k), order),
{
    lemma_matrix_plain(v, order);
    lemma_matrix_plain(w, order);
    match product_in(*v, *w) {
        Some((r, k, c)) => {
            let ps = factors_in(*v, *w, k as int, c as int, r * c * k);
            assert forall|t: int| 0 <= t < ps.len() implies !(*(#[trigger] ps[t]).0 is ThunkUnion)
                && !(*ps[t].1 is ThunkUnion) && ps[t].0.over(order) && ps[t].1.over(order) by {
                lemma_factor_place(t, r as int, k as int, c as int);
            }
        },
        None => {},
    }
}

pub(crate) fn factors_of(v: &PluckValue, w: &PluckValue, r: usize, k: usize, c: usize) -> (ps: Vec<
    (PluckVal, PluckVal),
>)
    requires
        product_in(*v, *w) == Some((r, k, c)),
    ensures
        ps@ == factors_in(*v, *w, k as int, c as int, r * c * k),
{
    let mut ps: Vec<(PluckVal, PluckVal)> = Vec::new();
    match (v, w) {
        (
            PluckValue::FloatMatrix { entries: s, .. },
            PluckValue::FloatMatrix { entries: u, .. },
        ) => {
            let ghost n = r * c * k;
            if k == 0 || c == 0 || r == 0 {
                assert(n == 0) by (nonlinear_arith)
                    requires
                        n == r * c * k,
                        k == 0 || c == 0 || r == 0,
                ;
                assert(ps@ =~= factors_in(*v, *w, k as int, c as int, n));
                return ps;
            }
            let cells: usize = r * c;
            let total: usize = cells * k;
            let one: usize = s.len();
            let two: usize = u.len();
            let mut t: usize = 0;
            while t < total
                invariant
                    t <= total,
                    total == r * c * k,
                    k > 0,
                    c > 0,
                    one == s@.len(),
                    two == u@.len(),
                    s@.len() == r * k,
                    u@.len() == k * c,
                    ps@.len() == t,
                    matrices::entries_in(*v) == s@,
                    matrices::entries_in(*w) == u@,
                    forall|j: int|
                        0 <= j < t ==> #[trigger] ps@[j] == factors_in(
                            *v,
                            *w,
                            k as int,
                            c as int,
                            total as int,
                        )[j],
                decreases total - t,
            {
                proof {
                    lemma_factor_place(t as int, r as int, k as int, c as int);
                    assert(((t / k) / c) * k <= ((t as int / k as int) / c as int) * k + t % k);
                    assert((t % k) * c <= (t % k) * c + (t / k) % c);
                }
                let q: usize = t / k;
                let m: usize = t % k;
                let i: usize = q / c;
                let j: usize = q % c;
                ps.push((s[i * k + m].clone(), u[m * c + j].clone()));
                t = t + 1;
            }
            assert(ps@ =~= factors_in(*v, *w, k as int, c as int, n));
        },
        _ => {},
    }
    ps
}

impl<'a, F: Fn(RealOp, u64, u64) -> u64, G: Fn(usize, Vec<u64>) -> bool> CompilerCtx<'a, F, G> {
    /// The sums of `k` terms each.
    fn sums_of(&self, cells: &Vec<Option<AffineVal>>, n: usize, k: usize) -> (r: Vec<Option<AffineVal>>)
        requires
            reals::settled(*self.reals),
            cells@.len() == n * k,
        ensures
            matrices::views_of(r@) == Seq::new(
                n as nat,
                |t: int|
                    semantics::affine_sum(
                        reals::operations(*self.reals),
                        semantics::terms(matrices::views_of(cells@), k as int, t),
                    ),
            ),
    {
        let mut r: Vec<Option<AffineVal>> = Vec::new();
        let total: usize = cells.len();
        let mut t: usize = 0;
        while t < n
            invariant
                t <= n,
                reals::settled(*self.reals),
                total == cells@.len(),
                cells@.len() == n * k,
                r@.len() == t,
                forall|j: int|
                    0 <= j < t ==> matrices::view_of(#[trigger] r@[j]) == semantics::affine_sum(
                        reals::operations(*self.reals),
                        semantics::terms(matrices::views_of(cells@), k as int, j),
                    ),
            decreases n - t,
        {
            proof {
                assert(0 <= t * k && (t + 1) * k <= n * k && t * k + k == (t + 1) * k) by (nonlinear_arith)
                    requires
                        0 <= t < n,
                        0 <= k,
                ;
            }
            let from: usize = t * k;
            let sum: Option<AffineVal> = self.sum_affine(cells, from, from + k);
            r.push(sum);
            t = t + 1;
        }
        assert(matrices::views_of(r@) =~= Seq::new(
            n as nat,
            |t: int|
                semantics::affine_sum(
                    reals::operations(*self.reals),
                    semantics::terms(matrices::views_of(cells@), k as int, t),
                ),
        ));
        r
    }

    /// A matrix product.
    #[verifier::rlimit(40)]
    pub(crate) fn settle_product(&mut self, vals: &Vec<PluckVal>, got: &Vec<PluckVal>) -> (res: Option<
        GuardedWorlds,
    >)
        requires
            old(self).supplies(vals@, got@),
            vals@.len() == 2,
            product_in(*vals@[0], *vals@[1]) matches Some((r, k, c)) ==> fed(
                pair_wants_in(
                    FloatOp::Mul,
                    factors_in(*vals@[0], *vals@[1], k as int, c as int, r * c * k),
                ),
                got@,
            ),
        ensures
            old(self).moved(final(self)),
            final(self).answers(
                res,
                settle::asks(
                    vals@,
                    got@,
                    |ds: Seq<Datum>, gs: Seq<Datum>, x: Model|
                        semantics::product(x, ds[0], ds[1], gs),
                ),
            ),
    {
        let ghost s = settle::asks(
            vals@,
            got@,
            |ds: Seq<Datum>, gs: Seq<Datum>, x: Model| semantics::product(x, ds[0], ds[1], gs),
        );
        proof {
            self.lemma_step_refl();
            settle::lemma_operands(vals@);
            values::lemma_all_over(vals@, self.vars());
            assert(vals@[0].over(self.vars()) && vals@[1].over(self.vars()));
            assert(values::is_head(*vals@[0]) && values::is_head(*vals@[1]));
            lemma_factors_plain(&*vals@[0], &*vals@[1], self.vars());
            assert forall|a: Worlds| #[trigger] values::all_at(vals@, a) is Some implies {
                let ds = values::all_at(vals@, a)->0;
                &&& semantics::product_shape(ds[0], ds[1]) == product_in(*vals@[0], *vals@[1])
                &&& matrix_like(*vals@[0], ds[0])
                &&& matrix_like(*vals@[1], ds[1])
                &&& product_in(*vals@[0], *vals@[1]) matches Some((r, k, c)) ==> pairs_at(
                    factors_in(*vals@[0], *vals@[1], k as int, c as int, r * c * k),
                    a,
                    semantics::factors(ds[0], ds[1], k as int, c as int, r * c * k),
                )
            } by {
                assert(vals@[0].at(a) is Some && vals@[1].at(a) is Some);
                lemma_factors(&*vals@[0], &*vals@[1], a);
                lemma_matrix_at(&*vals@[0], a);
                lemma_matrix_at(&*vals@[1], a);
            }
        }
        let (r, k, c) = match product_of(&vals[0], &vals[1]) {
            Some(t) => t,
            None => {
                return None;
            },
        };
        let ps: Vec<(PluckVal, PluckVal)> = factors_of(&vals[0], &vals[1], r, k, c);
        let cells: Vec<Option<AffineVal>> = self.cells_of(FloatOp::Mul, &ps, got);
        let n: usize = r * c;
        let sums: Vec<Option<AffineVal>> = self.sums_of(&cells, n, k);
        proof {
            assert forall|a: Worlds, x: Model| #[trigger] self.allows(a, x) && s(a, x) is Some implies semantics::pair_cells(
                x,
                FloatOp::Mul,
                semantics::factors(
                    values::all_at(vals@, a)->0[0],
                    values::all_at(vals@, a)->0[1],
                    k as int,
                    c as int,
                    r * c * k,
                ),
                values::all_at(got@, a)->0,
            ) == matrices::views_of(cells@) by {
                assert(values::all_at(vals@, a) is Some);
                assert(self.suits(x));
            }
        }
        let es: Vec<PluckVal> = match pack_all(&sums) {
            Some(v) => v,
            None => {
                return None;
            },
        };
        let left_flat: bool = shape_len(&vals[0]) == 1;
        let right_flat: bool = shape_len(&vals[1]) == 1;
        let ghost seen = es@;
        proof {
            assert(matrices::views_of(sums@).len() == n);
            if left_flat && right_flat {
                assert(r == 1 && c == 1);
                assert(r * c == 1) by (nonlinear_arith)
                    requires
                        r == 1,
                        c == 1,
                ;
            }
        }
        let v: PluckVal = squeeze(es, r, c, left_flat, right_flat);
        let w: GuardedWorlds = pure_monad(v);
        proof {
            assert(values::all_over(seen, self.vars()));
            assert(v.over(self.vars()));
            assert forall|a: Worlds, x: Model| #[trigger] self.allows(a, x) && s(a, x) is Some implies v.at(
                a,
            ) is Some && s(a, x) == Some(Outcome::Done(v.at(a)->0)) by {
                assert(values::all_at(vals@, a) is Some);
                assert(values::all_at(seen, a) == semantics::all_packed(matrices::views_of(sums@)));
            }
            self.lemma_gives(v, w, s);
        }
        Some(w)
    }
}

fn shape_len(v: &PluckValue) -> (r: usize)
    ensures
        r == shape_in(*v).len(),
{
    match v {
        PluckValue::FloatMatrix { shape, .. } => shape.len(),
        _ => 0,
    }
}

/// The dimensions of a matrix.
pub open spec fn shape_in(v: PluckValue) -> Seq<usize> {
    match v {
        PluckValue::FloatMatrix { shape, .. } => shape@,
        _ => Seq::empty(),
    }
}

/// A matrix product in the shape that its operands give it.
fn squeeze(es: Vec<PluckVal>, r: usize, c: usize, left_flat: bool, right_flat: bool) -> (v: PluckVal)
    requires
        settle::all_heads(es@),
        left_flat && right_flat ==> es@.len() > 0,
    ensures
        values::is_head(*v),
        forall|order: Seq<u64>| values::all_over(es@, order) ==> #[trigger] v.over(order),
        forall|a: Worlds| #[trigger]
            values::all_at(es@, a) is Some ==> v.at(a) is Some && Outcome::Done(v.at(a)->0)
                == semantics::squeezed(
                values::all_at(es@, a)->0,
                r,
                c,
                left_flat,
                right_flat,
            ),
{
    proof {
        assert(values::no_unions(es@)) by {
            assert forall|i: int| 0 <= i < es@.len() implies !(*(#[trigger] es@[i]) is ThunkUnion) by {
                assert(values::is_head(*es@[i]));
            }
        }
    }
    if left_flat && right_flat {
        proof {
            assert(values::is_head(*es@[0]));
            assert forall|order: Seq<u64>| values::all_over(es@, order) implies #[trigger] es@[0].over(
                order,
            ) by {
                values::lemma_all_over(es@, order);
            }
            assert forall|a: Worlds| #[trigger] values::all_at(es@, a) is Some implies es@[0].at(a)
                == Some(values::all_at(es@, a)->0[0]) by {
                values::lemma_all_at(es@, a);
            }
        }
        return es[0].clone();
    }
    let mut shape: Vec<usize> = Vec::new();
    if !left_flat {
        shape.push(r);
    }
    if !right_flat {
        shape.push(c);
    }
    proof {
        assert(left_flat ==> shape@ =~= seq![c]);
        assert(right_flat ==> shape@ =~= seq![r]);
        assert(!left_flat && !right_flat ==> shape@ =~= seq![r, c]);
    }
    mk_float_matrix(es, shape)
}

} // verus!
