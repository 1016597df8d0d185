//! What of the operands of a primitive has to be evaluated further, and what
//! the primitive makes of them.

use vstd::prelude::*;

use super::affine::FloatOp;
use super::ctx::CompilerCtx;
use super::floats;
use super::floats::{factors_of, pair_wants_of, pairs_of, product_of, Wants};
use super::matrices;
use super::matrices::{is_scalar, place_of};
use super::monad::GuardedWorlds;
use super::semantics;
use super::semantics::{Depth, Model};
use super::settle;
use super::settle::Ans;
use crate::discrete_factorizations::Worlds;
use crate::language::primitives::Primitive;
use crate::language::values;
use crate::language::values::{Datum, PluckVal, PluckValue};
use crate::utils::reals::RealOp;

verus! {

/// All values, until they are no thunks.
pub open spec fn all_heads_of(s: Seq<PluckVal>) -> Wants {
    Seq::new(s.len(), |i: int| (Depth::Head, s[i]))
}

fn heads_of(s: &Vec<PluckVal>, t: &Vec<PluckVal>) -> (r: Vec<(Depth, PluckVal)>)
    ensures
        r@ == all_heads_of(s@ + t@),
{
    let mut r: Vec<(Depth, PluckVal)> = Vec::new();
    let mut i: usize = 0;
    while i < s.len()
        invariant
            i <= s@.len(),
            r@.len() == i,
            forall|j: int| 0 <= j < i ==> #[trigger] r@[j] == (Depth::Head, s@[j]),
        decreases s@.len() - i,
    {
        r.push((Depth::Head, s[i].clone()));
        i = i + 1;
    }
    let mut k: usize = 0;
    while k < t.len()
        invariant
            k <= t@.len(),
            r@.len() == s@.len() + k,
            forall|j: int| 0 <= j < s@.len() ==> #[trigger] r@[j] == (Depth::Head, s@[j]),
            forall|j: int|
                s@.len() <= j < s@.len() + k ==> #[trigger] r@[j] == (Depth::Head, t@[j - s@.len()]),
        decreases t@.len() - k,
    {
        r.push((Depth::Head, t[k].clone()));
        k = k + 1;
    }
    assert(r@ =~= all_heads_of(s@ + t@));
    r
}

/// What has to be evaluated to compare two vectors.
pub open spec fn vector_wants_in(v: PluckValue, w: PluckValue) -> Wants {
    match settle::parts_of(w) {
        None => Seq::empty(),
        Some(p) => match v {
            PluckValue::FloatMatrix { .. } => match settle::parts_of(v) {
                Some(q) => all_heads_of(p + q),
                None => Seq::empty(),
            },
            _ => all_heads_of(p),
        },
    }
}

/// What of the operands of a primitive has to be evaluated further, in order.
pub open spec fn wants_in(p: Primitive, vals: Seq<PluckVal>) -> Wants {
    match p {
        Primitive::NativeEq => if *vals[0] is Poisson {
            seq![(Depth::Number, vals[1])]
        } else if *vals[1] is Poisson {
            seq![(Depth::Number, vals[0])]
        } else {
            Seq::empty()
        },
        Primitive::NativeLeq | Primitive::NativeGeq => if *vals[0] is Poisson {
            seq![(Depth::Number, vals[1])]
        } else if *vals[1] is Poisson {
            seq![(Depth::Number, vals[0])]
        } else {
            seq![(Depth::Number, vals[0]), (Depth::Number, vals[1])]
        },
        Primitive::FAdd | Primitive::FSub | Primitive::FMul | Primitive::FDiv => if floats::is_gamma(
            *vals[0],
        ) || floats::is_gamma(*vals[1]) {
            Seq::empty()
        } else {
            match floats::pairs_in(vals[0], vals[1]) {
                Some(ps) => floats::pair_wants_in(semantics::float_op(p)->0, ps),
                None => Seq::empty(),
            }
        },
        Primitive::MatMul => match floats::product_in(*vals[0], *vals[1]) {
            Some((r, k, c)) => floats::pair_wants_in(
                FloatOp::Mul,
                floats::factors_in(*vals[0], *vals[1], k as int, c as int, r * c * k),
            ),
            None => Seq::empty(),
        },
        Primitive::Sum => all_heads_of(matrices::entries_in(*vals[0])),
        Primitive::DirichletEq => vector_wants_in(*vals[0], *vals[1]),
        Primitive::Index => match matrices::place_in(vals) {
            Some(i) => seq![(Depth::Head, matrices::entries_in(*vals[0])[i])],
            None => Seq::empty(),
        },
        Primitive::Gaussian => if matrices::scalar_in(*vals[0]) && matrices::scalar_in(*vals[1]) {
            Seq::empty()
        } else {
            all_heads_of(matrices::entries_in(*vals[0]) + matrices::entries_in(*vals[1]))
        },
        _ => Seq::empty(),
    }
}

proof fn lemma_all_heads_of(s: Seq<PluckVal>, a: Worlds, ds: Seq<Datum>)
    requires
        s.len() == ds.len(),
        forall|i: int| 0 <= i < s.len() ==> (#[trigger] s[i]).at(a) == Some(ds[i]),
    ensures
        floats::wants_at(all_heads_of(s), a, semantics::all_at_head(ds)),
{
}

proof fn lemma_entries_at(v: &PluckValue, a: Worlds)
    requires
        values::is_head(*v),
        v.at(a) is Some,
    ensures
        semantics::entries_of(v.at(a)->0).len() == matrices::entries_in(*v).len(),
        forall|i: int|
            0 <= i < matrices::entries_in(*v).len() ==> (#[trigger] matrices::entries_in(*v)[i]).at(a)
                == Some(semantics::entries_of(v.at(a)->0)[i]),
{
    match v {
        PluckValue::FloatMatrix { entries, .. } => values::lemma_all_at(entries@, a),
        _ => {},
    }
}

proof fn lemma_parts_at(v: &PluckValue, a: Worlds)
    requires
        values::is_head(*v),
        v.at(a) is Some,
    ensures
        match (settle::parts_of(*v), semantics::vector_parts(v.at(a)->0)) {
            (Some(s), Some(ds)) => s.len() == ds.len() && forall|i: int|
                0 <= i < s.len() ==> (#[trigger] s[i]).at(a) == Some(ds[i]),
            (None, None) => true,
            _ => false,
        },
        v is FloatMatrix <==> v.at(a)->0 is Matrix,
{
    match v {
        PluckValue::FloatMatrix { entries, .. } => values::lemma_all_at(entries@, a),
        PluckValue::Value { args, .. } => values::lemma_all_at(args@, a),
        _ => {},
    }
}

spec fn entries_by(v: PluckVal) -> Seq<PluckVal> {
    matrices::entries_in(*v)
}

spec fn parts_by(v: PluckVal) -> Option<Seq<PluckVal>> {
    settle::parts_of(*v)
}

spec fn product_by(v: PluckVal, w: PluckVal) -> Option<(usize, usize, usize)> {
    floats::product_in(*v, *w)
}

spec fn factors_by(v: PluckVal, w: PluckVal, k: int, c: int, n: int) -> floats::Pairs {
    floats::factors_in(*v, *w, k, c, n)
}

spec fn is_matrix(v: PluckVal) -> bool {
    *v is FloatMatrix
}

spec fn is_number(v: PluckVal) -> bool {
    matrices::scalar_in(*v)
}

/// What has to be evaluated further is what the operands' data ask for.
#[verifier::rlimit(40)]
pub proof fn lemma_wants(p: Primitive, vals: Seq<PluckVal>, a: Worlds, order: Seq<u64>)
    requires
        settle::takes(p, vals.len()),
        settle::all_heads(vals),
        values::all_over(vals, order),
        values::all_at(vals, a) is Some,
    ensures
        floats::wants_at(wants_in(p, vals), a, semantics::wants(p, values::all_at(vals, a)->0)),
{
    values::lemma_all_at(vals, a);
    values::lemma_all_over(vals, order);
    let ds = values::all_at(vals, a)->0;
    if vals.len() > 0 {
        assert(vals[0].at(a) == Some(ds[0]));
        assert(values::is_head(*vals[0]));
        assert(vals[0].over(order));
    }
    if vals.len() > 1 {
        assert(vals[1].at(a) == Some(ds[1]));
        assert(values::is_head(*vals[1]));
        assert(vals[1].over(order));
    }
    match p {
        Primitive::FAdd | Primitive::FSub | Primitive::FMul | Primitive::FDiv => {
            floats::lemma_pairs(vals[0], vals[1], a);
            floats::lemma_pairs_plain(vals[0], vals[1], order);
            let op = semantics::float_op(p)->0;
            match (floats::pairs_in(vals[0], vals[1]), semantics::paired(ds[0], ds[1])) {
                (Some(ps), Some(qs)) => floats::lemma_pair_wants(op, ps, a, qs),
                _ => {},
            }
        },
        Primitive::MatMul => {
            floats::lemma_factors(&*vals[0], &*vals[1], a);
            floats::lemma_factors_plain(&*vals[0], &*vals[1], order);
            match product_by(vals[0], vals[1]) {
                Some((r, k, c)) => floats::lemma_pair_wants(
                    FloatOp::Mul,
                    factors_by(vals[0], vals[1], k as int, c as int, r * c * k),
                    a,
                    semantics::factors(ds[0], ds[1], k as int, c as int, r * c * k),
                ),
                None => {},
            }
        },
        Primitive::Sum => {
            lemma_entries_at(&*vals[0], a);
            lemma_all_heads_of(entries_by(vals[0]), a, semantics::entries_of(ds[0]));
        },
        Primitive::DirichletEq => {
            lemma_parts_at(&*vals[0], a);
            lemma_parts_at(&*vals[1], a);
            match (parts_by(vals[1]), semantics::vector_parts(ds[1])) {
                (Some(s), Some(t)) => {
                    lemma_all_heads_of(s, a, t);
                    match (parts_by(vals[0]), semantics::vector_parts(ds[0])) {
                        (Some(s0), Some(t0)) => lemma_all_heads_of(s + s0, a, t + t0),
                        _ => {},
                    }
                },
                _ => {},
            }
        },
        Primitive::Index => {
            matrices::lemma_place(vals, a);
            lemma_entries_at(&*vals[0], a);
        },
        Primitive::Gaussian => {
            lemma_entries_at(&*vals[0], a);
            lemma_entries_at(&*vals[1], a);
            lemma_all_heads_of(
                entries_by(vals[0]) + entries_by(vals[1]),
                a,
                semantics::entries_of(ds[0]) + semantics::entries_of(ds[1]),
            );
        },
        _ => {},
    }
}

/// Values to be evaluated are over the variables; numbers are counted from
/// evaluated values.
pub open spec fn wants_over(ws: Wants, order: Seq<u64>) -> bool {
    forall|i: int|
        0 <= i < ws.len() ==> (#[trigger] ws[i]).1.over(order) && (ws[i].0 == Depth::Number
            ==> values::is_head(*ws[i].1))
}

#[verifier::rlimit(40)]
pub proof fn lemma_wants_over(p: Primitive, vals: Seq<PluckVal>, order: Seq<u64>)
    requires
        settle::takes(p, vals.len()),
        settle::all_heads(vals),
        values::all_over(vals, order),
    ensures
        wants_over(wants_in(p, vals), order),
{
    values::lemma_all_over(vals, order);
    if vals.len() > 0 {
        assert(values::is_head(*vals[0]));
        assert(vals[0].over(order));
        floats::lemma_matrix_plain(&*vals[0], order);
        lemma_parts_over(&*vals[0], order);
    }
    if vals.len() > 1 {
        assert(values::is_head(*vals[1]));
        assert(vals[1].over(order));
        floats::lemma_matrix_plain(&*vals[1], order);
        lemma_parts_over(&*vals[1], order);
        floats::lemma_pairs_plain(vals[0], vals[1], order);
        floats::lemma_factors_plain(&*vals[0], &*vals[1], order);
    }
    match p {
        Primitive::Index => {
            matrices::lemma_place_within(vals);
        },
        _ => {},
    }
}

proof fn lemma_parts_over(v: &PluckValue, order: Seq<u64>)
    requires
        v.over(order),
    ensures
        settle::parts_of(*v) matches Some(s) ==> forall|i: int|
            0 <= i < s.len() ==> (#[trigger] s[i]).over(order),
{
    match v {
        PluckValue::FloatMatrix { entries, .. } => values::lemma_all_over(entries@, order),
        PluckValue::Value { args, .. } => values::lemma_all_over(args@, order),
        _ => {},
    }
}

fn entries_of(v: &PluckValue) -> (r: Vec<PluckVal>)
    ensures
        r@ == matrices::entries_in(*v),
{
    match v {
        PluckValue::FloatMatrix { entries, .. } => values::clone_vals(entries),
        _ => {
            let r: Vec<PluckVal> = Vec::new();
            assert(r@ =~= matrices::entries_in(*v));
            r
        },
    }
}

fn clone_parts(v: &PluckValue) -> (r: Option<Vec<PluckVal>>)
    ensures
        match r {
            Some(s) => settle::parts_of(*v) == Some(s@),
            None => settle::parts_of(*v) is None,
        },
{
    match v {
        PluckValue::FloatMatrix { entries, shape } => if shape.len() == 1 {
            Some(values::clone_vals(entries))
        } else {
            None
        },
        PluckValue::Value { args, .. } => Some(values::clone_vals(args)),
        _ => None,
    }
}

fn gamma_like(v: &PluckValue) -> (r: bool)
    ensures
        r == floats::is_gamma(*v),
{
    matches!(v, PluckValue::Gamma { .. }) || matches!(v, PluckValue::Exponential { .. }) || matches!(
        v,
        PluckValue::Poisson { .. }
    )
}

pub(crate) fn float_op_of(p: Primitive) -> (r: Option<FloatOp>)
    ensures
        r == semantics::float_op(p),
{
    match p {
        Primitive::FAdd => Some(FloatOp::Add),
        Primitive::FSub => Some(FloatOp::Sub),
        Primitive::FMul => Some(FloatOp::Mul),
        Primitive::FDiv => Some(FloatOp::Div),
        _ => None,
    }
}

fn compared(p: Primitive, vals: &Vec<PluckVal>) -> (r: Vec<(Depth, PluckVal)>)
    requires
        vals@.len() == 2,
        p == Primitive::NativeEq || p == Primitive::NativeLeq || p == Primitive::NativeGeq,
    ensures
        r@ == wants_in(p, vals@),
{
    let mut r: Vec<(Depth, PluckVal)> = Vec::new();
    if matches!(&*vals[0], PluckValue::Poisson { .. }) {
        r.push((Depth::Number, vals[1].clone()));
    } else if matches!(&*vals[1], PluckValue::Poisson { .. }) {
        r.push((Depth::Number, vals[0].clone()));
    } else if p != Primitive::NativeEq {
        r.push((Depth::Number, vals[0].clone()));
        r.push((Depth::Number, vals[1].clone()));
    }
    assert(r@ =~= wants_in(p, vals@));
    r
}

/// What of the operands of a primitive has to be evaluated further.
pub fn wants_of(p: Primitive, vals: &Vec<PluckVal>) -> (r: Vec<(Depth, PluckVal)>)
    requires
        settle::takes(p, vals@.len()),
    ensures
        r@ == wants_in(p, vals@),
{
    let none: Vec<(Depth, PluckVal)> = Vec::new();
    assert(none@ =~= Seq::<(Depth, PluckVal)>::empty());
    match p {
        Primitive::NativeEq | Primitive::NativeLeq | Primitive::NativeGeq => compared(p, vals),
        Primitive::FAdd | Primitive::FSub | Primitive::FMul | Primitive::FDiv => {
            if gamma_like(&vals[0]) || gamma_like(&vals[1]) {
                return none;
            }
            match (float_op_of(p), pairs_of(&vals[0], &vals[1])) {
                (Some(op), Some(ps)) => pair_wants_of(op, &ps),
                _ => none,
            }
        },
        Primitive::MatMul => match product_of(&vals[0], &vals[1]) {
            Some((r, k, c)) => {
                let ps: Vec<(PluckVal, PluckVal)> = factors_of(&vals[0], &vals[1], r, k, c);
                pair_wants_of(FloatOp::Mul, &ps)
            },
            None => none,
        },
        Primitive::Sum => {
            let s: Vec<PluckVal> = entries_of(&vals[0]);
            let t: Vec<PluckVal> = Vec::new();
            assert(s@ + t@ =~= s@);
            heads_of(&s, &t)
        },
        Primitive::DirichletEq => match clone_parts(&vals[1]) {
            None => none,
            Some(s) => {
                if matches!(&*vals[0], PluckValue::FloatMatrix { .. }) {
                    match clone_parts(&vals[0]) {
                        Some(t) => heads_of(&s, &t),
                        None => none,
                    }
                } else {
                    let t: Vec<PluckVal> = Vec::new();
                    assert(s@ + t@ =~= s@);
                    heads_of(&s, &t)
                }
            },
        },
        Primitive::Index => match place_of(vals) {
            Some(i) => {
                let s: Vec<PluckVal> = entries_of(&vals[0]);
                let mut r: Vec<(Depth, PluckVal)> = Vec::new();
                r.push((Depth::Head, s[i].clone()));
                assert(r@ =~= wants_in(p, vals@));
                r
            },
            None => none,
        },
        Primitive::Gaussian => {
            if is_scalar(&vals[0]) && is_scalar(&vals[1]) {
                return none;
            }
            let s: Vec<PluckVal> = entries_of(&vals[0]);
            let t: Vec<PluckVal> = entries_of(&vals[1]);
            heads_of(&s, &t)
        },
        _ => none,
    }
}

proof fn lemma_fed_heads(s: Seq<PluckVal>, got: Seq<PluckVal>)
    requires
        floats::fed(all_heads_of(s), got),
    ensures
        settle::all_heads(got),
        got.len() == s.len(),
{
    assert forall|i: int| 0 <= i < got.len() implies values::is_head(*(#[trigger] got[i])) by {
        assert(all_heads_of(s)[i].0 == Depth::Head);
    }
}

impl<'a, F: Fn(RealOp, u64, u64) -> u64, G: Fn(usize, Vec<u64>) -> bool> CompilerCtx<'a, F, G> {
    /// Answers to one question are answers to another that is the same.
    proof fn lemma_same_question(&self, r: Option<GuardedWorlds>, s: Ans, t: Ans)
        requires
            self.answers(r, s),
            forall|a: Worlds, x: Model| #[trigger] self.allows(a, x) ==> s(a, x) == t(a, x),
        ensures
            self.answers(r, t),
    {
    }

    /// The result of a primitive on its operands.
    #[verifier::rlimit(50)]
    pub(crate) fn settle(&mut self, p: Primitive, vals: &Vec<PluckVal>, got: &Vec<PluckVal>) -> (r: Option<
        GuardedWorlds,
    >)
        requires
            old(self).supplies(vals@, got@),
            settle::takes(p, vals@.len()),
            floats::fed(wants_in(p, vals@), got@),
        ensures
            old(self).moved(final(self)),
            final(self).answers(r, settle::asked(p, vals@, got@, old(self).state.callstack@)),
    {
        match p {
            Primitive::Flip => self.settle_flip(vals, got),
            Primitive::NativeEq | Primitive::NativeLeq | Primitive::NativeGeq => {
                proof {
                    assert forall|i: int| 0 <= i < got@.len() implies values::is_head(
                        *(#[trigger] got@[i]),
                    ) by {
                        assert(wants_in(p, vals@)[i].0 == Depth::Number);
                    }
                }
                self.settle_comparison(p, vals, got)
            },
            Primitive::MkInt => self.settle_mk_int(vals, got),
            Primitive::UniformInt => self.settle_uniform_int(vals, got),
            Primitive::UniformIntRange => self.settle_range(vals, got),
            Primitive::IntDistEq | Primitive::IntAdd | Primitive::IntSub | Primitive::IntLt => {
                self.settle_int_op(p, vals, got)
            },
            Primitive::GetConstructor => self.settle_get_constructor(vals, got),
            Primitive::Beta | Primitive::Gamma => self.settle_named(p, vals, got),
            Primitive::ProbEq => self.settle_prob_eq(vals, got),
            Primitive::RealEq => self.settle_real_eq(vals, got),
            Primitive::RealLt | Primitive::RealGeq => self.settle_real_range(p, vals, got),
            Primitive::Dirichlet => self.settle_dirichlet(vals, got),
            Primitive::Poisson | Primitive::Exponential => self.settle_draw(p, vals, got),
            _ => self.settle_other(p, vals, got),
        }
    }

    #[verifier::rlimit(50)]
    fn settle_other(&mut self, p: Primitive, vals: &Vec<PluckVal>, got: &Vec<PluckVal>) -> (r: Option<
        GuardedWorlds,
    >)
        requires
            old(self).supplies(vals@, got@),
            settle::takes(p, vals@.len()),
            floats::fed(wants_in(p, vals@), got@),
            !matches!(
                p,
                Primitive::Flip
                | Primitive::NativeEq
                | Primitive::NativeLeq
                | Primitive::NativeGeq
                | Primitive::MkInt
                | Primitive::UniformInt
                | Primitive::UniformIntRange
                | Primitive::IntDistEq
                | Primitive::IntAdd
                | Primitive::IntSub
                | Primitive::IntLt
                | Primitive::GetConstructor
                | Primitive::Beta
                | Primitive::Gamma
                | Primitive::ProbEq
                | Primitive::RealEq
                | Primitive::RealLt
                | Primitive::RealGeq
                | Primitive::Dirichlet
                | Primitive::Poisson
                | Primitive::Exponential
            ),
        ensures
            old(self).moved(final(self)),
            final(self).answers(r, settle::asked(p, vals@, got@, old(self).state.callstack@)),
    {
        let ghost cs = self.state.callstack@;
        let ghost t = settle::asked(p, vals@, got@, cs);
        match p {
            Primitive::GetArgs => {
                let r: Option<GuardedWorlds> = self.settle_get_args(vals, got);
                proof {
                    self.lemma_same_question(
                        r,
                        settle::asks(
                            vals@,
                            got@,
                            |ds: Seq<Datum>, gs: Seq<Datum>, x: Model| settle::listed(ds[0], x),
                        ),
                        t,
                    );
                }
                r
            },
            Primitive::Gaussian => {
                proof {
                    if !(is_number(vals@[0]) && is_number(vals@[1])) {
                        lemma_fed_heads(
                            entries_by(vals@[0]) + entries_by(vals@[1]),
                            got@,
                        );
                    }
                }
                let r: Option<GuardedWorlds> = self.settle_gaussian(vals, got);
                proof {
                    self.lemma_same_question(
                        r,
                        settle::asks(
                            vals@,
                            got@,
                            |ds: Seq<Datum>, gs: Seq<Datum>, x: Model|
                                semantics::gaussian(x, cs, ds[0], ds[1], gs),
                        ),
                        t,
                    );
                }
                r
            },
            Primitive::DirichletEq => {
                proof {
                    match parts_by(vals@[1]) {
                        Some(q) => match parts_by(vals@[0]) {
                            Some(s) => {
                                if is_matrix(vals@[0]) {
                                    lemma_fed_heads(q + s, got@);
                                } else {
                                    lemma_fed_heads(q, got@);
                                }
                            },
                            None => {
                                if !(is_matrix(vals@[0])) {
                                    lemma_fed_heads(q, got@);
                                }
                            },
                        },
                        None => {},
                    }
                }
                let r: Option<GuardedWorlds> = self.settle_dirichlet_eq(vals, got);
                proof {
                    self.lemma_same_question(
                        r,
                        settle::asks(
                            vals@,
                            got@,
                            |ds: Seq<Datum>, gs: Seq<Datum>, x: Model|
                                semantics::vector_test(x, cs, ds[0], ds[1], gs),
                        ),
                        t,
                    );
                }
                r
            },
            Primitive::Index => {
                proof {
                    assert(settle::all_heads(got@)) by {
                        assert forall|i: int| 0 <= i < got@.len() implies values::is_head(
                            *(#[trigger] got@[i]),
                        ) by {
                            assert(wants_in(p, vals@)[i].0 == Depth::Head);
                        }
                    }
                }
                let r: Option<GuardedWorlds> = self.settle_index(vals, got);
                proof {
                    self.lemma_same_question(
                        r,
                        settle::asks(
                            vals@,
                            got@,
                            |ds: Seq<Datum>, gs: Seq<Datum>, x: Model| semantics::indexed(ds, gs),
                        ),
                        t,
                    );
                }
                r
            },
            Primitive::Categorical => {
                let r: Option<GuardedWorlds> = self.settle_categorical(vals, got);
                proof {
                    self.lemma_same_question(
                        r,
                        settle::asks(
                            vals@,
                            got@,
                            |ds: Seq<Datum>, gs: Seq<Datum>, x: Model|
                                semantics::categorical(x, cs, ds),
                        ),
                        t,
                    );
                }
                r
            },
            Primitive::MatMul => {
                let r: Option<GuardedWorlds> = self.settle_product(vals, got);
                proof {
                    self.lemma_same_question(
                        r,
                        settle::asks(
                            vals@,
                            got@,
                            |ds: Seq<Datum>, gs: Seq<Datum>, x: Model|
                                semantics::product(x, ds[0], ds[1], gs),
                        ),
                        t,
                    );
                }
                r
            },
            Primitive::Sum => {
                proof {
                    lemma_fed_heads(entries_by(vals@[0]), got@);
                }
                let r: Option<GuardedWorlds> = self.settle_sum(vals, got);
                proof {
                    self.lemma_same_question(
                        r,
                        settle::asks(
                            vals@,
                            got@,
                            |ds: Seq<Datum>, gs: Seq<Datum>, x: Model|
                                semantics::entry_sum(x, ds[0], gs),
                        ),
                        t,
                    );
                }
                r
            },
            _ => match float_op_of(p) {
                Some(op) => {
                    let r: Option<GuardedWorlds> = self.settle_float(op, vals, got);
                    proof {
                        self.lemma_same_question(
                            r,
                            settle::asks(
                                vals@,
                                got@,
                                |ds: Seq<Datum>, gs: Seq<Datum>, x: Model|
                                    semantics::float_result(x, op, ds[0], ds[1], gs),
                            ),
                            t,
                        );
                    }
                    r
                },
                None => {
                    proof {
                        self.lemma_step_refl();
                    }
                    None
                },
            },
        }
    }
}

} // verus!
