//! The primitive operations on evaluated operands.

use vstd::arithmetic::power2;
use vstd::prelude::*;

use super::affine::is_nan;
use super::ctx;
use super::ctx::CompilerCtx;
use super::monad;
use super::monad::{
    categorical_monad, if_then_else_monad, program_error_worlds, pure_monad, GuardedWorlds, World,
};
use super::semantics;
use super::semantics::{Event, HALF, Law, Model, NativeCmp, SMALL};
use super::state::{FlipWeight, Prior};
use crate::discrete_factorizations::{BooleanFunction, Factorizer, Worlds};
use crate::inference::int_dists;
use crate::inference::int_dists::{int_dist_add, int_dist_eq, int_dist_lt, int_dist_sub, IntDist};
use crate::language::pexpr::{Const, NativeVal};
use crate::language::primitives::Primitive;
use crate::language::types::Symbol;
use crate::language::values;
use crate::language::values::{
    clone_pairs, mk_dirichlet, mk_exponential, mk_gamma, mk_int_dist, mk_native_int,
    mk_native_symbol, mk_poisson, mk_probability, mk_value, Datum, Outcome, PluckVal, PluckValue,
};
use crate::utils::reals;
use crate::utils::reals::{
    compute, real_at_most, real_below, real_equal, real_smaller, RealOp, ONE, SIGN, TINY, ZERO,
};

verus! {

/// What a primitive comes to under an assignment; nothing, where its operands
/// have no definite value.
pub type Ans = spec_fn(Worlds, Model) -> Option<Outcome>;

/// The result of a primitive on its operands.
pub open spec fn asked(p: Primitive, vals: Seq<PluckVal>, got: Seq<PluckVal>, cs: Seq<i32>) -> Ans {
    |a: Worlds, x: Model|
        match (values::all_at(vals, a), values::all_at(got, a)) {
            (Some(ds), Some(gs)) => Some(semantics::settled(p, ds, gs, cs, x)),
            _ => None,
        }
}

/// What `k` makes of the operands.
pub open spec fn asks(
    vals: Seq<PluckVal>,
    got: Seq<PluckVal>,
    k: spec_fn(Seq<Datum>, Seq<Datum>, Model) -> Outcome,
) -> Ans {
    |a: Worlds, x: Model|
        match (values::all_at(vals, a), values::all_at(got, a)) {
            (Some(ds), Some(gs)) => Some(k(ds, gs, x)),
            _ => None,
        }
}

/// The arguments of a constructor as a list.
pub open spec fn listed(d: Datum, x: Model) -> Outcome {
    match x.list {
        None => Outcome::Stuck,
        Some((nil, cons)) => match d {
            Datum::Value { args, .. } => Outcome::Done(semantics::list_of(nil, cons, args)),
            _ => Outcome::Done(d),
        },
    }
}

/// All values are heads.
pub open spec fn all_heads(s: Seq<PluckVal>) -> bool {
    forall|i: int| 0 <= i < s.len() ==> values::is_head(*(#[trigger] s[i]))
}

/// The numbers of operands that a primitive takes.
pub open spec fn takes(p: Primitive, n: nat) -> bool {
    match p {
        Primitive::Flip
        | Primitive::UniformInt
        | Primitive::GetArgs
        | Primitive::GetConstructor
        | Primitive::Sum
        | Primitive::Poisson
        | Primitive::Exponential => n == 1,
        Primitive::UniformIntRange => n == 3,
        Primitive::Dirichlet | Primitive::Categorical => true,
        Primitive::Index => n >= 1,
        _ => n == 2,
    }
}

impl<'a, F: Fn(RealOp, u64, u64) -> u64, G: Fn(usize, Vec<u64>) -> bool> CompilerCtx<'a, F, G> {
    /// The worlds choose what is asked for, everywhere; or it has no meaning
    /// anywhere.
    pub open spec fn answers(&self, r: Option<GuardedWorlds>, s: Ans) -> bool {
        match r {
            Some(w) => {
                &&& self.shaped(w)
                &&& values::heads(w.0@)
                &&& monad::tidy(w.0@)
                &&& w.1 == BooleanFunction::True
                &&& forall|a: Worlds, x: Model| #[trigger]
                    self.allows(a, x) && s(a, x) is Some ==> values::pick(w.0@, a) == s(a, x)->0
                        && s(a, x)->0 != Outcome::Stuck
            },
            None => forall|a: Worlds, x: Model| #[trigger]
                self.allows(a, x) && s(a, x) is Some ==> s(a, x)->0 == Outcome::Stuck,
        }
    }

    /// The operands are evaluated and over the variables of the compilation.
    pub open spec fn supplies(&self, vals: Seq<PluckVal>, got: Seq<PluckVal>) -> bool {
        &&& self.wf()
        &&& values::all_over(vals, self.vars())
        &&& values::all_over(got, self.vars())
        &&& all_heads(vals)
    }

    /// Nothing but new choices and names.
    pub open spec fn moved(&self, next: &Self) -> bool {
        &&& self.step(next)
        &&& next.state.hit_limit == self.state.hit_limit
    }

    pub proof fn lemma_moved(&self, next: &Self)
        requires
            self.wf(),
            next.state.wf(),
            self.state.grows_to(next.state),
            self.state.same_place(next.state),
            self.defs == next.defs,
            self.list == next.list,
            self.nat == next.nat,
            self.true_sym == next.true_sym,
            self.false_sym == next.false_sym,
            self.reals == next.reals,
            self.covariance == next.covariance,
            next.state.cache == self.state.cache,
            next.state.hit_limit == self.state.hit_limit,
        ensures
            self.moved(next),
    {
        assert forall|i: int| 0 <= i < next.state.cache@.len() implies next.entry_right(
            (#[trigger] next.state.cache@[i]).thunk,
            next.state.cache@[i].worlds,
        ) by {
            let e = self.state.cache@[i];
            assert(self.entry_right(e.thunk, e.worlds));
            values::lemma_over_grows(&*e.thunk, self.vars(), next.vars());
            values::lemma_entries_over_grows(e.worlds.0@, self.vars(), next.vars());
            assert(e.worlds.1.wf(next.vars()));
            let s = ctx::forcing(e.thunk);
            assert forall|a: Worlds, x: Model| #[trigger]
                next.allows(a, x) && e.worlds.1.eval(a) && s(a, x, 0) is Some implies ctx::reached(
                s,
                a,
                x,
                values::pick(e.worlds.0@, a),
            ) by {
                assert(next.state.fits(a, x));
                assert(self.allows(a, x));
            }
        }
    }

    /// `True` or `False`.
    pub fn bool_val(&self, b: bool) -> (r: PluckVal)
        ensures
            forall|a: Worlds, x: Model| #[trigger]
                self.allows(a, x) ==> r.at(a) == Some(semantics::truth(x, b)),
            forall|order: Seq<u64>| #[trigger] r.over(order),
            values::is_head(*r),
            *r matches PluckValue::Value { constructor, args } && args@.len() == 0 && constructor
                == (if b {
                self.true_sym
            } else {
                self.false_sym
            }),
    {
        let args: Vec<PluckVal> = Vec::new();
        mk_value(
            if b {
                self.true_sym
            } else {
                self.false_sym
            },
            args,
        )
    }

    /// A single world gives its value.
    pub proof fn lemma_gives(&self, v: PluckVal, w: GuardedWorlds, s: Ans)
        requires
            w.0@ == seq![(v, BooleanFunction::True)],
            w.1 == BooleanFunction::True,
            v.over(self.vars()),
            values::is_head(*v),
            forall|a: Worlds, x: Model| #[trigger]
                self.allows(a, x) && s(a, x) is Some ==> v.at(a) is Some && s(a, x) == Some(
                    Outcome::Done(v.at(a)->0),
                ),
        ensures
            self.answers(Some(w), s),
    {
        let e = (v, BooleanFunction::True);
        values::lemma_pick_single(e);
        assert(values::entries_over(seq![e], self.vars()));
        assert forall|a: Worlds, x: Model| #[trigger]
            self.allows(a, x) && s(a, x) is Some implies values::pick(w.0@, a) == s(a, x)->0 && s(
            a,
            x,
        )->0 != Outcome::Stuck by {
            assert(values::pick(seq![e], a) == values::option(e, a));
        }
    }

    /// No worlds: the evaluation fails.
    pub proof fn lemma_fails(&self, w: GuardedWorlds, s: Ans)
        requires
            w.0@ == Seq::<World>::empty(),
            w.1 == BooleanFunction::True,
            forall|a: Worlds, x: Model| #[trigger]
                self.allows(a, x) && s(a, x) is Some ==> s(a, x)->0 == Outcome::Fail,
        ensures
            self.answers(Some(w), s),
    {
    }

    /// Worlds for whether an event happens, at an index below the current
    /// callstack.
    fn flag(&mut self, index: i32, weight: FlipWeight) -> (r: GuardedWorlds)
        requires
            old(self).wf(),
        ensures
            old(self).moved(final(self)),
            final(self).answers(
                Some(r),
                |a: Worlds, x: Model|
                    Some(semantics::decided(x, old(self).state.callstack@, index, weight@)),
            ),
    {
        let ghost start = *self;
        let var: BooleanFunction = self.state.with_callstack_index(index, weight);
        proof {
            start.lemma_moved(self);
        }
        let yes: PluckVal = self.bool_val(true);
        let no: PluckVal = self.bool_val(false);
        let r: GuardedWorlds = if_then_else_monad(yes, no, var, &self.state.factorizer);
        proof {
            assert(!monad::alike(*yes, *no));
            let cs = start.state.callstack@;
            assert forall|a: Worlds, x: Model| #[trigger] self.allows(a, x) implies values::pick(
                r.0@,
                a,
            ) == semantics::decided(x, cs, index, weight@) by {
                assert(self.state.fits(a, x));
                assert(var.eval(a) == (x.flips)(cs.push(index), weight@.code()));
            }
        }
        r
    }

    /// The number that a value is, an integer too.
    pub open spec fn num(&self, v: PluckValue) -> Option<u64> {
        match v {
            PluckValue::Native(NativeVal::Float(b)) => Some(b),
            PluckValue::Native(NativeVal::Int(i)) => Some(
                reals::operations(*self.reals)(RealOp::OfInt, i as u64, 0),
            ),
            _ => None,
        }
    }

    pub proof fn lemma_num(&self, v: &PluckValue, a: Worlds, x: Model)
        requires
            self.suits(x),
            values::is_head(*v),
            v.at(a) is Some,
        ensures
            semantics::number(x, v.at(a)->0) == self.num(*v),
    {
    }

    pub(crate) fn number_of(&self, v: &PluckValue) -> (r: Option<u64>)
        requires
            reals::settled(*self.reals),
        ensures
            r == self.num(*v),
    {
        match v {
            PluckValue::Native(NativeVal::Float(b)) => Some(*b),
            PluckValue::Native(NativeVal::Int(i)) => Some(
                compute(self.reals, RealOp::OfInt, *i as u64, 0),
            ),
            _ => None,
        }
    }

    /// A flip.
    pub(crate) fn settle_flip(&mut self, vals: &Vec<PluckVal>, got: &Vec<PluckVal>) -> (r: Option<GuardedWorlds>)
        requires
            old(self).supplies(vals@, got@),
            vals@.len() == 1,
        ensures
            old(self).moved(final(self)),
            final(self).answers(
                r,
                asked(Primitive::Flip, vals@, got@, old(self).state.callstack@),
            ),
    {
        let ghost start = *self;
        let ghost cs = self.state.callstack@;
        let ghost s = asked(Primitive::Flip, vals@, got@, cs);
        proof {
            self.lemma_step_refl();
            assert forall|a: Worlds| #[trigger] values::all_at(vals@, a) is Some implies vals@[0].at(a)
                == Some(values::all_at(vals@, a)->0[0]) by {
                values::lemma_all_at(vals@, a);
            }
        }
        let weight: FlipWeight = match &*vals[0] {
            PluckValue::Native(NativeVal::Float(p)) => {
                if real_smaller(*p, TINY) {
                    let v: PluckVal = self.bool_val(false);
                    let w: GuardedWorlds = pure_monad(v);
                    proof {
                        self.lemma_gives(v, w, s);
                    }
                    return Some(w);
                }
                if real_smaller(compute(self.reals, RealOp::Difference, *p, ONE), TINY) {
                    let v: PluckVal = self.bool_val(true);
                    let w: GuardedWorlds = pure_monad(v);
                    proof {
                        self.lemma_gives(v, w, s);
                    }
                    return Some(w);
                }
                FlipWeight::Constant(*p)
            },
            PluckValue::Probability(n) => FlipWeight::Beta(*n),
            PluckValue::DirichletProbability { name, index, categories } => FlipWeight::Element {
                name: *name,
                index: *index,
                categories: *categories,
            },
            _ => {
                return None;
            },
        };
        Some(self.flag(1, weight))
    }
}

/// The comparison seen from the right operand's side:
/// `a ≤ b ⇔ b ≥ a`.
impl NativeCmp {
    pub fn mirror(self) -> (r: Self)
        ensures
            r == semantics::mirrored(self),
    {
        match self {
            NativeCmp::Leq => NativeCmp::Geq,
            NativeCmp::Geq => NativeCmp::Leq,
        }
    }
}

/// The bits of a number as constant functions.
pub fn constant_bits(v: u64, width: usize) -> (r: Vec<BooleanFunction>)
    requires
        width <= 64,
    ensures
        forall|order: Seq<u64>| #[trigger] values::bits_over(r@, order),
        forall|a: Worlds| #[trigger]
            values::bits_at(r@, a) == semantics::bits_of_number(v, width as nat),
{
    let mut bits: Vec<BooleanFunction> = Vec::new();
    let mut i: usize = 0;
    while i < width
        invariant
            i <= width <= 64,
            bits@.len() == i,
            forall|j: int|
                0 <= j < i ==> #[trigger] bits@[j] == (if (v >> (j as u64)) & 1 == 1 {
                    BooleanFunction::True
                } else {
                    BooleanFunction::False
                }),
        decreases width - i,
    {
        let k: u64 = i as u64;
        if (v >> k) & 1 == 1 {
            bits.push(BooleanFunction::true_ptr());
        } else {
            bits.push(BooleanFunction::false_ptr());
        }
        i = i + 1;
    }
    proof {
        assert forall|a: Worlds| #[trigger]
            values::bits_at(bits@, a) == semantics::bits_of_number(v, width as nat) by {
            assert(values::bits_at(bits@, a) =~= semantics::bits_of_number(v, width as nat));
        }
    }
    bits
}

pub(crate) fn clone_bits(s: &Vec<BooleanFunction>) -> (r: Vec<BooleanFunction>)
    ensures
        r@ == s@,
{
    let mut r: Vec<BooleanFunction> = Vec::new();
    let mut i: usize = 0;
    while i < s.len()
        invariant
            i <= s@.len(),
            r@ == s@.take(i as int),
        decreases s@.len() - i,
    {
        r.push(s[i].clone());
        assert(r@ =~= s@.take(i + 1));
        i = i + 1;
    }
    assert(s@.take(s@.len() as int) =~= s@);
    r
}

/// The list of the values.
fn list_of(nil: Symbol, cons: Symbol, args: &Vec<PluckVal>) -> (r: PluckVal)
    ensures
        values::is_head(*r),
        forall|order: Seq<u64>| #[trigger] values::all_over(args@, order) ==> r.over(order),
        forall|a: Worlds| #[trigger]
            values::all_at(args@, a) is Some ==> r.at(a) == Some(
                semantics::list_of(nil, cons, values::all_at(args@, a)->0),
            ),
{
    let none: Vec<PluckVal> = Vec::new();
    let mut list: PluckVal = mk_value(nil, none);
    let mut i: usize = args.len();
    proof {
        assert(args@.skip(args@.len() as int) =~= Seq::<PluckVal>::empty());
        assert forall|a: Worlds| #[trigger]
            values::all_at(args@, a) is Some implies list.at(a) == Some(
            semantics::list_of(nil, cons, values::all_at(args@, a)->0.skip(args@.len() as int)),
        ) by {
            values::lemma_all_at(args@, a);
        }
    }
    while i > 0
        invariant
            i <= args@.len(),
            values::is_head(*list),
            forall|order: Seq<u64>| #[trigger] values::all_over(args@, order) ==> list.over(order),
            forall|a: Worlds| #[trigger]
                values::all_at(args@, a) is Some ==> list.at(a) == Some(
                    semantics::list_of(nil, cons, values::all_at(args@, a)->0.skip(i as int)),
                ),
        decreases i,
    {
        i = i - 1;
        let mut two: Vec<PluckVal> = Vec::new();
        two.push(args[i].clone());
        two.push(list.clone());
        let ghost rest = list;
        let ghost pair = two@;
        list = mk_value(cons, two);
        proof {
            assert forall|order: Seq<u64>| #[trigger] values::all_over(args@, order) implies list.over(
                order,
            ) by {
                values::lemma_all_over(args@, order);
                values::lemma_all_over(pair, order);
            }
            assert forall|a: Worlds| #[trigger]
                values::all_at(args@, a) is Some implies list.at(a) == Some(
                semantics::list_of(nil, cons, values::all_at(args@, a)->0.skip(i as int)),
            ) by {
                values::lemma_all_at(args@, a);
                let ds = values::all_at(args@, a)->0;
                values::lemma_all_at(pair, a);
                assert(args@[i as int].at(a) == Some(ds[i as int]));
                assert(ds.skip(i as int).skip(1) =~= ds.skip(i + 1));
                assert(pair[0].at(a) == Some(ds[i as int]));
                assert(pair[1].at(a) == Some(semantics::list_of(nil, cons, ds.skip(i + 1))));
                assert(values::all_at(pair, a)->0 =~= seq![
                    ds[i as int],
                    semantics::list_of(nil, cons, ds.skip(i + 1)),
                ]);
            }
        }
    }
    proof {
        assert forall|a: Worlds| #[trigger]
            values::all_at(args@, a) is Some implies list.at(a) == Some(
            semantics::list_of(nil, cons, values::all_at(args@, a)->0),
        ) by {
            let ds = values::all_at(args@, a)->0;
            assert(ds.skip(0) =~= ds);
        }
    }
    list
}

/// Each operand is what the operands come to at its place.
pub proof fn lemma_operands(vals: Seq<PluckVal>)
    ensures
        forall|a: Worlds| #[trigger]
            values::all_at(vals, a) is Some ==> values::all_at(vals, a)->0.len() == vals.len()
                && forall|i: int|
                0 <= i < vals.len() ==> (#[trigger] vals[i]).at(a) == Some(
                    values::all_at(vals, a)->0[i],
                ),
{
    assert forall|a: Worlds| #[trigger] values::all_at(vals, a) is Some implies values::all_at(
        vals,
        a,
    )->0.len() == vals.len() && forall|i: int|
        0 <= i < vals.len() ==> (#[trigger] vals[i]).at(a) == Some(values::all_at(vals, a)->0[i]) by {
        values::lemma_all_at(vals, a);
    }
}

impl<'a, F: Fn(RealOp, u64, u64) -> u64, G: Fn(usize, Vec<u64>) -> bool> CompilerCtx<'a, F, G> {
    /// A Poisson draw compared to a number: with equality, if `how` is none.
    fn poisson_worlds(
        &mut self,
        name: u64,
        gamma: u64,
        scale: u64,
        how: Option<NativeCmp>,
        other: &PluckVal,
    ) -> (r: Option<GuardedWorlds>)
        requires
            old(self).wf(),
            values::is_head(**other),
        ensures
            old(self).moved(final(self)),
            final(self).answers(
                r,
                |a: Worlds, x: Model|
                    match other.at(a) {
                        Some(d) => Some(
                            semantics::poisson_test(
                                x,
                                old(self).state.callstack@,
                                Datum::Poisson { name, gamma, scale },
                                how,
                                d,
                            ),
                        ),
                        None => None,
                    },
            ),
    {
        let ghost cs = self.state.callstack@;
        let ghost s: Ans = |a: Worlds, x: Model|
            match other.at(a) {
                Some(d) => Some(
                    semantics::poisson_test(
                        x,
                        cs,
                        Datum::Poisson { name, gamma, scale },
                        how,
                        d,
                    ),
                ),
                None => None,
            };
        proof {
            self.lemma_step_refl();
        }
        match &**other {
            PluckValue::Native(NativeVal::Int(n)) => {
                let n: i64 = *n;
                match how {
                    None => {
                        if n < 0 {
                            let v: PluckVal = self.bool_val(false);
                            let w: GuardedWorlds = pure_monad(v);
                            proof {
                                self.lemma_gives(v, w, s);
                            }
                            return Some(w);
                        }
                        let r: GuardedWorlds = self.flag(
                            2,
                            FlipWeight::PoissonEq { gamma, draw: name, count: n as u64, scale },
                        );
                        Some(r)
                    },
                    Some(NativeCmp::Leq) => {
                        if n < 0 {
                            let v: PluckVal = self.bool_val(false);
                            let w: GuardedWorlds = pure_monad(v);
                            proof {
                                self.lemma_gives(v, w, s);
                            }
                            return Some(w);
                        }
                        let bound: u64 = n as u64 + 1;
                        let r: GuardedWorlds = self.flag(
                            2,
                            FlipWeight::PoissonInterval {
                                gamma,
                                draw: name,
                                below: true,
                                bound,
                                scale,
                            },
                        );
                        Some(r)
                    },
                    Some(NativeCmp::Geq) => {
                        if n <= 0 {
                            let v: PluckVal = self.bool_val(true);
                            let w: GuardedWorlds = pure_monad(v);
                            proof {
                                self.lemma_gives(v, w, s);
                            }
                            return Some(w);
                        }
                        let r: GuardedWorlds = self.flag(
                            2,
                            FlipWeight::PoissonInterval {
                                gamma,
                                draw: name,
                                below: false,
                                bound: n as u64,
                                scale,
                            },
                        );
                        Some(r)
                    },
                }
            },
            _ => None,
        }
    }

    /// An integer comparison, or native equality.
    pub(crate) fn settle_comparison(&mut self, p: Primitive, vals: &Vec<PluckVal>, got: &Vec<PluckVal>) -> (r:
        Option<GuardedWorlds>)
        requires
            old(self).supplies(vals@, got@),
            all_heads(got@),
            vals@.len() == 2,
            p == Primitive::NativeEq || p == Primitive::NativeLeq || p == Primitive::NativeGeq,
            *vals@[0] is Poisson || *vals@[1] is Poisson ==> got@.len() == 1,
            !(*vals@[0] is Poisson) && !(*vals@[1] is Poisson) && p != Primitive::NativeEq
                ==> got@.len() == 2,
        ensures
            old(self).moved(final(self)),
            final(self).answers(r, asked(p, vals@, got@, old(self).state.callstack@)),
    {
        let ghost cs = self.state.callstack@;
        let ghost s = asked(p, vals@, got@, cs);
        proof {
            self.lemma_step_refl();
            lemma_operands(vals@);
            lemma_operands(got@);
        }
        let how: Option<NativeCmp> = match p {
            Primitive::NativeLeq => Some(NativeCmp::Leq),
            Primitive::NativeGeq => Some(NativeCmp::Geq),
            _ => None,
        };
        if let PluckValue::Poisson { name, gamma, scale } = &*vals[0] {
            return self.poisson_worlds(*name, *gamma, *scale, how, &got[0]);
        }
        if let PluckValue::Poisson { name, gamma, scale } = &*vals[1] {
            let turned: Option<NativeCmp> = match how {
                Some(c) => Some(c.mirror()),
                None => None,
            };
            return self.poisson_worlds(*name, *gamma, *scale, turned, &got[0]);
        }
        let holds: bool = match how {
            None => match (&*vals[0], &*vals[1]) {
                (PluckValue::Native(m), PluckValue::Native(n)) => native_equal(m, n),
                _ => false,
            },
            Some(c) => match (&*got[0], &*got[1]) {
                (
                    PluckValue::Native(NativeVal::Int(m)),
                    PluckValue::Native(NativeVal::Int(n)),
                ) => if c == NativeCmp::Leq {
                    *m <= *n
                } else {
                    *m >= *n
                },
                _ => {
                    return None;
                },
            },
        };
        let v: PluckVal = self.bool_val(holds);
        let w: GuardedWorlds = pure_monad(v);
        proof {
            self.lemma_gives(v, w, s);
        }
        Some(w)
    }

    /// An integer with known bits.
    pub(crate) fn settle_mk_int(&mut self, vals: &Vec<PluckVal>, got: &Vec<PluckVal>) -> (r: Option<GuardedWorlds>)
        requires
            old(self).supplies(vals@, got@),
            vals@.len() == 2,
        ensures
            old(self).moved(final(self)),
            final(self).answers(
                r,
                asked(Primitive::MkInt, vals@, got@, old(self).state.callstack@),
            ),
    {
        let ghost s = asked(Primitive::MkInt, vals@, got@, self.state.callstack@);
        proof {
            self.lemma_step_refl();
            lemma_operands(vals@);
        }
        match (&*vals[0], &*vals[1]) {
            (PluckValue::Native(NativeVal::Int(w)), PluckValue::Native(NativeVal::Int(n))) => {
                if *w < 0 || *w > 64 {
                    return None;
                }
                let bits: Vec<BooleanFunction> = constant_bits(*n as u64, *w as usize);
                let v: PluckVal = mk_int_dist(bits);
                let worlds: GuardedWorlds = pure_monad(v);
                proof {
                    assert(values::bits_over(bits@, self.vars()));
                    assert forall|a: Worlds, x: Model| #[trigger]
                        self.allows(a, x) && s(a, x) is Some implies v.at(a) is Some && s(a, x)
                        == Some(Outcome::Done(v.at(a)->0)) by {
                        assert(values::bits_at(bits@, a) == semantics::bits_of_number(
                            *n as u64,
                            *w as nat,
                        ));
                    }
                    self.lemma_gives(v, worlds, s);
                }
                Some(worlds)
            },
            _ => None,
        }
    }

    /// An integer whose bits are fair flips.
    pub(crate) fn settle_uniform_int(&mut self, vals: &Vec<PluckVal>, got: &Vec<PluckVal>) -> (r: Option<GuardedWorlds>)
        requires
            old(self).supplies(vals@, got@),
            vals@.len() == 1,
        ensures
            old(self).moved(final(self)),
            final(self).answers(
                r,
                asked(Primitive::UniformInt, vals@, got@, old(self).state.callstack@),
            ),
    {
        let ghost start = *self;
        let ghost cs = self.state.callstack@;
        let ghost s = asked(Primitive::UniformInt, vals@, got@, cs);
        proof {
            self.lemma_step_refl();
            lemma_operands(vals@);
        }
        let width: i64 = match &*vals[0] {
            PluckValue::Native(NativeVal::Int(w)) => *w,
            _ => {
                return None;
            },
        };
        if width < 0 || width > 0x7fff_ffff {
            return None;
        }
        let mut bits: Vec<BooleanFunction> = Vec::new();
        let mut i: i64 = 0;
        while i < width
            invariant
                0 <= i <= width <= 0x7fff_ffff,
                start.wf(),
                start.moved(self),
                cs == start.state.callstack@,
                bits@.len() == i,
                values::bits_over(bits@, self.vars()),
                forall|a: Worlds, x: Model, j: int|
                    #![trigger self.allows(a, x), bits@[j]]
                    self.allows(a, x) && 0 <= j < i ==> bits@[j].eval(a) == (x.flips)(
                        cs.push(j as i32),
                        Event::Constant(HALF).code(),
                    ),
            decreases width - i,
        {
            let ghost before = *self;
            let ghost old_bits = bits@;
            let bit: BooleanFunction = self.state.with_callstack_index(
                i as i32,
                FlipWeight::Constant(HALF),
            );
            bits.push(bit);
            proof {
                before.lemma_moved(self);
                start.lemma_step_trans(&before, self);
                assert forall|j: int| 0 <= j < bits@.len() implies (#[trigger] bits@[j]).wf(
                    self.vars(),
                ) by {
                    if j < i {
                        assert(bits@[j] == old_bits[j]);
                        assert(old_bits[j].wf(before.vars()));
                    }
                }
                assert forall|a: Worlds, x: Model, j: int|
                    #![trigger self.allows(a, x), bits@[j]]
                    self.allows(a, x) && 0 <= j < i + 1 implies bits@[j].eval(a) == (x.flips)(
                    cs.push(j as i32),
                    Event::Constant(HALF).code(),
                ) by {
                    assert(self.state.fits(a, x));
                    assert(before.allows(a, x));
                    if j < i {
                        assert(bits@[j] == old_bits[j]);
                    }
                }
            }
            i = i + 1;
        }
        let ghost all = bits@;
        let v: PluckVal = mk_int_dist(bits);
        let worlds: GuardedWorlds = pure_monad(v);
        proof {
            assert forall|a: Worlds, x: Model| #[trigger] self.allows(a, x) && s(a, x) is Some implies v.at(
                a,
            ) is Some && s(a, x) == Some(Outcome::Done(v.at(a)->0)) by {
                assert(values::bits_at(all, a) =~= Seq::new(
                    width as nat,
                    |i: int| (x.flips)(cs.push(i as i32), Event::Constant(HALF).code()),
                ));
            }
            self.lemma_gives(v, worlds, s);
        }
        Some(worlds)
    }

    /// An operation on two integers.
    pub(crate) fn settle_int_op(&mut self, p: Primitive, vals: &Vec<PluckVal>, got: &Vec<PluckVal>) -> (r:
        Option<GuardedWorlds>)
        requires
            old(self).supplies(vals@, got@),
            vals@.len() == 2,
            p == Primitive::IntDistEq || p == Primitive::IntAdd || p == Primitive::IntSub || p
                == Primitive::IntLt,
        ensures
            old(self).moved(final(self)),
            final(self).answers(r, asked(p, vals@, got@, old(self).state.callstack@)),
    {
        let ghost s = asked(p, vals@, got@, self.state.callstack@);
        proof {
            self.lemma_step_refl();
            lemma_operands(vals@);
            values::lemma_all_over(vals@, self.vars());
        }
        let (x, y) = match (&*vals[0], &*vals[1]) {
            (PluckValue::IntDist { bits: b }, PluckValue::IntDist { bits: c }) => {
                if b.len() != c.len() {
                    return None;
                }
                (IntDist::new(clone_bits(b)), IntDist::new(clone_bits(c)))
            },
            _ => {
                return None;
            },
        };
        match p {
            Primitive::IntAdd => {
                let sum: IntDist = int_dist_add(&x, &y, &self.state.factorizer);
                let v: PluckVal = mk_int_dist(sum.bits);
                let w: GuardedWorlds = pure_monad(v);
                proof {
                    assert forall|a: Worlds, m: Model| #[trigger]
                        self.allows(a, m) && s(a, m) is Some implies v.at(a) is Some && s(a, m)
                        == Some(Outcome::Done(v.at(a)->0)) by {
                        assert(sum.at(a) == int_dists::sum(x.at(a), y.at(a), false));
                    }
                    self.lemma_gives(v, w, s);
                }
                Some(w)
            },
            Primitive::IntSub => {
                let diff: IntDist = int_dist_sub(&x, &y, &self.state.factorizer);
                let v: PluckVal = mk_int_dist(diff.bits);
                let w: GuardedWorlds = pure_monad(v);
                proof {
                    assert forall|a: Worlds, m: Model| #[trigger]
                        self.allows(a, m) && s(a, m) is Some implies v.at(a) is Some && s(a, m)
                        == Some(Outcome::Done(v.at(a)->0)) by {
                        assert(diff.at(a) == int_dists::difference(x.at(a), y.at(a)));
                    }
                    self.lemma_gives(v, w, s);
                }
                Some(w)
            },
            _ => {
                let holds: BooleanFunction = if p == Primitive::IntDistEq {
                    int_dist_eq(&x, &y, &self.state.factorizer)
                } else {
                    int_dist_lt(&x, &y, &self.state.factorizer)
                };
                let yes: PluckVal = self.bool_val(true);
                let no: PluckVal = self.bool_val(false);
                let w: GuardedWorlds = if_then_else_monad(yes, no, holds, &self.state.factorizer);
                proof {
                    assert forall|a: Worlds, m: Model| #[trigger]
                        self.allows(a, m) && s(a, m) is Some implies values::pick(w.0@, a) == s(a, m)->0
                        && s(a, m)->0 != Outcome::Stuck by {
                        assert(holds.eval(a) == (if p == Primitive::IntDistEq {
                            x.at(a) == y.at(a)
                        } else {
                            int_dists::value(x.at(a)) < int_dists::value(y.at(a))
                        }));
                    }
                }
                Some(w)
            },
        }
    }

    /// The arguments of a constructor as a list.
    pub(crate) fn settle_get_args(&mut self, vals: &Vec<PluckVal>, got: &Vec<PluckVal>) -> (r: Option<GuardedWorlds>)
        requires
            old(self).supplies(vals@, got@),
            vals@.len() == 1,
        ensures
            old(self).moved(final(self)),
            final(self).answers(
                r,
                asks(vals@, got@, |ds: Seq<Datum>, gs: Seq<Datum>, x: Model| listed(ds[0], x)),
            ),
    {
        let ghost s = asks(
            vals@,
            got@,
            |ds: Seq<Datum>, gs: Seq<Datum>, x: Model| listed(ds[0], x),
        );
        proof {
            self.lemma_step_refl();
            lemma_operands(vals@);
            values::lemma_all_over(vals@, self.vars());
            assert(vals@[0].over(self.vars()));
        }
        match self.list {
            None => None,
            Some((nil, cons)) => match &*vals[0] {
                PluckValue::Value { args, .. } => {
                    let v: PluckVal = list_of(nil, cons, args);
                    let w: GuardedWorlds = pure_monad(v);
                    proof {
                        assert(values::all_over(args@, self.vars()));
                        assert forall|a: Worlds, x: Model| #[trigger]
                            self.allows(a, x) && s(a, x) is Some implies v.at(a) is Some && s(a, x)
                            == Some(Outcome::Done(v.at(a)->0)) by {
                            assert(vals@[0].at(a) is Some);
                            assert(values::all_at(args@, a) is Some);
                        }
                        self.lemma_gives(v, w, s);
                    }
                    Some(w)
                },
                _ => {
                    let v: PluckVal = vals[0].clone();
                    let w: GuardedWorlds = pure_monad(v);
                    proof {
                        self.lemma_gives(v, w, s);
                    }
                    Some(w)
                },
            },
        }
    }

    /// The constructor of a value.
    pub(crate) fn settle_get_constructor(&mut self, vals: &Vec<PluckVal>, got: &Vec<PluckVal>) -> (r: Option<
        GuardedWorlds,
    >)
        requires
            old(self).supplies(vals@, got@),
            vals@.len() == 1,
        ensures
            old(self).moved(final(self)),
            final(self).answers(
                r,
                asked(Primitive::GetConstructor, vals@, got@, old(self).state.callstack@),
            ),
    {
        let ghost s = asked(Primitive::GetConstructor, vals@, got@, self.state.callstack@);
        proof {
            self.lemma_step_refl();
            lemma_operands(vals@);
            values::lemma_all_over(vals@, self.vars());
        }
        let v: PluckVal = match &*vals[0] {
            PluckValue::Value { constructor, .. } => mk_native_symbol(*constructor),
            _ => vals[0].clone(),
        };
        let w: GuardedWorlds = pure_monad(v);
        proof {
            self.lemma_gives(v, w, s);
        }
        Some(w)
    }

    /// A Beta or a Gamma variable.
    pub(crate) fn settle_named(&mut self, p: Primitive, vals: &Vec<PluckVal>, got: &Vec<PluckVal>) -> (r: Option<
        GuardedWorlds,
    >)
        requires
            old(self).supplies(vals@, got@),
            vals@.len() == 2,
            p == Primitive::Beta || p == Primitive::Gamma,
        ensures
            old(self).moved(final(self)),
            final(self).answers(r, asked(p, vals@, got@, old(self).state.callstack@)),
    {
        let ghost start = *self;
        let ghost cs = self.state.callstack@;
        let ghost s = asked(p, vals@, got@, cs);
        proof {
            self.lemma_step_refl();
            lemma_operands(vals@);
        }
        let (one, two) = match (self.number_of(&vals[0]), self.number_of(&vals[1])) {
            (Some(m), Some(n)) => (m, n),
            _ => {
                return None;
            },
        };
        if p == Primitive::Gamma && !(real_below(ZERO, one) && real_below(ZERO, two)) {
            return None;
        }
        let prior: Prior = if p == Primitive::Beta {
            Prior::Beta { a: one, b: two }
        } else {
            Prior::Gamma { shape: one, rate: two }
        };
        let ghost law = prior@;
        let name: u64 = self.state.current_continuous_name(prior);
        let v: PluckVal = if p == Primitive::Beta {
            mk_probability(name)
        } else {
            mk_gamma(name)
        };
        let w: GuardedWorlds = pure_monad(v);
        proof {
            start.lemma_moved(self);
            assert forall|a: Worlds, x: Model| #[trigger] self.allows(a, x) && s(a, x) is Some implies v.at(
                a,
            ) is Some && s(a, x) == Some(Outcome::Done(v.at(a)->0)) by {
                assert(self.state.fits(a, x));
                assert(name == (x.names)(cs, law));
            }
            self.lemma_gives(v, w, s);
        }
        Some(w)
    }

    /// A Poisson or an Exponential draw.
    pub(crate) fn settle_draw(&mut self, p: Primitive, vals: &Vec<PluckVal>, got: &Vec<PluckVal>) -> (r: Option<
        GuardedWorlds,
    >)
        requires
            old(self).supplies(vals@, got@),
            vals@.len() == 1,
            p == Primitive::Poisson || p == Primitive::Exponential,
        ensures
            old(self).moved(final(self)),
            final(self).answers(r, asked(p, vals@, got@, old(self).state.callstack@)),
    {
        let ghost start = *self;
        let ghost cs = self.state.callstack@;
        let ghost s = asked(p, vals@, got@, cs);
        proof {
            self.lemma_step_refl();
            lemma_operands(vals@);
        }
        let poisson: bool = p == Primitive::Poisson;
        let ghost mut known: Option<u64> = None;
        let (gamma, scale) = match &*vals[0] {
            PluckValue::Gamma { name, scale } => (*name, *scale),
            other => match self.number_of(other) {
                None => {
                    return None;
                },
                Some(value) => {
                    if !real_below(ZERO, value) {
                        return None;
                    }
                    let name: u64 = self.state.current_continuous_name(Prior::Pinned { value });
                    proof {
                        known = Some(value);
                    }
                    (name, ONE)
                },
            },
        };
        let ghost mid = *self;
        proof {
            start.lemma_moved(self);
        }
        let name: u64 = self.state.current_continuous_name(Prior::Draw { poisson, gamma, scale });
        let v: PluckVal = if poisson {
            mk_poisson(gamma, name, scale)
        } else {
            mk_exponential(gamma, name, scale)
        };
        let w: GuardedWorlds = pure_monad(v);
        proof {
            mid.lemma_moved(self);
            start.lemma_step_trans(&mid, self);
            assert forall|a: Worlds, x: Model| #[trigger] self.allows(a, x) && s(a, x) is Some implies v.at(
                a,
            ) is Some && s(a, x) == Some(Outcome::Done(v.at(a)->0)) by {
                assert(self.state.fits(a, x));
                assert(mid.state.fits(a, x));
                assert(name == (x.names)(cs, Law::Draw { poisson, gamma, scale }));
                if let Some(value) = known {
                    assert(gamma == (x.names)(cs, Law::Pinned { value }));
                }
            }
            self.lemma_gives(v, w, s);
        }
        Some(w)
    }
}

/// Are the native values equal, numbers as numbers?
pub(crate) fn native_equal(m: &NativeVal, n: &NativeVal) -> (r: bool)
    ensures
        r == semantics::native_equal(m@, n@),
{
    match (m, n) {
        (NativeVal::Float(p), NativeVal::Float(q)) => real_equal(*p, *q),
        _ => super::monad::native_same(m, n),
    }
}

impl<'a, F: Fn(RealOp, u64, u64) -> u64, G: Fn(usize, Vec<u64>) -> bool> CompilerCtx<'a, F, G> {
    /// A Beta variable, or a number, tested for equality with a number.
    pub(crate) fn settle_prob_eq(&mut self, vals: &Vec<PluckVal>, got: &Vec<PluckVal>) -> (r: Option<GuardedWorlds>)
        requires
            old(self).supplies(vals@, got@),
            vals@.len() == 2,
        ensures
            old(self).moved(final(self)),
            final(self).answers(
                r,
                asked(Primitive::ProbEq, vals@, got@, old(self).state.callstack@),
            ),
    {
        let ghost s = asked(Primitive::ProbEq, vals@, got@, self.state.callstack@);
        proof {
            self.lemma_step_refl();
            lemma_operands(vals@);
        }
        let observed: u64 = match self.number_of(&vals[1]) {
            Some(b) => b,
            None => {
                return None;
            },
        };
        match &*vals[0] {
            PluckValue::Probability(name) => {
                let r: GuardedWorlds = self.flag(2, FlipWeight::ProbPin(*name, observed));
                Some(r)
            },
            PluckValue::Native(NativeVal::Float(c)) => {
                let off: u64 = compute(self.reals, RealOp::Difference, *c, observed);
                let v: PluckVal = self.bool_val(real_smaller(off, TINY));
                let w: GuardedWorlds = pure_monad(v);
                proof {
                    self.lemma_gives(v, w, s);
                }
                Some(w)
            },
            _ => None,
        }
    }

    /// A real value tested for equality with a number: an observation, where
    /// it depends on a continuous variable.
    pub(crate) fn settle_real_eq(&mut self, vals: &Vec<PluckVal>, got: &Vec<PluckVal>) -> (r: Option<GuardedWorlds>)
        requires
            old(self).supplies(vals@, got@),
            vals@.len() == 2,
        ensures
            old(self).moved(final(self)),
            final(self).answers(
                r,
                asked(Primitive::RealEq, vals@, got@, old(self).state.callstack@),
            ),
    {
        let ghost s = asked(Primitive::RealEq, vals@, got@, self.state.callstack@);
        proof {
            self.lemma_step_refl();
            lemma_operands(vals@);
        }
        let observed: u64 = match self.number_of(&vals[1]) {
            Some(b) => b,
            None => {
                return None;
            },
        };
        let weight: FlipWeight = match &*vals[0] {
            PluckValue::GaussianExpr { constant, coefficients } => {
                if coefficients.len() == 0 {
                    // Degenerate: no Gaussian variables, just compare numbers.
                    let off: u64 = compute(self.reals, RealOp::Difference, *constant, observed);
                    let v: PluckVal = self.bool_val(real_smaller(off, TINY));
                    let w: GuardedWorlds = pure_monad(v);
                    proof {
                        self.lemma_gives(v, w, s);
                    }
                    return Some(w);
                }
                FlipWeight::GaussianObs {
                    constant: *constant,
                    coefficients: clone_pairs(coefficients),
                    observed,
                }
            },
            PluckValue::Native(NativeVal::Float(f)) => {
                let off: u64 = compute(self.reals, RealOp::Difference, *f, observed);
                let v: PluckVal = self.bool_val(real_smaller(off, TINY));
                let w: GuardedWorlds = pure_monad(v);
                proof {
                    self.lemma_gives(v, w, s);
                }
                return Some(w);
            },
            PluckValue::Gamma { name, scale } => {
                if real_at_most(observed, ZERO) {
                    // Gamma support is (0, ∞): the pin is unsatisfiable.
                    let v: PluckVal = self.bool_val(false);
                    let w: GuardedWorlds = pure_monad(v);
                    proof {
                        self.lemma_gives(v, w, s);
                    }
                    return Some(w);
                }
                FlipWeight::RatePin { name: *name, value: observed, scale: *scale }
            },
            PluckValue::Exponential { name, gamma, scale } => {
                if real_below(observed, ZERO) {
                    // Exp support is [0, ∞).
                    let v: PluckVal = self.bool_val(false);
                    let w: GuardedWorlds = pure_monad(v);
                    proof {
                        self.lemma_gives(v, w, s);
                    }
                    return Some(w);
                }
                FlipWeight::ExpEq { gamma: *gamma, draw: *name, value: observed, scale: *scale }
            },
            _ => {
                return None;
            },
        };
        Some(self.flag(2, weight))
    }

    /// A real value tested for being below a number, or not below it.
    pub(crate) fn settle_real_range(&mut self, p: Primitive, vals: &Vec<PluckVal>, got: &Vec<PluckVal>) -> (r:
        Option<GuardedWorlds>)
        requires
            old(self).supplies(vals@, got@),
            vals@.len() == 2,
            p == Primitive::RealLt || p == Primitive::RealGeq,
        ensures
            old(self).moved(final(self)),
            final(self).answers(r, asked(p, vals@, got@, old(self).state.callstack@)),
    {
        let ghost s = asked(p, vals@, got@, self.state.callstack@);
        proof {
            self.lemma_step_refl();
            lemma_operands(vals@);
        }
        let below: bool = p == Primitive::RealLt;
        let bound: u64 = match self.number_of(&vals[1]) {
            Some(b) => b,
            None => {
                return None;
            },
        };
        match &*vals[0] {
            PluckValue::Native(NativeVal::Float(f)) => {
                let holds: bool = if below {
                    real_below(*f, bound)
                } else {
                    real_at_most(bound, *f)
                };
                let v: PluckVal = self.bool_val(holds);
                let w: GuardedWorlds = pure_monad(v);
                proof {
                    self.lemma_gives(v, w, s);
                }
                Some(w)
            },
            PluckValue::Exponential { name, gamma, scale } => {
                // Exp support is [0, ∞): a non-positive bound makes the
                // event trivial.
                if real_at_most(bound, ZERO) {
                    let v: PluckVal = self.bool_val(!below);
                    let w: GuardedWorlds = pure_monad(v);
                    proof {
                        self.lemma_gives(v, w, s);
                    }
                    return Some(w);
                }
                if is_nan(bound) {
                    return None;
                }
                let r: GuardedWorlds = self.flag(
                    2,
                    FlipWeight::ExpInterval {
                        gamma: *gamma,
                        draw: *name,
                        below,
                        bound,
                        scale: *scale,
                    },
                );
                Some(r)
            },
            _ => None,
        }
    }

    /// The numbers that values are.
    pub open spec fn nums(&self, s: Seq<PluckVal>) -> Option<Seq<u64>>
        decreases s.len(),
    {
        if s.len() == 0 {
            Some(Seq::empty())
        } else {
            match (self.nums(s.drop_last()), self.num(*s.last())) {
                (Some(t), Some(b)) => Some(t.push(b)),
                _ => None,
            }
        }
    }

    pub proof fn lemma_nums(&self, s: Seq<PluckVal>, a: Worlds, x: Model)
        requires
            self.suits(x),
            all_heads(s),
            values::all_at(s, a) is Some,
        ensures
            semantics::numbers(x, values::all_at(s, a)->0) == self.nums(s),
        decreases s.len(),
    {
        if s.len() > 0 {
            let p = s.drop_last();
            let last = s[s.len() - 1];
            assert(s.last() == last);
            assert forall|i: int| 0 <= i < p.len() implies values::is_head(*(#[trigger] p[i])) by {
                assert(p[i] == s[i]);
            }
            self.lemma_nums(p, a, x);
            self.lemma_num(&*last, a, x);
            let ds = values::all_at(s, a)->0;
            assert(ds.drop_last() =~= values::all_at(p, a)->0);
        }
    }

    /// The numbers that values are, if all are numbers.
    fn numbers_of(&self, s: &Vec<PluckVal>) -> (r: Option<Vec<u64>>)
        requires
            reals::settled(*self.reals),
        ensures
            match r {
                Some(v) => self.nums(s@) == Some(v@) && v@.len() == s@.len(),
                None => self.nums(s@) is None,
            },
    {
        let mut v: Vec<u64> = Vec::new();
        let mut ok: bool = true;
        let mut i: usize = 0;
        while i < s.len()
            invariant
                i <= s@.len(),
                reals::settled(*self.reals),
                self.nums(s@.take(i as int)) == (if ok {
                    Some(v@)
                } else {
                    None
                }),
                ok ==> v@.len() == i,
            decreases s@.len() - i,
        {
            assert(s@.take(i + 1).drop_last() =~= s@.take(i as int));
            match self.number_of(&s[i]) {
                Some(b) => {
                    if ok {
                        v.push(b);
                    }
                },
                None => {
                    ok = false;
                },
            }
            i = i + 1;
        }
        assert(s@.take(s@.len() as int) =~= s@);
        if ok {
            Some(v)
        } else {
            None
        }
    }

    /// A Dirichlet variable.
    pub(crate) fn settle_dirichlet(&mut self, vals: &Vec<PluckVal>, got: &Vec<PluckVal>) -> (r: Option<GuardedWorlds>)
        requires
            old(self).supplies(vals@, got@),
        ensures
            old(self).moved(final(self)),
            final(self).answers(
                r,
                asked(Primitive::Dirichlet, vals@, got@, old(self).state.callstack@),
            ),
    {
        let ghost start = *self;
        let ghost cs = self.state.callstack@;
        let ghost s = asked(Primitive::Dirichlet, vals@, got@, cs);
        proof {
            self.lemma_step_refl();
            lemma_operands(vals@);
            assert forall|a: Worlds, x: Model| #[trigger] self.allows(a, x) && s(a, x) is Some implies semantics::numbers(
                x,
                values::all_at(vals@, a)->0,
            ) == self.nums(vals@) by {
                self.lemma_nums(vals@, a, x);
            }
        }
        let alphas: Vec<u64> = match self.numbers_of(vals) {
            Some(v) => v,
            None => {
                return None;
            },
        };
        let ghost all = alphas@;
        let name: u64 = self.state.current_continuous_name(Prior::Dirichlet { alphas });
        let v: PluckVal = mk_dirichlet(name, vals.len());
        let w: GuardedWorlds = pure_monad(v);
        proof {
            start.lemma_moved(self);
            assert forall|a: Worlds, x: Model| #[trigger] self.allows(a, x) && s(a, x) is Some implies v.at(
                a,
            ) is Some && s(a, x) == Some(Outcome::Done(v.at(a)->0)) by {
                assert(self.state.fits(a, x));
                assert(start.allows(a, x));
                assert(name == (x.names)(cs, Law::Dirichlet { alphas: all }));
            }
            self.lemma_gives(v, w, s);
        }
        Some(w)
    }

    /// A vector tested for equality with a vector.
    pub(crate) fn settle_dirichlet_eq(&mut self, vals: &Vec<PluckVal>, got: &Vec<PluckVal>) -> (r: Option<
        GuardedWorlds,
    >)
        requires
            old(self).supplies(vals@, got@),
            vals@.len() == 2,
            all_heads(got@),
            *vals@[0] is FloatMatrix && parts_of(*vals@[0]) is Some && parts_of(*vals@[1]) is Some ==> got@.len()
                == parts_of(*vals@[1])->0.len() + parts_of(*vals@[0])->0.len(),
        ensures
            old(self).moved(final(self)),
            final(self).answers(
                r,
                asks(
                    vals@,
                    got@,
                    |ds: Seq<Datum>, gs: Seq<Datum>, x: Model|
                        semantics::vector_test(x, old(self).state.callstack@, ds[0], ds[1], gs),
                ),
            ),
    {
        let ghost start = *self;
        let ghost cs = self.state.callstack@;
        let ghost s = asks(
            vals@,
            got@,
            |ds: Seq<Datum>, gs: Seq<Datum>, x: Model|
                semantics::vector_test(x, cs, ds[0], ds[1], gs),
        );
        proof {
            self.lemma_step_refl();
            lemma_operands(vals@);
            lemma_operands(got@);
            assert forall|a: Worlds, x: Model| #[trigger] self.allows(a, x) && s(a, x) is Some implies semantics::numbers(
                x,
                values::all_at(got@, a)->0,
            ) == self.nums(got@) && parts_match(*vals@[0], a) && parts_match(*vals@[1], a) by {
                self.lemma_nums(got@, a, x);
                lemma_parts(&*vals@[0], a);
                lemma_parts(&*vals@[1], a);
            }
        }
        let count: usize = match &*vals[1] {
            PluckValue::FloatMatrix { entries, shape } => {
                if shape.len() != 1 {
                    return None;
                }
                entries.len()
            },
            PluckValue::Value { args, .. } => args.len(),
            _ => {
                return None;
            },
        };
        let is_vector: bool = match &*vals[0] {
            PluckValue::DirichletVector { .. } => true,
            PluckValue::FloatMatrix { shape, .. } => {
                if shape.len() != 1 {
                    return None;
                }
                false
            },
            _ => {
                return None;
            },
        };
        let observed: Vec<u64> = match self.numbers_of(got) {
            Some(v) => v,
            None => {
                return None;
            },
        };
        if any_nan(&observed) {
            return None;
        }
        match &*vals[0] {
            PluckValue::DirichletVector { name, categories } => {
                if observed.len() != *categories {
                    return None;
                }
                let ghost numbers = observed@;
                let r: GuardedWorlds = self.flag(
                    2,
                    FlipWeight::VecPin { name: *name, value: observed },
                );
                proof {
                    assert forall|a: Worlds, x: Model| #[trigger]
                        self.allows(a, x) && s(a, x) is Some implies values::pick(r.0@, a) == s(a, x)->0
                        && s(a, x)->0 != Outcome::Stuck by {
                        assert(self.state.fits(a, x));
                        assert(start.allows(a, x));
                        assert(semantics::proper(Some(numbers)) == Some(numbers));
                    }
                }
                Some(r)
            },
            _ => {
                let holds: bool = halves_equal(&observed, count);
                let v: PluckVal = self.bool_val(holds);
                let w: GuardedWorlds = pure_monad(v);
                proof {
                    self.lemma_gives(v, w, s);
                }
                Some(w)
            },
        }
    }
}

/// The parts of a vector.
pub open spec fn parts_of(v: PluckValue) -> Option<Seq<PluckVal>> {
    match v {
        PluckValue::FloatMatrix { entries, shape } => if shape@.len() == 1 {
            Some(entries@)
        } else {
            None
        },
        PluckValue::Value { args, .. } => Some(args@),
        _ => None,
    }
}

/// The parts of a value under an assignment are those of its datum.
spec fn parts_match(v: PluckValue, a: Worlds) -> bool {
    match (parts_of(v), semantics::vector_parts(v.at(a)->0)) {
        (Some(p), Some(q)) => p.len() == q.len() && values::all_at(p, a) == Some(q),
        (None, None) => true,
        _ => false,
    }
}

proof fn lemma_parts(v: &PluckValue, a: Worlds)
    requires
        values::is_head(*v),
        v.at(a) is Some,
    ensures
        parts_match(*v, a),
{
    match v {
        PluckValue::FloatMatrix { entries, .. } => values::lemma_all_at(entries@, a),
        PluckValue::Value { args, .. } => values::lemma_all_at(args@, a),
        _ => {},
    }
}

/// Is one of them no number?
fn any_nan(v: &Vec<u64>) -> (r: bool)
    ensures
        r == (exists|i: int| 0 <= i < v@.len() && reals::nan(#[trigger] v@[i])),
{
    let mut i: usize = 0;
    while i < v.len()
        invariant
            i <= v@.len(),
            forall|j: int| 0 <= j < i ==> !reals::nan(#[trigger] v@[j]),
        decreases v@.len() - i,
    {
        if is_nan(v[i]) {
            return true;
        }
        i = i + 1;
    }
    false
}

/// Are the first `n` numbers equal to the rest, one by one?
fn halves_equal(v: &Vec<u64>, n: usize) -> (r: bool)
    requires
        n <= v@.len(),
    ensures
        r == semantics::vectors_equal(v@.take(n as int), v@.skip(n as int)),
{
    let m: usize = v.len();
    if m - n != n {
        return false;
    }
    let mut i: usize = 0;
    while i < n
        invariant
            i <= n,
            m == v@.len(),
            v@.len() == 2 * n,
            forall|j: int| 0 <= j < i ==> reals::equal(#[trigger] v@[j], v@[j + n]),
        decreases n - i,
    {
        if !real_equal(v[i], v[i + n]) {
            assert(!reals::equal(v@.take(n as int)[i as int], v@.skip(n as int)[i as int]));
            return false;
        }
        i = i + 1;
    }
    proof {
        let a = v@.take(n as int);
        let b = v@.skip(n as int);
        assert forall|j: int| 0 <= j < a.len() implies reals::equal(#[trigger] a[j], b[j]) by {
            assert(reals::equal(v@[j], v@[j + n]));
        }
    }
    true
}

/// The bit `i` of the number at which a walk through the range ends.
spec fn landed_bit(x: Model, cs: Seq<i32>, lo: int, hi: int, depth: int, i: int) -> bool {
    (((semantics::landed(x, cs, lo, hi, depth) as i64 as u64) >> (i as u64)) & 1) == 1
}

impl<'a, F: Fn(RealOp, u64, u64) -> u64, G: Fn(usize, Vec<u64>) -> bool> CompilerCtx<'a, F, G> {
    /// Recursive binary splitting to encode a uniform distribution over
    /// `lo..=hi`: adds to the bits, where the guard holds, those of the number
    /// at which a walk through the range ends. The range has at most `2^k`
    /// numbers.
    fn encode_range(
        &mut self,
        lo: i64,
        hi: i64,
        guard: BooleanFunction,
        bits: &mut Vec<BooleanFunction>,
        depth: i32,
        Ghost(k): Ghost<nat>,
    )
        requires
            old(self).wf(),
            old(self).state.factorizer.owns(guard),
            values::bits_over(old(bits)@, old(self).vars()),
            old(bits)@.len() <= 64,
            lo <= hi,
            hi - lo < power2::pow2(k),
            hi - lo < i64::MAX,
            0 <= depth,
            depth + k <= 1000,
        ensures
            old(self).moved(final(self)),
            final(bits)@.len() == old(bits)@.len(),
            values::bits_over(final(bits)@, final(self).vars()),
            forall|a: Worlds, x: Model, i: int|
                #![trigger final(self).allows(a, x), final(bits)@[i]]
                final(self).allows(a, x) && 0 <= i < final(bits)@.len() ==> final(bits)@[i].eval(a)
                    == (old(bits)@[i].eval(a) || (guard.eval(a) && landed_bit(
                    x,
                    old(self).state.callstack@,
                    lo as int,
                    hi as int,
                    depth as int,
                    i,
                ))),
        decreases hi - lo,
    {
        let ghost start = *self;
        let ghost cs = self.state.callstack@;
        let ghost bits0 = bits@;
        proof {
            self.lemma_step_refl();
        }
        if guard.is_false() {
            return;
        }
        if lo == hi {
            add_bits(bits, lo as u64, &guard, &self.state.factorizer);
            return;
        }
        let mid: i64 = lo + (hi - lo) / 2;
        let lower: u64 = compute(self.reals, RealOp::OfInt, (mid - lo + 1) as u64, 0);
        let upper: u64 = compute(self.reals, RealOp::OfInt, (hi - mid) as u64, 0);
        let both: u64 = compute(self.reals, RealOp::Sum, lower, upper);
        let p: u64 = compute(self.reals, RealOp::Quotient, lower, both);
        let var: BooleanFunction = self.state.with_callstack_index(depth, FlipWeight::Constant(p));
        let ghost named = *self;
        proof {
            start.lemma_moved(self);
            lemma_bits_grow(bits@, start.vars(), self.vars());
        }
        let low_guard: BooleanFunction = self.state.factorizer.and(&guard, &var);
        let neg: BooleanFunction = self.state.factorizer.negate(&var);
        let high_guard: BooleanFunction = self.state.factorizer.and(&guard, &neg);
        proof {
            if k == 0 {
                power2::lemma2_to64();
            } else {
                power2::lemma_pow2_unfold(k);
            }
        }
        self.encode_range(lo, mid, low_guard, bits, depth + 1, Ghost((k - 1) as nat));
        let ghost half = *self;
        let ghost bits1 = bits@;
        proof {
            assert(high_guard.wf(self.vars()));
        }
        self.encode_range(mid + 1, hi, high_guard, bits, depth + 1, Ghost((k - 1) as nat));
        proof {
            start.lemma_step_trans(&named, &half);
            start.lemma_step_trans(&half, self);
            assert forall|a: Worlds, x: Model, i: int|
                #![trigger self.allows(a, x), bits@[i]]
                self.allows(a, x) && 0 <= i < bits@.len() implies bits@[i].eval(a) == (bits0[i].eval(
                a,
            ) || (guard.eval(a) && landed_bit(x, cs, lo as int, hi as int, depth as int, i))) by {
                assert(self.state.fits(a, x));
                assert(half.allows(a, x));
                assert(half.state.fits(a, x));
                assert(named.state.fits(a, x));
                assert(var.eval(a) == (x.flips)(cs.push(depth), Event::Constant(p).code()));
                assert(p == semantics::half_weight(x, lo as int, mid as int, hi as int));
                assert(low_guard.eval(a) == (guard.eval(a) && var.eval(a)));
                assert(neg.eval(a) == !var.eval(a));
                assert(high_guard.eval(a) == (guard.eval(a) && neg.eval(a)));
                assert(bits1[i].eval(a) == (bits0[i].eval(a) || (low_guard.eval(a) && landed_bit(
                    x,
                    cs,
                    lo as int,
                    mid as int,
                    depth + 1,
                    i,
                ))));
            }
        }
    }

    /// A number from a range, each as likely as the others.
    pub(crate) fn settle_range(&mut self, vals: &Vec<PluckVal>, got: &Vec<PluckVal>) -> (r: Option<GuardedWorlds>)
        requires
            old(self).supplies(vals@, got@),
            vals@.len() == 3,
        ensures
            old(self).moved(final(self)),
            final(self).answers(
                r,
                asked(Primitive::UniformIntRange, vals@, got@, old(self).state.callstack@),
            ),
    {
        let ghost start = *self;
        let ghost cs = self.state.callstack@;
        let ghost s = asked(Primitive::UniformIntRange, vals@, got@, cs);
        proof {
            self.lemma_step_refl();
            lemma_operands(vals@);
        }
        let (width, lo, hi) = match (&*vals[0], &*vals[1], &*vals[2]) {
            (
                PluckValue::Native(NativeVal::Int(w)),
                PluckValue::Native(NativeVal::Int(l)),
                PluckValue::Native(NativeVal::Int(h)),
            ) => (*w, *l, *h),
            _ => {
                return None;
            },
        };
        if width < 0 || width > 64 || hi < lo || hi as i128 - lo as i128 >= i64::MAX as i128 {
            return None;
        }
        let mut bits: Vec<BooleanFunction> = Vec::new();
        let mut i: i64 = 0;
        while i < width
            invariant
                0 <= i <= width <= 64,
                bits@.len() == i,
                forall|j: int| 0 <= j < i ==> #[trigger] bits@[j] == BooleanFunction::False,
            decreases width - i,
        {
            bits.push(BooleanFunction::false_ptr());
            i = i + 1;
        }
        proof {
            power2::lemma2_to64();
            power2::lemma2_to64_rest();
        }
        self.encode_range(lo, hi, BooleanFunction::true_ptr(), &mut bits, 0, Ghost(63));
        let ghost all = bits@;
        let v: PluckVal = mk_int_dist(bits);
        let worlds: GuardedWorlds = pure_monad(v);
        proof {
            assert forall|a: Worlds, x: Model| #[trigger] self.allows(a, x) && s(a, x) is Some implies v.at(
                a,
            ) is Some && s(a, x) == Some(Outcome::Done(v.at(a)->0)) by {
                let n = semantics::landed(x, cs, lo as int, hi as int, 0) as i64 as u64;
                let want = semantics::bits_of_number(n, width as nat);
                assert forall|j: int| 0 <= j < width implies values::bits_at(all, a)[j] == want[j] by {
                    assert(all[j].eval(a) == landed_bit(x, cs, lo as int, hi as int, 0, j));
                }
                assert(values::bits_at(all, a) =~= want);
            }
            self.lemma_gives(v, worlds, s);
        }
        Some(worlds)
    }
}

proof fn lemma_bits_grow(bits: Seq<BooleanFunction>, one: Seq<u64>, two: Seq<u64>)
    requires
        values::bits_over(bits, one),
        values::within(one, two),
    ensures
        values::bits_over(bits, two),
{
    assert forall|i: int| 0 <= i < bits.len() implies (#[trigger] bits[i]).wf(two) by {
        assert(bits[i].wf(one));
    }
}

/// Adds to the bits, where the guard holds, those of a number.
fn add_bits(bits: &mut Vec<BooleanFunction>, v: u64, guard: &BooleanFunction, fac: &Factorizer)
    requires
        fac.wf(),
        fac.owns(*guard),
        values::bits_over(old(bits)@, fac.vars()),
        old(bits)@.len() <= 64,
    ensures
        final(bits)@.len() == old(bits)@.len(),
        values::bits_over(final(bits)@, fac.vars()),
        forall|a: Worlds, i: int|
            0 <= i < final(bits)@.len() ==> #[trigger] final(bits)@[i].eval(a) == (old(bits)@[i].eval(a)
                || (guard.eval(a) && (v >> (i as u64)) & 1 == 1)),
{
    let ghost start = bits@;
    let n: usize = bits.len();
    let mut i: usize = 0;
    while i < n
        invariant
            i <= n <= 64,
            n == bits@.len(),
            n == start.len(),
            fac.wf(),
            fac.owns(*guard),
            values::bits_over(bits@, fac.vars()),
            forall|a: Worlds, j: int|
                0 <= j < i ==> #[trigger] bits@[j].eval(a) == (start[j].eval(a) || (guard.eval(a)
                    && (v >> (j as u64)) & 1 == 1)),
            forall|j: int| i <= j < n ==> bits@[j] == start[j],
        decreases n - i,
    {
        let k: u64 = i as u64;
        if (v >> k) & 1 == 1 {
            let ghost before = bits@;
            let bit: BooleanFunction = fac.or(&bits[i], guard);
            bits.set(i, bit);
            proof {
                assert forall|j: int| 0 <= j < bits@.len() implies (#[trigger] bits@[j]).wf(
                    fac.vars(),
                ) by {
                    if j != i {
                        assert(bits@[j] == before[j]);
                    }
                }
                assert forall|a: Worlds, j: int| 0 <= j < i + 1 implies #[trigger] bits@[j].eval(a) == (
                start[j].eval(a) || (guard.eval(a) && (v >> (j as u64)) & 1 == 1)) by {
                    if j < i {
                        assert(bits@[j] == before[j]);
                    } else {
                        assert(bit.eval(a) == (before[i as int].eval(a) || guard.eval(a)));
                    }
                }
            }
        }
        i = i + 1;
    }
}

/// Build stick-breaking guards over the given boolean functions, one more
/// than there are functions: the guard `k` holds where the function `k` is
/// the first that does, and the last one where none does.
pub fn build_stick_breaking_guards(vars: &Vec<BooleanFunction>, fac: &Factorizer) -> (guards: Vec<
    BooleanFunction,
>)
    requires
        fac.wf(),
        values::bits_over(vars@, fac.vars()),
    ensures
        guards@.len() == vars@.len() + 1,
        values::bits_over(guards@, fac.vars()),
        forall|a: Worlds, k: int|
            0 <= k < guards@.len() ==> #[trigger] guards@[k].eval(a) == (first_true(
                vars@,
                a,
                0,
            ) == k),
{
    let mut guards: Vec<BooleanFunction> = Vec::new();
    let mut prefix: BooleanFunction = BooleanFunction::true_ptr();
    let mut i: usize = 0;
    proof {
        assert forall|a: Worlds| #[trigger] prefix.eval(a) == (first_true(vars@, a, 0) >= 0) by {
            lemma_first_true_from(vars@, a, 0);
        }
    }
    while i < vars.len()
        invariant
            i <= vars@.len(),
            fac.wf(),
            values::bits_over(vars@, fac.vars()),
            guards@.len() == i,
            values::bits_over(guards@, fac.vars()),
            fac.owns(prefix),
            forall|a: Worlds| #[trigger]
                prefix.eval(a) ==> first_true(vars@, a, 0) == first_true(vars@, a, i as int),
            forall|a: Worlds| #[trigger] prefix.eval(a) == (first_true(vars@, a, 0) >= i),
            forall|a: Worlds, k: int|
                0 <= k < i ==> #[trigger] guards@[k].eval(a) == (first_true(vars@, a, 0) == k),
        decreases vars@.len() - i,
    {
        let hit: BooleanFunction = fac.and(&prefix, &vars[i]);
        let miss: BooleanFunction = fac.negate(&vars[i]);
        let ghost before = prefix;
        let ghost old_guards = guards@;
        prefix = fac.and(&prefix, &miss);
        guards.push(hit);
        proof {
            assert forall|a: Worlds| true implies {
                &&& #[trigger] prefix.eval(a) ==> first_true(vars@, a, 0) == first_true(
                    vars@,
                    a,
                    i + 1,
                )
                &&& prefix.eval(a) == (first_true(vars@, a, 0) >= i + 1)
                &&& hit.eval(a) == (first_true(vars@, a, 0) == i)
            } by {
                assert(prefix.eval(a) == (before.eval(a) && miss.eval(a)));
                assert(miss.eval(a) == !vars@[i as int].eval(a));
                assert(hit.eval(a) == (before.eval(a) && vars@[i as int].eval(a)));
                lemma_first_true_from(vars@, a, i + 1);
            }
            assert forall|a: Worlds, k: int| 0 <= k < i + 1 implies #[trigger] guards@[k].eval(a) == (
            first_true(vars@, a, 0) == k) by {
                if k < i {
                    assert(guards@[k] == old_guards[k]);
                } else {
                    assert(hit.eval(a) == (before.eval(a) && vars@[i as int].eval(a)));
                    assert(before.eval(a) == (first_true(vars@, a, 0) >= i));
                    lemma_first_true_from(vars@, a, i + 1);
                }
            }
        }
        i = i + 1;
    }
    let ghost old_guards = guards@;
    guards.push(prefix);
    proof {
        assert forall|a: Worlds, k: int| 0 <= k < guards@.len() implies #[trigger] guards@[k].eval(a)
            == (first_true(vars@, a, 0) == k) by {
            lemma_first_true_from(vars@, a, 0);
            if k < vars@.len() {
                assert(guards@[k] == old_guards[k]);
            } else {
                assert(prefix.eval(a) == (first_true(vars@, a, 0) >= vars@.len()));
            }
        }
    }
    guards
}

/// The first of the functions from `i` on that holds.
pub open spec fn first_true(vars: Seq<BooleanFunction>, a: Worlds, i: int) -> int
    decreases vars.len() - i,
{
    if i < 0 || i >= vars.len() || vars[i].eval(a) {
        i
    } else {
        first_true(vars, a, i + 1)
    }
}

proof fn lemma_first_true_from(vars: Seq<BooleanFunction>, a: Worlds, i: int)
    requires
        0 <= i <= vars.len(),
    ensures
        i <= first_true(vars, a, i) <= vars.len(),
    decreases vars.len() - i,
{
    if i < vars.len() && !vars[i].eval(a) {
        lemma_first_true_from(vars, a, i + 1);
    }
}

/// Where the functions say whether the events happen, the first that holds is
/// the first that happens.
proof fn lemma_first_hit(
    vars: Seq<BooleanFunction>,
    events: Seq<Event>,
    cs: Seq<i32>,
    a: Worlds,
    x: Model,
    i: int,
)
    requires
        0 <= i <= vars.len(),
        vars.len() == events.len(),
        forall|j: int|
            0 <= j < vars.len() ==> (#[trigger] vars[j]).eval(a) == (x.flips)(
                cs.push(j as i32),
                events[j].code(),
            ),
    ensures
        first_true(vars, a, i) == semantics::first_hit(x, cs, events, i),
    decreases vars.len() - i,
{
    if i < vars.len() {
        assert(vars[i].eval(a) == (x.flips)(cs.push(i as i32), events[i].code()));
        if !vars[i].eval(a) {
            lemma_first_hit(vars, events, cs, a, x, i + 1);
        }
    }
}

/// The events that the weights stand for.
pub open spec fn events_of(s: Seq<FlipWeight>) -> Seq<Event> {
    Seq::new(s.len(), |i: int| s[i]@)
}

/// The floats of a list of values, if all are floats.
pub open spec fn floats_in(s: Seq<PluckVal>) -> Option<Seq<u64>>
    decreases s.len(),
{
    if s.len() == 0 {
        Some(Seq::empty())
    } else {
        match (floats_in(s.drop_last()), *s.last()) {
            (Some(t), PluckValue::Native(NativeVal::Float(b))) => Some(t.push(b)),
            _ => None,
        }
    }
}

proof fn lemma_float(v: &PluckValue, a: Worlds)
    requires
        values::is_head(*v),
        v.at(a) is Some,
    ensures
        match (*v, v.at(a)->0) {
            (PluckValue::Native(NativeVal::Float(b)), Datum::Native(Const::Float(c))) => b == c,
            (PluckValue::Native(NativeVal::Float(b)), _) => false,
            (_, Datum::Native(Const::Float(c))) => false,
            _ => true,
        },
{
}

proof fn lemma_floats(s: Seq<PluckVal>, a: Worlds)
    requires
        all_heads(s),
        values::all_at(s, a) is Some,
    ensures
        semantics::floats(values::all_at(s, a)->0) == floats_in(s),
    decreases s.len(),
{
    if s.len() > 0 {
        let p = s.drop_last();
        let last = s[s.len() - 1];
        assert(s.last() == last);
        assert forall|i: int| 0 <= i < p.len() implies values::is_head(*(#[trigger] p[i])) by {
            assert(p[i] == s[i]);
        }
        lemma_floats(p, a);
        assert(values::is_head(*s[s.len() - 1]));
        lemma_float(&*last, a);
        let ds = values::all_at(s, a)->0;
        assert(ds.drop_last() =~= values::all_at(p, a)->0);
    }
}

fn floats_of(s: &Vec<PluckVal>) -> (r: Option<Vec<u64>>)
    ensures
        match r {
            Some(v) => floats_in(s@) == Some(v@) && v@.len() == s@.len(),
            None => floats_in(s@) is None,
        },
{
    let mut v: Vec<u64> = Vec::new();
    let mut ok: bool = true;
    let mut i: usize = 0;
    while i < s.len()
        invariant
            i <= s@.len(),
            floats_in(s@.take(i as int)) == (if ok {
                Some(v@)
            } else {
                None
            }),
            ok ==> v@.len() == i,
        decreases s@.len() - i,
    {
        assert(s@.take(i + 1).drop_last() =~= s@.take(i as int));
        match &*s[i] {
            PluckValue::Native(NativeVal::Float(b)) => {
                if ok {
                    v.push(*b);
                }
            },
            _ => {
                ok = false;
            },
        }
        i = i + 1;
    }
    assert(s@.take(s@.len() as int) =~= s@);
    if ok {
        Some(v)
    } else {
        None
    }
}

impl<'a, F: Fn(RealOp, u64, u64) -> u64, G: Fn(usize, Vec<u64>) -> bool> CompilerCtx<'a, F, G> {
    /// The number of the first event that happens, or how many there are if
    /// none does: one variable per event, each under a place of its own.
    fn stick_worlds(&mut self, weights: Vec<FlipWeight>) -> (r: GuardedWorlds)
        requires
            old(self).wf(),
            weights@.len() < i32::MAX,
        ensures
            old(self).moved(final(self)),
            final(self).answers(
                Some(r),
                |a: Worlds, x: Model|
                    Some(
                        Outcome::Done(
                            semantics::integer(
                                semantics::first_hit(
                                    x,
                                    old(self).state.callstack@,
                                    events_of(weights@),
                                    0,
                                ) as i64,
                            ),
                        ),
                    ),
            ),
    {
        let ghost start = *self;
        let ghost cs = self.state.callstack@;
        let ghost events = events_of(weights@);
        let n: usize = weights.len();
        proof {
            self.lemma_step_refl();
        }
        let vars: Vec<BooleanFunction> = self.allocate_one_hot_vars(weights);
        let ghost named = *self;
        let guards: Vec<BooleanFunction> = build_stick_breaking_guards(
            &vars,
            &self.state.factorizer,
        );
        let mut vals: Vec<PluckVal> = Vec::new();
        let mut k: usize = 0;
        while k < n + 1
            invariant
                k <= n + 1,
                n < i32::MAX,
                vals@.len() == k,
                forall|j: int|
                    0 <= j < k ==> *(#[trigger] vals@[j]) == PluckValue::Native(
                        NativeVal::Int(j as i64),
                    ),
            decreases n + 1 - k,
        {
            vals.push(mk_native_int(k as i64));
            k = k + 1;
        }
        proof {
            values::lemma_all_over(vals@, self.vars());
        }
        let ghost ints = vals@;
        let ghost conds = guards@;
        assert(monad::all_unlike(ints)) by {
            assert forall|i: int, j: int| 0 <= i < j < ints.len() implies !monad::alike(
                *(#[trigger] ints[i]),
                *(#[trigger] ints[j]),
            ) by {
                assert(i as i64 != j as i64);
            }
        }
        let r: GuardedWorlds = categorical_monad(vals, guards, &self.state.factorizer);
        proof {
            assert forall|a: Worlds, x: Model| #[trigger] self.allows(a, x) implies values::pick(
                r.0@,
                a,
            ) == Outcome::Done(
                semantics::integer(semantics::first_hit(x, cs, events, 0) as i64),
            ) by {
                let zip = super::monad::zipped(ints, conds);
                assert(values::pick(r.0@, a) == values::pick(zip, a));
                lemma_first_hit(vars@, events, cs, a, x, 0);
                lemma_first_true_from(vars@, a, 0);
                let h = first_true(vars@, a, 0);
                assert(conds[h].eval(a));
                assert forall|i: int| 0 <= i < zip.len() && i != h implies !(#[trigger] zip[i]).1.eval(
                    a,
                ) by {
                    assert(conds[i].eval(a) == (h == i));
                }
                values::lemma_pick_one(zip, h, a);
                assert(zip[h].0 == ints[h]);
            }
        }
        r
    }

    /// Allocate one boolean variable per event. Each variable is placed under
    /// a distinct callstack sentinel so they occupy separate positions in the
    /// variable ordering.
    fn allocate_one_hot_vars(&mut self, weights: Vec<FlipWeight>) -> (vars: Vec<BooleanFunction>)
        requires
            old(self).wf(),
            weights@.len() < i32::MAX,
        ensures
            old(self).moved(final(self)),
            vars@.len() == weights@.len(),
            values::bits_over(vars@, final(self).vars()),
            forall|a: Worlds, x: Model, j: int|
                #![trigger final(self).allows(a, x), vars@[j]]
                final(self).allows(a, x) && 0 <= j < vars@.len() ==> vars@[j].eval(a) == (x.flips)(
                    old(self).state.callstack@.push(j as i32),
                    events_of(weights@)[j].code(),
                ),
    {
        let ghost start = *self;
        let ghost cs = self.state.callstack@;
        let ghost events = events_of(weights@);
        let n: usize = weights.len();
        proof {
            self.lemma_step_refl();
        }
        let mut rest: Vec<FlipWeight> = weights;
        let mut backwards: Vec<FlipWeight> = Vec::new();
        while rest.len() > 0
            invariant
                rest@.len() + backwards@.len() == n,
                events.len() == n,
                events_of(rest@) == events.take(rest@.len() as int),
                forall|j: int|
                    0 <= j < backwards@.len() ==> (#[trigger] backwards@[j])@ == events[n - 1 - j],
            decreases rest@.len(),
        {
            let ghost before = rest@;
            let ghost reversed = backwards@;
            let last: Option<FlipWeight> = rest.pop();
            match last {
                Some(w) => {
                    proof {
                        assert(events_of(before)[before.len() - 1] == events[before.len() - 1]);
                        assert(events_of(rest@) =~= events.take(rest@.len() as int)) by {
                            assert forall|j: int| 0 <= j < rest@.len() implies rest@[j]@ == events[j] by {
                                assert(events_of(before)[j] == events[j]);
                            }
                        }
                    }
                    backwards.push(w);
                    proof {
                        assert forall|j: int| 0 <= j < backwards@.len() implies (
                        #[trigger] backwards@[j])@ == events[n - 1 - j] by {
                            if j < reversed.len() {
                                assert(backwards@[j] == reversed[j]);
                            }
                        }
                    }
                },
                None => {},
            }
        }
        let mut vars: Vec<BooleanFunction> = Vec::new();
        let mut i: usize = 0;
        while i < n
            invariant
                i <= n,
                n < i32::MAX,
                events.len() == n,
                backwards@.len() == n - i,
                forall|j: int|
                    0 <= j < backwards@.len() ==> (#[trigger] backwards@[j])@ == events[n - 1 - j],
                start.wf(),
                start.moved(self),
                cs == start.state.callstack@,
                vars@.len() == i,
                values::bits_over(vars@, self.vars()),
                forall|a: Worlds, x: Model, j: int|
                    #![trigger self.allows(a, x), vars@[j]]
                    self.allows(a, x) && 0 <= j < i ==> vars@[j].eval(a) == (x.flips)(
                        cs.push(j as i32),
                        events[j].code(),
                    ),
            decreases n - i,
        {
            let ghost list = backwards@;
            let next: Option<FlipWeight> = backwards.pop();
            match next {
                Some(weight) => {
                    assert(weight@ == events[i as int]) by {
                        assert(list[n - i - 1]@ == events[i as int]);
                    }
                    let ghost before = *self;
                    let ghost old_vars = vars@;
                    let var: BooleanFunction = self.state.with_callstack_index(i as i32, weight);
                    vars.push(var);
                    proof {
                        before.lemma_moved(self);
                        start.lemma_step_trans(&before, self);
                        assert forall|j: int| 0 <= j < vars@.len() implies (#[trigger] vars@[j]).wf(
                            self.vars(),
                        ) by {
                            if j < i {
                                assert(vars@[j] == old_vars[j]);
                                assert(old_vars[j].wf(before.vars()));
                            }
                        }
                        assert forall|a: Worlds, x: Model, j: int|
                            #![trigger self.allows(a, x), vars@[j]]
                            self.allows(a, x) && 0 <= j < i + 1 implies vars@[j].eval(a) == (
                        x.flips)(cs.push(j as i32), events[j].code()) by {
                            assert(self.state.fits(a, x));
                            assert(before.allows(a, x));
                            if j < i {
                                assert(vars@[j] == old_vars[j]);
                            }
                        }
                    }
                },
                None => {},
            }
            i = i + 1;
        }
        vars
    }

    /// The sum of numbers.
    fn sum_numbers(&self, fs: &Vec<u64>) -> (r: u64)
        requires
            reals::settled(*self.reals),
        ensures
            forall|x: Model| #[trigger] self.suits(x) ==> r == semantics::sum_of(x, fs@),
    {
        let mut sum: u64 = ZERO;
        let mut i: usize = 0;
        while i < fs.len()
            invariant
                i <= fs@.len(),
                reals::settled(*self.reals),
                forall|x: Model| #[trigger]
                    self.suits(x) ==> sum == semantics::sum_of(x, fs@.take(i as int)),
            decreases fs@.len() - i,
        {
            assert(fs@.take(i + 1).drop_last() =~= fs@.take(i as int));
            sum = compute(self.reals, RealOp::Sum, sum, fs[i]);
            i = i + 1;
        }
        assert(fs@.take(fs@.len() as int) =~= fs@);
        sum
    }

    /// Convert a constant probability vector into the stick-breaking
    /// conditional probabilities; the leftover category is implicit.
    fn stick_betas(&self, fs: &Vec<u64>) -> (r: Vec<FlipWeight>)
        requires
            reals::settled(*self.reals),
            fs@.len() > 0,
        ensures
            r@.len() == fs@.len() - 1,
            forall|x: Model, j: int|
                #![trigger self.suits(x), r@[j]]
                self.suits(x) && 0 <= j < r@.len() ==> r@[j]@ == Event::Constant(
                    semantics::stick(x, fs@, j),
                ),
    {
        let mut out: Vec<FlipWeight> = Vec::new();
        let mut left: u64 = ONE;
        let mut i: usize = 0;
        let n: usize = fs.len() - 1;
        while i < n
            invariant
                i <= n,
                n == fs@.len() - 1,
                reals::settled(*self.reals),
                out@.len() == i,
                forall|x: Model| #[trigger]
                    self.suits(x) ==> left == semantics::left_over(x, fs@, i as int),
                forall|x: Model, j: int|
                    #![trigger self.suits(x), out@[j]]
                    self.suits(x) && 0 <= j < i ==> out@[j]@ == Event::Constant(
                        semantics::stick(x, fs@, j),
                    ),
            decreases n - i,
        {
            let beta: u64 = if real_at_most(left, ZERO) {
                ZERO
            } else {
                let q: u64 = compute(self.reals, RealOp::Quotient, fs[i], left);
                if real_below(q, ZERO) {
                    ZERO
                } else if real_below(ONE, q) {
                    ONE
                } else {
                    q
                }
            };
            let ghost before = out@;
            out.push(FlipWeight::Constant(beta));
            left = compute(self.reals, RealOp::Difference, left, fs[i]);
            proof {
                assert forall|x: Model, j: int|
                    #![trigger self.suits(x), out@[j]]
                    self.suits(x) && 0 <= j < i + 1 implies out@[j]@ == Event::Constant(
                    semantics::stick(x, fs@, j),
                ) by {
                    if j < i {
                        assert(out@[j] == before[j]);
                    }
                }
            }
            i = i + 1;
        }
        out
    }

    /// A categorical choice: by constant probabilities that add up to 1, or
    /// by a Dirichlet variable.
    pub(crate) fn settle_categorical(&mut self, vals: &Vec<PluckVal>, got: &Vec<PluckVal>) -> (r: Option<
        GuardedWorlds,
    >)
        requires
            old(self).supplies(vals@, got@),
        ensures
            old(self).moved(final(self)),
            final(self).answers(
                r,
                asks(
                    vals@,
                    got@,
                    |ds: Seq<Datum>, gs: Seq<Datum>, x: Model|
                        semantics::categorical(x, old(self).state.callstack@, ds),
                ),
            ),
    {
        let ghost start = *self;
        let ghost cs = self.state.callstack@;
        let ghost s = asks(
            vals@,
            got@,
            |ds: Seq<Datum>, gs: Seq<Datum>, x: Model| semantics::categorical(x, cs, ds),
        );
        proof {
            self.lemma_step_refl();
            lemma_operands(vals@);
            assert forall|a: Worlds| #[trigger] values::all_at(vals@, a) is Some implies semantics::floats(
                values::all_at(vals@, a)->0,
            ) == floats_in(vals@) by {
                lemma_floats(vals@, a);
            }
        }
        let weights: Vec<FlipWeight> = match floats_of(vals) {
            Some(fs) => {
                if fs.len() == 0 {
                    let w: GuardedWorlds = program_error_worlds();
                    proof {
                        self.lemma_fails(w, s);
                    }
                    return Some(w);
                }
                let sum: u64 = self.sum_numbers(&fs);
                let off: u64 = compute(self.reals, RealOp::Difference, sum, ONE);
                let size: u64 = if off >= SIGN {
                    off - SIGN
                } else {
                    off
                };
                if real_below(SMALL, size) {
                    let w: GuardedWorlds = program_error_worlds();
                    proof {
                        self.lemma_fails(w, s);
                    }
                    return Some(w);
                }
                let sticks: Vec<FlipWeight> = self.stick_betas(&fs);
                proof {
                    assert forall|a: Worlds, x: Model| #[trigger]
                        self.allows(a, x) && s(a, x) is Some implies semantics::categories(
                        x,
                        values::all_at(vals@, a)->0,
                    ) == Ok::<Seq<Event>, Outcome>(events_of(sticks@)) by {
                        assert(events_of(sticks@) =~= Seq::new(
                            (fs@.len() - 1) as nat,
                            |i: int| Event::Constant(semantics::stick(x, fs@, i)),
                        ));
                    }
                }
                sticks
            },
            None => {
                proof {
                    assert(vals@.len() > 0);
                }
                match &*vals[0] {
                    PluckValue::DirichletVector { name, categories } => {
                        if vals.len() != 1 {
                            return None;
                        }
                        if *categories == 0 {
                            let w: GuardedWorlds = program_error_worlds();
                            proof {
                                self.lemma_fails(w, s);
                            }
                            return Some(w);
                        }
                        let sticks: Vec<FlipWeight> = dirichlet_sticks(*name, *categories - 1);
                        proof {
                            assert forall|a: Worlds, x: Model| #[trigger]
                                self.allows(a, x) && s(a, x) is Some implies semantics::categories(
                                x,
                                values::all_at(vals@, a)->0,
                            ) == Ok::<Seq<Event>, Outcome>(events_of(sticks@)) by {
                                assert(events_of(sticks@) =~= Seq::new(
                                    (*categories - 1) as nat,
                                    |i: int| Event::Stick { name: *name, index: i as usize },
                                ));
                            }
                        }
                        sticks
                    },
                    _ => {
                        return None;
                    },
                }
            },
        };
        if weights.len() >= 0x7fff_ffff {
            return None;
        }
        let ghost events = events_of(weights@);
        let r: GuardedWorlds = self.stick_worlds(weights);
        proof {
            assert forall|a: Worlds, x: Model| #[trigger] self.allows(a, x) && s(a, x) is Some implies values::pick(
                r.0@,
                a,
            ) == s(a, x)->0 && s(a, x)->0 != Outcome::Stuck by {
                assert(self.state.fits(a, x));
                assert(start.allows(a, x));
            }
        }
        Some(r)
    }
}

/// The sticks of a categorical draw from a Dirichlet variable.
fn dirichlet_sticks(name: u64, n: usize) -> (r: Vec<FlipWeight>)
    ensures
        r@.len() == n,
        forall|j: int| 0 <= j < n ==> (#[trigger] r@[j])@ == (Event::Stick { name, index: j as usize }),
{
    let mut out: Vec<FlipWeight> = Vec::new();
    let mut i: usize = 0;
    while i < n
        invariant
            i <= n,
            out@.len() == i,
            forall|j: int|
                0 <= j < i ==> (#[trigger] out@[j])@ == (Event::Stick { name, index: j as usize }),
        decreases n - i,
    {
        out.push(FlipWeight::Stick { name, index: i });
        i = i + 1;
    }
    out
}

} // verus!
