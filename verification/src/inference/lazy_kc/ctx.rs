//! What a compilation works with, and what its results mean.

use vstd::prelude::*;

use super::monad;
use super::monad::GuardedWorlds;
use super::semantics;
use super::semantics::{Law, Model};
use super::state;
use super::state::LazyKCState;
use crate::discrete_factorizations::{BooleanFunction, Worlds};
use crate::language::define::DefinitionRegistry;
use crate::language::types::Symbol;
use crate::language::values;
use crate::language::values::{Outcome, PluckVal};
use crate::utils::reals;
use crate::utils::reals::RealOp;

verus! {

/// Bundles the program, the caller's arithmetic and the mutable state that
/// every compilation helper needs.
pub struct CompilerCtx<'a, F: Fn(RealOp, u64, u64) -> u64, G: Fn(usize, Vec<u64>) -> bool> {
    pub defs: &'a DefinitionRegistry,
    /// The constructors of lists, and those of natural numbers, if there are
    /// such types.
    pub list: Option<(Symbol, Symbol)>,
    pub nat: Option<(Symbol, Symbol)>,
    pub true_sym: Symbol,
    pub false_sym: Symbol,
    /// Arithmetic on numbers.
    pub reals: &'a F,
    /// Whether a square matrix of the given width can be a covariance.
    pub covariance: &'a G,
    pub state: LazyKCState,
}

/// `g` can be called on all matrices and answers equal calls alike.
pub open spec fn steady<G: Fn(usize, Vec<u64>) -> bool>(g: G) -> bool {
    &&& forall|n: usize, v: Vec<u64>| #[trigger] call_requires(g, (n, v))
    &&& forall|n: usize, v: Vec<u64>, w: Vec<u64>, r: bool, s: bool|
        v@ == w@ && #[trigger] call_ensures(g, (n, v), r) && #[trigger] call_ensures(g, (n, w), s)
            ==> r == s
}

/// What `g` answers.
pub open spec fn answered<G: Fn(usize, Vec<u64>) -> bool>(g: G) -> spec_fn(nat, Seq<u64>) -> bool {
    |n: nat, s: Seq<u64>|
        exists|m: usize, v: Vec<u64>| m == n && v@ == s && #[trigger] call_ensures(g, (m, v), true)
}

/// What an evaluation comes to under an assignment, as deep as it may go;
/// nothing, where its inputs have no definite value.
pub type Sem = spec_fn(Worlds, Model, nat) -> Option<Outcome>;

/// Going deeper changes nothing but where the limit was in the way.
pub open spec fn sound(s: Sem) -> bool {
    forall|a: Worlds, x: Model, f: nat, g: nat|
        f <= g ==> (#[trigger] s(a, x, f) is Some <==> #[trigger] s(a, x, g) is Some) && (s(
            a,
            x,
            f,
        ) is Some ==> semantics::kept(s(a, x, f)->0, s(a, x, g)->0))
}

/// The evaluation ends so if it may go deep enough.
pub open spec fn reached(s: Sem, a: Worlds, x: Model, o: Outcome) -> bool {
    o != Outcome::Stuck && exists|f: nat| #[trigger] s(a, x, f) == Some(o)
}

/// However deep an evaluation may go, it ends as it does or at the limit.
pub proof fn lemma_reached(s: Sem, a: Worlds, x: Model, o: Outcome, f: nat)
    requires
        sound(s),
        reached(s, a, x, o),
    ensures
        s(a, x, f) == Some(o) || s(a, x, f) == Some(Outcome::Stuck),
{
    let g = choose|g: nat| #[trigger] s(a, x, g) == Some(o);
    if f <= g {
        assert(semantics::kept(s(a, x, f)->0, s(a, x, g)->0));
    } else {
        assert(semantics::kept(s(a, x, g)->0, s(a, x, f)->0));
    }
}

impl<'a, F: Fn(RealOp, u64, u64) -> u64, G: Fn(usize, Vec<u64>) -> bool> CompilerCtx<'a, F, G> {
    /// The model goes by this program and this arithmetic.
    pub open spec fn suits(&self, x: Model) -> bool {
        &&& x.defs == self.defs@
        &&& x.list == self.list
        &&& x.nat == self.nat
        &&& x.yes == self.true_sym
        &&& x.no == self.false_sym
        &&& x.arith == reals::operations(*self.reals)
        &&& x.covariance == answered(*self.covariance)
    }

    /// The model and the assignment settle what is known alike.
    pub open spec fn allows(&self, a: Worlds, x: Model) -> bool {
        self.suits(x) && self.state.fits(a, x)
    }

    /// Some model that suits.
    pub open spec fn base(&self) -> Model {
        Model {
            defs: self.defs@,
            list: self.list,
            nat: self.nat,
            yes: self.true_sym,
            no: self.false_sym,
            arith: reals::operations(*self.reals),
            covariance: answered(*self.covariance),
            flips: |cs: Seq<i32>, e: Seq<u64>| false,
            names: |cs: Seq<i32>, l: Law| 0u64,
            blocks: |cs: Seq<i32>, p: Seq<u64>| Seq::<u64>::empty(),
        }
    }

    pub open spec fn vars(&self) -> Seq<u64> {
        self.state.factorizer.vars()
    }

    pub open spec fn fuel(&self) -> nat {
        self.state.fuel()
    }

    /// Every assignment is allowed with some model.
    pub proof fn lemma_some_model(&self, a: Worlds) -> (x: Model)
        requires
            self.state.wf(),
        ensures
            self.allows(a, x),
    {
        self.state.lemma_completed(a, self.base());
        self.state.completed(a, self.base())
    }

    /// The worlds are over the variables of the compilation.
    pub open spec fn shaped(&self, w: GuardedWorlds) -> bool {
        values::entries_over(w.0@, self.vars()) && w.1.wf(self.vars())
    }

    /// Where the worlds claim to be right, they choose what the evaluation
    /// comes to.
    pub open spec fn right(&self, w: GuardedWorlds, s: Sem) -> bool {
        forall|a: Worlds, x: Model| #[trigger]
            self.allows(a, x) && w.1.eval(a) && s(a, x, 0) is Some ==> reached(
                s,
                a,
                x,
                values::pick(w.0@, a),
            )
    }

    /// The inputs of the evaluation have a definite value where the condition
    /// holds.
    pub open spec fn total(&self, pc: BooleanFunction, s: Sem) -> bool {
        forall|a: Worlds, x: Model| #[trigger]
            self.allows(a, x) && pc.eval(a) ==> s(a, x, 0) is Some
    }

    /// Somewhere under the condition the evaluation ends at the limit.
    pub open spec fn stuck(&self, pc: BooleanFunction, s: Sem) -> bool {
        exists|a: Worlds, x: Model| #[trigger]
            self.allows(a, x) && pc.eval(a) && s(a, x, self.fuel()) == Some(Outcome::Stuck)
    }

    /// What is known in `self` is known in `next`, which is at the same
    /// place.
    pub open spec fn step(&self, next: &Self) -> bool {
        &&& next.wf()
        &&& self.state.grows_to(next.state)
        &&& self.state.same_place(next.state)
        &&& self.defs == next.defs
        &&& self.list == next.list
        &&& self.nat == next.nat
        &&& self.true_sym == next.true_sym
        &&& self.false_sym == next.false_sym
        &&& self.reals == next.reals
        &&& self.covariance == next.covariance
    }

    /// What the evaluated thunks came to is right.
    pub open spec fn cache_right(&self) -> bool {
        forall|i: int|
            0 <= i < self.state.cache@.len() ==> self.entry_right(
                (#[trigger] self.state.cache@[i]).thunk,
                self.state.cache@[i].worlds,
            )
    }

    pub open spec fn entry_right(&self, thunk: PluckVal, w: GuardedWorlds) -> bool {
        thunk.over(self.vars()) && self.shaped(w) && values::heads(w.0@) && monad::tidy(
            w.0@,
        ) && self.right(
            w,
            forcing(thunk),
        )
    }

    pub open spec fn wf(&self) -> bool {
        &&& self.state.wf()
        &&& self.defs.wf()
        &&& reals::settled(*self.reals)
        &&& steady(*self.covariance)
        &&& self.true_sym != self.false_sym
        &&& self.cache_right()
    }

    /// The result of a compilation under a condition: worlds that are right
    /// there, or the limit, which some evaluation there meets, and no worlds.
    pub open spec fn post(&self, w: GuardedWorlds, pc: BooleanFunction, s: Sem) -> bool {
        &&& self.shaped(w)
        &&& values::heads(w.0@)
        &&& monad::tidy(w.0@)
        &&& if self.state.hit_limit {
            self.stuck(pc, s) && w.0@.len() == 0
        } else {
            self.right(w, s) && covers(w, pc)
        }
    }

    /// What was right stays right when more is known.
    pub proof fn lemma_right_grows(&self, next: &Self, w: GuardedWorlds, s: Sem)
        requires
            self.step(next),
            self.shaped(w),
            self.right(w, s),
        ensures
            next.shaped(w),
            next.right(w, s),
    {
        values::lemma_entries_over_grows(w.0@, self.vars(), next.vars());
        assert(w.1.wf(next.vars()));
        assert forall|a: Worlds, x: Model| #[trigger]
            next.allows(a, x) && w.1.eval(a) && s(a, x, 0) is Some implies reached(
            s,
            a,
            x,
            values::pick(w.0@, a),
        ) by {
            assert(next.state.fits(a, x));
            assert(self.allows(a, x));
        }
    }

    pub proof fn lemma_total_grows(&self, next: &Self, pc: BooleanFunction, s: Sem)
        requires
            self.step(next),
            self.total(pc, s),
        ensures
            next.total(pc, s),
    {
        assert forall|a: Worlds, x: Model| #[trigger] next.allows(a, x) && pc.eval(a) implies s(
            a,
            x,
            0,
        ) is Some by {
            assert(next.state.fits(a, x));
            assert(self.allows(a, x));
        }
    }

    pub proof fn lemma_step_trans(&self, mid: &Self, next: &Self)
        requires
            self.step(mid),
            mid.step(next),
        ensures
            self.step(next),
    {
        assert forall|f: BooleanFunction| #[trigger] f.wf(self.vars()) implies f.wf(next.vars()) by {
            assert(f.wf(mid.vars()));
        }
        assert forall|a: Worlds, x: Model| #[trigger] next.state.fits(a, x) implies self.state.fits(
            a,
            x,
        ) by {
            assert(mid.state.fits(a, x));
        }
    }

    pub proof fn lemma_step_refl(&self)
        requires
            self.wf(),
        ensures
            self.step(self),
    {
    }
}

/// The worlds claim to be right where the condition holds.
pub open spec fn covers(w: GuardedWorlds, pc: BooleanFunction) -> bool {
    forall|a: Worlds| #[trigger] pc.eval(a) ==> w.1.eval(a)
}

/// The evaluation of a thunk.
pub open spec fn forcing(v: PluckVal) -> Sem {
    |a: Worlds, x: Model, f: nat|
        match v.at(a) {
            Some(d) => Some(semantics::force(d, x, f)),
            None => None,
        }
}

impl<'a, F: Fn(RealOp, u64, u64) -> u64, G: Fn(usize, Vec<u64>) -> bool> CompilerCtx<'a, F, G> {
    /// A variable that stands for a place and a distribution, whatever the
    /// model, has that distribution on record.
    pub proof fn lemma_variable_has_its_law(&self, stack: Seq<i32>, l: Law, n: u64)
        requires
            self.state.wf(),
            forall|a: Worlds, x: Model| #[trigger] self.allows(a, x) ==> (x.names)(stack, l) == n,
        ensures
            self.state.names_one(stack, l),
            n < self.state.priors@.len(),
            self.state.priors@[n as int]@ == l,
    {
        let a: Worlds = |v: u64| false;
        let other: u64 = if n == 0 {
            1
        } else {
            0
        };
        let base = Model { names: |cs: Seq<i32>, k: Law| other, ..self.base() };
        self.state.lemma_completed(a, base);
        let x = self.state.completed(a, base);
        assert(self.allows(a, x));
        assert((x.names)(stack, l) == n);
        let i = choose|i: int|
            0 <= i < self.state.names@.len() && (#[trigger] self.state.names@[i]).stack@ == stack
                && state::law_of(self.state.names@[i], self.state.priors@) == l;
        assert((x.names)(
            self.state.names@[i].stack@,
            state::law_of(self.state.names@[i], self.state.priors@),
        ) == self.state.names@[i].name);
        reveal(state::variables_known);
    }

    /// The variables that stand for a place with means and covariances,
    /// whatever the model, have these on record, and follow one another.
    pub proof fn lemma_block_has_its_law(&self, stack: Seq<i32>, params: Seq<u64>, ns: Seq<u64>)
        requires
            self.state.wf(),
            forall|a: Worlds, x: Model| #[trigger]
                self.allows(a, x) ==> (x.blocks)(stack, params) == ns,
        ensures
            self.state.names_block(stack, params),
            params.len() == ns.len() + ns.len() * ns.len(),
            forall|k: int|
                0 <= k < ns.len() ==> (#[trigger] ns[k]) == ns[0] + k && ns[k] < self.state.priors@.len()
                    && self.state.priors@[ns[k] as int]@ == (Law::Correlated {
                    first: ns[0],
                    mu_and_cov: params,
                }),
    {
        let a: Worlds = |v: u64| false;
        let base = Model { blocks: |cs: Seq<i32>, p: Seq<u64>| ns.push(0), ..self.base() };
        self.state.lemma_completed(a, base);
        let x = self.state.completed(a, base);
        assert(self.allows(a, x));
        assert((x.blocks)(stack, params) == ns);
        assert(ns.push(0).len() != ns.len());
        let i = choose|i: int|
            0 <= i < self.state.blocks@.len() && (#[trigger] self.state.blocks@[i]).stack@ == stack
                && self.state.blocks@[i].params@ == params;
        let b = self.state.blocks@[i];
        assert((x.blocks)(b.stack@, b.params@) == b.names@);
        reveal(state::variables_known);
        assert(state::block_known(b, self.state.priors@));
    }

    /// Variables at two places, or with two distributions, are two.
    pub proof fn lemma_variables_apart(
        &self,
        stack: Seq<i32>,
        l: Law,
        n: u64,
        other: Seq<i32>,
        k: Law,
        m: u64,
    )
        requires
            self.state.wf(),
            forall|a: Worlds, x: Model| #[trigger] self.allows(a, x) ==> (x.names)(stack, l) == n,
            forall|a: Worlds, x: Model| #[trigger] self.allows(a, x) ==> (x.names)(other, k) == m,
            stack != other || l != k,
        ensures
            n != m,
    {
        self.lemma_variable_has_its_law(stack, l, n);
        self.lemma_variable_has_its_law(other, k, m);
        let x = self.lemma_some_model(|v: u64| false);
        assert(self.allows(|v: u64| false, x));
        let (s, p) = (self.state.names@, self.state.priors@);
        let i = choose|i: int|
            0 <= i < s.len() && (#[trigger] s[i]).stack@ == stack && state::law_of(s[i], p) == l;
        let j = choose|j: int|
            0 <= j < s.len() && (#[trigger] s[j]).stack@ == other && state::law_of(s[j], p) == k;
        assert((x.names)(s[i].stack@, state::law_of(s[i], p)) == s[i].name);
        assert((x.names)(s[j].stack@, state::law_of(s[j], p)) == s[j].name);
        reveal(state::variables_known);
        if i < j {
            assert(s[i].name != s[j].name);
        } else {
            assert(s[j].name != s[i].name);
        }
    }
}

} // verus!
