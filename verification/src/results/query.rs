//! Queries: what is asked of a program, and the worlds that answer it.

use std::rc::Rc;

use vstd::prelude::*;

use super::mixture::MixtureItem;
use crate::discrete_factorizations::{BooleanFunction, Worlds};
use crate::inference::lazy_kc::ctx;
use crate::inference::lazy_kc::ctx::{CompilerCtx, Sem};
use crate::inference::lazy_kc::distribution;
use crate::inference::lazy_kc::distribution::FullDistribution;
use crate::inference::lazy_kc::kont;
use crate::inference::lazy_kc::monad;
use crate::inference::lazy_kc::monad::{GuardedWorlds, World};
use crate::inference::lazy_kc::semantics::Model;
use crate::language::define::DefinitionRegistry;
use crate::language::pexpr;
use crate::language::pexpr::{Head, PExpr, Tree};
use crate::language::types;
use crate::language::types::{StringInterner, Symbol, TypeRegistry};
use crate::language::values;
use crate::language::values::{empty_env, env_cons, Env, EnvInner, Outcome, PluckVal, PluckValue};
use crate::utils::reals::RealOp;
use crate::utils::text::same_text;

verus! {

/// The answer to a query.
#[derive(Debug)]
pub struct QueryResult {
    pub query: String,
    pub kind: ResultKind,
}

#[derive(Debug)]
pub enum ResultKind {
    Distribution { items: Vec<MixtureItem> },
    Samples { values: Vec<String> },
}

/// How far a chain of samples has come.
#[derive(Debug, Clone, Copy, PartialEq, Eq, Structural)]
pub struct GibbsProgress {
    pub current: usize,
    pub total: usize,
}

impl GibbsProgress {
    /// A chain of `total` samples at its beginning.
    pub fn start(total: usize) -> (r: Self)
        ensures
            r == (GibbsProgress { current: 0, total }),
    {
        GibbsProgress { current: 0, total }
    }

    /// How many samples there are to show, out of how many: nothing before a
    /// chain begins, and never more than there will be.
    pub fn shown(&self) -> (r: Option<(usize, usize)>)
        ensures
            r == (if self.total == 0 {
                None
            } else if self.current <= self.total {
                Some((self.current, self.total))
            } else {
                Some((self.total, self.total))
            }),
    {
        if self.total == 0 {
            None
        } else if self.current <= self.total {
            Some((self.current, self.total))
        } else {
            Some((self.total, self.total))
        }
    }
}

/// The symbols that queries are made of.
#[derive(Debug, Clone, Copy, PartialEq, Eq, Structural)]
pub struct Syms {
    pub true_sym: Symbol,
    pub false_sym: Symbol,
    pub marginal_sym: Symbol,
    pub posterior_sym: Symbol,
    pub posterior_samples_sym: Symbol,
    pub gibbs_sym: Symbol,
    pub o_sym: Symbol,
    pub s_sym: Symbol,
    pub nil_sym: Symbol,
    pub cons_sym: Symbol,
    pub with_prior_sample_sym: Symbol,
    pub with_constant_sym: Symbol,
}

/// The names of those symbols, in the order they are interned.
pub open spec fn query_names() -> Seq<Seq<char>> {
    seq![
        "True"@,
        "False"@,
        "Marginal"@,
        "Posterior"@,
        "PosteriorSamples"@,
        "Gibbs"@,
        "O"@,
        "S"@,
        "Nil"@,
        "Cons"@,
        "WithPriorSample"@,
        "WithConstant"@,
    ]
}

/// The symbols are those that a table gives the names.
pub open spec fn symbols_in(s: Syms, table: Seq<Seq<char>>) -> bool {
    &&& s.true_sym == types::symbol_in(table, "True"@)
    &&& s.false_sym == types::symbol_in(table, "False"@)
    &&& s.marginal_sym == types::symbol_in(table, "Marginal"@)
    &&& s.posterior_sym == types::symbol_in(table, "Posterior"@)
    &&& s.posterior_samples_sym == types::symbol_in(table, "PosteriorSamples"@)
    &&& s.gibbs_sym == types::symbol_in(table, "Gibbs"@)
    &&& s.o_sym == types::symbol_in(table, "O"@)
    &&& s.s_sym == types::symbol_in(table, "S"@)
    &&& s.nil_sym == types::symbol_in(table, "Nil"@)
    &&& s.cons_sym == types::symbol_in(table, "Cons"@)
    &&& s.with_prior_sample_sym == types::symbol_in(table, "WithPriorSample"@)
    &&& s.with_constant_sym == types::symbol_in(table, "WithConstant"@)
}

/// Intern one of the names, behind those before it.
fn intern_query_name(
    interner: &mut StringInterner,
    s: &str,
    Ghost(start): Ghost<Seq<Seq<char>>>,
    Ghost(k): Ghost<int>,
) -> (r: Symbol)
    requires
        old(interner).wf(),
        0 <= k < query_names().len(),
        query_names()[k] == s@,
        start.no_duplicates(),
        old(interner)@ == types::interned_all(start, query_names().take(k)),
    ensures
        final(interner).wf(),
        final(interner)@ == types::interned_all(start, query_names().take(k + 1)),
        r == types::symbol_in(types::interned_all(start, query_names()), s@),
{
    let ghost names = query_names();
    let r: Symbol = interner.intern(s);
    proof {
        assert(names.take(k + 1).drop_last() =~= names.take(k));
        let table = interner@;
        if !types::interned_all(start, names.take(k)).contains(s@) {
            assert(table.last() == s@);
        }
        assert(table.contains(s@));
        interner.lemma_distinct();
        lemma_rest_interned(start, names, k + 1, s@);
    }
    r
}

proof fn lemma_rest_interned(table: Seq<Seq<char>>, names: Seq<Seq<char>>, k: int, t: Seq<char>)
    requires
        0 <= k <= names.len(),
        types::interned_all(table, names.take(k)).no_duplicates(),
        types::interned_all(table, names.take(k)).contains(t),
    ensures
        types::symbol_in(types::interned_all(table, names), t) == types::symbol_in(
            types::interned_all(table, names.take(k)),
            t,
        ),
    decreases names.len() - k,
{
    if k < names.len() {
        assert(names.take(k + 1).drop_last() =~= names.take(k));
        types::lemma_symbol_kept(types::interned_all(table, names.take(k)), names[k], t);
        lemma_rest_interned(table, names, k + 1, t);
    } else {
        assert(names.take(k) =~= names);
    }
}

impl Syms {
    /// Intern the names that queries are made of.
    #[verifier::rlimit(30)]
    pub fn new(interner: &mut StringInterner) -> (r: Self)
        requires
            old(interner).wf(),
        ensures
            final(interner).wf(),
            final(interner)@ == types::interned_all(old(interner)@, query_names()),
            symbols_in(r, final(interner)@),
    {
        let ghost start = interner@;
        let ghost names = query_names();
        proof {
            interner.lemma_distinct();
            assert(names.take(0) =~= Seq::empty());
        }
        let r = Syms {
            true_sym: intern_query_name(interner, "True", Ghost(start), Ghost(0)),
            false_sym: intern_query_name(interner, "False", Ghost(start), Ghost(1)),
            marginal_sym: intern_query_name(interner, "Marginal", Ghost(start), Ghost(2)),
            posterior_sym: intern_query_name(interner, "Posterior", Ghost(start), Ghost(3)),
            posterior_samples_sym: intern_query_name(
                interner,
                "PosteriorSamples",
                Ghost(start),
                Ghost(4),
            ),
            gibbs_sym: intern_query_name(interner, "Gibbs", Ghost(start), Ghost(5)),
            o_sym: intern_query_name(interner, "O", Ghost(start), Ghost(6)),
            s_sym: intern_query_name(interner, "S", Ghost(start), Ghost(7)),
            nil_sym: intern_query_name(interner, "Nil", Ghost(start), Ghost(8)),
            cons_sym: intern_query_name(interner, "Cons", Ghost(start), Ghost(9)),
            with_prior_sample_sym: intern_query_name(
                interner,
                "WithPriorSample",
                Ghost(start),
                Ghost(10),
            ),
            with_constant_sym: intern_query_name(
                interner,
                "WithConstant",
                Ghost(start),
                Ghost(11),
            ),
        };
        assert(names.take(12) =~= names);
        r
    }
}

/// The text that was registered last under a name.
pub open spec fn registered_in(files: Seq<(String, String)>, name: Seq<char>) -> Option<Seq<char>>
    decreases files.len(),
{
    if files.len() == 0 {
        None
    } else if files.last().0@ == name {
        Some(files.last().1@)
    } else {
        registered_in(files.drop_last(), name)
    }
}

/// Top-level Pluck session: the symbols, types and definitions of a program,
/// and the texts that stand for files.
pub struct PluckContext {
    pub interner: StringInterner,
    pub types: TypeRegistry,
    pub defs: DefinitionRegistry,
    pub file_registry: Vec<(String, String)>,
    pub syms: Syms,
}

impl PluckContext {
    pub open spec fn wf(self) -> bool {
        self.interner.wf() && self.defs.wf()
    }

    /// A session that knows the built-in types and nothing else.
    pub fn new() -> (r: Self)
        ensures
            r.wf(),
            r.interner@ == types::interned_all(
                types::interned_all(Seq::empty(), types::builtin_names()),
                query_names(),
            ),
            r.types@ == types::Registered::empty().with_builtins(
                types::interned_all(Seq::empty(), types::builtin_names()),
            ),
            r.defs@ == Map::<Symbol, Tree>::empty(),
            r.file_registry@.len() == 0,
            symbols_in(r.syms, r.interner@),
    {
        let mut interner = StringInterner::new();
        let mut types = TypeRegistry::new();
        types.register_builtins(&mut interner);
        let syms = Syms::new(&mut interner);
        PluckContext {
            interner,
            types,
            defs: DefinitionRegistry::new(),
            file_registry: Vec::new(),
            syms,
        }
    }
}

impl PluckContext {
    /// The text that stands for a file.
    pub open spec fn file(self, name: Seq<char>) -> Option<Seq<char>> {
        registered_in(self.file_registry@, name)
    }

    /// Let a text stand for the file of a name, in place of any before.
    pub fn register_file(&mut self, name: String, content: String)
        ensures
            forall|n: Seq<char>| #[trigger]
                final(self).file(n) == (if n == name@ {
                    Some(content@)
                } else {
                    old(self).file(n)
                }),
            final(self).interner == old(self).interner,
            final(self).types == old(self).types,
            final(self).defs == old(self).defs,
            final(self).syms == old(self).syms,
    {
        let ghost before = self.file_registry@;
        self.file_registry.push((name, content));
        assert(self.file_registry@.drop_last() =~= before);
    }

    /// The text that stands for a file, if there is one.
    pub fn registered_file(&self, name: &str) -> (r: Option<&String>)
        ensures
            match r {
                Some(t) => self.file(name@) == Some(t@),
                None => self.file(name@) is None,
            },
    {
        let mut i: usize = self.file_registry.len();
        assert(self.file_registry@.take(i as int) =~= self.file_registry@);
        while i > 0
            invariant
                i <= self.file_registry@.len(),
                self.file(name@) == registered_in(self.file_registry@.take(i as int), name@),
            decreases i,
        {
            let ghost here = self.file_registry@.take(i as int);
            i = i - 1;
            assert(here.drop_last() =~= self.file_registry@.take(i as int));
            assert(here.last() == self.file_registry@[i as int]);
            if same_text(self.file_registry[i].0.as_str(), name) {
                return Some(&self.file_registry[i].1);
            }
        }
        None
    }
}

impl Default for PluckContext {
    fn default() -> (r: Self)
        ensures
            r.wf(),
            r.interner@ == types::interned_all(
                types::interned_all(Seq::empty(), types::builtin_names()),
                query_names(),
            ),
            r.types@ == types::Registered::empty().with_builtins(
                types::interned_all(Seq::empty(), types::builtin_names()),
            ),
            r.defs@ == Map::<Symbol, Tree>::empty(),
            r.file_registry@.len() == 0,
            symbols_in(r.syms, r.interner@),
    {
        Self::new()
    }
}

/// What is to be done for a query.
#[derive(Debug)]
pub enum Request {
    /// The distribution of the value of a thunk.
    Marginal { model: PluckVal },
    /// The distribution of the value of one thunk, given that another holds.
    Posterior { model: PluckVal, evidence: PluckVal },
    /// Samples of the value of a thunk, given that another holds.
    Samples,
    /// Samples of a chain.
    Gibbs,
    /// Arguments are missing: there is nothing to do.
    Incomplete,
    /// The value is no query.
    NotAQuery,
}

/// What a value asks for, and with which arguments.
pub open spec fn request_of(v: &PluckValue, s: Syms) -> Request {
    match v {
        PluckValue::Value { constructor, args } => if *constructor == s.marginal_sym {
            if args@.len() == 0 {
                Request::Incomplete
            } else {
                Request::Marginal { model: args@[0] }
            }
        } else if *constructor == s.posterior_sym {
            if args@.len() < 2 {
                Request::Incomplete
            } else {
                Request::Posterior { model: args@[0], evidence: args@[1] }
            }
        } else if *constructor == s.posterior_samples_sym {
            if args@.len() < 3 {
                Request::Incomplete
            } else {
                Request::Samples
            }
        } else if *constructor == s.gibbs_sym {
            if args@.len() < 5 {
                Request::Incomplete
            } else {
                Request::Gibbs
            }
        } else {
            Request::NotAQuery
        },
        _ => Request::NotAQuery,
    }
}

/// Decide what a value asks for.
pub fn process_query(val: &PluckVal, syms: &Syms) -> (r: Request)
    ensures
        r == request_of(&**val, *syms),
{
    match &**val {
        PluckValue::Value { constructor, args } => if *constructor == syms.marginal_sym {
            if args.len() == 0 {
                Request::Incomplete
            } else {
                Request::Marginal { model: args[0].clone() }
            }
        } else if *constructor == syms.posterior_sym {
            if args.len() < 2 {
                Request::Incomplete
            } else {
                Request::Posterior { model: args[0].clone(), evidence: args[1].clone() }
            }
        } else if *constructor == syms.posterior_samples_sym {
            if args.len() < 3 {
                Request::Incomplete
            } else {
                Request::Samples
            }
        } else if *constructor == syms.gibbs_sym {
            if args.len() < 5 {
                Request::Incomplete
            } else {
                Request::Gibbs
            }
        } else {
            Request::NotAQuery
        },
        _ => Request::NotAQuery,
    }
}

/// The expression that conditions one variable on another.
pub open spec fn given_tree(given: Symbol, model: Symbol, evidence: Symbol) -> Tree {
    pexpr::node2(
        Head::App,
        pexpr::node2(
            Head::App,
            pexpr::leaf(Head::Defined(given)),
            pexpr::leaf(Head::Var(evidence)),
        ),
        pexpr::leaf(Head::Var(model)),
    )
}

impl PluckContext {
    /// The expression `(given evidence model)` with the two values bound in
    /// an environment, if the program defines `given`.
    pub fn build_given_expr_and_env(&mut self, model: &PluckVal, evidence: &PluckVal) -> (r: Option<
        (PExpr, Env),
    >)
        requires
            old(self).wf(),
        ensures
            final(self).wf(),
            final(self).defs == old(self).defs,
            final(self).types == old(self).types,
            final(self).file_registry == old(self).file_registry,
            final(self).syms == old(self).syms,
            ({
                let one = types::interned(old(self).interner@, "given"@);
                let given = types::symbol_in(one, "given"@);
                match r {
                    Some((e, env)) => {
                        let two = types::interned(one, "__posterior_a"@);
                        let three = types::interned(two, "__posterior_b"@);
                        let a = types::symbol_in(two, "__posterior_a"@);
                        let b = types::symbol_in(three, "__posterior_b"@);
                        &&& old(self).defs@.dom().contains(given)
                        &&& final(self).interner@ == three
                        &&& e.tree() == given_tree(given, a, b)
                        &&& *env matches EnvInner::Cons { name: n, val: v, tail: t } && n == a && v
                            == *model && (*t matches EnvInner::Cons { name: m, val: w, tail: u }
                            && m == b && w == *evidence && *u == EnvInner::Nil)
                    },
                    None => !old(self).defs@.dom().contains(given) && final(self).interner@ == one,
                }
            }),
    {
        let given_sym: Symbol = self.interner.intern("given");
        if self.defs.lookup(given_sym).is_none() {
            return None;
        }
        let a_sym: Symbol = self.interner.intern("__posterior_a");
        let b_sym: Symbol = self.interner.intern("__posterior_b");
        let inner: Env = env_cons(b_sym, evidence.clone(), empty_env());
        let env: Env = env_cons(a_sym, model.clone(), inner);
        let expr = PExpr::App {
            func: Box::new(
                PExpr::App {
                    func: Box::new(PExpr::Defined { name: given_sym }),
                    arg: Box::new(PExpr::Var { name: b_sym }),
                },
            ),
            arg: Box::new(PExpr::Var { name: a_sym }),
        };
        proof {
            reveal_with_fuel(PExpr::tree, 3);
            assert(expr.tree() == given_tree(given_sym, a_sym, b_sym));
        }
        Some((expr, env))
    }
}

/// What came of the worlds of a query.
pub enum Answer {
    /// The worlds, with everything in their values evaluated.
    Worlds(Vec<World>),
    /// A limit was reached: the worlds that could be evaluated all the same.
    Limit(Vec<World>),
    /// There were not enough steps.
    Unfinished,
}

/// What the expression of a query came to.
pub enum QueryValue {
    Single(PluckVal),
    /// Not one world: how many.
    Many(usize),
    /// A limit was reached.
    Limit,
}

impl<'a, F: Fn(RealOp, u64, u64) -> u64, G: Fn(usize, Vec<u64>) -> bool> CompilerCtx<'a, F, G> {
    /// Whatever the choices, the worlds choose what the evaluation comes to
    /// with everything evaluated.
    pub open spec fn worlds_answer(&self, w: Seq<World>, s: Sem) -> bool {
        forall|a: Worlds, x: Model| #[trigger]
            self.allows(a, x) ==> exists|o: Outcome| #[trigger]
                ctx::reached(s, a, x, o) && distribution::stands_for(values::pick(w, a), x, o)
    }

    /// The worlds are some of those that choose what the evaluation comes to,
    /// with everything in them evaluated.
    pub open spec fn worlds_of(&self, w: Seq<World>, s: Sem) -> bool {
        &&& distribution::all_resolved(w)
        &&& values::entries_over(w, self.vars())
        &&& w.len() > 0 ==> exists|p: Seq<World>| #[trigger] self.worlds_continue(p, w, s)
    }

    /// Whatever the choices, the worlds of the two lists choose what the
    /// evaluation comes to, or what stands for it.
    pub open spec fn worlds_continue(&self, p: Seq<World>, w: Seq<World>, s: Sem) -> bool {
        forall|a: Worlds, x: Model| #[trigger]
            self.allows(a, x) ==> exists|o: Outcome| #[trigger]
                ctx::reached(s, a, x, o) && distribution::stands_for(distribution::both(p, w, a), x, o)
    }

    /// Somewhere the evaluation ends at the limit, or that of a part of its
    /// value does.
    pub open spec fn out_of_depth(&self, s: Sem) -> bool {
        ||| self.stuck(BooleanFunction::True, s)
        ||| exists|a: Worlds, x: Model, o: Outcome| #[trigger]
            ctx::reached(s, a, x, o) && self.allows(a, x) && distribution::ended(o, x, self.fuel())
                == Outcome::Stuck
    }

    /// The worlds choose what the evaluation comes to, whatever the choices.
    /// Each is possible, and those with one constructor are merged.
    pub open spec fn answered_by(&self, w: GuardedWorlds, s: Sem) -> bool {
        self.right(w, s) && ctx::covers(w, BooleanFunction::True) && monad::tidy(w.0@)
    }

    /// After `budget` worlds were worked on, there are more to work on.
    pub open spec fn still_working(&self, s: Sem, budget: nat) -> bool {
        exists|w: GuardedWorlds, q: Seq<World>, r: Seq<World>| #[trigger]
            distribution::worked_through(w.0@, budget, q, r) && q.len() > 0 && self.answered_by(w, s)
    }

    /// Evaluate everything in the values of worlds.
    fn finish_worlds(&mut self, first: GuardedWorlds, budget: usize, Ghost(s): Ghost<Sem>) -> (r:
        Answer)
        requires
            old(self).wf(),
            !old(self).state.hit_limit,
            old(self).shaped(first),
            old(self).right(first, s),
            ctx::covers(first, BooleanFunction::True),
            monad::tidy(first.0@),
            old(self).total(BooleanFunction::True, s),
        ensures
            old(self).step(final(self)),
            r is Limit == final(self).state.hit_limit,
            r matches Answer::Limit(w) ==> final(self).out_of_depth(s) && final(self).worlds_of(w@, s),
            r is Unfinished ==> final(self).still_working(s, budget as nat),
            r matches Answer::Worlds(w) ==> {
                &&& distribution::all_resolved(w@)
                &&& values::entries_over(w@, final(self).vars())
                &&& final(self).worlds_answer(w@, s)
            },
    {
        let ghost start = *self;
        let ghost w = first;
        let (worlds, guard) = first;
        let ghost before = worlds@;
        proof {
            assert forall|a: Worlds, x: Model| #[trigger] self.allows(a, x) implies values::pick(
                before,
                a,
            ) != Outcome::Stuck by {
                assert(BooleanFunction::True.eval(a));
                assert(ctx::reached(s, a, x, values::pick(before, a)));
            }
        }
        let full: FullDistribution = self.infer_full_distribution(worlds, budget);
        proof {
            start.lemma_right_grows(self, w, s);
            if self.state.hit_limit {
                let (a, x) = choose|a: Worlds, x: Model| #[trigger]
                    self.allows(a, x) && distribution::ended(values::pick(before, a), x, self.fuel())
                        == Outcome::Stuck;
                assert(BooleanFunction::True.eval(a));
                assert(start.allows(a, x));
                assert(ctx::reached(s, a, x, values::pick(before, a)));
            }
        }
        if self.state.hit_limit {
            proof {
                assert forall|a: Worlds, x: Model| #[trigger] self.allows(a, x) implies exists|
                    o: Outcome,
                | #[trigger]
                    ctx::reached(s, a, x, o) && distribution::stands_for(
                        distribution::both(full.pending@, full.resolved@, a),
                        x,
                        o,
                    ) by {
                    assert(self.state.fits(a, x));
                    assert(start.allows(a, x));
                    assert(BooleanFunction::True.eval(a));
                    let o = values::pick(before, a);
                    assert(ctx::reached(s, a, x, o));
                    assert(distribution::stands_for(
                        distribution::both(full.pending@, full.resolved@, a),
                        x,
                        o,
                    ));
                }
                assert(self.worlds_continue(full.pending@, full.resolved@, s));
            }
            return Answer::Limit(full.resolved);
        }
        if full.pending.len() > 0 {
            proof {
                assert((budget - full.steps_left) as nat == budget as nat);
                assert(w.0@ == before);
                assert(self.answered_by(w, s));
                assert(distribution::worked_through(
                    w.0@,
                    budget as nat,
                    full.pending@,
                    full.resolved@,
                ));
            }
            return Answer::Unfinished;
        }
        proof {
            assert forall|a: Worlds, x: Model| #[trigger] self.allows(a, x) implies exists|
                o: Outcome,
            | #[trigger]
                ctx::reached(s, a, x, o) && distribution::stands_for(
                    values::pick(full.resolved@, a),
                    x,
                    o,
                ) by {
                assert(self.state.fits(a, x));
                assert(start.allows(a, x));
                assert(BooleanFunction::True.eval(a));
                let o = values::pick(before, a);
                assert(ctx::reached(s, a, x, o));
                assert(distribution::stands_for(
                    distribution::both(full.pending@, full.resolved@, a),
                    x,
                    o,
                ));
                assert(distribution::both(full.pending@, full.resolved@, a) == values::pick(
                    full.resolved@,
                    a,
                ));
            }
        }
        Answer::Worlds(full.resolved)
    }

    /// The worlds of the value of a thunk.
    pub fn marginal_worlds(&mut self, thunk: &PluckVal, budget: usize) -> (r: Answer)
        requires
            old(self).wf(),
            !old(self).state.hit_limit,
            thunk.over(old(self).vars()),
            forall|a: Worlds| (#[trigger] thunk.at(a)) is Some,
        ensures
            old(self).step(final(self)),
            r is Limit == final(self).state.hit_limit,
            r matches Answer::Limit(w) ==> {
                &&& final(self).out_of_depth(ctx::forcing(*thunk))
                &&& final(self).worlds_of(w@, ctx::forcing(*thunk))
            },
            r is Unfinished ==> final(self).still_working(ctx::forcing(*thunk), budget as nat),
            r matches Answer::Worlds(w) ==> {
                &&& distribution::all_resolved(w@)
                &&& values::entries_over(w@, final(self).vars())
                &&& final(self).worlds_answer(w@, ctx::forcing(*thunk))
            },
    {
        let ghost start = *self;
        let ghost s = ctx::forcing(*thunk);
        let always: BooleanFunction = BooleanFunction::true_ptr();
        let first: GuardedWorlds = self.evaluate_thunk(thunk, &always);
        let ghost mid = *self;
        if self.state.hit_limit {
            return Answer::Limit(Vec::new());
        }
        proof {
            start.lemma_total_grows(self, always, s);
        }
        let r: Answer = self.finish_worlds(first, budget, Ghost(s));
        proof {
            start.lemma_step_trans(&mid, self);
        }
        r
    }

    /// The worlds of an expression in an environment.
    pub fn posterior_worlds(&mut self, expr: &PExpr, env: &Env, budget: usize) -> (r: Answer)
        requires
            old(self).wf(),
            !old(self).state.hit_limit,
            env.over(old(self).vars()),
            forall|a: Worlds| (#[trigger] env.at(a)) is Some,
        ensures
            old(self).step(final(self)),
            r is Limit == final(self).state.hit_limit,
            r matches Answer::Limit(w) ==> final(self).out_of_depth(
                kont::calling(expr.tree(), *env, 0, old(self).state.callstack@),
            ) && final(self).worlds_of(
                w@,
                kont::calling(expr.tree(), *env, 0, old(self).state.callstack@),
            ),
            r is Unfinished ==> final(self).still_working(kont::calling(expr.tree(), *env, 0, old(self).state.callstack@), budget as nat),
            r matches Answer::Worlds(w) ==> {
                &&& distribution::all_resolved(w@)
                &&& values::entries_over(w@, final(self).vars())
                &&& final(self).worlds_answer(
                    w@,
                    kont::calling(expr.tree(), *env, 0, old(self).state.callstack@),
                )
            },
    {
        let ghost start = *self;
        let ghost s = kont::calling(expr.tree(), *env, 0, self.state.callstack@);
        let always: BooleanFunction = BooleanFunction::true_ptr();
        let first: GuardedWorlds = self.traced_compile(expr, env, &always, 0);
        let ghost mid = *self;
        if self.state.hit_limit {
            return Answer::Limit(Vec::new());
        }
        proof {
            start.lemma_total_grows(self, always, s);
        }
        let r: Answer = self.finish_worlds(first, budget, Ghost(s));
        proof {
            start.lemma_step_trans(&mid, self);
        }
        r
    }

    /// The value of the expression of a query, which must be the same in all
    /// worlds that have one.
    pub fn get_query_val(&mut self, expr: &PExpr) -> (r: QueryValue)
        requires
            old(self).wf(),
            !old(self).state.hit_limit,
        ensures
            old(self).step(final(self)),
            r is Limit == final(self).state.hit_limit,
            r is Limit ==> final(self).stuck(
                BooleanFunction::True,
                kont::calling(
                    expr.tree(),
                    Rc::new(EnvInner::Nil),
                    0,
                    old(self).state.callstack@,
                ),
            ),
            r matches QueryValue::Many(n) ==> n != 1 && exists|w: GuardedWorlds| #[trigger]
                final(self).answered_by(
                    w,
                    kont::calling(
                        expr.tree(),
                        Rc::new(EnvInner::Nil),
                        0,
                        old(self).state.callstack@,
                    ),
                ) && w.0@.len() == n,
            r matches QueryValue::Single(v) ==> {
                &&& v.over(final(self).vars())
                &&& forall|a: Worlds, x: Model| #[trigger]
                    final(self).allows(a, x) ==> exists|o: Outcome| #[trigger]
                        ctx::reached(
                            kont::calling(
                                expr.tree(),
                                Rc::new(EnvInner::Nil),
                                0,
                                old(self).state.callstack@,
                            ),
                            a,
                            x,
                            o,
                        ) && is_value(o, *v, a)
            },
    {
        let env: Env = empty_env();
        let ghost s = kont::calling(expr.tree(), env, 0, self.state.callstack@);
        let always: BooleanFunction = BooleanFunction::true_ptr();
        let (mut worlds, guard) = self.traced_compile(expr, &env, &always, 0);
        if self.state.hit_limit {
            return QueryValue::Limit;
        }
        let n: usize = worlds.len();
        if n != 1 {
            assert(self.answered_by((worlds, guard), s));
            return QueryValue::Many(n);
        }
        let ghost all = worlds@;
        match worlds.pop() {
            Some((v, _)) => {
                proof {
                    let e = all[0];
                    assert(all.drop_last() =~= Seq::empty());
                    assert(v.over(self.vars()));
                    assert forall|a: Worlds, x: Model| #[trigger] self.allows(a, x) implies exists|
                        o: Outcome,
                    | #[trigger] ctx::reached(s, a, x, o) && is_value(o, *v, a) by {
                        assert(BooleanFunction::True.eval(a));
                        let o = values::pick(all, a);
                        assert(ctx::reached(s, a, x, o));
                        assert(is_value(o, *v, a)) by {
                            reveal_with_fuel(values::pick, 2);
                            assert(all.last() == e);
                        }
                    }
                }
                QueryValue::Single(v)
            },
            None => QueryValue::Many(0),
        }
    }
}

/// The outcome is the value, unless it is a failure.
pub open spec fn is_value(o: Outcome, v: PluckValue, a: Worlds) -> bool {
    match o {
        Outcome::Done(d) => v.at(a) == Some(d),
        Outcome::Fail => true,
        Outcome::Stuck => false,
    }
}

} // verus!
