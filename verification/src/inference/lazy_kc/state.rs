//! The state of a compilation: the random choices met so far, each at its
//! place in the order of the variables, and the continuous variables.

use vstd::prelude::*;

use super::callstack::Callstack;
use super::monad::GuardedWorlds;
use super::semantics;
use super::semantics::{Event, Law, Model};
use crate::discrete_factorizations as factorizations;
use crate::discrete_factorizations::{BooleanFunction, Factorizer, Worlds};
use crate::language::pexpr::NativeVal;
use crate::language::values;
use crate::language::values::{PluckVal, PluckValue};

verus! {

/// Configuration for the lazy knowledge compilation engine.
#[derive(Debug, Clone, Copy)]
pub struct LazyKCConfig {
    /// How deep an evaluation may go, where each level of a pinned value
    /// counts too; none for as deep as can be counted.
    pub max_depth: Option<usize>,
}

/// The greatest depth that can be counted.
pub const DEEPEST: usize = usize::MAX - 1;

impl Default for LazyKCConfig {
    fn default() -> (r: Self)
        ensures
            r.max_depth is None,
    {
        LazyKCConfig { max_depth: None }
    }
}

impl LazyKCConfig {
    /// The depth at which an evaluation gives up.
    pub open spec fn limit(self) -> usize {
        match self.max_depth {
            Some(n) => if n < DEEPEST {
                n
            } else {
                DEEPEST
            },
            None => DEEPEST,
        }
    }

    pub(crate) fn depth_limit(&self) -> (r: usize)
        ensures
            r == self.limit(),
    {
        match self.max_depth {
            Some(n) => if n < DEEPEST {
                n
            } else {
                DEEPEST
            },
            None => DEEPEST,
        }
    }
}

/// Statistics collected during compilation.
#[derive(Debug)]
pub struct LazyKCStats {
    pub num_compile_calls: usize,
    pub num_cache_hits: usize,
    pub num_cache_misses: usize,
    pub num_thunk_first_eval: usize,
    pub num_thunk_widen: usize,
    pub num_tu_eval: usize,
    pub num_false_pc_exits: usize,
}

impl Default for LazyKCStats {
    fn default() -> (r: Self)
        ensures
            r == (LazyKCStats {
                num_compile_calls: 0,
                num_cache_hits: 0,
                num_cache_misses: 0,
                num_thunk_first_eval: 0,
                num_thunk_widen: 0,
                num_tu_eval: 0,
                num_false_pc_exits: 0,
            }),
    {
        LazyKCStats {
            num_compile_calls: 0,
            num_cache_hits: 0,
            num_cache_misses: 0,
            num_thunk_first_eval: 0,
            num_thunk_widen: 0,
            num_tu_eval: 0,
            num_false_pc_exits: 0,
        }
    }
}

impl LazyKCStats {
    /// No counter is lower in `next`.
    pub open spec fn counts_on(self, next: LazyKCStats) -> bool {
        &&& self.num_compile_calls <= next.num_compile_calls
        &&& self.num_cache_hits <= next.num_cache_hits
        &&& self.num_cache_misses <= next.num_cache_misses
        &&& self.num_thunk_first_eval <= next.num_thunk_first_eval
        &&& self.num_thunk_widen <= next.num_thunk_widen
        &&& self.num_tu_eval <= next.num_tu_eval
        &&& self.num_false_pc_exits <= next.num_false_pc_exits
    }
}

/// One more, if there is room for it.
pub open spec fn one_more(n: usize) -> usize {
    if n < usize::MAX {
        (n + 1) as usize
    } else {
        n
    }
}

/// One more, if there is room for it.
pub fn bumped(n: usize) -> (r: usize)
    ensures
        r == one_more(n),
{
    if n < usize::MAX {
        n + 1
    } else {
        n
    }
}

/// The event that a boolean variable stands for.
#[derive(Debug)]
#[allow(inconsistent_fields)]
pub enum FlipWeight {
    /// Standard flip with known probability.
    Constant(u64),
    /// A flip with a Beta variable as its probability.
    Beta(u64),
    /// A Beta variable has a value.
    ProbPin(u64, u64),
    /// A flip with an element of a Dirichlet variable as its probability.
    Element { name: u64, index: usize, categories: usize },
    /// A stick of a categorical draw from a Dirichlet variable.
    Stick { name: u64, index: usize },
    /// A Dirichlet variable has a value.
    VecPin { name: u64, value: Vec<u64> },
    /// A scaled Gamma variable has a value.
    RatePin { name: u64, value: u64, scale: u64 },
    /// An Exponential draw has a value.
    ExpEq { gamma: u64, draw: u64, value: u64, scale: u64 },
    /// An Exponential draw is below a bound, or not below it.
    ExpInterval { gamma: u64, draw: u64, below: bool, bound: u64, scale: u64 },
    /// A Poisson draw is a number.
    PoissonEq { gamma: u64, draw: u64, count: u64, scale: u64 },
    /// A Poisson draw is below a bound, or not below it.
    PoissonInterval { gamma: u64, draw: u64, below: bool, bound: u64, scale: u64 },
    /// An affine combination of Gaussian variables has a value.
    GaussianObs { constant: u64, coefficients: Vec<(u64, u64)>, observed: u64 },
}

impl View for FlipWeight {
    type V = Event;

    open spec fn view(&self) -> Event {
        match self {
            FlipWeight::Constant(p) => Event::Constant(*p),
            FlipWeight::Beta(n) => Event::Beta(*n),
            FlipWeight::ProbPin(n, r) => Event::ProbPin(*n, *r),
            FlipWeight::Element { name, index, categories } => Event::Element {
                name: *name,
                index: *index,
                categories: *categories,
            },
            FlipWeight::Stick { name, index } => Event::Stick { name: *name, index: *index },
            FlipWeight::VecPin { name, value } => Event::VecPin { name: *name, value: value@ },
            FlipWeight::RatePin { name, value, scale } => Event::RatePin {
                name: *name,
                value: *value,
                scale: *scale,
            },
            FlipWeight::ExpEq { gamma, draw, value, scale } => Event::ExpEq {
                gamma: *gamma,
                draw: *draw,
                value: *value,
                scale: *scale,
            },
            FlipWeight::ExpInterval { gamma, draw, below, bound, scale } => Event::ExpInterval {
                gamma: *gamma,
                draw: *draw,
                below: *below,
                bound: *bound,
                scale: *scale,
            },
            FlipWeight::PoissonEq { gamma, draw, count, scale } => Event::PoissonEq {
                gamma: *gamma,
                draw: *draw,
                count: *count,
                scale: *scale,
            },
            FlipWeight::PoissonInterval {
                gamma,
                draw,
                below,
                bound,
                scale,
            } => Event::PoissonInterval {
                gamma: *gamma,
                draw: *draw,
                below: *below,
                bound: *bound,
                scale: *scale,
            },
            FlipWeight::GaussianObs { constant, coefficients, observed } => Event::GaussianObs {
                constant: *constant,
                coefficients: coefficients@,
                observed: *observed,
            },
        }
    }
}

impl FlipWeight {
    /// What tells the events at one callstack apart.
    pub fn discriminator(&self) -> (r: Vec<u64>)
        ensures
            r@ == self@.code(),
    {
        match self {
            FlipWeight::Constant(p) => numbers2(0, *p),
            FlipWeight::Beta(n) => numbers2(1, *n),
            FlipWeight::ProbPin(n, r) => numbers3(2, *n, *r),
            FlipWeight::Element { name, index, categories } => {
                let mut v: Vec<u64> = numbers3(3, *name, *index as u64);
                v.push(*categories as u64);
                assert(v@ =~= self@.code());
                v
            },
            FlipWeight::Stick { name, index } => numbers3(4, *name, *index as u64),
            FlipWeight::VecPin { name, value } => {
                let mut v: Vec<u64> = numbers2(5, *name);
                append_numbers(&mut v, value);
                v
            },
            FlipWeight::RatePin { name, value, scale } => {
                let mut v: Vec<u64> = numbers3(6, *name, *value);
                v.push(*scale);
                assert(v@ =~= self@.code());
                v
            },
            FlipWeight::ExpEq { gamma, draw, value, scale } => {
                let mut v: Vec<u64> = numbers3(7, *gamma, *draw);
                v.push(*value);
                v.push(*scale);
                assert(v@ =~= self@.code());
                v
            },
            FlipWeight::ExpInterval { gamma, draw, below, bound, scale } => {
                let mut v: Vec<u64> = numbers3(8, *gamma, *draw);
                v.push(
                    if *below {
                        1
                    } else {
                        0
                    },
                );
                v.push(*bound);
                v.push(*scale);
                assert(v@ =~= self@.code());
                v
            },
            FlipWeight::PoissonEq { gamma, draw, count, scale } => {
                let mut v: Vec<u64> = numbers3(9, *gamma, *draw);
                v.push(*count);
                v.push(*scale);
                assert(v@ =~= self@.code());
                v
            },
            FlipWeight::PoissonInterval { gamma, draw, below, bound, scale } => {
                let mut v: Vec<u64> = numbers3(10, *gamma, *draw);
                v.push(
                    if *below {
                        1
                    } else {
                        0
                    },
                );
                v.push(*bound);
                v.push(*scale);
                assert(v@ =~= self@.code());
                v
            },
            FlipWeight::GaussianObs { constant, coefficients, observed } => {
                let mut v: Vec<u64> = numbers3(11, *constant, *observed);
                let ghost start = v@;
                let mut i: usize = 0;
                assert(start + semantics::flattened(coefficients@.take(0)) =~= start);
                while i < coefficients.len()
                    invariant
                        i <= coefficients@.len(),
                        v@ == start + semantics::flattened(coefficients@.take(i as int)),
                    decreases coefficients@.len() - i,
                {
                    v.push(coefficients[i].0);
                    v.push(coefficients[i].1);
                    proof {
                        let head = coefficients@.take(i as int);
                        let next = coefficients@.take(i + 1);
                        assert(next.drop_last() =~= head);
                        assert(v@ =~= start + semantics::flattened(next));
                    }
                    i = i + 1;
                }
                assert(coefficients@.take(coefficients@.len() as int) =~= coefficients@);
                v
            },
        }
    }

    /// The same event.
    pub fn duplicate(&self) -> (r: FlipWeight)
        ensures
            r@ == self@,
    {
        match self {
            FlipWeight::Constant(p) => FlipWeight::Constant(*p),
            FlipWeight::Beta(n) => FlipWeight::Beta(*n),
            FlipWeight::ProbPin(n, r) => FlipWeight::ProbPin(*n, *r),
            FlipWeight::Element { name, index, categories } => FlipWeight::Element {
                name: *name,
                index: *index,
                categories: *categories,
            },
            FlipWeight::Stick { name, index } => FlipWeight::Stick { name: *name, index: *index },
            FlipWeight::VecPin { name, value } => FlipWeight::VecPin {
                name: *name,
                value: clone_numbers(value),
            },
            FlipWeight::RatePin { name, value, scale } => FlipWeight::RatePin {
                name: *name,
                value: *value,
                scale: *scale,
            },
            FlipWeight::ExpEq { gamma, draw, value, scale } => FlipWeight::ExpEq {
                gamma: *gamma,
                draw: *draw,
                value: *value,
                scale: *scale,
            },
            FlipWeight::ExpInterval { gamma, draw, below, bound, scale } => FlipWeight::ExpInterval {
                gamma: *gamma,
                draw: *draw,
                below: *below,
                bound: *bound,
                scale: *scale,
            },
            FlipWeight::PoissonEq { gamma, draw, count, scale } => FlipWeight::PoissonEq {
                gamma: *gamma,
                draw: *draw,
                count: *count,
                scale: *scale,
            },
            FlipWeight::PoissonInterval {
                gamma,
                draw,
                below,
                bound,
                scale,
            } => FlipWeight::PoissonInterval {
                gamma: *gamma,
                draw: *draw,
                below: *below,
                bound: *bound,
                scale: *scale,
            },
            FlipWeight::GaussianObs { constant, coefficients, observed } => FlipWeight::GaussianObs {
                constant: *constant,
                coefficients: values::clone_pairs(coefficients),
                observed: *observed,
            },
        }
    }

    /// True for measure-zero observations.
    pub fn is_pinned_observation(&self) -> (r: bool)
        ensures
            r == self@.pinned(),
    {
        matches!(
            self,
            FlipWeight::ProbPin(_, _)
                | FlipWeight::VecPin { .. }
                | FlipWeight::RatePin { .. }
                | FlipWeight::ExpEq { .. }
                | FlipWeight::GaussianObs { .. }
        )
    }
}

impl PluckValue {
    /// The event of a flip with this value as its probability; none for what
    /// is no probability.
    pub fn flip_weight(&self) -> (r: Option<FlipWeight>)
        ensures
            match *self {
                PluckValue::Native(NativeVal::Float(p)) => r == Some(FlipWeight::Constant(p)),
                PluckValue::Probability(n) => r == Some(FlipWeight::Beta(n)),
                PluckValue::DirichletProbability { name, index, categories } => r == Some(
                    FlipWeight::Element { name, index, categories },
                ),
                _ => r is None,
            },
    {
        match self {
            PluckValue::Native(NativeVal::Float(p)) => Some(FlipWeight::Constant(*p)),
            PluckValue::Probability(n) => Some(FlipWeight::Beta(*n)),
            PluckValue::DirichletProbability { name, index, categories } => Some(
                FlipWeight::Element { name: *name, index: *index, categories: *categories },
            ),
            _ => None,
        }
    }
}

fn numbers2(a: u64, b: u64) -> (r: Vec<u64>)
    ensures
        r@ == seq![a, b],
{
    let mut v: Vec<u64> = Vec::new();
    v.push(a);
    v.push(b);
    assert(v@ =~= seq![a, b]);
    v
}

fn numbers3(a: u64, b: u64, c: u64) -> (r: Vec<u64>)
    ensures
        r@ == seq![a, b, c],
{
    let mut v: Vec<u64> = numbers2(a, b);
    v.push(c);
    assert(v@ =~= seq![a, b, c]);
    v
}

fn append_numbers(v: &mut Vec<u64>, more: &Vec<u64>)
    ensures
        final(v)@ == old(v)@ + more@,
{
    let ghost start = v@;
    let mut i: usize = 0;
    assert(start + more@.take(0) =~= start);
    while i < more.len()
        invariant
            i <= more@.len(),
            v@ == start + more@.take(i as int),
        decreases more@.len() - i,
    {
        v.push(more[i]);
        assert(v@ =~= start + more@.take(i + 1));
        i = i + 1;
    }
    assert(more@.take(more@.len() as int) =~= more@);
}

/// Lists in the order of their first difference; a beginning comes first.
pub open spec fn earlier(a: Seq<int>, b: Seq<int>) -> bool
    decreases a.len(),
{
    if b.len() == 0 {
        false
    } else if a.len() == 0 {
        true
    } else {
        a[0] < b[0] || (a[0] == b[0] && earlier(a.skip(1), b.skip(1)))
    }
}

pub proof fn lemma_earlier_irreflexive(a: Seq<int>)
    ensures
        !earlier(a, a),
    decreases a.len(),
{
    if a.len() > 0 {
        lemma_earlier_irreflexive(a.skip(1));
    }
}

pub proof fn lemma_earlier_transitive(a: Seq<int>, b: Seq<int>, c: Seq<int>)
    requires
        earlier(a, b),
        earlier(b, c),
    ensures
        earlier(a, c),
    decreases a.len(),
{
    if a.len() > 0 && a[0] == b[0] && b[0] == c[0] {
        lemma_earlier_transitive(a.skip(1), b.skip(1), c.skip(1));
    }
}

pub proof fn lemma_earlier_total(a: Seq<int>, b: Seq<int>)
    ensures
        earlier(a, b) || earlier(b, a) || a == b,
    decreases a.len(),
{
    if a.len() > 0 && b.len() > 0 {
        lemma_earlier_total(a.skip(1), b.skip(1));
        if a[0] == b[0] && a.skip(1) == b.skip(1) {
            assert(a =~= seq![a[0]] + a.skip(1));
            assert(b =~= seq![b[0]] + b.skip(1));
        }
    } else if a.len() == 0 && b.len() == 0 {
        assert(a =~= b);
    }
}

/// A callstack and what tells the events there apart.
pub struct Address {
    pub stack: Seq<i32>,
    pub code: Seq<u64>,
}

pub open spec fn stack_key(s: Seq<i32>) -> Seq<int> {
    Seq::new(s.len(), |i: int| s[i] as int)
}

pub open spec fn code_key(s: Seq<u64>) -> Seq<int> {
    Seq::new(s.len(), |i: int| s[i] as int)
}

/// The order of the variables: by callstack, then by event.
pub open spec fn before(p: Address, q: Address) -> bool {
    earlier(stack_key(p.stack), stack_key(q.stack)) || (p.stack == q.stack && earlier(
        code_key(p.code),
        code_key(q.code),
    ))
}

pub proof fn lemma_before_transitive(p: Address, q: Address, r: Address)
    requires
        before(p, q),
        before(q, r),
    ensures
        before(p, r),
{
    if earlier(stack_key(p.stack), stack_key(q.stack)) {
        if earlier(stack_key(q.stack), stack_key(r.stack)) {
            lemma_earlier_transitive(stack_key(p.stack), stack_key(q.stack), stack_key(r.stack));
        }
    } else if p.stack == q.stack && q.stack == r.stack && earlier(
        code_key(q.code),
        code_key(r.code),
    ) {
        lemma_earlier_transitive(code_key(p.code), code_key(q.code), code_key(r.code));
    }
}

pub proof fn lemma_before_irreflexive(p: Address)
    ensures
        !before(p, p),
{
    lemma_earlier_irreflexive(stack_key(p.stack));
    lemma_earlier_irreflexive(code_key(p.code));
}

/// How two places in an order relate.
#[derive(Debug, Clone, Copy, PartialEq, Eq, Structural)]
enum Relation {
    Before,
    Same,
    Behind,
}

fn relate_stacks(a: &Vec<i32>, b: &[i32]) -> (r: Relation)
    ensures
        r == Relation::Before ==> earlier(stack_key(a@), stack_key(b@)),
        r == Relation::Same ==> a@ == b@,
        r == Relation::Behind ==> earlier(stack_key(b@), stack_key(a@)),
{
    let mut i: usize = 0;
    let ghost p = stack_key(a@);
    let ghost q = stack_key(b@);
    proof {
        assert(p.skip(0) =~= p);
        assert(q.skip(0) =~= q);
    }
    while i < a.len() && i < b.len() && a[i] == b[i]
        invariant
            i <= a@.len(),
            i <= b@.len(),
            p == stack_key(a@),
            q == stack_key(b@),
            a@.take(i as int) == b@.take(i as int),
            earlier(p.skip(i as int), q.skip(i as int)) ==> earlier(p, q),
            earlier(q.skip(i as int), p.skip(i as int)) ==> earlier(q, p),
        decreases a@.len() - i,
    {
        proof {
            let u = p.skip(i as int);
            let v = q.skip(i as int);
            assert(u.skip(1) =~= p.skip(i + 1));
            assert(v.skip(1) =~= q.skip(i + 1));
            assert(a@.take(i + 1) =~= a@.take(i as int).push(a@[i as int]));
            assert(b@.take(i + 1) =~= b@.take(i as int).push(b@[i as int]));
        }
        i = i + 1;
    }
    if i < a.len() && i < b.len() {
        if a[i] < b[i] {
            Relation::Before
        } else {
            Relation::Behind
        }
    } else if i < b.len() {
        Relation::Before
    } else if i < a.len() {
        Relation::Behind
    } else {
        assert(a@.take(i as int) =~= a@);
        assert(b@.take(i as int) =~= b@);
        Relation::Same
    }
}

fn relate_codes(a: &Vec<u64>, b: &Vec<u64>) -> (r: Relation)
    ensures
        r == Relation::Before ==> earlier(code_key(a@), code_key(b@)),
        r == Relation::Same ==> a@ == b@,
        r == Relation::Behind ==> earlier(code_key(b@), code_key(a@)),
{
    let mut i: usize = 0;
    let ghost p = code_key(a@);
    let ghost q = code_key(b@);
    proof {
        assert(p.skip(0) =~= p);
        assert(q.skip(0) =~= q);
    }
    while i < a.len() && i < b.len() && a[i] == b[i]
        invariant
            i <= a@.len(),
            i <= b@.len(),
            p == code_key(a@),
            q == code_key(b@),
            a@.take(i as int) == b@.take(i as int),
            earlier(p.skip(i as int), q.skip(i as int)) ==> earlier(p, q),
            earlier(q.skip(i as int), p.skip(i as int)) ==> earlier(q, p),
        decreases a@.len() - i,
    {
        proof {
            let u = p.skip(i as int);
            let v = q.skip(i as int);
            assert(u.skip(1) =~= p.skip(i + 1));
            assert(v.skip(1) =~= q.skip(i + 1));
            assert(a@.take(i + 1) =~= a@.take(i as int).push(a@[i as int]));
            assert(b@.take(i + 1) =~= b@.take(i as int).push(b@[i as int]));
        }
        i = i + 1;
    }
    if i < a.len() && i < b.len() {
        if a[i] < b[i] {
            Relation::Before
        } else {
            Relation::Behind
        }
    } else if i < b.len() {
        Relation::Before
    } else if i < a.len() {
        Relation::Behind
    } else {
        assert(a@.take(i as int) =~= a@);
        assert(b@.take(i as int) =~= b@);
        Relation::Same
    }
}

/// A random choice that was met: where, what it decides, and the variable
/// that stands for it.
pub struct Choice {
    pub stack: Vec<i32>,
    pub code: Vec<u64>,
    pub weight: FlipWeight,
    pub label: u64,
    pub var: BooleanFunction,
}

impl Choice {
    pub open spec fn address(&self) -> Address {
        Address { stack: self.stack@, code: self.code@ }
    }

    /// The variable is in the order at `i` and says what the choice does.
    pub open spec fn wf(&self, fac: Factorizer, i: int) -> bool {
        &&& fac.vars()[i] == self.label
        &&& fac.owns(self.var)
        &&& forall|a: Worlds| #[trigger] self.var.eval(a) == a(self.label)
        &&& self.weight@.code() == self.code@
    }
}

/// A continuous variable that was met: where, and under which name.
pub struct Naming {
    pub stack: Vec<i32>,
    pub name: u64,
}

/// A block of correlated continuous variables that was met: where, with which
/// means and covariances, and under which names.
pub struct Block {
    pub stack: Vec<i32>,
    pub params: Vec<u64>,
    pub names: Vec<u64>,
}

/// The distribution of a continuous variable before anything is observed.
#[derive(Debug)]
#[allow(inconsistent_fields)]
pub enum Prior {
    Beta { a: u64, b: u64 },
    Gamma { shape: u64, rate: u64 },
    /// A rate that is known.
    Pinned { value: u64 },
    Dirichlet { alphas: Vec<u64> },
    Gaussian { mu: u64, sigma: u64 },
    /// One of the correlated variables from `first` on, with the means and
    /// the covariances of all.
    Correlated { first: u64, mu_and_cov: Vec<u64> },
    /// A draw whose rate is the variable `gamma` times `scale`.
    Draw { poisson: bool, gamma: u64, scale: u64 },
}

impl View for Prior {
    type V = Law;

    open spec fn view(&self) -> Law {
        match self {
            Prior::Beta { a, b } => Law::Beta { a: *a, b: *b },
            Prior::Gamma { shape, rate } => Law::Gamma { shape: *shape, rate: *rate },
            Prior::Pinned { value } => Law::Pinned { value: *value },
            Prior::Dirichlet { alphas } => Law::Dirichlet { alphas: alphas@ },
            Prior::Gaussian { mu, sigma } => Law::Gaussian { mu: *mu, sigma: *sigma },
            Prior::Correlated { first, mu_and_cov } => Law::Correlated {
                first: *first,
                mu_and_cov: mu_and_cov@,
            },
            Prior::Draw { poisson, gamma, scale } => Law::Draw {
                poisson: *poisson,
                gamma: *gamma,
                scale: *scale,
            },
        }
    }
}

/// Are the distributions the same?
fn same_prior(p: &Prior, q: &Prior) -> (r: bool)
    ensures
        r == (p@ == q@),
{
    match (p, q) {
        (Prior::Beta { a, b }, Prior::Beta { a: c, b: d }) => *a == *c && *b == *d,
        (Prior::Gamma { shape, rate }, Prior::Gamma { shape: s, rate: t }) => *shape == *s && *rate
            == *t,
        (Prior::Pinned { value }, Prior::Pinned { value: v }) => *value == *v,
        (Prior::Dirichlet { alphas }, Prior::Dirichlet { alphas: s }) => same_params(alphas, s),
        (Prior::Gaussian { mu, sigma }, Prior::Gaussian { mu: m, sigma: s }) => *mu == *m && *sigma
            == *s,
        (
            Prior::Correlated { first, mu_and_cov },
            Prior::Correlated { first: f, mu_and_cov: s },
        ) => *first == *f && same_params(mu_and_cov, s),
        (
            Prior::Draw { poisson, gamma, scale },
            Prior::Draw { poisson: p, gamma: g, scale: s },
        ) => *poisson == *p && *gamma == *g && *scale == *s,
        _ => false,
    }
}

/// What the evaluation of a thunk came to, where it was evaluated.
pub struct CacheEntry {
    pub thunk: PluckVal,
    pub worlds: GuardedWorlds,
}

/// The main state for lazy knowledge compilation.
pub struct LazyKCState {
    pub factorizer: Factorizer,
    /// Current callstack for variable ordering.
    pub callstack: Callstack,
    /// The choices in the order of their variables.
    pub choices: Vec<Choice>,
    pub names: Vec<Naming>,
    pub blocks: Vec<Block>,
    /// The distribution of each continuous variable, by name.
    pub priors: Vec<Prior>,
    /// The evaluated thunks.
    pub cache: Vec<CacheEntry>,
    /// Compilation depth.
    pub depth: usize,
    pub stats: LazyKCStats,
    pub cfg: LazyKCConfig,
    /// Whether we hit a limit, or an operation without a meaning.
    pub hit_limit: bool,
}

/// The distribution of a variable that was met.
pub open spec fn law_of(n: Naming, p: Seq<Prior>) -> Law {
    p[n.name as int]@
}

/// Every variable has a distribution, and no two have one place and one
/// distribution.
pub open spec fn names_distinct(s: Seq<Naming>, p: Seq<Prior>) -> bool {
    &&& forall|i: int| 0 <= i < s.len() ==> (#[trigger] s[i]).name < p.len()
    &&& forall|i: int, j: int|
        0 <= i < j < s.len() ==> !((#[trigger] s[i]).stack@ == (#[trigger] s[j]).stack@ && law_of(
            s[i],
            p,
        ) == law_of(s[j], p))
}

/// The variables of a block follow one another, and each has the means and
/// the covariances of the block as its distribution.
pub open spec fn block_known(b: Block, p: Seq<Prior>) -> bool {
    forall|k: int|
        0 <= k < b.names@.len() ==> (#[trigger] b.names@[k]) == b.names@[0] + k && b.names@[k] < p.len()
            && p[b.names@[k] as int]@ == (Law::Correlated {
            first: b.names@[0],
            mu_and_cov: b.params@,
        })
}

pub open spec fn blocks_known(s: Seq<Block>, p: Seq<Prior>) -> bool {
    forall|i: int| 0 <= i < s.len() ==> block_known(#[trigger] s[i], p)
}

/// No two places share a variable.
pub open spec fn variables_apart(s: Seq<Naming>, t: Seq<Block>) -> bool {
    &&& forall|i: int, j: int|
        0 <= i < j < s.len() ==> (#[trigger] s[i]).name != (#[trigger] s[j]).name
    &&& forall|i: int, j: int|
        0 <= i < s.len() && 0 <= j < t.len() ==> !(#[trigger] t[j]).names@.contains(
            (#[trigger] s[i]).name,
        )
    &&& forall|i: int, j: int, v: u64|
        0 <= i < j < t.len() && #[trigger] t[i].names@.contains(v) ==> !#[trigger] t[j].names@.contains(
            v,
        )
}

/// Each continuous variable that was met has its own name, and under it its
/// distribution.
#[verifier::opaque]
pub open spec fn variables_known(s: Seq<Naming>, t: Seq<Block>, p: Seq<Prior>) -> bool {
    names_distinct(s, p) && blocks_known(t, p) && variables_apart(s, t)
}

pub open spec fn blocks_distinct(s: Seq<Block>) -> bool {
    forall|i: int, j: int|
        0 <= i < j < s.len() ==> !((#[trigger] s[i]).stack@ == (#[trigger] s[j]).stack@
            && s[i].params@ == s[j].params@)
}

/// The parameters of each block are its means and its covariances.
pub open spec fn blocks_sized(s: Seq<Block>) -> bool {
    forall|i: int|
        0 <= i < s.len() ==> (#[trigger] s[i]).params@.len() == s[i].names@.len() + s[i].names@.len()
            * s[i].names@.len()
}

/// The choices are in order.
pub open spec fn ordered(s: Seq<Choice>) -> bool {
    forall|i: int, j: int|
        0 <= i < j < s.len() ==> before((#[trigger] s[i]).address(), (#[trigger] s[j]).address())
}

/// The assignment settles the choices as the model does.
pub open spec fn choices_fit(s: Seq<Choice>, a: Worlds, x: Model) -> bool {
    forall|i: int|
        0 <= i < s.len() ==> a((#[trigger] s[i]).label) == (x.flips)(s[i].stack@, s[i].code@)
}

/// The model names the continuous variables as the table does: by where they
/// stand, and by their distributions.
pub open spec fn names_fit(s: Seq<Naming>, p: Seq<Prior>, x: Model) -> bool {
    forall|i: int|
        0 <= i < s.len() ==> (x.names)((#[trigger] s[i]).stack@, law_of(s[i], p)) == s[i].name
}

pub open spec fn blocks_fit(s: Seq<Block>, x: Model) -> bool {
    forall|i: int|
        0 <= i < s.len() ==> (x.blocks)((#[trigger] s[i]).stack@, s[i].params@) == s[i].names@
}

/// The variables that had a distribution still have it.
pub open spec fn priors_kept(p: Seq<Prior>, q: Seq<Prior>) -> bool {
    p.len() <= q.len() && forall|v: int| 0 <= v < p.len() ==> #[trigger] p[v] == q[v]
}

impl LazyKCState {
    /// The tables are in order, and agree with the variables.
    pub open spec fn wf(self) -> bool {
        &&& self.factorizer.wf()
        &&& self.callstack.wf()
        &&& self.choices@.len() == self.factorizer.vars().len()
        &&& forall|i: int|
            0 <= i < self.choices@.len() ==> (#[trigger] self.choices@[i]).wf(self.factorizer, i)
        &&& ordered(self.choices@)
        &&& variables_known(self.names@, self.blocks@, self.priors@)
        &&& blocks_distinct(self.blocks@)
        &&& blocks_sized(self.blocks@)
        &&& self.depth <= self.cfg.limit() + 1
    }

    pub open spec fn vars(self) -> Seq<u64> {
        self.factorizer.vars()
    }

    /// How much deeper an evaluation may go.
    pub open spec fn fuel(self) -> nat {
        (self.cfg.limit() + 1 - self.depth) as nat
    }

    /// The assignment settles the choices as the model does, and the model
    /// names the continuous variables as the tables do.
    pub open spec fn fits(self, a: Worlds, x: Model) -> bool {
        &&& choices_fit(self.choices@, a, x)
        &&& names_fit(self.names@, self.priors@, x)
        &&& blocks_fit(self.blocks@, x)
    }

    /// The variable stands for the event.
    pub open spec fn tells(self, label: u64, e: Event) -> bool {
        exists|i: int|
            0 <= i < self.choices@.len() && (#[trigger] self.choices@[i]).label == label
                && self.choices@[i].weight@ == e
    }

    /// What is known in `self` is known in `next`.
    pub open spec fn grows_to(self, next: LazyKCState) -> bool {
        &&& values::within(self.vars(), next.vars())
        &&& forall|v: u64, e: Event| #[trigger] self.tells(v, e) ==> next.tells(v, e)
        &&& forall|a: Worlds, x: Model| #[trigger] next.fits(a, x) ==> self.fits(a, x)
        &&& priors_kept(self.priors@, next.priors@)
    }

    /// Nothing but the tables and the counters is changed, and no counter
    /// goes down.
    pub open spec fn same_place(self, next: LazyKCState) -> bool {
        &&& self.stats.counts_on(next.stats)
        &&& self.callstack@ == next.callstack@
        &&& self.depth == next.depth
        &&& self.cfg == next.cfg
    }

    /// The model that names what `base` leaves open as the tables do, and
    /// settles the choices as `a` does.
    pub open spec fn completed(self, a: Worlds, base: Model) -> Model {
        Model {
            flips: |stack: Seq<i32>, code: Seq<u64>|
                exists|i: int|
                    0 <= i < self.choices@.len() && (#[trigger] self.choices@[i]).stack@ == stack
                        && self.choices@[i].code@ == code && a(self.choices@[i].label),
            names: |stack: Seq<i32>, l: Law|
                if exists|i: int|
                    0 <= i < self.names@.len() && (#[trigger] self.names@[i]).stack@ == stack
                        && law_of(self.names@[i], self.priors@) == l {
                    self.names@[choose|i: int|
                        0 <= i < self.names@.len() && (#[trigger] self.names@[i]).stack@ == stack
                            && law_of(self.names@[i], self.priors@) == l].name
                } else {
                    (base.names)(stack, l)
                },
            blocks: |stack: Seq<i32>, params: Seq<u64>|
                if exists|i: int|
                    0 <= i < self.blocks@.len() && (#[trigger] self.blocks@[i]).stack@ == stack
                        && self.blocks@[i].params@ == params {
                    self.blocks@[choose|i: int|
                        0 <= i < self.blocks@.len() && (#[trigger] self.blocks@[i]).stack@ == stack
                            && self.blocks@[i].params@ == params].names@
                } else {
                    (base.blocks)(stack, params)
                },
            ..base
        }
    }

    /// Every assignment settles the choices in some way.
    pub proof fn lemma_completed(self, a: Worlds, base: Model)
        requires
            self.wf(),
        ensures
            self.fits(a, self.completed(a, base)),
    {
        reveal(variables_known);
        let x = self.completed(a, base);
        assert forall|i: int| 0 <= i < self.choices@.len() implies a(
            (#[trigger] self.choices@[i]).label,
        ) == (x.flips)(self.choices@[i].stack@, self.choices@[i].code@) by {
            let c = self.choices@[i];
            if (x.flips)(c.stack@, c.code@) {
                let j = choose|j: int|
                    0 <= j < self.choices@.len() && (#[trigger] self.choices@[j]).stack@ == c.stack@
                        && self.choices@[j].code@ == c.code@ && a(self.choices@[j].label);
                lemma_before_irreflexive(c.address());
                assert(i == j) by {
                    if i < j {
                        assert(before(self.choices@[i].address(), self.choices@[j].address()));
                    } else if j < i {
                        assert(before(self.choices@[j].address(), self.choices@[i].address()));
                    }
                }
            }
        }
        assert forall|i: int| 0 <= i < self.names@.len() implies (x.names)(
            (#[trigger] self.names@[i]).stack@,
            law_of(self.names@[i], self.priors@),
        ) == self.names@[i].name by {
            let c = self.names@[i];
            let j = choose|j: int|
                0 <= j < self.names@.len() && (#[trigger] self.names@[j]).stack@ == c.stack@
                    && law_of(self.names@[j], self.priors@) == law_of(c, self.priors@);
            assert(i == j);
        }
        assert forall|i: int| 0 <= i < self.blocks@.len() implies (x.blocks)(
            (#[trigger] self.blocks@[i]).stack@,
            self.blocks@[i].params@,
        ) == self.blocks@[i].names@ by {
            let c = self.blocks@[i];
            let j = choose|j: int|
                0 <= j < self.blocks@.len() && (#[trigger] self.blocks@[j]).stack@ == c.stack@
                    && self.blocks@[j].params@ == c.params@;
            assert(i == j);
        }
    }

    /// Create a new LazyKCState.
    pub fn new(cfg: LazyKCConfig) -> (r: Self)
        ensures
            r.wf(),
            r.cfg == cfg,
            r.choices@.len() == 0,
            r.names@.len() == 0,
            r.blocks@.len() == 0,
            r.priors@.len() == 0,
            r.cache@.len() == 0,
            r.callstack@.len() == 0,
            r.depth == 0,
            !r.hit_limit,
    {
        proof {
            reveal(variables_known);
        }
        LazyKCState {
            factorizer: Factorizer::new(),
            callstack: Callstack::new(),
            choices: Vec::new(),
            names: Vec::new(),
            blocks: Vec::new(),
            priors: Vec::new(),
            cache: Vec::new(),
            depth: 0,
            stats: LazyKCStats::default(),
            cfg,
            hit_limit: false,
        }
    }

    /// Where the choice with the given event stands at the current callstack,
    /// or where it belongs.
    fn position(&self, code: &Vec<u64>) -> (r: (usize, bool))
        requires
            self.wf(),
        ensures
            r.0 <= self.choices@.len(),
            r.1 ==> r.0 < self.choices@.len() && self.choices@[r.0 as int].stack@ == self.callstack@
                && self.choices@[r.0 as int].code@ == code@,
            !r.1 ==> (forall|i: int|
                0 <= i < r.0 ==> before(
                    (#[trigger] self.choices@[i]).address(),
                    Address { stack: self.callstack@, code: code@ },
                )) && (forall|i: int|
                r.0 <= i < self.choices@.len() ==> before(
                    Address { stack: self.callstack@, code: code@ },
                    (#[trigger] self.choices@[i]).address(),
                )),
    {
        let ghost key = Address { stack: self.callstack@, code: code@ };
        let mut lo: usize = 0;
        let mut hi: usize = self.choices.len();
        while lo < hi
            invariant
                lo <= hi <= self.choices@.len(),
                self.wf(),
                key == (Address { stack: self.callstack@, code: code@ }),
                forall|i: int| 0 <= i < lo ==> before((#[trigger] self.choices@[i]).address(), key),
                forall|i: int|
                    hi <= i < self.choices@.len() ==> before(
                        key,
                        (#[trigger] self.choices@[i]).address(),
                    ),
            decreases hi - lo,
        {
            let mid: usize = lo + (hi - lo) / 2;
            let c: &Choice = &self.choices[mid];
            let by_stack: Relation = relate_stacks(&c.stack, self.callstack.as_slice());
            let relation: Relation = if by_stack == Relation::Same {
                relate_codes(&c.code, code)
            } else {
                by_stack
            };
            match relation {
                Relation::Same => {
                    return (mid, true);
                },
                Relation::Before => {
                    proof {
                        assert(before(self.choices@[mid as int].address(), key));
                        assert forall|i: int| 0 <= i < mid + 1 implies before(
                            (#[trigger] self.choices@[i]).address(),
                            key,
                        ) by {
                            if i < mid {
                                lemma_before_transitive(
                                    self.choices@[i].address(),
                                    self.choices@[mid as int].address(),
                                    key,
                                );
                            }
                        }
                    }
                    lo = mid + 1;
                },
                Relation::Behind => {
                    proof {
                        assert(before(key, self.choices@[mid as int].address()));
                        assert forall|i: int| mid <= i < self.choices@.len() implies before(
                            key,
                            (#[trigger] self.choices@[i]).address(),
                        ) by {
                            if i > mid {
                                lemma_before_transitive(
                                    key,
                                    self.choices@[mid as int].address(),
                                    self.choices@[i].address(),
                                );
                            }
                        }
                    }
                    hi = mid;
                },
            }
        }
        (lo, false)
    }

    /// Create or look up the variable for an event at the current callstack.
    /// Equal events at equal callstacks have one variable; a new variable
    /// goes to its place in the order.
    pub fn current_address_weighted(&mut self, weight: FlipWeight) -> (r: BooleanFunction)
        requires
            old(self).wf(),
        ensures
            final(self).wf(),
            old(self).grows_to(*final(self)),
            old(self).same_place(*final(self)),
            final(self).names == old(self).names,
            final(self).blocks == old(self).blocks,
            final(self).priors == old(self).priors,
            final(self).cache == old(self).cache,
            final(self).hit_limit == old(self).hit_limit,
            final(self).stats == old(self).stats,
            final(self).factorizer.owns(r),
            exists|i: int|
                0 <= i < final(self).choices@.len() && (#[trigger] final(self).choices@[i]).stack@
                    == old(self).callstack@ && final(self).choices@[i].code@ == weight@.code() && r
                    == final(self).choices@[i].var,
            final(self).choices@.len() == old(self).choices@.len() + (if exists|i: int|
                0 <= i < old(self).choices@.len() && (#[trigger] old(self).choices@[i]).stack@
                    == old(self).callstack@ && old(self).choices@[i].code@ == weight@.code() {
                0int
            } else {
                1
            }),
            forall|a: Worlds, x: Model| #[trigger]
                final(self).fits(a, x) ==> r.eval(a) == (x.flips)(
                    old(self).callstack@,
                    weight@.code(),
                ),
    {
        let code: Vec<u64> = weight.discriminator();
        let (pos, known) = self.position(&code);
        if known {
            return self.choices[pos].var.clone();
        }
        let ghost key = Address { stack: self.callstack@, code: code@ };
        proof {
            assert forall|i: int| 0 <= i < self.choices@.len() implies !(
            (#[trigger] self.choices@[i]).stack@ == self.callstack@ && self.choices@[i].code@
                == weight@.code()) by {
                lemma_before_irreflexive(key);
            }
        }
        let ghost start = self.choices@;
        let ghost order = self.factorizer.vars();
        let (id, var) = self.factorizer.new_var_at_position(pos, true);
        let stack: Vec<i32> = self.callstack.to_vec();
        let r: BooleanFunction = var.clone();
        let choice = Choice { stack, code, weight, label: id.0, var };
        let ghost added = choice;
        self.choices.insert(pos, choice);
        proof {
            let next = self.choices@;
            let p = pos as int;
            assert(next == start.insert(p, added));
            assert(next[p] == added);
            assert forall|i: int| 0 <= i < next.len() implies (#[trigger] next[i]).wf(
                self.factorizer,
                i,
            ) by {
                if i < p {
                    assert(next[i] == start[i]);
                    assert(start[i].wf(old(self).factorizer, i));
                } else if i > p {
                    assert(next[i] == start[i - 1]);
                    assert(start[i - 1].wf(old(self).factorizer, i - 1));
                }
            }
            assert forall|i: int, j: int| 0 <= i < j < next.len() implies before(
                (#[trigger] next[i]).address(),
                (#[trigger] next[j]).address(),
            ) by {
                let i0 = if i < p {
                    i
                } else {
                    i - 1
                };
                let j0 = if j < p {
                    j
                } else {
                    j - 1
                };
                if i == p {
                    assert(next[j] == start[j0]);
                } else if j == p {
                    assert(next[i] == start[i0]);
                } else {
                    assert(next[i] == start[i0] && next[j] == start[j0]);
                }
            }
            assert forall|v: u64, e: Event| #[trigger] old(self).tells(v, e) implies self.tells(
                v,
                e,
            ) by {
                let i = choose|i: int|
                    0 <= i < start.len() && (#[trigger] start[i]).label == v && start[i].weight@ == e;
                if i < p {
                    assert(next[i] == start[i]);
                } else {
                    assert(next[i + 1] == start[i]);
                }
            }
            assert(values::within(order, self.factorizer.vars())) by {
                assert forall|f: BooleanFunction| #[trigger] f.wf(order) implies f.wf(
                    self.factorizer.vars(),
                ) by {
                    assert(old(self).factorizer.owns(f));
                    assert(self.factorizer.owns(f));
                }
            }
            assert forall|a: Worlds, x: Model| #[trigger] self.fits(a, x) implies old(self).fits(
                a,
                x,
            ) && r.eval(a) == (x.flips)(old(self).callstack@, weight@.code()) by {
                assert forall|i: int| 0 <= i < start.len() implies a((#[trigger] start[i]).label)
                    == (x.flips)(start[i].stack@, start[i].code@) by {
                    if i < p {
                        assert(next[i] == start[i]);
                    } else {
                        assert(next[i + 1] == start[i]);
                    }
                }
                assert(a(next[p].label) == (x.flips)(next[p].stack@, next[p].code@));
            }
        }
        r
    }

    /// Create or look up the variable for a flip with a known probability.
    pub fn current_address(&mut self, p: u64) -> (r: BooleanFunction)
        requires
            old(self).wf(),
        ensures
            final(self).wf(),
            old(self).grows_to(*final(self)),
            old(self).same_place(*final(self)),
            final(self).names == old(self).names,
            final(self).blocks == old(self).blocks,
            final(self).priors == old(self).priors,
            final(self).cache == old(self).cache,
            final(self).hit_limit == old(self).hit_limit,
            final(self).stats == old(self).stats,
            final(self).factorizer.owns(r),
            forall|a: Worlds, x: Model| #[trigger]
                final(self).fits(a, x) ==> r.eval(a) == (x.flips)(
                    old(self).callstack@,
                    Event::Constant(p).code(),
                ),
    {
        self.current_address_weighted(FlipWeight::Constant(p))
    }

    /// Create or look up the variable for an event one place below the
    /// current callstack.
    pub fn with_callstack_index(&mut self, idx: i32, weight: FlipWeight) -> (r: BooleanFunction)
        requires
            old(self).wf(),
        ensures
            final(self).wf(),
            old(self).grows_to(*final(self)),
            old(self).same_place(*final(self)),
            final(self).names == old(self).names,
            final(self).blocks == old(self).blocks,
            final(self).priors == old(self).priors,
            final(self).cache == old(self).cache,
            final(self).hit_limit == old(self).hit_limit,
            final(self).stats == old(self).stats,
            final(self).factorizer.owns(r),
            forall|a: Worlds, x: Model| #[trigger]
                final(self).fits(a, x) ==> r.eval(a) == (x.flips)(
                    old(self).callstack@.push(idx),
                    weight@.code(),
                ),
    {
        let ghost start = *self;
        self.callstack.push(idx);
        let ghost pushed = *self;
        let r: BooleanFunction = self.current_address_weighted(weight);
        let ghost found = *self;
        self.callstack.pop();
        proof {
            assert(start.callstack@.push(idx).drop_last() =~= start.callstack@);
            assert forall|v: u64, e: Event| #[trigger] start.tells(v, e) implies self.tells(v, e) by {
                assert(pushed.tells(v, e));
                assert(found.tells(v, e));
            }
            assert forall|a: Worlds, x: Model| #[trigger] self.fits(a, x) implies start.fits(a, x)
                && r.eval(a) == (x.flips)(start.callstack@.push(idx), weight@.code()) by {
                assert(found.fits(a, x));
                assert(pushed.fits(a, x));
            }
        }
        r
    }
}

fn same_params(a: &Vec<u64>, b: &Vec<u64>) -> (r: bool)
    ensures
        r == (a@ == b@),
{
    if a.len() != b.len() {
        return false;
    }
    let mut i: usize = 0;
    while i < a.len()
        invariant
            i <= a@.len(),
            a@.len() == b@.len(),
            forall|j: int| 0 <= j < i ==> a@[j] == b@[j],
        decreases a@.len() - i,
    {
        if a[i] != b[i] {
            return false;
        }
        i = i + 1;
    }
    assert(a@ =~= b@);
    true
}

fn same_stack(a: &Vec<i32>, b: &[i32]) -> (r: bool)
    ensures
        r == (a@ == b@),
{
    if a.len() != b.len() {
        return false;
    }
    let mut i: usize = 0;
    while i < a.len()
        invariant
            i <= a@.len(),
            a@.len() == b@.len(),
            forall|j: int| 0 <= j < i ==> a@[j] == b@[j],
        decreases a@.len() - i,
    {
        if a[i] != b[i] {
            return false;
        }
        i = i + 1;
    }
    assert(a@ =~= b@);
    true
}

pub fn clone_numbers(s: &Vec<u64>) -> (r: Vec<u64>)
    ensures
        r@ == s@,
{
    let r: Vec<u64> = s.clone();
    assert(r@ =~= s@);
    r
}

/// With more distributions those of the blocks are the same.
proof fn lemma_blocks_kept(s: Seq<Block>, p: Seq<Prior>, q: Seq<Prior>)
    requires
        blocks_known(s, p),
        priors_kept(p, q),
    ensures
        blocks_known(s, q),
{
    assert forall|i: int| 0 <= i < s.len() implies block_known(#[trigger] s[i], q) by {
        assert(block_known(s[i], p));
        assert forall|k: int| 0 <= k < s[i].names@.len() implies (#[trigger] s[i].names@[k])
            == s[i].names@[0] + k && s[i].names@[k] < q.len() && q[s[i].names@[k] as int]@ == (
        Law::Correlated { first: s[i].names@[0], mu_and_cov: s[i].params@ }) by {
            assert(p[s[i].names@[k] as int] == q[s[i].names@[k] as int]);
        }
    }
}

impl LazyKCState {
    /// Get or create a continuous variable for the current callstack position
    /// and prior. Equal priors at one place have one variable; different
    /// priors at one place have different ones. A new variable has the given
    /// prior.
    pub fn current_continuous_name(&mut self, prior: Prior) -> (r: u64)
        requires
            old(self).wf(),
        ensures
            final(self).wf(),
            old(self).grows_to(*final(self)),
            old(self).same_place(*final(self)),
            final(self).factorizer == old(self).factorizer,
            final(self).choices == old(self).choices,
            final(self).blocks == old(self).blocks,
            final(self).cache == old(self).cache,
            final(self).hit_limit == old(self).hit_limit,
            final(self).stats == old(self).stats,
            r < final(self).priors@.len() && final(self).priors@[r as int]@ == prior@,
            if old(self).names_one(old(self).callstack@, prior@) {
                final(self).names == old(self).names && final(self).priors == old(self).priors
            } else {
                r == old(self).priors@.len() && final(self).priors@ == old(self).priors@.push(prior)
                    && final(self).names@.len() == old(self).names@.len() + 1
            },
            forall|a: Worlds, x: Model| #[trigger]
                final(self).fits(a, x) ==> r == (x.names)(old(self).callstack@, prior@),
    {
        proof {
            reveal(variables_known);
        }
        let total: usize = self.priors.len();
        let mut i: usize = 0;
        while i < self.names.len()
            invariant
                i <= self.names@.len(),
                *self == *old(self),
                self.wf(),
                total == self.priors@.len(),
                forall|j: int| 0 <= j < self.names@.len() ==> (#[trigger] self.names@[j]).name
                    < self.priors@.len(),
                forall|j: int|
                    0 <= j < i ==> !((#[trigger] self.names@[j]).stack@ == self.callstack@ && law_of(
                        self.names@[j],
                        self.priors@,
                    ) == prior@),
            decreases self.names@.len() - i,
        {
            let name: u64 = self.names[i].name;
            assert(self.names@[i as int].name == name);
            if same_stack(&self.names[i].stack, self.callstack.as_slice()) && same_prior(
                &self.priors[name as usize],
                &prior,
            ) {
                return name;
            }
            i = i + 1;
        }
        let ghost start = *self;
        let ghost p = self.priors@;
        self.priors.push(prior);
        let count: usize = self.priors.len();
        let name: u64 = (count - 1) as u64;
        let stack: Vec<i32> = self.callstack.to_vec();
        self.names.push(Naming { stack, name });
        proof {
            let (was, next, q) = (start.names@, self.names@, self.priors@);
            let m = was.len() as int;
            assert(q == p.push(prior));
            assert(next[m].name == name);
            assert forall|i: int| 0 <= i < m implies (#[trigger] next[i]) == was[i] && next[i].name < p.len()
                && law_of(next[i], q) == law_of(was[i], p) by {
                assert(was[i].name < p.len());
            }
            assert(law_of(next[m], q) == prior@);
            assert forall|i: int| 0 <= i < next.len() implies (#[trigger] next[i]).name < q.len() by {}
            assert forall|i: int, j: int| 0 <= i < j < next.len() implies !((#[trigger] next[i]).stack@ == (
            #[trigger] next[j]).stack@ && law_of(next[i], q) == law_of(next[j], q)) by {
                assert(next[i] == was[i]);
                if j < m {
                    assert(next[j] == was[j]);
                }
            }
            assert forall|i: int, j: int| 0 <= i < j < next.len() implies (#[trigger] next[i]).name != (
            #[trigger] next[j]).name by {
                assert(next[i] == was[i]);
                if j < m {
                    assert(next[j] == was[j]);
                }
            }
            lemma_blocks_kept(self.blocks@, p, q);
            assert forall|i: int, j: int| 0 <= i < next.len() && 0 <= j < self.blocks@.len() implies !(
            #[trigger] self.blocks@[j]).names@.contains((#[trigger] next[i]).name) by {
                if i < m {
                    assert(next[i] == was[i]);
                } else if self.blocks@[j].names@.contains(name) {
                    assert(block_known(self.blocks@[j], p));
                    let k = choose|k: int|
                        0 <= k < self.blocks@[j].names@.len() && self.blocks@[j].names@[k] == name;
                    assert(self.blocks@[j].names@[k] < p.len());
                }
            }
            assert(variables_known(next, self.blocks@, q));
            assert forall|a: Worlds, x: Model| #[trigger] self.fits(a, x) implies old(self).fits(
                a,
                x,
            ) && name == (x.names)(old(self).callstack@, prior@) by {
                assert forall|i: int| 0 <= i < was.len() implies (x.names)(
                    (#[trigger] was[i]).stack@,
                    law_of(was[i], p),
                ) == was[i].name by {
                    assert(next[i] == was[i]);
                }
                assert(next[m].name == name);
            }
        }
        name
    }

    /// A variable at the callstack with the distribution was met.
    pub open spec fn names_one(self, stack: Seq<i32>, l: Law) -> bool {
        exists|i: int|
            0 <= i < self.names@.len() && (#[trigger] self.names@[i]).stack@ == stack && law_of(
                self.names@[i],
                self.priors@,
            ) == l
    }

    /// A block at the callstack with the means and the covariances was met.
    pub open spec fn names_block(self, stack: Seq<i32>, params: Seq<u64>) -> bool {
        exists|i: int|
            0 <= i < self.blocks@.len() && (#[trigger] self.blocks@[i]).stack@ == stack
                && self.blocks@[i].params@ == params
    }

    /// Get or create a block of `n` correlated continuous variables for the
    /// current callstack position and parameters: the means, then the
    /// covariances. Equal parameters at one place have one block.
    #[verifier::rlimit(30)]
    pub fn current_continuous_names(&mut self, params: &Vec<u64>, n: usize) -> (r: Vec<u64>)
        requires
            old(self).wf(),
            params@.len() == n + n * n,
        ensures
            final(self).wf(),
            r@.len() == n,
            old(self).grows_to(*final(self)),
            old(self).same_place(*final(self)),
            final(self).factorizer == old(self).factorizer,
            final(self).choices == old(self).choices,
            final(self).names == old(self).names,
            final(self).cache == old(self).cache,
            final(self).hit_limit == old(self).hit_limit,
            final(self).stats == old(self).stats,
            forall|a: Worlds, x: Model| #[trigger]
                final(self).fits(a, x) ==> r@ == (x.blocks)(old(self).callstack@, params@),
            forall|i: int|
                0 <= i < n ==> (#[trigger] r@[i]) == r@[0] + i && r@[i] < final(self).priors@.len()
                    && final(self).priors@[r@[i] as int]@ == (Law::Correlated {
                    first: r@[0],
                    mu_and_cov: params@,
                }),
            if old(self).names_block(old(self).callstack@, params@) {
                final(self).blocks == old(self).blocks && final(self).priors == old(self).priors
            } else {
                final(self).priors@.len() == old(self).priors@.len() + n && (forall|
                    i: int,
                | 0 <= i < n ==> #[trigger] r@[i] == old(self).priors@.len() + i)
            },
    {
        proof {
            reveal(variables_known);
        }
        let mut i: usize = 0;
        while i < self.blocks.len()
            invariant
                i <= self.blocks@.len(),
                *self == *old(self),
                self.wf(),
                blocks_known(self.blocks@, self.priors@),
                params@.len() == n + n * n,
                forall|j: int|
                    0 <= j < i ==> !((#[trigger] self.blocks@[j]).stack@ == self.callstack@
                        && self.blocks@[j].params@ == params@),
            decreases self.blocks@.len() - i,
        {
            if same_stack(&self.blocks[i].stack, self.callstack.as_slice()) && same_params(
                &self.blocks[i].params,
                params,
            ) {
                proof {
                    assert(block_known(self.blocks@[i as int], self.priors@));
                    let m = self.blocks@[i as int].names@.len() as int;
                    assert(m + m * m == n + n * n);
                    assert(m == n) by (nonlinear_arith)
                        requires
                            0 <= m,
                            0 <= n,
                            m + m * m == n + n * n,
                    ;
                }
                return clone_numbers(&self.blocks[i].names);
            }
            i = i + 1;
        }
        let ghost start = *self;
        let ghost p = self.priors@;
        let first: usize = self.priors.len();
        let mut fresh: Vec<u64> = Vec::new();
        let mut k: usize = 0;
        while k < n
            invariant
                k <= n,
                self.factorizer == old(self).factorizer,
                self.callstack == old(self).callstack,
                self.choices == old(self).choices,
                self.names == old(self).names,
                self.blocks == old(self).blocks,
                self.cache == old(self).cache,
                self.hit_limit == old(self).hit_limit,
                self.stats == old(self).stats,
                self.depth == old(self).depth,
                self.cfg == old(self).cfg,
                p == old(self).priors@,
                self.priors@.len() == p.len() + k,
                forall|v: int| 0 <= v < p.len() ==> #[trigger] p[v] == self.priors@[v],
                first == p.len(),
                fresh@.len() == k,
                forall|i: int| 0 <= i < k ==> #[trigger] fresh@[i] == first + i,
                forall|v: int|
                    p.len() <= v < self.priors@.len() ==> (#[trigger] self.priors@[v])@ == (
                    Law::Correlated { first: first as u64, mu_and_cov: params@ }),
            decreases n - k,
        {
            let ghost had = self.priors@;
            self.priors.push(
                Prior::Correlated { first: first as u64, mu_and_cov: clone_numbers(params) },
            );
            proof {
                assert forall|v: int| p.len() <= v < self.priors@.len() implies (
                #[trigger] self.priors@[v])@ == (Law::Correlated {
                    first: first as u64,
                    mu_and_cov: params@,
                }) by {
                    if v < had.len() {
                        assert(self.priors@[v] == had[v]);
                    }
                }
                assert forall|v: int| 0 <= v < p.len() implies #[trigger] p[v] == self.priors@[v] by {
                    assert(p[v] == had[v]);
                }
            }
            let count: usize = self.priors.len();
            fresh.push((count - 1) as u64);
            k = k + 1;
        }
        let stack: Vec<i32> = self.callstack.to_vec();
        self.blocks.push(
            Block { stack, params: clone_numbers(params), names: clone_numbers(&fresh) },
        );
        proof {
            let (was, next, q) = (start.blocks@, self.blocks@, self.priors@);
            let m = was.len() as int;
            assert(next[m].names@ == fresh@ && next[m].params@ == params@);
            assert(blocks_sized(next)) by {
                assert forall|i: int| 0 <= i < next.len() implies (#[trigger] next[i]).params@.len()
                    == next[i].names@.len() + next[i].names@.len() * next[i].names@.len() by {
                    if i < m {
                        assert(next[i] == was[i]);
                    }
                }
            }
            assert(priors_kept(p, q));
            lemma_blocks_kept(was, p, q);
            assert(block_known(next[m], q)) by {
                assert forall|k: int| 0 <= k < fresh@.len() implies (#[trigger] next[m].names@[k])
                    == next[m].names@[0] + k && next[m].names@[k] < q.len()
                    && q[next[m].names@[k] as int]@ == (Law::Correlated {
                    first: next[m].names@[0],
                    mu_and_cov: next[m].params@,
                }) by {
                    assert(fresh@[k] == first + k && fresh@[0] == first);
                }
            }
            assert(blocks_known(next, q)) by {
                assert forall|i: int| 0 <= i < next.len() implies block_known(#[trigger] next[i], q) by {
                    if i < m {
                        assert(next[i] == was[i]);
                    }
                }
            }
            let names = self.names@;
            assert forall|i: int| 0 <= i < names.len() implies (#[trigger] names[i]).name < q.len() && law_of(
                names[i],
                q,
            ) == law_of(names[i], p) by {
                assert(names[i].name < p.len());
                assert(p[names[i].name as int] == q[names[i].name as int]);
            }
            assert(names_distinct(names, q));
            assert forall|v: u64| #[trigger] fresh@.contains(v) implies v >= p.len() by {
                let k = choose|k: int| 0 <= k < fresh@.len() && fresh@[k] == v;
                assert(fresh@[k] == first + k);
            }
            assert forall|i: int, v: u64| 0 <= i < m && #[trigger] was[i].names@.contains(v) implies v < p.len() by {
                assert(block_known(was[i], p));
                let k = choose|k: int| 0 <= k < was[i].names@.len() && was[i].names@[k] == v;
                assert(was[i].names@[k] < p.len());
            }
            assert(variables_apart(names, next)) by {
                assert forall|i: int, j: int| 0 <= i < names.len() && 0 <= j < next.len() implies !(
                #[trigger] next[j]).names@.contains((#[trigger] names[i]).name) by {
                    assert(names[i].name < p.len());
                    if j < m {
                        assert(next[j] == was[j]);
                    }
                }
                assert forall|i: int, j: int, v: u64|
                    0 <= i < j < next.len() && #[trigger] next[i].names@.contains(v) implies !#[trigger] next[j].names@.contains(
                    v,
                ) by {
                    assert(next[i] == was[i]);
                    if j < m {
                        assert(next[j] == was[j]);
                    }
                }
            }
            assert(variables_known(names, next, q));
            assert forall|a: Worlds, x: Model| #[trigger] self.fits(a, x) implies old(self).fits(
                a,
                x,
            ) && fresh@ == (x.blocks)(old(self).callstack@, params@) by {
                assert forall|i: int| 0 <= i < was.len() implies (x.blocks)(
                    (#[trigger] was[i]).stack@,
                    was[i].params@,
                ) == was[i].names@ by {
                    assert(next[i] == was[i]);
                }
                assert(next[m].names@ == fresh@);
            }
        }
        fresh
    }

    /// If `constraint` entails the function (true) or its negation (false),
    /// which of them; otherwise `None`. A constraint that nothing meets
    /// entails everything.
    pub fn implies(&self, constraint: &BooleanFunction, var_bf: &BooleanFunction) -> (r: Option<bool>)
        requires
            self.wf(),
            self.factorizer.owns(*constraint),
            self.factorizer.owns(*var_bf),
        ensures
            r == (if forall|a: Worlds| #[trigger] constraint.eval(a) ==> var_bf.eval(a) {
                Some(true)
            } else if forall|a: Worlds| #[trigger] constraint.eval(a) ==> !var_bf.eval(a) {
                Some(false)
            } else {
                None
            }),
    {
        let fac: &Factorizer = &self.factorizer;
        let neg: BooleanFunction = fac.negate(constraint);
        let to_true: BooleanFunction = fac.or(&neg, var_bf);
        proof {
            factorizations::lemma_is_true(&to_true, fac.vars());
            if forall|a: Worlds| #[trigger] constraint.eval(a) ==> var_bf.eval(a) {
                assert forall|a: Worlds| #[trigger] to_true.eval(a) by {
                    assert(neg.eval(a) == !constraint.eval(a));
                }
            }
            if forall|a: Worlds| #[trigger] to_true.eval(a) {
                assert forall|a: Worlds| #[trigger] constraint.eval(a) implies var_bf.eval(a) by {
                    assert(to_true.eval(a));
                    assert(neg.eval(a) == !constraint.eval(a));
                }
            }
        }
        if to_true.is_true() {
            return Some(true);
        }
        let neg_var: BooleanFunction = fac.negate(var_bf);
        let to_false: BooleanFunction = fac.or(&neg, &neg_var);
        proof {
            factorizations::lemma_is_true(&to_false, fac.vars());
            if forall|a: Worlds| #[trigger] constraint.eval(a) ==> !var_bf.eval(a) {
                assert forall|a: Worlds| #[trigger] to_false.eval(a) by {
                    assert(neg.eval(a) == !constraint.eval(a));
                    assert(neg_var.eval(a) == !var_bf.eval(a));
                }
            }
            if forall|a: Worlds| #[trigger] to_false.eval(a) {
                assert forall|a: Worlds| #[trigger] constraint.eval(a) implies !var_bf.eval(a) by {
                    assert(to_false.eval(a));
                    assert(neg.eval(a) == !constraint.eval(a));
                    assert(neg_var.eval(a) == !var_bf.eval(a));
                }
            }
        }
        if to_false.is_true() {
            return Some(false);
        }
        None
    }
}

} // verus!
