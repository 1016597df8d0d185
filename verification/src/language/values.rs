//! Runtime values: what an expression evaluates to under a truth assignment.

use std::collections::BTreeSet;
use std::rc::Rc;

use vstd::prelude::*;

use super::pexpr::{Const, NativeVal, PExpr, Tree};
use super::types::Symbol;
use crate::discrete_factorizations::{BooleanFunction, Worlds};
use crate::utils::reals::ONE;

verus! {

/// A reference-counted Pluck value. Used everywhere values are stored
/// (environments, constructor args, thunk results).
pub type PluckVal = Rc<PluckValue>;

/// The runtime value type for Pluck. Numbers stand by the bits of their
/// double-precision form.
#[derive(Debug)]
#[allow(inconsistent_fields)]
pub enum PluckValue {
    /// An algebraic data type value: constructor + arguments.
    /// Arguments may be thunks (lazy) or fully evaluated.
    Value { constructor: Symbol, args: Vec<PluckVal> },
    /// A native value: float, int, or symbol.
    Native(NativeVal),
    /// A closure: captured environment + body expression.
    Closure(ClosureData),
    /// A fixed-width integer, one boolean function per bit, least significant
    /// bit first.
    IntDist { bits: Vec<BooleanFunction> },
    /// A lazy thunk: unevaluated expression with captured environment.
    Thunk(ThunkData),
    /// A union of values from different branches, each guarded.
    ThunkUnion(ThunkUnionData),
    /// A symbolic Beta variable.
    Probability(u64),
    /// A symbolic Dirichlet variable.
    DirichletVector { name: u64, categories: usize },
    /// A single element of a `DirichletVector`.
    DirichletProbability { name: u64, index: usize, categories: usize },
    /// An affine combination of Gaussian variables: constant + sum(coeff_i * X_i),
    /// with the coefficients by variable.
    GaussianExpr { constant: u64, coefficients: Vec<(u64, u64)> },
    /// A symbolic Gamma variable times `scale`.
    Gamma { name: u64, scale: u64 },
    /// An Exponential draw `name`, whose rate is the variable `gamma` times
    /// `scale`.
    Exponential { name: u64, gamma: u64, scale: u64 },
    /// A Poisson draw `name`, whose rate is the variable `gamma` times
    /// `scale`.
    Poisson { name: u64, gamma: u64, scale: u64 },
    /// A float matrix. Row-major flat storage; `shape` is `[n]` for 1D or
    /// `[rows, cols]` for 2D. Any entry may be a number, a `GaussianExpr`, or
    /// a thunk waiting to be forced.
    FloatMatrix { entries: Vec<PluckVal>, shape: Vec<usize> },
}

/// Data for a thunk value.
#[derive(Debug)]
pub struct ThunkData {
    /// The expression to evaluate when forced.
    pub expr: Rc<PExpr>,
    /// The captured environment.
    pub env: Env,
    /// The strict order index for variable ordering.
    pub strict_order_index: i32,
    /// The callstack at thunk creation time.
    pub callstack: Vec<i32>,
}

/// Data for a thunk union value.
#[derive(Debug)]
pub struct ThunkUnionData {
    /// The values, each with its guard.
    pub thunks: Vec<(PluckVal, BooleanFunction)>,
}

/// Data for a closure value.
#[derive(Debug)]
pub struct ClosureData {
    /// The variable name bound by the lambda
    pub var: Symbol,
    /// The body expression
    pub body: Rc<PExpr>,
    /// The captured environment
    pub env: Env,
    /// The name under which the body refers to the closure itself, if it
    /// does.
    pub rec_name: Option<Symbol>,
}

/// An environment is a persistent linked list of bindings.
pub type Env = Rc<EnvInner>;

#[derive(Debug)]
pub enum EnvInner {
    Nil,
    Cons { name: Symbol, val: PluckVal, tail: Env },
}

/// What a value is under one truth assignment: no guards are left in it.
#[allow(inconsistent_fields)]
pub enum Datum {
    Value { constructor: Symbol, args: Seq<Datum> },
    Native(Const),
    Closure { var: Symbol, body: Tree, env: Seq<(Symbol, Datum)>, rec_name: Option<Symbol> },
    /// The bits of an integer, least significant bit first.
    Int(Seq<bool>),
    Thunk { expr: Tree, env: Seq<(Symbol, Datum)>, index: i32, callstack: Seq<i32> },
    Probability(u64),
    DirichletVector { name: u64, categories: usize },
    DirichletProbability { name: u64, index: usize, categories: usize },
    Gaussian { constant: u64, coefficients: Seq<(u64, u64)> },
    Gamma { name: u64, scale: u64 },
    Exponential { name: u64, gamma: u64, scale: u64 },
    Poisson { name: u64, gamma: u64, scale: u64 },
    Matrix { entries: Seq<Datum>, shape: Seq<usize> },
}

/// How an evaluation under one truth assignment ends.
pub enum Outcome {
    /// With a value.
    Done(Datum),
    /// Without one: the assignment is ruled out.
    Fail,
    /// Not at all: a limit is reached, or an operation has no meaning.
    Stuck,
}

/// The outcome of two alternatives of which at most one may have a value.
pub open spec fn either(x: Outcome, y: Outcome) -> Outcome {
    match (x, y) {
        (Outcome::Fail, _) => y,
        (_, Outcome::Fail) => x,
        _ => Outcome::Stuck,
    }
}

impl PluckValue {
    /// What the value is under an assignment, if the guards in it leave
    /// exactly one choice everywhere.
    pub open spec fn at(&self, a: Worlds) -> Option<Datum>
        decreases self,
    {
        match self {
            PluckValue::Value { constructor, args } => match all_at(args@, a) {
                Some(ds) => Some(Datum::Value { constructor: *constructor, args: ds }),
                None => None,
            },
            PluckValue::Native(n) => Some(Datum::Native(n@)),
            PluckValue::Closure(c) => match c.env.at(a) {
                Some(env) => Some(
                    Datum::Closure { var: c.var, body: c.body.tree(), env, rec_name: c.rec_name },
                ),
                None => None,
            },
            PluckValue::IntDist { bits } => Some(Datum::Int(bits_at(bits@, a))),
            PluckValue::Thunk(t) => match t.env.at(a) {
                Some(env) => Some(
                    Datum::Thunk {
                        expr: t.expr.tree(),
                        env,
                        index: t.strict_order_index,
                        callstack: t.callstack@,
                    },
                ),
                None => None,
            },
            PluckValue::ThunkUnion(u) => match pick(u.thunks@, a) {
                Outcome::Done(d) => Some(d),
                _ => None,
            },
            PluckValue::Probability(name) => Some(Datum::Probability(*name)),
            PluckValue::DirichletVector { name, categories } => Some(
                Datum::DirichletVector { name: *name, categories: *categories },
            ),
            PluckValue::DirichletProbability { name, index, categories } => Some(
                Datum::DirichletProbability {
                    name: *name,
                    index: *index,
                    categories: *categories,
                },
            ),
            PluckValue::GaussianExpr { constant, coefficients } => Some(
                Datum::Gaussian { constant: *constant, coefficients: coefficients@ },
            ),
            PluckValue::Gamma { name, scale } => Some(Datum::Gamma { name: *name, scale: *scale }),
            PluckValue::Exponential { name, gamma, scale } => Some(
                Datum::Exponential { name: *name, gamma: *gamma, scale: *scale },
            ),
            PluckValue::Poisson { name, gamma, scale } => Some(
                Datum::Poisson { name: *name, gamma: *gamma, scale: *scale },
            ),
            PluckValue::FloatMatrix { entries, shape } => match all_at(entries@, a) {
                Some(ds) => Some(Datum::Matrix { entries: ds, shape: shape@ }),
                None => None,
            },
        }
    }

    /// Every boolean function in the value is over the variables of `order`,
    /// and the entries of matrices are no unions.
    pub open spec fn over(&self, order: Seq<u64>) -> bool
        decreases self,
    {
        match self {
            PluckValue::Value { args, .. } => all_over(args@, order),
            PluckValue::Closure(c) => c.env.over(order),
            PluckValue::IntDist { bits } => bits_over(bits@, order),
            PluckValue::Thunk(t) => t.env.over(order),
            PluckValue::ThunkUnion(u) => entries_over(u.thunks@, order),
            PluckValue::FloatMatrix { entries, .. } => all_over(entries@, order) && no_unions(
                entries@,
            ),
            _ => true,
        }
    }
}

impl EnvInner {
    /// The bindings under an assignment, innermost last.
    pub open spec fn at(&self, a: Worlds) -> Option<Seq<(Symbol, Datum)>>
        decreases self,
    {
        match self {
            EnvInner::Nil => Some(Seq::empty()),
            EnvInner::Cons { name, val, tail } => match (val.at(a), tail.at(a)) {
                (Some(d), Some(rest)) => Some(rest.push((*name, d))),
                _ => None,
            },
        }
    }

    pub open spec fn over(&self, order: Seq<u64>) -> bool
        decreases self,
    {
        match self {
            EnvInner::Nil => true,
            EnvInner::Cons { val, tail, .. } => val.over(order) && tail.over(order),
        }
    }

    /// How many bindings there are.
    pub open spec fn size(&self) -> nat
        decreases self,
    {
        match self {
            EnvInner::Nil => 0,
            EnvInner::Cons { tail, .. } => 1 + tail.size(),
        }
    }

    /// The innermost binding of a name.
    pub open spec fn find(&self, wanted: Symbol) -> Option<PluckVal>
        decreases self,
    {
        match self {
            EnvInner::Nil => None,
            EnvInner::Cons { name, val, tail } => if *name == wanted {
                Some(*val)
            } else {
                tail.find(wanted)
            },
        }
    }
}

pub open spec fn all_at(s: Seq<PluckVal>, a: Worlds) -> Option<Seq<Datum>>
    decreases s,
{
    if s.len() == 0 {
        Some(Seq::empty())
    } else {
        match (all_at(s.drop_last(), a), s.last().at(a)) {
            (Some(ds), Some(d)) => Some(ds.push(d)),
            _ => None,
        }
    }
}

pub open spec fn all_over(s: Seq<PluckVal>, order: Seq<u64>) -> bool
    decreases s,
{
    s.len() == 0 || (all_over(s.drop_last(), order) && s.last().over(order))
}

/// None of the values is a union.
pub open spec fn no_unions(s: Seq<PluckVal>) -> bool {
    forall|i: int| 0 <= i < s.len() ==> !(*(#[trigger] s[i]) is ThunkUnion)
}

/// A value that is no thunk, and no union of values.
pub open spec fn is_head(v: PluckValue) -> bool {
    !(v is Thunk) && !(v is ThunkUnion)
}

/// All alternatives are heads.
pub open spec fn heads(s: Seq<(PluckVal, BooleanFunction)>) -> bool {
    forall|i: int| 0 <= i < s.len() ==> is_head(*(#[trigger] s[i]).0)
}

/// The bits of an integer under an assignment.
pub open spec fn bits_at(bits: Seq<BooleanFunction>, a: Worlds) -> Seq<bool> {
    Seq::new(bits.len(), |i: int| bits[i].eval(a))
}

pub open spec fn bits_over(bits: Seq<BooleanFunction>, order: Seq<u64>) -> bool {
    forall|i: int| 0 <= i < bits.len() ==> (#[trigger] bits[i]).wf(order)
}

/// The alternative whose guard holds; none does, or more than one, or it has
/// no definite value.
pub open spec fn pick(s: Seq<(PluckVal, BooleanFunction)>, a: Worlds) -> Outcome
    decreases s,
{
    if s.len() == 0 {
        Outcome::Fail
    } else {
        let e = s.last();
        either(
            pick(s.drop_last(), a),
            if e.1.eval(a) {
                match e.0.at(a) {
                    Some(d) => Outcome::Done(d),
                    None => Outcome::Stuck,
                }
            } else {
                Outcome::Fail
            },
        )
    }
}

pub open spec fn entries_over(s: Seq<(PluckVal, BooleanFunction)>, order: Seq<u64>) -> bool
    decreases s,
{
    s.len() == 0 || (entries_over(s.drop_last(), order) && s.last().0.over(order)
        && s.last().1.wf(order))
}

/// The copies of a list of values are the values.
pub fn clone_vals(s: &Vec<PluckVal>) -> (r: Vec<PluckVal>)
    ensures
        r@ == s@,
{
    let mut r: Vec<PluckVal> = Vec::new();
    let mut i: usize = 0;
    while i < s.len()
        invariant
            i <= s.len(),
            r@ == s@.take(i as int),
        decreases s.len() - i,
    {
        r.push(s[i].clone());
        assert(r@ =~= s@.take(i + 1));
        i = i + 1;
    }
    assert(s@.take(s@.len() as int) =~= s@);
    r
}

pub proof fn lemma_all_at(s: Seq<PluckVal>, a: Worlds)
    ensures
        all_at(s, a) is Some <==> (forall|i: int| 0 <= i < s.len() ==> (#[trigger] s[i]).at(a) is Some),
        all_at(s, a) matches Some(ds) ==> ds.len() == s.len() && forall|i: int|
            0 <= i < s.len() ==> (#[trigger] s[i]).at(a) == Some(ds[i]),
    decreases s.len(),
{
    if s.len() > 0 {
        let p = s.drop_last();
        lemma_all_at(p, a);
        assert(forall|i: int| 0 <= i < p.len() ==> p[i] == s[i]);
        if forall|i: int| 0 <= i < s.len() ==> (#[trigger] s[i]).at(a) is Some {
            assert forall|i: int| 0 <= i < p.len() implies (#[trigger] p[i]).at(a) is Some by {
                assert(s[i].at(a) is Some);
            }
        }
        if all_at(s, a) is Some {
            assert forall|i: int| 0 <= i < s.len() implies (#[trigger] s[i]).at(a) == Some(
                all_at(s, a)->0[i],
            ) by {
                if i < p.len() {
                    assert(p[i].at(a) == Some(all_at(p, a)->0[i]));
                }
            }
        }
    }
}

pub proof fn lemma_all_over(s: Seq<PluckVal>, order: Seq<u64>)
    ensures
        all_over(s, order) <==> (forall|i: int| 0 <= i < s.len() ==> (#[trigger] s[i]).over(order)),
    decreases s.len(),
{
    if s.len() > 0 {
        let p = s.drop_last();
        lemma_all_over(p, order);
        assert(forall|i: int| 0 <= i < p.len() ==> p[i] == s[i]);
        if forall|i: int| 0 <= i < s.len() ==> (#[trigger] s[i]).over(order) {
            assert forall|i: int| 0 <= i < p.len() implies (#[trigger] p[i]).over(order) by {
                assert(s[i].over(order));
            }
        }
        if all_over(s, order) {
            assert forall|i: int| 0 <= i < s.len() implies (#[trigger] s[i]).over(order) by {
                if i < p.len() {
                    assert(p[i].over(order));
                }
            }
        }
    }
}

pub proof fn lemma_entries_over(s: Seq<(PluckVal, BooleanFunction)>, order: Seq<u64>)
    ensures
        entries_over(s, order) <==> (forall|i: int|
            0 <= i < s.len() ==> (#[trigger] s[i]).0.over(order) && s[i].1.wf(order)),
    decreases s.len(),
{
    if s.len() > 0 {
        let p = s.drop_last();
        lemma_entries_over(p, order);
        assert(forall|i: int| 0 <= i < p.len() ==> p[i] == s[i]);
        if forall|i: int| 0 <= i < s.len() ==> (#[trigger] s[i]).0.over(order) && s[i].1.wf(order) {
            assert forall|i: int| 0 <= i < p.len() implies (#[trigger] p[i]).0.over(order)
                && p[i].1.wf(order) by {
                assert(s[i].0.over(order));
            }
        }
        if entries_over(s, order) {
            assert forall|i: int| 0 <= i < s.len() implies (#[trigger] s[i]).0.over(order)
                && s[i].1.wf(order) by {
                if i < p.len() {
                    assert(p[i].0.over(order));
                }
            }
        }
    }
}

/// Every function over the variables of `one` is one over those of `two`.
pub open spec fn within(one: Seq<u64>, two: Seq<u64>) -> bool {
    forall|f: BooleanFunction| #[trigger] f.wf(one) ==> f.wf(two)
}

/// A value over some variables stays one when variables are added.
pub proof fn lemma_over_grows(v: &PluckValue, one: Seq<u64>, two: Seq<u64>)
    requires
        v.over(one),
        within(one, two),
    ensures
        v.over(two),
    decreases v,
{
    match v {
        PluckValue::Value { args, .. } => lemma_all_over_grows(args@, one, two),
        PluckValue::Closure(c) => lemma_env_over_grows(&*c.env, one, two),
        PluckValue::Thunk(t) => lemma_env_over_grows(&*t.env, one, two),
        PluckValue::ThunkUnion(u) => lemma_entries_over_grows(u.thunks@, one, two),
        PluckValue::FloatMatrix { entries, .. } => lemma_all_over_grows(entries@, one, two),
        PluckValue::IntDist { bits } => {
            assert forall|i: int| 0 <= i < bits@.len() implies (#[trigger] bits@[i]).wf(two) by {
                assert(bits@[i].wf(one));
            }
        },
        _ => {},
    }
}

pub proof fn lemma_env_over_grows(env: &EnvInner, one: Seq<u64>, two: Seq<u64>)
    requires
        env.over(one),
        within(one, two),
    ensures
        env.over(two),
    decreases env,
{
    match env {
        EnvInner::Nil => {},
        EnvInner::Cons { val, tail, .. } => {
            lemma_over_grows(&**val, one, two);
            lemma_env_over_grows(&**tail, one, two);
        },
    }
}

pub proof fn lemma_all_over_grows(s: Seq<PluckVal>, one: Seq<u64>, two: Seq<u64>)
    requires
        all_over(s, one),
        within(one, two),
    ensures
        all_over(s, two),
    decreases s,
{
    if s.len() > 0 {
        lemma_all_over_grows(s.drop_last(), one, two);
        let last = s[s.len() - 1];
        assert(s.last() == last);
        lemma_over_grows(&*last, one, two);
    }
}

pub proof fn lemma_entries_over_grows(
    s: Seq<(PluckVal, BooleanFunction)>,
    one: Seq<u64>,
    two: Seq<u64>,
)
    requires
        entries_over(s, one),
        within(one, two),
    ensures
        entries_over(s, two),
    decreases s,
{
    if s.len() > 0 {
        lemma_entries_over_grows(s.drop_last(), one, two);
        let last = s[s.len() - 1].0;
        assert(s.last().0 == last);
        lemma_over_grows(&*last, one, two);
    }
}

/// The alternatives of two lists together.
pub proof fn lemma_pick_concat(
    x: Seq<(PluckVal, BooleanFunction)>,
    y: Seq<(PluckVal, BooleanFunction)>,
    a: Worlds,
)
    ensures
        pick(x + y, a) == either(pick(x, a), pick(y, a)),
    decreases y.len(),
{
    if y.len() == 0 {
        assert(x + y =~= x);
    } else {
        lemma_pick_concat(x, y.drop_last(), a);
        assert((x + y).drop_last() =~= x + y.drop_last());
        assert((x + y).last() == y.last());
    }
}

/// One alternative.
pub open spec fn option(e: (PluckVal, BooleanFunction), a: Worlds) -> Outcome {
    if e.1.eval(a) {
        match e.0.at(a) {
            Some(d) => Outcome::Done(d),
            None => Outcome::Stuck,
        }
    } else {
        Outcome::Fail
    }
}

pub proof fn lemma_pick_push(s: Seq<(PluckVal, BooleanFunction)>, e: (PluckVal, BooleanFunction), a: Worlds)
    ensures
        pick(s.push(e), a) == either(pick(s, a), option(e, a)),
{
    assert(s.push(e).drop_last() =~= s);
}

/// A list of one alternative.
pub proof fn lemma_pick_single(e: (PluckVal, BooleanFunction))
    ensures
        forall|a: Worlds| #[trigger] pick(seq![e], a) == option(e, a),
        forall|order: Seq<u64>| #[trigger]
            entries_over(seq![e], order) <==> e.0.over(order) && e.1.wf(order),
{
    let none = Seq::<(PluckVal, BooleanFunction)>::empty();
    assert(seq![e] =~= none.push(e));
    assert(seq![e].drop_last() =~= none);
    assert forall|a: Worlds| #[trigger] pick(seq![e], a) == option(e, a) by {
        lemma_pick_push(none, e, a);
    }
    assert forall|order: Seq<u64>| #[trigger] entries_over(seq![e], order) <==> e.0.over(order)
        && e.1.wf(order) by {
        assert(entries_over(none, order));
    }
}

/// The alternatives without the one at `k`, and that one.
pub proof fn lemma_pick_at(s: Seq<(PluckVal, BooleanFunction)>, k: int, a: Worlds)
    requires
        0 <= k < s.len(),
    ensures
        pick(s, a) == either(pick(s.remove(k), a), option(s[k], a)),
    decreases s.len(),
{
    let p = s.drop_last();
    if k == s.len() - 1 {
        assert(s.remove(k) =~= p);
    } else {
        lemma_pick_at(p, k, a);
        assert(p.remove(k).push(s.last()) =~= s.remove(k));
        lemma_pick_push(p.remove(k), s.last(), a);
        assert(p[k] == s[k]);
    }
}

/// Changing one alternative changes the choice only by that alternative.
pub proof fn lemma_pick_update(
    s: Seq<(PluckVal, BooleanFunction)>,
    k: int,
    e: (PluckVal, BooleanFunction),
    a: Worlds,
)
    requires
        0 <= k < s.len(),
    ensures
        pick(s.update(k, e), a) == either(pick(s.remove(k), a), option(e, a)),
{
    lemma_pick_at(s.update(k, e), k, a);
    assert(s.update(k, e).remove(k) =~= s.remove(k));
}

/// An alternative may be merged into another one that has the same value
/// where the former holds.
pub proof fn lemma_pick_merge(
    s: Seq<(PluckVal, BooleanFunction)>,
    k: int,
    e: (PluckVal, BooleanFunction),
    m: (PluckVal, BooleanFunction),
    a: Worlds,
)
    requires
        0 <= k < s.len(),
        m.1.eval(a) == (s[k].1.eval(a) || e.1.eval(a)),
        s[k].1.eval(a) && !e.1.eval(a) ==> m.0.at(a) == s[k].0.at(a),
        e.1.eval(a) && !s[k].1.eval(a) ==> m.0.at(a) == e.0.at(a),
        pick(s.push(e), a) != Outcome::Stuck,
    ensures
        pick(s.update(k, m), a) == pick(s.push(e), a),
{
    lemma_pick_update(s, k, m, a);
    lemma_pick_at(s, k, a);
    lemma_pick_push(s, e, a);
}

/// Where a value is chosen, its alternative is in the list and holds, and no
/// other one does.
pub proof fn lemma_pick_done(s: Seq<(PluckVal, BooleanFunction)>, a: Worlds) -> (k: int)
    requires
        pick(s, a) is Done,
    ensures
        0 <= k < s.len(),
        s[k].1.eval(a),
        s[k].0.at(a) == Some(pick(s, a)->Done_0),
        forall|i: int| 0 <= i < s.len() && i != k ==> !(#[trigger] s[i]).1.eval(a),
    decreases s.len(),
{
    let p = s.drop_last();
    if option(s.last(), a) is Fail {
        let k = lemma_pick_done(p, a);
        assert(p[k] == s[k]);
        assert forall|i: int| 0 <= i < s.len() && i != k implies !(#[trigger] s[i]).1.eval(a) by {
            if i < p.len() {
                assert(p[i] == s[i]);
            }
        }
        k
    } else {
        lemma_pick_fail(p, a);
        assert forall|i: int| 0 <= i < s.len() && i != s.len() - 1 implies !(#[trigger] s[i]).1.eval(a) by {
            assert(p[i] == s[i]);
        }
        s.len() - 1
    }
}

/// None is chosen exactly if no guard holds.
pub proof fn lemma_pick_fail(s: Seq<(PluckVal, BooleanFunction)>, a: Worlds)
    ensures
        pick(s, a) is Fail <==> (forall|i: int| 0 <= i < s.len() ==> !(#[trigger] s[i]).1.eval(a)),
    decreases s.len(),
{
    if s.len() > 0 {
        let p = s.drop_last();
        lemma_pick_fail(p, a);
        assert(forall|i: int| 0 <= i < p.len() ==> p[i] == s[i]);
        if forall|i: int| 0 <= i < s.len() ==> !(#[trigger] s[i]).1.eval(a) {
            assert forall|i: int| 0 <= i < p.len() implies !(#[trigger] p[i]).1.eval(a) by {
                assert(!s[i].1.eval(a));
            }
            assert(!s[s.len() - 1].1.eval(a));
        }
        if pick(s, a) is Fail {
            assert forall|i: int| 0 <= i < s.len() implies !(#[trigger] s[i]).1.eval(a) by {
                if i < p.len() {
                    assert(!p[i].1.eval(a));
                }
            }
        }
    }
}

/// A list in which exactly one guard holds chooses its value.
pub proof fn lemma_pick_one(s: Seq<(PluckVal, BooleanFunction)>, k: int, a: Worlds)
    requires
        0 <= k < s.len(),
        s[k].1.eval(a),
        forall|i: int| 0 <= i < s.len() && i != k ==> !(#[trigger] s[i]).1.eval(a),
    ensures
        pick(s, a) == option(s[k], a),
{
    lemma_pick_at(s, k, a);
    let p = s.remove(k);
    assert forall|i: int| 0 <= i < p.len() implies !(#[trigger] p[i]).1.eval(a) by {
        if i < k {
            assert(p[i] == s[i]);
        } else {
            assert(p[i] == s[i + 1]);
        }
    }
    lemma_pick_fail(p, a);
}

/// The innermost binding of a name.
pub open spec fn lookup(scope: Seq<(Symbol, Datum)>, wanted: Symbol) -> Option<Datum>
    decreases scope.len(),
{
    if scope.len() == 0 {
        None
    } else if scope.last().0 == wanted {
        Some(scope.last().1)
    } else {
        lookup(scope.drop_last(), wanted)
    }
}

/// Looking a name up and taking values under an assignment commute.
pub proof fn lemma_find(env: &EnvInner, wanted: Symbol, a: Worlds)
    requires
        env.at(a) is Some,
    ensures
        match env.find(wanted) {
            Some(v) => v.at(a) is Some && lookup(env.at(a)->0, wanted) == v.at(a),
            None => lookup(env.at(a)->0, wanted) is None,
        },
    decreases env,
{
    match env {
        EnvInner::Nil => {},
        EnvInner::Cons { name, val, tail } => {
            lemma_find(&**tail, wanted, a);
            let rest = tail.at(a)->0;
            assert(rest.push((*name, val.at(a)->0)).drop_last() =~= rest);
        },
    }
}

/// What is bound is over the variables of the environment.
pub proof fn lemma_find_over(env: &EnvInner, wanted: Symbol, order: Seq<u64>)
    requires
        env.over(order),
    ensures
        env.find(wanted) matches Some(v) ==> v.over(order),
    decreases env,
{
    match env {
        EnvInner::Nil => {},
        EnvInner::Cons { tail, .. } => lemma_find_over(&**tail, wanted, order),
    }
}

pub fn empty_env() -> (r: Env)
    ensures
        *r == EnvInner::Nil,
{
    Rc::new(EnvInner::Nil)
}

pub fn env_cons(name: Symbol, val: PluckVal, tail: Env) -> (r: Env)
    ensures
        *r == (EnvInner::Cons { name, val, tail }),
{
    Rc::new(EnvInner::Cons { name, val, tail })
}

/// Look up a variable by name in the environment.
/// Returns the first match (innermost binding).
pub fn env_lookup(env: &Env, name: Symbol) -> (r: Option<PluckVal>)
    ensures
        r == env.find(name),
{
    let mut current: &EnvInner = env;
    loop
        invariant
            current.find(name) == env.find(name),
        decreases current,
    {
        match current {
            EnvInner::Nil => {
                return None;
            },
            EnvInner::Cons { name: n, val, tail } => {
                if *n == name {
                    return Some(val.clone());
                }
                current = tail;
            },
        }
    }
}

/// The number of bindings, shadowed ones too.
pub fn env_len(env: &Env) -> (r: usize)
    requires
        env.size() <= usize::MAX,
    ensures
        r == env.size(),
{
    let mut count: usize = 0;
    let mut current: &EnvInner = env;
    loop
        invariant
            count + current.size() == env.size(),
            env.size() <= usize::MAX,
        decreases current,
    {
        match current {
            EnvInner::Nil => {
                return count;
            },
            EnvInner::Cons { tail, .. } => {
                count = count + 1;
                current = tail;
            },
        }
    }
}

// --- Convenience constructors ---

pub fn mk_value(constructor: Symbol, args: Vec<PluckVal>) -> (r: PluckVal)
    ensures
        *r == (PluckValue::Value { constructor, args }),
{
    Rc::new(PluckValue::Value { constructor, args })
}

pub fn mk_native_float(v: u64) -> (r: PluckVal)
    ensures
        *r == PluckValue::Native(NativeVal::Float(v)),
{
    Rc::new(PluckValue::Native(NativeVal::Float(v)))
}

pub fn mk_native_int(v: i64) -> (r: PluckVal)
    ensures
        *r == PluckValue::Native(NativeVal::Int(v)),
{
    Rc::new(PluckValue::Native(NativeVal::Int(v)))
}

pub fn mk_native_symbol(s: Symbol) -> (r: PluckVal)
    ensures
        *r == PluckValue::Native(NativeVal::Symbol(s)),
{
    Rc::new(PluckValue::Native(NativeVal::Symbol(s)))
}

pub fn mk_native_bool(b: bool) -> (r: PluckVal)
    ensures
        *r == PluckValue::Native(NativeVal::Bool(b)),
{
    Rc::new(PluckValue::Native(NativeVal::Bool(b)))
}

pub fn mk_closure(var: Symbol, body: Rc<PExpr>, env: Env) -> (r: PluckVal)
    ensures
        *r == PluckValue::Closure(ClosureData { var, body, env, rec_name: None }),
{
    Rc::new(PluckValue::Closure(ClosureData { var, body, env, rec_name: None }))
}

pub fn mk_int_dist(bits: Vec<BooleanFunction>) -> (r: PluckVal)
    ensures
        *r == (PluckValue::IntDist { bits }),
{
    Rc::new(PluckValue::IntDist { bits })
}

/// Create a self-referential closure for the Y combinator.
///
/// Y takes `(λ rec_name -> (λ arg_name -> body))` and creates a closure
/// where `rec_name` stands for the closure itself.
pub fn mk_y_closure(body: Rc<PExpr>, env: Env, rec_name: Symbol, arg_name: Symbol) -> (r: PluckVal)
    ensures
        *r == PluckValue::Closure(
            ClosureData { var: arg_name, body, env, rec_name: Some(rec_name) },
        ),
{
    Rc::new(
        PluckValue::Closure(ClosureData { var: arg_name, body, env, rec_name: Some(rec_name) }),
    )
}

pub fn mk_thunk(expr: Rc<PExpr>, env: Env, strict_order_index: i32, callstack: Vec<i32>) -> (r:
    PluckVal)
    ensures
        *r == PluckValue::Thunk(ThunkData { expr, env, strict_order_index, callstack }),
{
    Rc::new(PluckValue::Thunk(ThunkData { expr, env, strict_order_index, callstack }))
}

pub fn mk_thunk_union(thunks: Vec<(PluckVal, BooleanFunction)>) -> (r: PluckVal)
    ensures
        *r == PluckValue::ThunkUnion(ThunkUnionData { thunks }),
{
    Rc::new(PluckValue::ThunkUnion(ThunkUnionData { thunks }))
}

pub fn mk_probability(beta_name: u64) -> (r: PluckVal)
    ensures
        *r == PluckValue::Probability(beta_name),
{
    Rc::new(PluckValue::Probability(beta_name))
}

/// A gamma value that is not scaled.
pub fn mk_gamma(gamma_name: u64) -> (r: PluckVal)
    ensures
        *r == (PluckValue::Gamma { name: gamma_name, scale: ONE }),
{
    Rc::new(PluckValue::Gamma { name: gamma_name, scale: ONE })
}

/// Create a scaled gamma value representing `scale * g`.
pub fn mk_gamma_scaled(gamma_name: u64, scale: u64) -> (r: PluckVal)
    ensures
        *r == (PluckValue::Gamma { name: gamma_name, scale }),
{
    Rc::new(PluckValue::Gamma { name: gamma_name, scale })
}

pub fn mk_exponential(gamma_name: u64, exponential_name: u64, scale: u64) -> (r: PluckVal)
    ensures
        *r == (PluckValue::Exponential { name: exponential_name, gamma: gamma_name, scale }),
{
    Rc::new(PluckValue::Exponential { name: exponential_name, gamma: gamma_name, scale })
}

pub fn mk_poisson(gamma_name: u64, poisson_name: u64, scale: u64) -> (r: PluckVal)
    ensures
        *r == (PluckValue::Poisson { name: poisson_name, gamma: gamma_name, scale }),
{
    Rc::new(PluckValue::Poisson { name: poisson_name, gamma: gamma_name, scale })
}

pub fn mk_dirichlet_probability(dirichlet_name: u64, index: usize, categories: usize) -> (r:
    PluckVal)
    ensures
        *r == (PluckValue::DirichletProbability { name: dirichlet_name, index, categories }),
{
    Rc::new(PluckValue::DirichletProbability { name: dirichlet_name, index, categories })
}

pub fn mk_dirichlet(dirichlet_name: u64, categories: usize) -> (r: PluckVal)
    ensures
        *r == (PluckValue::DirichletVector { name: dirichlet_name, categories }),
{
    Rc::new(PluckValue::DirichletVector { name: dirichlet_name, categories })
}

pub fn mk_gaussian_expr(constant: u64, coefficients: Vec<(u64, u64)>) -> (r: PluckVal)
    ensures
        *r == (PluckValue::GaussianExpr { constant, coefficients }),
{
    Rc::new(PluckValue::GaussianExpr { constant, coefficients })
}

pub fn mk_float_matrix(entries: Vec<PluckVal>, shape: Vec<usize>) -> (r: PluckVal)
    ensures
        *r == (PluckValue::FloatMatrix { entries, shape }),
{
    Rc::new(PluckValue::FloatMatrix { entries, shape })
}

/// Peek a matrix entry without forcing: the number, if the entry is exactly a
/// float.
pub fn entry_constant(v: &PluckValue) -> (r: Option<u64>)
    ensures
        r == (match *v {
            PluckValue::Native(NativeVal::Float(f)) => Some(f),
            _ => None,
        }),
{
    match v {
        PluckValue::Native(NativeVal::Float(f)) => Some(*f),
        _ => None,
    }
}

/// Symbolic values refer to continuous random variables. Their datum is the
/// same under every assignment.
pub open spec fn symbol_of(v: PluckValue) -> Option<Datum> {
    match v {
        PluckValue::Probability(name) => Some(Datum::Probability(name)),
        PluckValue::DirichletProbability { name, index, categories } => Some(
            Datum::DirichletProbability { name, index, categories },
        ),
        PluckValue::DirichletVector { name, categories } => Some(
            Datum::DirichletVector { name, categories },
        ),
        PluckValue::GaussianExpr { constant, coefficients } => Some(
            Datum::Gaussian { constant, coefficients: coefficients@ },
        ),
        PluckValue::Gamma { name, scale } => Some(Datum::Gamma { name, scale }),
        PluckValue::Exponential { name, gamma, scale } => Some(
            Datum::Exponential { name, gamma, scale },
        ),
        PluckValue::Poisson { name, gamma, scale } => Some(Datum::Poisson { name, gamma, scale }),
        _ => None,
    }
}

/// Nothing in the value is left open: no thunk, no union, no symbolic part,
/// and the bits of every integer are constants.
pub open spec fn concrete(v: PluckValue) -> bool
    decreases v,
{
    match v {
        PluckValue::Value { args, .. } => all_concrete(args@),
        PluckValue::FloatMatrix { entries, .. } => all_concrete(entries@),
        PluckValue::IntDist { bits } => forall|i: int|
            0 <= i < bits@.len() ==> (#[trigger] bits@[i]) is True || bits@[i] is False,
        _ => is_head(v) && symbol_of(v) is None,
    }
}

pub open spec fn all_concrete(s: Seq<PluckVal>) -> bool
    decreases s,
{
    s.len() == 0 || (all_concrete(s.drop_last()) && concrete(*s.last()))
}

/// The continuous variables that a symbolic value refers to.
pub open spec fn variables_of(v: PluckValue) -> Set<u64> {
    match v {
        PluckValue::Probability(name) => set![name],
        PluckValue::DirichletProbability { name, .. } => set![name],
        PluckValue::DirichletVector { name, .. } => set![name],
        PluckValue::GaussianExpr { coefficients, .. } => names_in(coefficients@),
        PluckValue::Gamma { name, .. } => set![name],
        PluckValue::Exponential { name, gamma, .. } => set![name, gamma],
        PluckValue::Poisson { name, gamma, .. } => set![name, gamma],
        _ => Set::empty(),
    }
}

/// The names in a list of coefficients.
pub open spec fn names_in(s: Seq<(u64, u64)>) -> Set<u64> {
    Set::new(|n: u64| exists|i: int| 0 <= i < s.len() && (#[trigger] s[i]).0 == n)
}

/// Classification of a symbolic value by the position it takes in a result.
/// The Gamma variant covers the whole gamma family: `name` is the rate name
/// for `Gamma` values, the draw name for `Exponential`/`Poisson` values, and
/// `scale` is the gamma scale factor (1 for any draw).
#[derive(Debug)]
pub enum SymbolicPositionKind {
    Beta(u64),
    Dirichlet(u64),
    Gamma { name: u64, scale: u64 },
    Gaussian { constant: u64, coefficients: Vec<(u64, u64)> },
}

/// What a position is.
pub enum Position {
    Beta(u64),
    Dirichlet(u64),
    Gamma { name: u64, scale: u64 },
    Gaussian { constant: u64, coefficients: Seq<(u64, u64)> },
}

impl View for SymbolicPositionKind {
    type V = Position;

    open spec fn view(&self) -> Position {
        match self {
            SymbolicPositionKind::Beta(n) => Position::Beta(*n),
            SymbolicPositionKind::Dirichlet(n) => Position::Dirichlet(*n),
            SymbolicPositionKind::Gamma { name, scale } => Position::Gamma {
                name: *name,
                scale: *scale,
            },
            SymbolicPositionKind::Gaussian { constant, coefficients } => Position::Gaussian {
                constant: *constant,
                coefficients: coefficients@,
            },
        }
    }
}

/// The position that a value takes: the variable that the value is.
pub open spec fn position_of(v: PluckValue) -> Option<Position> {
    match v {
        PluckValue::Probability(name) => Some(Position::Beta(name)),
        PluckValue::DirichletProbability { name, .. } => Some(Position::Dirichlet(name)),
        PluckValue::DirichletVector { name, .. } => Some(Position::Dirichlet(name)),
        PluckValue::GaussianExpr { constant, coefficients } => if coefficients@.len() == 0 {
            None
        } else {
            Some(Position::Gaussian { constant, coefficients: coefficients@ })
        },
        PluckValue::Gamma { name, scale } => Some(Position::Gamma { name, scale }),
        PluckValue::Exponential { name, .. } => Some(Position::Gamma { name, scale: ONE }),
        PluckValue::Poisson { name, .. } => Some(Position::Gamma { name, scale: ONE }),
        _ => None,
    }
}

/// Do the two lists of pairs agree?
pub fn same_pairs(x: &Vec<(u64, u64)>, y: &Vec<(u64, u64)>) -> (r: bool)
    ensures
        r == (x@ == y@),
{
    if x.len() != y.len() {
        return false;
    }
    let mut i: usize = 0;
    while i < x.len()
        invariant
            i <= x@.len(),
            x@.len() == y@.len(),
            x@.take(i as int) == y@.take(i as int),
        decreases x@.len() - i,
    {
        if x[i].0 != y[i].0 || x[i].1 != y[i].1 {
            assert(x@[i as int] != y@[i as int]);
            return false;
        }
        assert(x@.take(i + 1) =~= x@.take(i as int).push(x@[i as int]));
        assert(y@.take(i + 1) =~= y@.take(i as int).push(y@[i as int]));
        i = i + 1;
    }
    assert(x@.take(x@.len() as int) =~= x@);
    assert(y@.take(y@.len() as int) =~= y@);
    true
}

pub fn clone_pairs(s: &Vec<(u64, u64)>) -> (r: Vec<(u64, u64)>)
    ensures
        r@ == s@,
{
    let mut r: Vec<(u64, u64)> = Vec::new();
    let mut i: usize = 0;
    while i < s.len()
        invariant
            i <= s@.len(),
            r@ == s@.take(i as int),
        decreases s@.len() - i,
    {
        r.push((s[i].0, s[i].1));
        assert(r@ =~= s@.take(i + 1));
        i = i + 1;
    }
    assert(s@.take(s@.len() as int) =~= s@);
    r
}

impl PluckValue {
    /// True iff this is one of the symbolic-continuous variants.
    pub fn is_symbolic(&self) -> (r: bool)
        ensures
            r == (symbol_of(*self) is Some),
    {
        matches!(
            self,
            PluckValue::Probability(_)
                | PluckValue::DirichletProbability { .. }
                | PluckValue::DirichletVector { .. }
                | PluckValue::GaussianExpr { .. }
                | PluckValue::Gamma { .. }
                | PluckValue::Exponential { .. }
                | PluckValue::Poisson { .. }
        )
    }

    /// Structural equality on symbolic variants. Returns `false` for
    /// any non-symbolic value, and for the two Dirichlet variants.
    pub fn symbolic_eq(&self, other: &Self) -> (r: bool)
        ensures
            r == (symbol_of(*self) is Some && symbol_of(*self) == symbol_of(*other) && !(
            *self is DirichletProbability) && !(*self is DirichletVector)),
            r ==> forall|a: Worlds| #[trigger] self.at(a) == other.at(a),
    {
        match (self, other) {
            (PluckValue::Probability(a), PluckValue::Probability(b)) => *a == *b,
            (
                PluckValue::GaussianExpr { constant: ca, coefficients: ma },
                PluckValue::GaussianExpr { constant: cb, coefficients: mb },
            ) => *ca == *cb && same_pairs(ma, mb),
            (
                PluckValue::Gamma { name: a, scale: sa },
                PluckValue::Gamma { name: b, scale: sb },
            ) => *a == *b && *sa == *sb,
            (
                PluckValue::Exponential { name: na, gamma: ga, scale: sa },
                PluckValue::Exponential { name: nb, gamma: gb, scale: sb },
            ) => *na == *nb && *ga == *gb && *sa == *sb,
            (
                PluckValue::Poisson { name: na, gamma: ga, scale: sa },
                PluckValue::Poisson { name: nb, gamma: gb, scale: sb },
            ) => *na == *nb && *ga == *gb && *sa == *sb,
            _ => false,
        }
    }

    /// Insert this value's underlying variables into `out`. Handles self
    /// only: the arguments of a constructor are not visited.
    pub fn scope_into(&self, out: &mut BTreeSet<u64>)
        ensures
            final(out)@ == old(out)@.union(variables_of(*self)),
    {
        match self {
            PluckValue::Probability(name) => {
                out.insert(*name);
            },
            PluckValue::GaussianExpr { coefficients, .. } => {
                let mut i: usize = 0;
                assert(out@ =~= old(out)@.union(names_in(coefficients@.take(0))));
                while i < coefficients.len()
                    invariant
                        i <= coefficients@.len(),
                        out@ == old(out)@.union(names_in(coefficients@.take(i as int))),
                    decreases coefficients@.len() - i,
                {
                    out.insert(coefficients[i].0);
                    proof {
                        let before = coefficients@.take(i as int);
                        let after = coefficients@.take(i + 1);
                        let n = coefficients@[i as int].0;
                        assert(after[i as int].0 == n);
                        assert forall|m: u64| names_in(after).contains(m) == names_in(
                            before,
                        ).insert(n).contains(m) by {
                            if names_in(before).contains(m) {
                                let j = choose|j: int|
                                    0 <= j < before.len() && (#[trigger] before[j]).0 == m;
                                assert(after[j].0 == m);
                            }
                            if names_in(after).contains(m) {
                                let j = choose|j: int|
                                    0 <= j < after.len() && (#[trigger] after[j]).0 == m;
                                if j < i {
                                    assert(before[j].0 == m);
                                }
                            }
                        }
                        assert(names_in(after) =~= names_in(before).insert(n));
                    }
                    i = i + 1;
                }
                assert(coefficients@.take(coefficients@.len() as int) =~= coefficients@);
            },
            PluckValue::DirichletProbability { name, .. } => {
                out.insert(*name);
            },
            PluckValue::DirichletVector { name, .. } => {
                out.insert(*name);
            },
            PluckValue::Gamma { name, .. } => {
                out.insert(*name);
            },
            // A draw co-travels with its rate: the rate is the mixing
            // variable the draw's conditional is indexed by, so both
            // belong to the value's continuous scope.
            PluckValue::Exponential { name, gamma, .. } => {
                out.insert(*name);
                out.insert(*gamma);
            },
            PluckValue::Poisson { name, gamma, .. } => {
                out.insert(*name);
                out.insert(*gamma);
            },
            _ => {},
        }
        assert(out@ =~= old(out)@.union(variables_of(*self)));
    }

    /// Classify this symbolic value by the position it takes in a result.
    /// Returns `None` for non-symbolic values and for `GaussianExpr`
    /// with empty coefficients (a pure constant carries no position).
    pub fn position_kind(&self) -> (r: Option<SymbolicPositionKind>)
        ensures
            match r {
                Some(k) => position_of(*self) == Some(k@),
                None => position_of(*self) is None,
            },
    {
        match self {
            PluckValue::Probability(name) => Some(SymbolicPositionKind::Beta(*name)),
            PluckValue::DirichletProbability { name, .. } => Some(
                SymbolicPositionKind::Dirichlet(*name),
            ),
            PluckValue::DirichletVector { name, .. } => Some(
                SymbolicPositionKind::Dirichlet(*name),
            ),
            PluckValue::GaussianExpr { constant, coefficients } => if coefficients.len() == 0 {
                None
            } else {
                Some(
                    SymbolicPositionKind::Gaussian {
                        constant: *constant,
                        coefficients: clone_pairs(coefficients),
                    },
                )
            },
            PluckValue::Gamma { name, scale } => Some(
                SymbolicPositionKind::Gamma { name: *name, scale: *scale },
            ),
            PluckValue::Exponential { name, .. } => Some(
                SymbolicPositionKind::Gamma { name: *name, scale: ONE },
            ),
            PluckValue::Poisson { name, .. } => Some(
                SymbolicPositionKind::Gamma { name: *name, scale: ONE },
            ),
            _ => None,
        }
    }
}

/// The number that a chain of successors over zero stands for.
pub open spec fn chain(v: &PluckValue, zero: Symbol, succ: Symbol) -> Option<nat>
    decreases v,
{
    match v {
        PluckValue::Value { constructor, args } => if *constructor == zero && args@.len() == 0 {
            Some(0)
        } else if *constructor == succ && args@.len() == 1 {
            match chain(&*args@[0], zero, succ) {
                Some(n) => Some(n + 1),
                None => None,
            }
        } else {
            None
        },
        _ => None,
    }
}

/// The natural number that a value is: a native integer in two's complement,
/// or a chain of successors over zero that is not too long.
pub open spec fn nat_of(v: PluckValue, zero: Symbol, succ: Symbol) -> Option<u64> {
    match v {
        PluckValue::Native(NativeVal::Int(i)) => Some(i as u64),
        _ => match chain(&v, zero, succ) {
            Some(n) => if n <= u64::MAX {
                Some(n as u64)
            } else {
                None
            },
            None => None,
        },
    }
}

/// Decode a natural number from `val`. Accepts either a native int
/// or a strict Peano-encoded `S(S(...(O)))` chain where every cons is
/// `s_sym` (arity 1) and the terminator is `o_sym` (arity 0). Returns
/// `None` for anything else — including unary chains with the wrong
/// constructors (e.g. `Cons` instead of `S`). A negative int is taken in
/// two's complement.
pub fn extract_nat(val: &PluckVal, o_sym: Symbol, s_sym: Symbol) -> (r: Option<u64>)
    ensures
        r == nat_of(**val, o_sym, s_sym),
{
    if let PluckValue::Native(NativeVal::Int(i)) = &**val {
        return Some(*i as u64);
    }
    let mut count: u64 = 0;
    let mut current: &PluckValue = val;
    let ghost whole = chain(&**val, o_sym, s_sym);
    loop
        invariant
            whole == chain(&**val, o_sym, s_sym),
            whole is Some <==> chain(current, o_sym, s_sym) is Some,
            whole matches Some(n) ==> n == count + chain(current, o_sym, s_sym)->0,
            !(**val matches PluckValue::Native(NativeVal::Int(_))),
        decreases current,
    {
        match current {
            PluckValue::Value { constructor, args } => {
                if *constructor == o_sym && args.len() == 0 {
                    return Some(count);
                }
                if *constructor == s_sym && args.len() == 1 {
                    if count == u64::MAX {
                        return None;
                    }
                    count = count + 1;
                    current = &args[0];
                } else {
                    return None;
                }
            },
            _ => {
                return None;
            },
        }
    }
}

} // verus!
