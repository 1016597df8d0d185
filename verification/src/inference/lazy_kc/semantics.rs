//! What a Pluck expression evaluates to once every random choice is settled.
//!
//! The functions here say what an evaluation under one truth assignment comes
//! to; `fuel` is how deep it may go.

use vstd::prelude::*;

use super::affine;
use super::affine::{Affine, FloatOp};
use crate::inference::int_dists;
use crate::language::pexpr::{Const, Head, Tree, Weight};
use crate::language::primitives::Primitive;
use crate::language::types::Symbol;
use crate::language::values;
use crate::language::values::{Datum, Outcome};
use crate::utils::reals;
use crate::utils::reals::{Arithmetic, RealOp, ONE, TINY, ZERO};

verus! {

/// The bits of 10⁻⁹.
pub const SMALL: u64 = 0x3e11_2e0b_e826_d695;

/// The bits of ½.
pub const HALF: u64 = 0x3fe0_0000_0000_0000;

/// An event that a random choice decides.
#[allow(inconsistent_fields)]
pub enum Event {
    /// A flip with a known probability.
    Constant(u64),
    /// A flip with a Beta variable as its probability.
    Beta(u64),
    /// A Beta variable has a value.
    ProbPin(u64, u64),
    /// A flip with an element of a Dirichlet variable as its probability.
    Element { name: u64, index: usize, categories: usize },
    /// A categorical draw from a Dirichlet variable takes this category, if
    /// none before it.
    Stick { name: u64, index: usize },
    /// A Dirichlet variable has a value.
    VecPin { name: u64, value: Seq<u64> },
    /// A scaled Gamma variable has a value.
    RatePin { name: u64, value: u64, scale: u64 },
    /// An Exponential draw has a value.
    ExpEq { gamma: u64, draw: u64, value: u64, scale: u64 },
    /// An Exponential draw is below a bound, or not below it.
    ExpInterval { gamma: u64, draw: u64, below: bool, bound: u64, scale: u64 },
    /// A Poisson draw is a number.
    PoissonEq { gamma: u64, draw: u64, count: u64, scale: u64 },
    /// A Poisson draw is below a bound, or not below it.
    PoissonInterval { gamma: u64, draw: u64, below: bool, bound: u64, scale: u64 },
    /// An affine combination of Gaussian variables has a value.
    GaussianObs { constant: u64, coefficients: Seq<(u64, u64)>, observed: u64 },
}

/// The distribution of a continuous variable before anything is observed.
#[allow(inconsistent_fields)]
pub enum Law {
    Beta { a: u64, b: u64 },
    Gamma { shape: u64, rate: u64 },
    /// A rate that is known.
    Pinned { value: u64 },
    Dirichlet { alphas: Seq<u64> },
    /// A Gaussian with this mean and standard deviation.
    Gaussian { mu: u64, sigma: u64 },
    /// One of the correlated variables from `first` on, with the means and
    /// the covariances of all.
    Correlated { first: u64, mu_and_cov: Seq<u64> },
    /// A draw whose rate is the variable `gamma` times `scale`.
    Draw { poisson: bool, gamma: u64, scale: u64 },
}

/// A list of pairs, flattened.
pub open spec fn flattened(s: Seq<(u64, u64)>) -> Seq<u64>
    decreases s.len(),
{
    if s.len() == 0 {
        Seq::empty()
    } else {
        flattened(s.drop_last()) + seq![s.last().0, s.last().1]
    }
}

pub open spec fn flag_code(b: bool) -> u64 {
    if b {
        1
    } else {
        0
    }
}

impl Event {
    /// The event as numbers.
    pub open spec fn code(self) -> Seq<u64> {
        match self {
            Event::Constant(p) => seq![0u64, p],
            Event::Beta(n) => seq![1u64, n],
            Event::ProbPin(n, r) => seq![2u64, n, r],
            Event::Element { name, index, categories } => seq![
                3u64,
                name,
                index as u64,
                categories as u64,
            ],
            Event::Stick { name, index } => seq![4u64, name, index as u64],
            Event::VecPin { name, value } => seq![5u64, name] + value,
            Event::RatePin { name, value, scale } => seq![6u64, name, value, scale],
            Event::ExpEq { gamma, draw, value, scale } => seq![7u64, gamma, draw, value, scale],
            Event::ExpInterval { gamma, draw, below, bound, scale } => seq![
                8u64,
                gamma,
                draw,
                flag_code(below),
                bound,
                scale,
            ],
            Event::PoissonEq { gamma, draw, count, scale } => seq![9u64, gamma, draw, count, scale],
            Event::PoissonInterval { gamma, draw, below, bound, scale } => seq![
                10u64,
                gamma,
                draw,
                flag_code(below),
                bound,
                scale,
            ],
            Event::GaussianObs { constant, coefficients, observed } => seq![
                11u64,
                constant,
                observed,
            ] + flattened(coefficients),
        }
    }

    /// The event has probability zero unless it is conditioned on.
    pub open spec fn pinned(self) -> bool {
        match self {
            Event::ProbPin(..) => true,
            Event::VecPin { .. } => true,
            Event::RatePin { .. } => true,
            Event::ExpEq { .. } => true,
            Event::GaussianObs { .. } => true,
            _ => false,
        }
    }
}

/// What an evaluation goes by: the program, the arithmetic, and how every
/// random choice is settled.
pub struct Model {
    pub defs: Map<Symbol, Tree>,
    /// The constructors of lists, and those of natural numbers, if there are
    /// such types.
    pub list: Option<(Symbol, Symbol)>,
    pub nat: Option<(Symbol, Symbol)>,
    pub yes: Symbol,
    pub no: Symbol,
    pub arith: Arithmetic,
    /// Whether a matrix of the given width can be a covariance.
    pub covariance: spec_fn(nat, Seq<u64>) -> bool,
    /// Whether the event at a callstack happens.
    pub flips: spec_fn(Seq<i32>, Seq<u64>) -> bool,
    /// The continuous variable at a callstack with the given distribution.
    pub names: spec_fn(Seq<i32>, Law) -> u64,
    /// The block of correlated Gaussian variables at a callstack with the
    /// given means and covariances.
    pub blocks: spec_fn(Seq<i32>, Seq<u64>) -> Seq<u64>,
}

pub type Scope = Seq<(Symbol, Datum)>;

/// `True` or `False`.
pub open spec fn truth(x: Model, b: bool) -> Datum {
    Datum::Value {
        constructor: if b {
            x.yes
        } else {
            x.no
        },
        args: Seq::empty(),
    }
}

/// Whether the event happens, as a value.
pub open spec fn decided(x: Model, cs: Seq<i32>, index: i32, e: Event) -> Outcome {
    Outcome::Done(truth(x, (x.flips)(cs.push(index), e.code())))
}

pub open spec fn float(b: u64) -> Datum {
    Datum::Native(Const::Float(b))
}

pub open spec fn integer(i: i64) -> Datum {
    Datum::Native(Const::Int(i))
}

/// The number that a value is, an integer too.
pub open spec fn number(x: Model, d: Datum) -> Option<u64> {
    match d {
        Datum::Native(Const::Float(b)) => Some(b),
        Datum::Native(Const::Int(i)) => Some((x.arith)(RealOp::OfInt, i as u64, 0)),
        _ => None,
    }
}

pub open spec fn numbers(x: Model, s: Seq<Datum>) -> Option<Seq<u64>>
    decreases s.len(),
{
    if s.len() == 0 {
        Some(Seq::empty())
    } else {
        match (numbers(x, s.drop_last()), number(x, s.last())) {
            (Some(t), Some(b)) => Some(t.push(b)),
            _ => None,
        }
    }
}

/// The weight of an alternative as a number.
pub open spec fn weight(x: Model, w: Weight) -> u64 {
    match w {
        Weight::Real(b) => b,
        Weight::OneIn(n) => (x.arith)(RealOp::Quotient, ONE, (x.arith)(RealOp::OfInt, n as u64, 0)),
    }
}

/// The sum of the weights.
pub open spec fn total(x: Model, ws: Seq<Weight>) -> u64
    decreases ws.len(),
{
    if ws.len() == 0 {
        ZERO
    } else {
        (x.arith)(RealOp::Sum, total(x, ws.drop_last()), weight(x, ws.last()))
    }
}

/// A constant as a value.
pub open spec fn constant(x: Model, c: Const) -> Outcome {
    match c {
        Const::Share(ws) => if ws.len() == 0 {
            Outcome::Stuck
        } else {
            Outcome::Done(float((x.arith)(RealOp::Quotient, weight(x, ws[0]), total(x, ws))))
        },
        _ => Outcome::Done(Datum::Native(c)),
    }
}

/// An argument that is not evaluated yet. A variable is what it is bound to.
pub open spec fn delayed(t: Tree, env: Scope, index: i32, cs: Seq<i32>) -> Datum {
    match t.head {
        Head::Var(n) => match values::lookup(env, n) {
            Some(d) => d,
            None => Datum::Thunk { expr: t, env, index, callstack: cs },
        },
        _ => Datum::Thunk { expr: t, env, index, callstack: cs },
    }
}

pub open spec fn all_delayed(kids: Seq<Tree>, env: Scope, cs: Seq<i32>) -> Seq<Datum> {
    Seq::new(kids.len(), |i: int| delayed(kids[i], env, i as i32, cs))
}

/// An entry of a matrix: a number, or not evaluated yet.
pub open spec fn entry(x: Model, t: Tree, env: Scope, index: i32, cs: Seq<i32>) -> Datum {
    match t.head {
        Head::Const(Const::Float(b)) => float(b),
        Head::Const(Const::Int(i)) => float((x.arith)(RealOp::OfInt, i as u64, 0)),
        _ => Datum::Thunk { expr: t, env, index, callstack: cs },
    }
}

/// The cells of rows, one after the other.
pub open spec fn cells(rows: Seq<Tree>) -> Seq<Tree>
    decreases rows.len(),
{
    if rows.len() == 0 {
        Seq::empty()
    } else {
        cells(rows.drop_last()) + rows.last().kids
    }
}

pub open spec fn matrix(x: Model, shape: Seq<usize>, rows: Seq<Tree>, env: Scope, cs: Seq<i32>) -> Datum {
    Datum::Matrix {
        entries: Seq::new(
            cells(rows).len(),
            |i: int| entry(x, cells(rows)[i], env, i as i32, cs),
        ),
        shape,
    }
}

/// The first guard of the constructor.
pub open spec fn guard_for(guards: Seq<(Symbol, Seq<Symbol>)>, c: Symbol, from: int) -> Option<int>
    decreases guards.len() - from,
{
    if from < 0 || from >= guards.len() {
        None
    } else if guards[from].0 == c {
        Some(from)
    } else {
        guard_for(guards, c, from + 1)
    }
}

/// The scope with the names bound to the arguments, as far as there are
/// both.
pub open spec fn bound_args(env: Scope, names: Seq<Symbol>, args: Seq<Datum>) -> Scope
    decreases names.len(),
{
    if names.len() == 0 {
        env
    } else {
        let rest = bound_args(env, names.drop_last(), args);
        if names.len() <= args.len() {
            rest.push((names.last(), args[names.len() - 1]))
        } else {
            rest
        }
    }
}

/// A list of values.
pub open spec fn list_of(nil: Symbol, cons: Symbol, args: Seq<Datum>) -> Datum
    decreases args.len(),
{
    if args.len() == 0 {
        Datum::Value { constructor: nil, args: Seq::empty() }
    } else {
        Datum::Value {
            constructor: cons,
            args: seq![args[0], list_of(nil, cons, args.skip(1))],
        }
    }
}

/// The event of a flip with the given probability.
pub open spec fn flip_event(d: Datum) -> Option<Event> {
    match d {
        Datum::Native(Const::Float(p)) => Some(Event::Constant(p)),
        Datum::Probability(n) => Some(Event::Beta(n)),
        Datum::DirichletProbability { name, index, categories } => Some(
            Event::Element { name, index, categories },
        ),
        _ => None,
    }
}

/// A flip. One that is as good as certain is no choice.
pub open spec fn flip(x: Model, cs: Seq<i32>, d: Datum) -> Outcome {
    match flip_event(d) {
        None => Outcome::Stuck,
        Some(Event::Constant(p)) => if reals::smaller(p, TINY) {
            Outcome::Done(truth(x, false))
        } else if reals::smaller((x.arith)(RealOp::Difference, p, ONE), TINY) {
            Outcome::Done(truth(x, true))
        } else {
            decided(x, cs, 1, Event::Constant(p))
        },
        Some(e) => decided(x, cs, 1, e),
    }
}

/// Native values are equal, numbers as numbers.
pub open spec fn native_equal(a: Const, b: Const) -> bool {
    match (a, b) {
        (Const::Float(p), Const::Float(q)) => reals::equal(p, q),
        _ => a == b,
    }
}

/// An integer comparison.
#[derive(Debug, Clone, Copy, PartialEq, Eq, Structural)]
pub enum NativeCmp {
    /// `a ≤ b`.
    Leq,
    /// `a ≥ b`.
    Geq,
}

/// The comparison seen from the right operand's side:
/// `a ≤ b ⇔ b ≥ a`.
pub open spec fn mirrored(c: NativeCmp) -> NativeCmp {
    match c {
        NativeCmp::Leq => NativeCmp::Geq,
        NativeCmp::Geq => NativeCmp::Leq,
    }
}

/// A Poisson draw compared to a value: with equality, if `how` is none.
pub open spec fn poisson_test(x: Model, cs: Seq<i32>, draw: Datum, how: Option<NativeCmp>, other: Datum) -> Outcome {
    match (draw, other) {
        (Datum::Poisson { name, gamma, scale }, Datum::Native(Const::Int(n))) => match how {
            None => if n < 0 {
                Outcome::Done(truth(x, false))
            } else {
                decided(x, cs, 2, Event::PoissonEq { gamma, draw: name, count: n as u64, scale })
            },
            Some(NativeCmp::Leq) => if n < 0 {
                Outcome::Done(truth(x, false))
            } else {
                decided(
                    x,
                    cs,
                    2,
                    Event::PoissonInterval {
                        gamma,
                        draw: name,
                        below: true,
                        bound: (n + 1) as u64,
                        scale,
                    },
                )
            },
            Some(NativeCmp::Geq) => if n <= 0 {
                Outcome::Done(truth(x, true))
            } else {
                decided(
                    x,
                    cs,
                    2,
                    Event::PoissonInterval {
                        gamma,
                        draw: name,
                        below: false,
                        bound: n as u64,
                        scale,
                    },
                )
            },
        },
        _ => Outcome::Stuck,
    }
}

/// The bits of a number, least significant first.
pub open spec fn bits_of_number(v: u64, width: nat) -> Seq<bool> {
    Seq::new(width, |i: int| (v >> (i as u64)) & 1 == 1)
}

/// The number in the range at which a walk by halves ends.
pub open spec fn landed(x: Model, cs: Seq<i32>, lo: int, hi: int, depth: int) -> int
    decreases hi - lo,
{
    if hi <= lo {
        lo
    } else {
        let mid = lo + (hi - lo) / 2;
        if (x.flips)(cs.push(depth as i32), Event::Constant(half_weight(x, lo, mid, hi)).code()) {
            landed(x, cs, lo, mid, depth + 1)
        } else {
            landed(x, cs, mid + 1, hi, depth + 1)
        }
    }
}

/// The share of the lower half of a range.
pub open spec fn half_weight(x: Model, lo: int, mid: int, hi: int) -> u64 {
    let lower = (x.arith)(RealOp::OfInt, (mid - lo + 1) as i64 as u64, 0);
    let upper = (x.arith)(RealOp::OfInt, (hi - mid) as i64 as u64, 0);
    (x.arith)(RealOp::Quotient, lower, (x.arith)(RealOp::Sum, lower, upper))
}

/// The conditional probabilities by which a categorical choice is made one
/// category after the other; `left` is what the categories before `fs` leave.
pub open spec fn sticks(x: Model, fs: Seq<u64>) -> Seq<u64> {
    Seq::new((fs.len() - 1) as nat, |i: int| stick(x, fs, i))
}

/// What the categories before `i` leave.
pub open spec fn left_over(x: Model, fs: Seq<u64>, i: int) -> u64
    decreases i,
{
    if i <= 0 {
        ONE
    } else {
        (x.arith)(RealOp::Difference, left_over(x, fs, i - 1), fs[i - 1])
    }
}

/// A number, brought into the range from 0 to 1.
pub open spec fn clamped(b: u64) -> u64 {
    if reals::below(b, ZERO) {
        ZERO
    } else if reals::below(ONE, b) {
        ONE
    } else {
        b
    }
}

pub open spec fn stick(x: Model, fs: Seq<u64>, i: int) -> u64 {
    let left = left_over(x, fs, i);
    if reals::at_most(left, ZERO) {
        ZERO
    } else {
        clamped((x.arith)(RealOp::Quotient, fs[i], left))
    }
}

/// The sum of numbers.
pub open spec fn sum_of(x: Model, fs: Seq<u64>) -> u64
    decreases fs.len(),
{
    if fs.len() == 0 {
        ZERO
    } else {
        (x.arith)(RealOp::Sum, sum_of(x, fs.drop_last()), fs.last())
    }
}

/// The floats of a list of values, if all are floats.
pub open spec fn floats(s: Seq<Datum>) -> Option<Seq<u64>>
    decreases s.len(),
{
    if s.len() == 0 {
        Some(Seq::empty())
    } else {
        match (floats(s.drop_last()), s.last()) {
            (Some(t), Datum::Native(Const::Float(b))) => Some(t.push(b)),
            _ => None,
        }
    }
}

/// The events of a categorical choice, but for the last category. Fails if
/// the probabilities do not add up.
pub open spec fn categories(x: Model, vals: Seq<Datum>) -> Result<Seq<Event>, Outcome> {
    match floats(vals) {
        Some(fs) => {
            let off = (x.arith)(RealOp::Difference, sum_of(x, fs), ONE);
            if fs.len() == 0 {
                Err(Outcome::Fail)
            } else if reals::nan(off) || !reals::below(SMALL, magnitude(off)) {
                Ok(Seq::new((fs.len() - 1) as nat, |i: int| Event::Constant(stick(x, fs, i))))
            } else {
                Err(Outcome::Fail)
            }
        },
        None => match vals[0] {
            Datum::DirichletVector { name, categories } => if vals.len() != 1 {
                Err(Outcome::Stuck)
            } else if categories == 0 {
                Err(Outcome::Fail)
            } else {
                Ok(
                    Seq::new(
                        (categories - 1) as nat,
                        |i: int| Event::Stick { name, index: i as usize },
                    ),
                )
            },
            _ => Err(Outcome::Stuck),
        },
    }
}

/// A number without its sign.
pub open spec fn magnitude(b: u64) -> u64 {
    reals::magnitude_of(b) as u64
}

/// The first of the events from `i` on that happens.
pub open spec fn first_hit(x: Model, cs: Seq<i32>, events: Seq<Event>, i: int) -> int
    decreases events.len() - i,
{
    if i < 0 || i >= events.len() || (x.flips)(cs.push(i as i32), events[i].code()) {
        i
    } else {
        first_hit(x, cs, events, i + 1)
    }
}

/// A categorical choice.
pub open spec fn categorical(x: Model, cs: Seq<i32>, vals: Seq<Datum>) -> Outcome {
    match categories(x, vals) {
        Err(o) => o,
        Ok(events) => if events.len() >= i32::MAX {
            Outcome::Stuck
        } else {
            Outcome::Done(integer(first_hit(x, cs, events, 0) as i64))
        },
    }
}

/// The parts of a vector: the entries of a row, or the arguments of a
/// constructor.
pub open spec fn vector_parts(d: Datum) -> Option<Seq<Datum>> {
    match d {
        Datum::Matrix { entries, shape } => if shape.len() == 1 {
            Some(entries)
        } else {
            None
        },
        Datum::Value { args, .. } => Some(args),
        _ => None,
    }
}

/// Numbers all of which are numbers.
pub open spec fn proper(s: Option<Seq<u64>>) -> Option<Seq<u64>> {
    match s {
        Some(t) => if exists|i: int| 0 <= i < t.len() && reals::nan(#[trigger] t[i]) {
            None
        } else {
            Some(t)
        },
        None => None,
    }
}

/// The vectors are equal number by number.
pub open spec fn vectors_equal(a: Seq<u64>, b: Seq<u64>) -> bool {
    a.len() == b.len() && forall|i: int| 0 <= i < a.len() ==> reals::equal(#[trigger] a[i], b[i])
}

/// A value is close enough to a number to be it.
pub open spec fn close(x: Model, a: u64, b: u64) -> bool {
    reals::smaller((x.arith)(RealOp::Difference, a, b), TINY)
}

/// An affine combination that a value is.
pub open spec fn affine_of(x: Model, d: Datum) -> Option<Affine> {
    match d {
        Datum::Gaussian { constant, coefficients } => Some((constant, coefficients)),
        _ => match number(x, d) {
            Some(b) => Some((b, Seq::empty())),
            None => None,
        },
    }
}

/// The numbers that values are; none has variables.
pub open spec fn constants(x: Model, s: Seq<Datum>) -> Option<Seq<u64>>
    decreases s.len(),
{
    if s.len() == 0 {
        Some(Seq::empty())
    } else {
        match (constants(x, s.drop_last()), affine_of(x, s.last())) {
            (Some(t), Some(p)) => if p.1.len() == 0 {
                Some(t.push(p.0))
            } else {
                None
            },
            _ => None,
        }
    }
}

/// An affine combination as a value: a number, if it has no variables.
pub open spec fn packed(p: Affine) -> Datum {
    if p.1.len() == 0 {
        float(p.0)
    } else {
        Datum::Gaussian { constant: p.0, coefficients: p.1 }
    }
}

pub open spec fn is_float(d: Datum, b: u64) -> bool {
    d matches Datum::Native(Const::Float(f)) && reals::equal(f, b)
}

/// Which of the operands have to be evaluated: a known 0 or 1 can make that
/// needless.
pub open spec fn needed(op: FloatOp, a: Datum, b: Datum) -> (bool, bool) {
    match op {
        FloatOp::Add => if is_float(a, ZERO) {
            (false, true)
        } else {
            (true, !is_float(b, ZERO))
        },
        FloatOp::Sub => (true, !is_float(b, ZERO)),
        FloatOp::Mul => if is_float(a, ZERO) || is_float(b, ZERO) {
            (false, false)
        } else if is_float(a, ONE) {
            (false, true)
        } else {
            (true, !is_float(b, ONE))
        },
        FloatOp::Div => if is_float(a, ZERO) {
            (false, false)
        } else {
            (true, !is_float(b, ONE))
        },
    }
}

/// The operation on two entries, of which those that are needed are
/// evaluated.
pub open spec fn cell(x: Model, op: FloatOp, a: Datum, b: Datum, fa: Datum, fb: Datum) -> Option<Affine> {
    match needed(op, a, b) {
        (false, false) => Some((ZERO, Seq::empty())),
        (false, true) => affine_of(x, fb),
        (true, false) => affine_of(x, fa),
        (true, true) => match (affine_of(x, fa), affine_of(x, fb)) {
            (Some(p), Some(q)) => affine::combined(op, p, q, x.arith),
            _ => None,
        },
    }
}

/// The operands of an operation entry by entry; a value that is no matrix
/// stands with every entry.
pub open spec fn paired(a: Datum, b: Datum) -> Option<Seq<(Datum, Datum)>> {
    match (a, b) {
        (
            Datum::Matrix { entries: s, shape: p },
            Datum::Matrix { entries: t, shape: q },
        ) => if p == q && s.len() == t.len() {
            Some(Seq::new(s.len(), |i: int| (s[i], t[i])))
        } else {
            None
        },
        (Datum::Matrix { entries: s, .. }, _) => Some(Seq::new(s.len(), |i: int| (s[i], b))),
        (_, Datum::Matrix { entries: t, .. }) => Some(Seq::new(t.len(), |i: int| (a, t[i]))),
        _ => Some(seq![(a, b)]),
    }
}

/// Rows and columns of an operand of a matrix product: a vector on the left
/// is a row, one on the right a column.
pub open spec fn lifted(shape: Seq<usize>, left: bool) -> Option<(usize, usize, bool)> {
    if shape.len() == 1 {
        if left {
            Some((1, shape[0], true))
        } else {
            Some((shape[0], 1, true))
        }
    } else if shape.len() == 2 {
        Some((shape[0], shape[1], false))
    } else {
        None
    }
}

/// The shape of a matrix product, if its operands fit: rows, inner dimension,
/// columns.
pub open spec fn product_shape(a: Datum, b: Datum) -> Option<(usize, usize, usize)> {
    match (a, b) {
        (
            Datum::Matrix { entries: s, shape: p },
            Datum::Matrix { entries: t, shape: q },
        ) => match (lifted(p, true), lifted(q, false)) {
            (Some((r, k, _)), Some((m, c, _))) => if k == m && s.len() == r * k && t.len() == m * c
                && r * c <= usize::MAX && r * c * k <= usize::MAX {
                Some((r, k, c))
            } else {
                None
            },
            _ => None,
        },
        _ => None,
    }
}

pub open spec fn entries_of(d: Datum) -> Seq<Datum> {
    match d {
        Datum::Matrix { entries, .. } => entries,
        _ => Seq::empty(),
    }
}

/// The factors of a matrix product: for each entry of the result, those of
/// its terms, one after the other.
pub open spec fn factors(a: Datum, b: Datum, k: int, c: int, n: int) -> Seq<(Datum, Datum)> {
    Seq::new(
        n as nat,
        |t: int|
            (
                entries_of(a)[((t / k) / c) * k + t % k],
                entries_of(b)[(t % k) * c + (t / k) % c],
            ),
    )
}

/// The sum of affine combinations.
pub open spec fn affine_sum(f: Arithmetic, s: Seq<Option<Affine>>) -> Option<Affine>
    decreases s.len(),
{
    if s.len() == 0 {
        Some((ZERO, Seq::empty()))
    } else {
        match (affine_sum(f, s.drop_last()), s.last()) {
            (Some(p), Some(q)) => affine::paired(
                f(RealOp::Sum, p.0, q.0),
                affine::merged(p.1, q.1, f),
            ),
            _ => None,
        }
    }
}

/// Affine combinations as values, if all are there.
pub open spec fn all_packed(s: Seq<Option<Affine>>) -> Option<Seq<Datum>>
    decreases s.len(),
{
    if s.len() == 0 {
        Some(Seq::empty())
    } else {
        match (all_packed(s.drop_last()), s.last()) {
            (Some(t), Some(p)) => Some(t.push(packed(p))),
            _ => None,
        }
    }
}

/// How far a value has to be evaluated.
#[derive(Debug, Clone, Copy, PartialEq, Eq, Structural)]
pub enum Depth {
    /// Not at all.
    Keep,
    /// Until it is no thunk.
    Head,
    /// Until a natural number is an integer.
    Number,
}

pub open spec fn depth_if(b: bool) -> Depth {
    if b {
        Depth::Head
    } else {
        Depth::Keep
    }
}

/// Both operands of each pair, each as far as it has to be evaluated.
pub open spec fn pair_wants(op: FloatOp, pairs: Seq<(Datum, Datum)>) -> Seq<(Depth, Datum)> {
    Seq::new(
        2 * pairs.len(),
        |i: int|
            {
                let p = pairs[i / 2];
                let n = needed(op, p.0, p.1);
                if i % 2 == 0 {
                    (depth_if(n.0), p.0)
                } else {
                    (depth_if(n.1), p.1)
                }
            },
    )
}

/// The results of an operation on pairs, from their evaluated operands.
pub open spec fn pair_cells(x: Model, op: FloatOp, pairs: Seq<(Datum, Datum)>, got: Seq<Datum>) -> Seq<
    Option<Affine>,
> {
    Seq::new(
        pairs.len(),
        |i: int| cell(x, op, pairs[i].0, pairs[i].1, got[2 * i], got[2 * i + 1]),
    )
}

/// A draw from an Exponential or Poisson distribution.
pub open spec fn is_draw(d: Datum) -> bool {
    d is Exponential || d is Poisson
}

/// Scaling of a Gamma variable; none if there is no such variable.
pub open spec fn scaled_gamma(f: Arithmetic, op: FloatOp, a: Datum, b: Datum) -> Option<Outcome> {
    if is_draw(a) || is_draw(b) {
        Some(Outcome::Stuck)
    } else if !(a is Gamma) && !(b is Gamma) {
        None
    } else {
        Some(
            match (op, a, b) {
                (
                    FloatOp::Mul,
                    Datum::Gamma { name, scale },
                    Datum::Native(Const::Float(c)),
                ) => rescaled(name, f(RealOp::Product, scale, c)),
                (
                    FloatOp::Mul,
                    Datum::Native(Const::Float(c)),
                    Datum::Gamma { name, scale },
                ) => rescaled(name, f(RealOp::Product, scale, c)),
                (
                    FloatOp::Div,
                    Datum::Gamma { name, scale },
                    Datum::Native(Const::Float(c)),
                ) => rescaled(name, f(RealOp::Quotient, scale, c)),
                _ => Outcome::Stuck,
            },
        )
    }
}

/// A Gamma variable with a new scale, which is positive.
pub open spec fn rescaled(name: u64, scale: u64) -> Outcome {
    if reals::below(ZERO, scale) {
        Outcome::Done(Datum::Gamma { name, scale })
    } else {
        Outcome::Stuck
    }
}

/// The float operation of a primitive.
pub open spec fn float_op(p: Primitive) -> Option<FloatOp> {
    match p {
        Primitive::FAdd => Some(FloatOp::Add),
        Primitive::FSub => Some(FloatOp::Sub),
        Primitive::FMul => Some(FloatOp::Mul),
        Primitive::FDiv => Some(FloatOp::Div),
        _ => None,
    }
}

/// The comparison of a primitive; none for equality.
pub open spec fn comparison(p: Primitive) -> Option<NativeCmp> {
    match p {
        Primitive::NativeLeq => Some(NativeCmp::Leq),
        Primitive::NativeGeq => Some(NativeCmp::Geq),
        _ => None,
    }
}

/// The comparison from the other side.
pub open spec fn turned(how: Option<NativeCmp>) -> Option<NativeCmp> {
    match how {
        Some(c) => Some(mirrored(c)),
        None => None,
    }
}

pub open spec fn is_scalar(d: Datum) -> bool {
    d matches Datum::Native(Const::Float(_)) || d matches Datum::Native(Const::Int(_))
}

/// What of the operands of a primitive has to be evaluated further, in order.
pub open spec fn wants(p: Primitive, vals: Seq<Datum>) -> Seq<(Depth, Datum)> {
    match p {
        Primitive::NativeEq => if vals[0] is Poisson {
            seq![(Depth::Number, vals[1])]
        } else if vals[1] is Poisson {
            seq![(Depth::Number, vals[0])]
        } else {
            Seq::empty()
        },
        Primitive::NativeLeq | Primitive::NativeGeq => if vals[0] is Poisson {
            seq![(Depth::Number, vals[1])]
        } else if vals[1] is Poisson {
            seq![(Depth::Number, vals[0])]
        } else {
            seq![(Depth::Number, vals[0]), (Depth::Number, vals[1])]
        },
        Primitive::FAdd | Primitive::FSub | Primitive::FMul | Primitive::FDiv => if is_draw(vals[0])
            || is_draw(vals[1]) || vals[0] is Gamma || vals[1] is Gamma {
            Seq::empty()
        } else {
            match paired(vals[0], vals[1]) {
                Some(pairs) => pair_wants(float_op(p)->0, pairs),
                None => Seq::empty(),
            }
        },
        Primitive::MatMul => match product_shape(vals[0], vals[1]) {
            Some((r, k, c)) => pair_wants(
                FloatOp::Mul,
                factors(vals[0], vals[1], k as int, c as int, r * c * k),
            ),
            None => Seq::empty(),
        },
        Primitive::Sum => all_at_head(entries_of(vals[0])),
        Primitive::DirichletEq => vector_wants(vals[0], vals[1]),
        Primitive::Index => match entry_place(vals) {
            Some(i) => seq![(Depth::Head, entries_of(vals[0])[i])],
            None => Seq::empty(),
        },
        Primitive::Gaussian => if is_scalar(vals[0]) && is_scalar(vals[1]) {
            Seq::empty()
        } else {
            all_at_head(entries_of(vals[0]) + entries_of(vals[1]))
        },
        _ => Seq::empty(),
    }
}

pub open spec fn all_at_head(s: Seq<Datum>) -> Seq<(Depth, Datum)> {
    Seq::new(s.len(), |i: int| (Depth::Head, s[i]))
}

/// The covariance entries that have to agree do.
pub open spec fn symmetric(x: Model, n: int, cov: Seq<u64>) -> bool {
    forall|r: int, c: int|
        0 <= r < c < n ==> #[trigger] reals::smaller(
            (x.arith)(RealOp::Difference, cov[r * n + c], cov[c * n + r]),
            SMALL,
        )
}

/// A Gaussian variable with the coefficient 1.
pub open spec fn unit(name: u64) -> Datum {
    Datum::Gaussian { constant: ZERO, coefficients: seq![(name, ONE)] }
}

/// A Gaussian, from its mean and spread: numbers, or a vector and a
/// covariance matrix.
pub open spec fn gaussian(x: Model, cs: Seq<i32>, mu: Datum, sigma: Datum, got: Seq<Datum>) -> Outcome {
    if is_scalar(mu) && is_scalar(sigma) {
        Outcome::Done(
            unit(
                (x.names)(
                    cs,
                    Law::Gaussian { mu: number(x, mu)->0, sigma: number(x, sigma)->0 },
                ),
            ),
        )
    } else {
        match (mu, sigma) {
            (
                Datum::Matrix { entries: s, shape: p },
                Datum::Matrix { entries: t, shape: q },
            ) => {
                let n = s.len() as int;
                if p == seq![n as usize] && q == seq![n as usize, n as usize] && t.len() == n * n {
                    match constants(x, got) {
                        Some(all) => if symmetric(x, n, all.skip(n)) && (x.covariance)(
                            n as nat,
                            all.skip(n),
                        ) {
                            Outcome::Done(
                                Datum::Matrix {
                                    entries: Seq::new(
                                        n as nat,
                                        |i: int| unit((x.blocks)(cs, all)[i]),
                                    ),
                                    shape: p,
                                },
                            )
                        } else {
                            Outcome::Stuck
                        },
                        None => Outcome::Stuck,
                    }
                } else {
                    Outcome::Stuck
                }
            },
            _ => Outcome::Stuck,
        }
    }
}

/// A real value tested for equality with a number.
pub open spec fn real_test(x: Model, cs: Seq<i32>, d: Datum, v: Datum) -> Outcome {
    match number(x, v) {
        None => Outcome::Stuck,
        Some(observed) => match d {
            Datum::Gaussian { constant, coefficients } => if coefficients.len() == 0 {
                Outcome::Done(truth(x, close(x, constant, observed)))
            } else {
                decided(x, cs, 2, Event::GaussianObs { constant, coefficients, observed })
            },
            Datum::Native(Const::Float(f)) => Outcome::Done(truth(x, close(x, f, observed))),
            Datum::Gamma { name, scale } => if reals::at_most(observed, ZERO) {
                Outcome::Done(truth(x, false))
            } else {
                decided(x, cs, 2, Event::RatePin { name, value: observed, scale })
            },
            Datum::Exponential { name, gamma, scale } => if reals::below(observed, ZERO) {
                Outcome::Done(truth(x, false))
            } else {
                decided(x, cs, 2, Event::ExpEq { gamma, draw: name, value: observed, scale })
            },
            _ => Outcome::Stuck,
        },
    }
}

/// A real value tested for being below a number, or not below it.
pub open spec fn range_test(x: Model, cs: Seq<i32>, is_lt: bool, d: Datum, v: Datum) -> Outcome {
    match number(x, v) {
        None => Outcome::Stuck,
        Some(bound) => match d {
            Datum::Native(Const::Float(f)) => Outcome::Done(
                truth(
                    x,
                    if is_lt {
                        reals::below(f, bound)
                    } else {
                        reals::at_most(bound, f)
                    },
                ),
            ),
            Datum::Exponential { name, gamma, scale } => if reals::at_most(bound, ZERO) {
                Outcome::Done(truth(x, !is_lt))
            } else if reals::nan(bound) {
                Outcome::Stuck
            } else {
                decided(
                    x,
                    cs,
                    2,
                    Event::ExpInterval { gamma, draw: name, below: is_lt, bound, scale },
                )
            },
            _ => Outcome::Stuck,
        },
    }
}

/// What has to be evaluated to compare two vectors: the parts of the second,
/// then those of the first, if it is a row of numbers too.
pub open spec fn vector_wants(d: Datum, v: Datum) -> Seq<(Depth, Datum)> {
    match vector_parts(v) {
        None => Seq::empty(),
        Some(p) => match d {
            Datum::Matrix { .. } => match vector_parts(d) {
                Some(q) => all_at_head(p + q),
                None => Seq::empty(),
            },
            _ => all_at_head(p),
        },
    }
}

/// A Dirichlet vector tested for equality with a vector.
pub open spec fn vector_test(x: Model, cs: Seq<i32>, d: Datum, v: Datum, got: Seq<Datum>) -> Outcome {
    match vector_parts(v) {
        None => Outcome::Stuck,
        Some(p) => match d {
            Datum::DirichletVector { name, categories } => match proper(numbers(x, got)) {
                Some(observed) => if observed.len() == categories {
                    decided(x, cs, 2, Event::VecPin { name, value: observed })
                } else {
                    Outcome::Stuck
                },
                None => Outcome::Stuck,
            },
            Datum::Matrix { .. } => match (vector_parts(d), proper(numbers(x, got))) {
                (Some(_), Some(all)) => Outcome::Done(
                    truth(
                        x,
                        vectors_equal(all.take(p.len() as int), all.skip(p.len() as int)),
                    ),
                ),
                _ => Outcome::Stuck,
            },
            _ => Outcome::Stuck,
        },
    }
}

/// An index into a dimension.
pub open spec fn index_in(d: Datum, n: int) -> Option<int> {
    match d {
        Datum::Native(Const::Int(i)) => if 0 <= i < n {
            Some(i as int)
        } else {
            None
        },
        _ => None,
    }
}

/// The place of the entry of a matrix that is asked for.
pub open spec fn entry_place(vals: Seq<Datum>) -> Option<int> {
    match vals[0] {
        Datum::Matrix { entries, shape } => if shape.len() == 1 && vals.len() == 2 {
            match index_in(vals[1], shape[0] as int) {
                Some(i) => if i < entries.len() {
                    Some(i)
                } else {
                    None
                },
                None => None,
            }
        } else if shape.len() == 2 && vals.len() == 3 {
            match (index_in(vals[1], shape[0] as int), index_in(vals[2], shape[1] as int)) {
                (Some(i), Some(j)) => if i * shape[1] + j < entries.len() {
                    Some(i * shape[1] + j)
                } else {
                    None
                },
                _ => None,
            }
        } else {
            None
        },
        _ => None,
    }
}

/// An element of a vector, or an entry or a row of a matrix.
pub open spec fn indexed(vals: Seq<Datum>, got: Seq<Datum>) -> Outcome {
    match vals[0] {
        Datum::DirichletVector { name, categories } => if vals.len() == 2 {
            match index_in(vals[1], categories as int) {
                Some(i) => Outcome::Done(
                    Datum::DirichletProbability { name, index: i as usize, categories },
                ),
                None => Outcome::Stuck,
            }
        } else {
            Outcome::Stuck
        },
        Datum::Matrix { entries, shape } => if entry_place(vals) is Some {
            Outcome::Done(got[0])
        } else if shape.len() == 2 && vals.len() == 2 {
            match index_in(vals[1], shape[0] as int) {
                Some(i) => if (i + 1) * shape[1] <= entries.len() {
                    Outcome::Done(
                        Datum::Matrix {
                            entries: entries.subrange(i * shape[1], (i + 1) * shape[1]),
                            shape: seq![shape[1]],
                        },
                    )
                } else {
                    Outcome::Stuck
                },
                None => Outcome::Stuck,
            }
        } else {
            Outcome::Stuck
        },
        _ => Outcome::Stuck,
    }
}

/// The result of a float operation.
pub open spec fn float_result(x: Model, op: FloatOp, a: Datum, b: Datum, got: Seq<Datum>) -> Outcome {
    match scaled_gamma(x.arith, op, a, b) {
        Some(o) => o,
        None => match paired(a, b) {
            None => Outcome::Stuck,
            Some(pairs) => match all_packed(pair_cells(x, op, pairs, got)) {
                None => Outcome::Stuck,
                Some(ds) => match (a, b) {
                    (Datum::Matrix { shape, .. }, _) => Outcome::Done(
                        Datum::Matrix { entries: ds, shape },
                    ),
                    (_, Datum::Matrix { shape, .. }) => Outcome::Done(
                        Datum::Matrix { entries: ds, shape },
                    ),
                    _ => Outcome::Done(ds[0]),
                },
            },
        },
    }
}

/// The terms of the entry `t` of a matrix product.
pub open spec fn terms(cells: Seq<Option<Affine>>, k: int, t: int) -> Seq<Option<Affine>> {
    cells.subrange(t * k, (t + 1) * k)
}

/// A matrix product.
pub open spec fn product(x: Model, a: Datum, b: Datum, got: Seq<Datum>) -> Outcome {
    match product_shape(a, b) {
        None => Outcome::Stuck,
        Some((r, k, c)) => {
            let parts = pair_cells(
                x,
                FloatOp::Mul,
                factors(a, b, k as int, c as int, r * c * k),
                got,
            );
            let sums = Seq::new(
                (r * c) as nat,
                |t: int| affine_sum(x.arith, terms(parts, k as int, t)),
            );
            match all_packed(sums) {
                None => Outcome::Stuck,
                Some(ds) => squeezed(ds, r, c, shape_of(a).len() == 1, shape_of(b).len() == 1),
            }
        },
    }
}

pub open spec fn shape_of(d: Datum) -> Seq<usize> {
    match d {
        Datum::Matrix { shape, .. } => shape,
        _ => Seq::empty(),
    }
}

/// A matrix product in the shape that its operands give it.
pub open spec fn squeezed(ds: Seq<Datum>, r: usize, c: usize, left_flat: bool, right_flat: bool) -> Outcome {
    if left_flat && right_flat {
        Outcome::Done(ds[0])
    } else if left_flat {
        Outcome::Done(Datum::Matrix { entries: ds, shape: seq![c] })
    } else if right_flat {
        Outcome::Done(Datum::Matrix { entries: ds, shape: seq![r] })
    } else {
        Outcome::Done(Datum::Matrix { entries: ds, shape: seq![r, c] })
    }
}

/// The sum of the entries of a matrix.
pub open spec fn entry_sum(x: Model, d: Datum, got: Seq<Datum>) -> Outcome {
    match d {
        Datum::Matrix { .. } => match affine_sum(
            x.arith,
            Seq::new(got.len(), |i: int| affine_of(x, got[i])),
        ) {
            Some(p) => Outcome::Done(packed(p)),
            None => Outcome::Stuck,
        },
        _ => Outcome::Stuck,
    }
}

/// A draw whose rate is a Gamma variable or a number.
pub open spec fn draw(x: Model, cs: Seq<i32>, rate: Datum, poisson: bool) -> Outcome {
    match rate {
        Datum::Gamma { name, scale } => drawn(x, cs, name, scale, poisson),
        _ => match number(x, rate) {
            Some(v) => if reals::below(ZERO, v) {
                drawn(x, cs, (x.names)(cs, Law::Pinned { value: v }), ONE, poisson)
            } else {
                Outcome::Stuck
            },
            None => Outcome::Stuck,
        },
    }
}

/// A draw with the given rate; each rate has a draw of its own.
pub open spec fn drawn(x: Model, cs: Seq<i32>, gamma: u64, scale: u64, poisson: bool) -> Outcome {
    let name = (x.names)(cs, Law::Draw { poisson, gamma, scale });
    if poisson {
        Outcome::Done(Datum::Poisson { name, gamma, scale })
    } else {
        Outcome::Done(Datum::Exponential { name, gamma, scale })
    }
}

/// The result of a primitive, from its operands and what was evaluated
/// further.
pub open spec fn settled(p: Primitive, vals: Seq<Datum>, got: Seq<Datum>, cs: Seq<i32>, x: Model) -> Outcome {
    match p {
        Primitive::Flip => flip(x, cs, vals[0]),
        Primitive::NativeEq | Primitive::NativeLeq | Primitive::NativeGeq => if vals[0] is Poisson {
            poisson_test(x, cs, vals[0], comparison(p), got[0])
        } else if vals[1] is Poisson {
            poisson_test(x, cs, vals[1], turned(comparison(p)), got[0])
        } else {
            match comparison(p) {
                None => match (vals[0], vals[1]) {
                    (Datum::Native(a), Datum::Native(b)) => Outcome::Done(
                        truth(x, native_equal(a, b)),
                    ),
                    _ => Outcome::Done(truth(x, false)),
                },
                Some(c) => match (got[0], got[1]) {
                    (
                        Datum::Native(Const::Int(a)),
                        Datum::Native(Const::Int(b)),
                    ) => Outcome::Done(
                        truth(
                            x,
                            if c == NativeCmp::Leq {
                                a <= b
                            } else {
                                a >= b
                            },
                        ),
                    ),
                    _ => Outcome::Stuck,
                },
            }
        },
        Primitive::MkInt => match (vals[0], vals[1]) {
            (Datum::Native(Const::Int(w)), Datum::Native(Const::Int(v))) => if 0 <= w <= 64 {
                Outcome::Done(Datum::Int(bits_of_number(v as u64, w as nat)))
            } else {
                Outcome::Stuck
            },
            _ => Outcome::Stuck,
        },
        Primitive::UniformInt => match vals[0] {
            Datum::Native(Const::Int(w)) => if 0 <= w <= i32::MAX {
                Outcome::Done(
                    Datum::Int(
                        Seq::new(
                            w as nat,
                            |i: int| (x.flips)(cs.push(i as i32), Event::Constant(HALF).code()),
                        ),
                    ),
                )
            } else {
                Outcome::Stuck
            },
            _ => Outcome::Stuck,
        },
        Primitive::UniformIntRange => match (vals[0], vals[1], vals[2]) {
            (
                Datum::Native(Const::Int(w)),
                Datum::Native(Const::Int(lo)),
                Datum::Native(Const::Int(hi)),
            ) => if 0 <= w <= 64 && lo <= hi && hi - lo < i64::MAX {
                Outcome::Done(
                    Datum::Int(
                        bits_of_number(
                            landed(x, cs, lo as int, hi as int, 0) as i64 as u64,
                            w as nat,
                        ),
                    ),
                )
            } else {
                Outcome::Stuck
            },
            _ => Outcome::Stuck,
        },
        Primitive::IntDistEq => match (vals[0], vals[1]) {
            (Datum::Int(a), Datum::Int(b)) => if a.len() == b.len() {
                Outcome::Done(truth(x, a == b))
            } else {
                Outcome::Stuck
            },
            _ => Outcome::Stuck,
        },
        Primitive::IntAdd => match (vals[0], vals[1]) {
            (Datum::Int(a), Datum::Int(b)) => if a.len() == b.len() {
                Outcome::Done(Datum::Int(int_dists::sum(a, b, false)))
            } else {
                Outcome::Stuck
            },
            _ => Outcome::Stuck,
        },
        Primitive::IntSub => match (vals[0], vals[1]) {
            (Datum::Int(a), Datum::Int(b)) => if a.len() == b.len() {
                Outcome::Done(Datum::Int(int_dists::difference(a, b)))
            } else {
                Outcome::Stuck
            },
            _ => Outcome::Stuck,
        },
        Primitive::IntLt => match (vals[0], vals[1]) {
            (Datum::Int(a), Datum::Int(b)) => if a.len() == b.len() {
                Outcome::Done(truth(x, int_dists::value(a) < int_dists::value(b)))
            } else {
                Outcome::Stuck
            },
            _ => Outcome::Stuck,
        },
        Primitive::GetArgs => match x.list {
            None => Outcome::Stuck,
            Some((nil, cons)) => match vals[0] {
                Datum::Value { args, .. } => Outcome::Done(list_of(nil, cons, args)),
                _ => Outcome::Done(vals[0]),
            },
        },
        Primitive::GetConstructor => match vals[0] {
            Datum::Value { constructor, .. } => Outcome::Done(
                Datum::Native(Const::Symbol(constructor)),
            ),
            _ => Outcome::Done(vals[0]),
        },
        Primitive::Beta => match (number(x, vals[0]), number(x, vals[1])) {
            (Some(a), Some(b)) => Outcome::Done(
                Datum::Probability((x.names)(cs, Law::Beta { a, b })),
            ),
            _ => Outcome::Stuck,
        },
        Primitive::ProbEq => match number(x, vals[1]) {
            None => Outcome::Stuck,
            Some(r) => match vals[0] {
                Datum::Probability(name) => decided(x, cs, 2, Event::ProbPin(name, r)),
                Datum::Native(Const::Float(c)) => Outcome::Done(truth(x, close(x, c, r))),
                _ => Outcome::Stuck,
            },
        },
        Primitive::Gaussian => gaussian(x, cs, vals[0], vals[1], got),
        Primitive::RealEq => real_test(x, cs, vals[0], vals[1]),
        Primitive::RealLt => range_test(x, cs, true, vals[0], vals[1]),
        Primitive::RealGeq => range_test(x, cs, false, vals[0], vals[1]),
        Primitive::Dirichlet => match numbers(x, vals) {
            Some(alphas) => Outcome::Done(
                Datum::DirichletVector {
                    name: (x.names)(cs, Law::Dirichlet { alphas }),
                    categories: vals.len() as usize,
                },
            ),
            None => Outcome::Stuck,
        },
        Primitive::DirichletEq => vector_test(x, cs, vals[0], vals[1], got),
        Primitive::Index => indexed(vals, got),
        Primitive::Categorical => categorical(x, cs, vals),
        Primitive::FAdd | Primitive::FSub | Primitive::FMul | Primitive::FDiv => float_result(
            x,
            float_op(p)->0,
            vals[0],
            vals[1],
            got,
        ),
        Primitive::MatMul => product(x, vals[0], vals[1], got),
        Primitive::Sum => entry_sum(x, vals[0], got),
        Primitive::Gamma => match (number(x, vals[0]), number(x, vals[1])) {
            (Some(s), Some(r)) => if reals::below(ZERO, s) && reals::below(ZERO, r) {
                Outcome::Done(
                    Datum::Gamma {
                        name: (x.names)(cs, Law::Gamma { shape: s, rate: r }),
                        scale: ONE,
                    },
                )
            } else {
                Outcome::Stuck
            },
            _ => Outcome::Stuck,
        },
        Primitive::Poisson => draw(x, cs, vals[0], true),
        Primitive::Exponential => draw(x, cs, vals[0], false),
        _ => Outcome::Stuck,
    }
}

/// The place of an operand in the order of evaluation.
pub open spec fn operand_index(p: Primitive, i: int) -> i32 {
    if p == Primitive::Index && i > 0 {
        0
    } else {
        i as i32
    }
}

/// An expression, at a place of its own on the callstack.
pub open spec fn call(t: Tree, env: Scope, cs: Seq<i32>, index: i32, x: Model, fuel: nat) -> Outcome
    decreases fuel, 0nat, 0nat,
{
    if fuel == 0 {
        Outcome::Stuck
    } else {
        run(t, env, cs.push(index), x, (fuel - 1) as nat)
    }
}

/// A value that is no thunk.
pub open spec fn force(d: Datum, x: Model, fuel: nat) -> Outcome
    decreases fuel, 1nat, 0nat,
{
    match d {
        Datum::Thunk { expr, env, index, callstack } => call(expr, env, callstack, index, x, fuel),
        _ => Outcome::Done(d),
    }
}

/// A value in which a natural number is an integer; `count` is what was
/// counted already.
pub open spec fn numeral(d: Datum, count: int, x: Model, fuel: nat) -> Outcome
    decreases fuel, 2nat, i64::MAX - count,
{
    match x.nat {
        None => Outcome::Stuck,
        Some((zero, succ)) => match d {
            Datum::Native(Const::Int(i)) => if i + count <= i64::MAX {
                Outcome::Done(integer((i + count) as i64))
            } else {
                Outcome::Stuck
            },
            Datum::Value { constructor, args } => if constructor == zero && args.len() == 0 {
                Outcome::Done(integer(count as i64))
            } else if constructor == succ && args.len() == 1 {
                if count >= i64::MAX {
                    Outcome::Stuck
                } else {
                    match force(args[0], x, fuel) {
                        Outcome::Done(e) => numeral(e, count + 1, x, fuel),
                        o => o,
                    }
                }
            } else {
                Outcome::Done(d)
            },
            _ => Outcome::Done(d),
        },
    }
}

/// A value, evaluated as far as is asked for.
pub open spec fn evaluated(want: (Depth, Datum), x: Model, fuel: nat) -> Outcome
    decreases fuel, 3nat, 0nat,
{
    match want.0 {
        Depth::Keep => Outcome::Done(want.1),
        Depth::Head => force(want.1, x, fuel),
        Depth::Number => numeral(want.1, 0, x, fuel),
    }
}

/// The operands that have to be evaluated further, from the place `i` on, and
/// then the result.
pub open spec fn supplied(
    p: Primitive,
    vals: Seq<Datum>,
    i: int,
    got: Seq<Datum>,
    cs: Seq<i32>,
    x: Model,
    fuel: nat,
) -> Outcome
    decreases fuel, 4nat, wants(p, vals).len() - i,
{
    if i < 0 || i >= wants(p, vals).len() {
        settled(p, vals, got, cs, x)
    } else {
        match evaluated(wants(p, vals)[i], x, fuel) {
            Outcome::Done(d) => supplied(p, vals, i + 1, got.push(d), cs, x, fuel),
            o => o,
        }
    }
}

/// The operands of a primitive from the place `vals.len()` on, and then the
/// rest.
pub open spec fn operands(
    p: Primitive,
    kids: Seq<Tree>,
    vals: Seq<Datum>,
    env: Scope,
    cs: Seq<i32>,
    x: Model,
    fuel: nat,
) -> Outcome
    decreases fuel, 5nat, kids.len() - vals.len(),
{
    if vals.len() >= kids.len() {
        supplied(p, vals, 0, Seq::empty(), cs, x, fuel)
    } else {
        match call(
            kids[vals.len() as int],
            env,
            cs,
            operand_index(p, vals.len() as int),
            x,
            fuel,
        ) {
            Outcome::Done(d) => operands(p, kids, vals.push(d), env, cs, x, fuel),
            o => o,
        }
    }
}

/// A function applied to an argument.
pub open spec fn applied(f: Datum, arg: Datum, cs: Seq<i32>, x: Model, fuel: nat) -> Outcome
    decreases fuel, 1nat, 0nat,
{
    match f {
        Datum::Closure { var, body, env, rec_name } => {
            let inner = env.push((var, arg));
            let scope = match rec_name {
                Some(r) => inner.push((r, f)),
                None => inner,
            };
            call(body, scope, cs, 2, x, fuel)
        },
        _ => Outcome::Fail,
    }
}

/// The branch that a value takes.
pub open spec fn matched(
    d: Datum,
    guards: Seq<(Symbol, Seq<Symbol>)>,
    branches: Seq<Tree>,
    env: Scope,
    cs: Seq<i32>,
    x: Model,
    fuel: nat,
) -> Outcome
    decreases fuel, 1nat, 0nat,
{
    match d {
        Datum::Value { constructor, args } => match guard_for(guards, constructor, 0) {
            Some(i) => if i < branches.len() {
                call(
                    branches[i],
                    bound_args(env, guards[i].1, args),
                    cs,
                    (i + 1) as i32,
                    x,
                    fuel,
                )
            } else {
                Outcome::Stuck
            },
            None => Outcome::Fail,
        },
        _ => Outcome::Fail,
    }
}

/// A function that knows itself.
pub open spec fn looped(f: Datum) -> Outcome {
    match f {
        Datum::Closure { var, body, env, .. } => match body.head {
            Head::Abs(arg) => Outcome::Done(
                Datum::Closure { var: arg, body: body.kids[0], env, rec_name: Some(var) },
            ),
            _ => Outcome::Fail,
        },
        _ => Outcome::Fail,
    }
}

/// A value pinned to another one: `True` where they agree, else nothing.
pub open spec fn pin(sym: Datum, concrete: Datum, cs: Seq<i32>, x: Model, fuel: nat) -> Outcome
    decreases fuel, 6nat, 0nat,
{
    match (sym, concrete) {
        (
            Datum::Value { constructor: c, args: s },
            Datum::Value { constructor: d, args: t },
        ) => if c == d && s.len() == t.len() {
            pin_args(s, t, cs, x, fuel)
        } else {
            Outcome::Fail
        },
        (Datum::Int(a), Datum::Int(b)) => holds(x, a == b),
        (Datum::Native(a), Datum::Native(b)) => holds(x, native_equal(a, b)),
        (Datum::Probability(name), Datum::Native(Const::Float(r))) => held(
            x,
            cs,
            Event::ProbPin(name, r),
        ),
        (Datum::Gamma { name, scale }, Datum::Native(Const::Float(r))) => if reals::at_most(
            r,
            ZERO,
        ) {
            Outcome::Fail
        } else {
            held(x, cs, Event::RatePin { name, value: r, scale })
        },
        (
            Datum::Exponential { name, gamma, scale },
            Datum::Native(Const::Float(r)),
        ) => if reals::below(r, ZERO) {
            Outcome::Fail
        } else {
            held(x, cs, Event::ExpEq { gamma, draw: name, value: r, scale })
        },
        (Datum::Poisson { name, gamma, scale }, Datum::Native(Const::Int(k))) => if k < 0 {
            Outcome::Fail
        } else {
            held(x, cs, Event::PoissonEq { gamma, draw: name, count: k as u64, scale })
        },
        (
            Datum::Gaussian { constant, coefficients },
            Datum::Native(Const::Float(r)),
        ) => if coefficients.len() == 0 {
            holds(x, close(x, constant, r))
        } else {
            held(x, cs, Event::GaussianObs { constant, coefficients, observed: r })
        },
        (Datum::DirichletVector { categories, .. }, _) => if concrete is Value
            || concrete is Matrix {
            match vector_parts(concrete) {
                None => Outcome::Stuck,
                Some(p) => if p.len() == categories {
                    pin_vector(sym, concrete, cs, x, fuel)
                } else {
                    Outcome::Fail
                },
            }
        } else {
            Outcome::Fail
        },
        (Datum::DirichletProbability { .. }, Datum::Native(Const::Float(_))) => Outcome::Stuck,
        (
            Datum::Matrix { entries: s, shape: p },
            Datum::Matrix { entries: t, shape: q },
        ) => if p == q && s.len() == t.len() {
            pin_args(s, t, cs, x, fuel)
        } else {
            Outcome::Fail
        },
        _ => Outcome::Fail,
    }
}

/// `True` if the condition holds, else nothing.
pub open spec fn holds(x: Model, b: bool) -> Outcome {
    if b {
        Outcome::Done(truth(x, true))
    } else {
        Outcome::Fail
    }
}

/// `True` if the event happens, else nothing.
pub open spec fn held(x: Model, cs: Seq<i32>, e: Event) -> Outcome {
    holds(x, (x.flips)(cs.push(2), e.code()))
}

/// A Dirichlet vector pinned to a vector.
pub open spec fn pin_vector(sym: Datum, concrete: Datum, cs: Seq<i32>, x: Model, fuel: nat) -> Outcome
    decreases fuel, 5nat, 0nat,
{
    match supplied(
        Primitive::DirichletEq,
        seq![sym, concrete],
        0,
        Seq::empty(),
        cs,
        x,
        fuel,
    ) {
        Outcome::Done(d) => confirmed(x, d),
        o => o,
    }
}

/// `True`, if the value is, else nothing.
pub open spec fn confirmed(x: Model, d: Datum) -> Outcome {
    holds(x, d == truth(x, true))
}

/// The parts of two values pinned to each other, one level down.
pub open spec fn pin_args(s: Seq<Datum>, t: Seq<Datum>, cs: Seq<i32>, x: Model, fuel: nat) -> Outcome
    decreases fuel, 2nat, 0nat,
{
    if fuel == 0 {
        Outcome::Stuck
    } else {
        pin_all(s, t, 0, cs, x, (fuel - 1) as nat)
    }
}

/// Values pinned to others, one by one, from the place `i` on.
pub open spec fn pin_all(s: Seq<Datum>, t: Seq<Datum>, i: int, cs: Seq<i32>, x: Model, fuel: nat) -> Outcome
    decreases fuel, 7nat, s.len() - i,
{
    if i < 0 || i >= s.len() || i >= t.len() {
        Outcome::Done(truth(x, true))
    } else {
        match force(s[i], x, fuel) {
            Outcome::Done(d) => match force(t[i], x, fuel) {
                Outcome::Done(e) => match pin(d, e, cs, x, fuel) {
                    Outcome::Done(_) => pin_all(s, t, i + 1, cs, x, fuel),
                    o => o,
                },
                o => o,
            },
            o => o,
        }
    }
}

/// An expression, at the callstack `cs`.
pub open spec fn run(t: Tree, env: Scope, cs: Seq<i32>, x: Model, fuel: nat) -> Outcome
    decreases fuel, 9nat, 0nat,
{
    match t.head {
        Head::Abs(var) => Outcome::Done(
            Datum::Closure { var, body: t.kids[0], env, rec_name: None },
        ),
        Head::Var(n) => match values::lookup(env, n) {
            Some(d) => force(d, x, fuel),
            None => Outcome::Fail,
        },
        Head::Defined(n) => if x.defs.contains_key(n) {
            call(x.defs[n], Seq::empty(), cs, 0, x, fuel)
        } else {
            Outcome::Fail
        },
        Head::App => match call(t.kids[0], env, cs, 0, x, fuel) {
            Outcome::Done(f) => applied(f, delayed(t.kids[1], env, 1, cs), cs, x, fuel),
            o => o,
        },
        Head::Construct(c) => Outcome::Done(
            Datum::Value { constructor: c, args: all_delayed(t.kids, env, cs) },
        ),
        Head::CaseOf(guards) => match call(t.kids[0], env, cs, 0, x, fuel) {
            Outcome::Done(d) => matched(d, guards, t.kids.skip(1), env, cs, x, fuel),
            o => o,
        },
        Head::YComb => match call(t.kids[0], env, cs, 0, x, fuel) {
            Outcome::Done(f) => looped(f),
            o => o,
        },
        Head::Const(c) => constant(x, c),
        Head::GSymbol(s) => Outcome::Done(Datum::Native(Const::Symbol(s))),
        Head::GVarSymbol(s) => Outcome::Done(Datum::Native(Const::Symbol(s))),
        Head::FloatMatrix(shape) => Outcome::Done(matrix(x, shape, t.kids, env, cs)),
        Head::Row => Outcome::Stuck,
        Head::Pin => match call(t.kids[0], env, cs, 0, x, fuel) {
            Outcome::Done(s) => match call(t.kids[1], env, cs, 1, x, fuel) {
                Outcome::Done(c) => pin(s, c, cs, x, fuel),
                o => o,
            },
            o => o,
        },
        Head::Prim(Primitive::Error) => Outcome::Fail,
        Head::Prim(Primitive::Print) => call(t.kids[0], env, cs, 0, x, fuel),
        Head::Prim(p) => operands(p, t.kids, Seq::empty(), env, cs, x, fuel),
    }
}

/// What an evaluation that may go deeper comes to: the same, unless the limit
/// was in the way.
pub open spec fn kept(shallow: Outcome, deep: Outcome) -> bool {
    shallow is Stuck || shallow == deep
}

/// Going deeper changes nothing but where the limit was in the way.
pub proof fn lemma_call_deeper(t: Tree, env: Scope, cs: Seq<i32>, index: i32, x: Model, f: nat, g: nat)
    requires
        f <= g,
    ensures
        kept(call(t, env, cs, index, x, f), call(t, env, cs, index, x, g)),
    decreases f, 0nat, 0nat,
{
    if f > 0 {
        lemma_run_deeper(t, env, cs.push(index), x, (f - 1) as nat, (g - 1) as nat);
    }
}

pub proof fn lemma_force_deeper(d: Datum, x: Model, f: nat, g: nat)
    requires
        f <= g,
    ensures
        kept(force(d, x, f), force(d, x, g)),
    decreases f, 1nat, 0nat,
{
    match d {
        Datum::Thunk { expr, env, index, callstack } => {
            lemma_call_deeper(expr, env, callstack, index, x, f, g);
        },
        _ => {},
    }
}

pub proof fn lemma_numeral_deeper(d: Datum, count: int, x: Model, f: nat, g: nat)
    requires
        f <= g,
    ensures
        kept(numeral(d, count, x, f), numeral(d, count, x, g)),
    decreases f, 2nat, i64::MAX - count,
{
    match x.nat {
        None => {},
        Some((zero, succ)) => match d {
            Datum::Value { constructor, args } => {
                if !(constructor == zero && args.len() == 0) && constructor == succ && args.len()
                    == 1 && count < i64::MAX {
                    lemma_force_deeper(args[0], x, f, g);
                    match force(args[0], x, f) {
                        Outcome::Done(e) => lemma_numeral_deeper(e, count + 1, x, f, g),
                        _ => {},
                    }
                }
            },
            _ => {},
        },
    }
}

pub proof fn lemma_evaluated_deeper(want: (Depth, Datum), x: Model, f: nat, g: nat)
    requires
        f <= g,
    ensures
        kept(evaluated(want, x, f), evaluated(want, x, g)),
    decreases f, 3nat, 0nat,
{
    match want.0 {
        Depth::Keep => {},
        Depth::Head => lemma_force_deeper(want.1, x, f, g),
        Depth::Number => lemma_numeral_deeper(want.1, 0, x, f, g),
    }
}

pub proof fn lemma_supplied_deeper(
    p: Primitive,
    vals: Seq<Datum>,
    i: int,
    got: Seq<Datum>,
    cs: Seq<i32>,
    x: Model,
    f: nat,
    g: nat,
)
    requires
        f <= g,
    ensures
        kept(supplied(p, vals, i, got, cs, x, f), supplied(p, vals, i, got, cs, x, g)),
    decreases f, 4nat, wants(p, vals).len() - i,
{
    if 0 <= i < wants(p, vals).len() {
        lemma_evaluated_deeper(wants(p, vals)[i], x, f, g);
        match evaluated(wants(p, vals)[i], x, f) {
            Outcome::Done(d) => lemma_supplied_deeper(p, vals, i + 1, got.push(d), cs, x, f, g),
            _ => {},
        }
    }
}

pub proof fn lemma_operands_deeper(
    p: Primitive,
    kids: Seq<Tree>,
    vals: Seq<Datum>,
    env: Scope,
    cs: Seq<i32>,
    x: Model,
    f: nat,
    g: nat,
)
    requires
        f <= g,
    ensures
        kept(operands(p, kids, vals, env, cs, x, f), operands(p, kids, vals, env, cs, x, g)),
    decreases f, 5nat, kids.len() - vals.len(),
{
    if vals.len() >= kids.len() {
        lemma_supplied_deeper(p, vals, 0, Seq::empty(), cs, x, f, g);
    } else {
        let n = vals.len() as int;
        lemma_call_deeper(kids[n], env, cs, operand_index(p, n), x, f, g);
        match call(kids[n], env, cs, operand_index(p, n), x, f) {
            Outcome::Done(d) => lemma_operands_deeper(p, kids, vals.push(d), env, cs, x, f, g),
            _ => {},
        }
    }
}

pub proof fn lemma_applied_deeper(h: Datum, arg: Datum, cs: Seq<i32>, x: Model, f: nat, g: nat)
    requires
        f <= g,
    ensures
        kept(applied(h, arg, cs, x, f), applied(h, arg, cs, x, g)),
    decreases f, 1nat, 0nat,
{
    match h {
        Datum::Closure { var, body, env, rec_name } => {
            let inner = env.push((var, arg));
            let scope = match rec_name {
                Some(r) => inner.push((r, h)),
                None => inner,
            };
            lemma_call_deeper(body, scope, cs, 2, x, f, g);
        },
        _ => {},
    }
}

pub proof fn lemma_matched_deeper(
    d: Datum,
    guards: Seq<(Symbol, Seq<Symbol>)>,
    branches: Seq<Tree>,
    env: Scope,
    cs: Seq<i32>,
    x: Model,
    f: nat,
    g: nat,
)
    requires
        f <= g,
    ensures
        kept(
            matched(d, guards, branches, env, cs, x, f),
            matched(d, guards, branches, env, cs, x, g),
        ),
    decreases f, 1nat, 0nat,
{
    match d {
        Datum::Value { constructor, args } => match guard_for(guards, constructor, 0) {
            Some(i) => lemma_call_deeper(
                branches[i],
                bound_args(env, guards[i].1, args),
                cs,
                (i + 1) as i32,
                x,
                f,
                g,
            ),
            None => {},
        },
        _ => {},
    }
}

pub proof fn lemma_pin_deeper(sym: Datum, concrete: Datum, cs: Seq<i32>, x: Model, f: nat, g: nat)
    requires
        f <= g,
    ensures
        kept(pin(sym, concrete, cs, x, f), pin(sym, concrete, cs, x, g)),
    decreases f, 6nat, 0nat,
{
    match (sym, concrete) {
        (Datum::Value { args: s, .. }, Datum::Value { args: t, .. }) => {
            lemma_pin_args_deeper(s, t, cs, x, f, g);
        },
        (Datum::Matrix { entries: s, .. }, Datum::Matrix { entries: t, .. }) => {
            lemma_pin_args_deeper(s, t, cs, x, f, g);
        },
        (Datum::DirichletVector { .. }, _) => {
            lemma_supplied_deeper(
                Primitive::DirichletEq,
                seq![sym, concrete],
                0,
                Seq::empty(),
                cs,
                x,
                f,
                g,
            );
        },
        _ => {},
    }
}

pub proof fn lemma_pin_args_deeper(s: Seq<Datum>, t: Seq<Datum>, cs: Seq<i32>, x: Model, f: nat, g: nat)
    requires
        f <= g,
    ensures
        kept(pin_args(s, t, cs, x, f), pin_args(s, t, cs, x, g)),
    decreases f, 2nat, 0nat,
{
    if f > 0 {
        lemma_pin_all_deeper(s, t, 0, cs, x, (f - 1) as nat, (g - 1) as nat);
    }
}

pub proof fn lemma_pin_all_deeper(
    s: Seq<Datum>,
    t: Seq<Datum>,
    i: int,
    cs: Seq<i32>,
    x: Model,
    f: nat,
    g: nat,
)
    requires
        f <= g,
    ensures
        kept(pin_all(s, t, i, cs, x, f), pin_all(s, t, i, cs, x, g)),
    decreases f, 7nat, s.len() - i,
{
    if 0 <= i < s.len() && i < t.len() {
        lemma_force_deeper(s[i], x, f, g);
        match force(s[i], x, f) {
            Outcome::Done(d) => {
                lemma_force_deeper(t[i], x, f, g);
                match force(t[i], x, f) {
                    Outcome::Done(e) => {
                        lemma_pin_deeper(d, e, cs, x, f, g);
                        lemma_pin_all_deeper(s, t, i + 1, cs, x, f, g);
                    },
                    _ => {},
                }
            },
            _ => {},
        }
    }
}

pub proof fn lemma_run_deeper(t: Tree, env: Scope, cs: Seq<i32>, x: Model, f: nat, g: nat)
    requires
        f <= g,
    ensures
        kept(run(t, env, cs, x, f), run(t, env, cs, x, g)),
    decreases f, 9nat, 0nat,
{
    match t.head {
        Head::Var(n) => match values::lookup(env, n) {
            Some(d) => lemma_force_deeper(d, x, f, g),
            None => {},
        },
        Head::Defined(n) => {
            lemma_call_deeper(x.defs[n], Seq::empty(), cs, 0, x, f, g);
        },
        Head::App => {
            lemma_call_deeper(t.kids[0], env, cs, 0, x, f, g);
            match call(t.kids[0], env, cs, 0, x, f) {
                Outcome::Done(h) => lemma_applied_deeper(
                    h,
                    delayed(t.kids[1], env, 1, cs),
                    cs,
                    x,
                    f,
                    g,
                ),
                _ => {},
            }
        },
        Head::CaseOf(guards) => {
            lemma_call_deeper(t.kids[0], env, cs, 0, x, f, g);
            match call(t.kids[0], env, cs, 0, x, f) {
                Outcome::Done(d) => lemma_matched_deeper(
                    d,
                    guards,
                    t.kids.skip(1),
                    env,
                    cs,
                    x,
                    f,
                    g,
                ),
                _ => {},
            }
        },
        Head::YComb => {
            lemma_call_deeper(t.kids[0], env, cs, 0, x, f, g);
        },
        Head::Pin => {
            lemma_call_deeper(t.kids[0], env, cs, 0, x, f, g);
            lemma_call_deeper(t.kids[1], env, cs, 1, x, f, g);
            match (call(t.kids[0], env, cs, 0, x, f), call(t.kids[1], env, cs, 1, x, f)) {
                (Outcome::Done(s), Outcome::Done(c)) => lemma_pin_deeper(s, c, cs, x, f, g),
                _ => {},
            }
        },
        Head::Prim(Primitive::Error) => {},
        Head::Prim(Primitive::Print) => {
            lemma_call_deeper(t.kids[0], env, cs, 0, x, f, g);
        },
        Head::Prim(p) => lemma_operands_deeper(p, t.kids, Seq::empty(), env, cs, x, f, g),
        _ => {},
    }
}

} // verus!
