//! The syntax tree of Pluck expressions.

use vstd::prelude::*;

use super::primitives::Primitive;
use super::types::Symbol;

verus! {

/// A guard in a case/match expression: constructor name + bound variable names.
#[derive(Debug)]
pub struct CaseOfGuard {
    pub constructor: Symbol,
    pub args: Vec<Symbol>,
}

/// The core AST for Pluck expressions.
#[derive(Debug)]
#[allow(inconsistent_fields)]
pub enum PExpr {
    /// Function application: (f x)
    App { func: Box<PExpr>, arg: Box<PExpr> },
    /// Lambda abstraction: (λ var -> body)
    Abs { var: Symbol, body: Box<PExpr> },
    /// Variable reference
    Var { name: Symbol },
    /// Reference to a top-level definition
    Defined { name: Symbol },
    /// Algebraic data type constructor: (Constructor arg1 arg2 ...)
    Construct { constructor: Symbol, args: Vec<PExpr> },
    /// Pattern matching: (case scrutinee of ...)
    CaseOf { guards: Vec<CaseOfGuard>, scrutinee: Box<PExpr>, branches: Vec<PExpr> },
    /// Bernoulli flip: (flip p)
    Flip { prob: Box<PExpr> },
    /// Y-combinator for recursion: (Y f)
    YComb { func: Box<PExpr> },
    /// Native constant value (float, int, symbol)
    ConstNative { val: NativeVal },
    /// Native equality: (native_eq a b)
    NativeEq { a: Box<PExpr>, b: Box<PExpr> },
    /// Make integer distribution: (mk_int bitwidth value)
    MkInt { bitwidth: Box<PExpr>, value: Box<PExpr> },
    /// Uniform random integer: (uniform_int bitwidth)
    UniformInt { bitwidth: Box<PExpr> },
    /// Uniform random integer in range: (uniform_int_range bitwidth lo hi)
    UniformIntRange { bitwidth: Box<PExpr>, lo: Box<PExpr>, hi: Box<PExpr> },
    /// Integer distribution equality: (int_eq a b)
    IntDistEq { a: Box<PExpr>, b: Box<PExpr> },
    /// Integer distribution addition (wrapping): (int_add a b)
    IntDistAdd { a: Box<PExpr>, b: Box<PExpr> },
    /// Integer distribution subtraction (wrapping): (int_sub a b)
    IntDistSub { a: Box<PExpr>, b: Box<PExpr> },
    /// Integer distribution less-than: (int_lt a b)
    IntDistLt { a: Box<PExpr>, b: Box<PExpr> },
    /// Get constructor arguments as a list: (get_args expr)
    GetArgs { expr: Box<PExpr> },
    /// Get constructor name as a symbol: (get_constructor expr)
    GetConstructor { expr: Box<PExpr> },
    /// Print and return: (print expr)
    Print { expr: Box<PExpr> },
    /// Raise an error
    Error { msg: Box<PExpr> },
    /// Index into a Dirichlet vector or float matrix: (vector_index v i [j])
    Index { v: Box<PExpr>, idx: Vec<PExpr> },
    /// Float division: (/. a b)
    FDiv { a: Box<PExpr>, b: Box<PExpr> },
    /// Float multiplication: (*. a b)
    FMul { a: Box<PExpr>, b: Box<PExpr> },
    /// Float addition: (+. a b)
    FAdd { a: Box<PExpr>, b: Box<PExpr> },
    /// Float subtraction: (-. a b)
    FSub { a: Box<PExpr>, b: Box<PExpr> },
    /// Grammar symbol (for program synthesis): ?name
    GSymbol { name: Symbol },
    /// Grammar variable symbol: #type
    GVarSymbol { ty: Symbol },
    /// Beta distribution: (beta a b)
    Beta { a: Box<PExpr>, b: Box<PExpr> },
    /// Probability equality test: (prob_eq prob real)
    ProbEq { prob: Box<PExpr>, val: Box<PExpr> },
    /// Gaussian distribution: (gaussian mu sigma)
    Gaussian { mu: Box<PExpr>, sigma: Box<PExpr> },
    /// Real equality test: (real_eq expr real)
    RealEq { expr: Box<PExpr>, val: Box<PExpr> },
    /// Real range test: (real_lt expr real)
    RealLt { expr: Box<PExpr>, val: Box<PExpr> },
    /// Real range test: (real_geq expr real)
    RealGeq { expr: Box<PExpr>, val: Box<PExpr> },
    /// Dirichlet distribution: (dirichlet alpha1 alpha2 ...)
    Dirichlet { alphas: Vec<PExpr> },
    /// Dirichlet vector equality test: (dirichlet_eq expr matrix)
    DirichletEq { expr: Box<PExpr>, val: Box<PExpr> },
    /// Categorical distribution: (categorical p1 p2 ...)
    Categorical { probs: Vec<PExpr> },
    /// Integer range test: (native_leq a b)
    NativeLeq { a: Box<PExpr>, b: Box<PExpr> },
    /// Integer range test: (native_geq a b)
    NativeGeq { a: Box<PExpr>, b: Box<PExpr> },
    /// Poisson distribution: (poisson rate)
    Poisson { rate: Box<PExpr> },
    /// Exponential distribution: (exponential rate)
    Exponential { rate: Box<PExpr> },
    /// Gamma distribution: (gamma shape rate)
    Gamma { shape: Box<PExpr>, rate: Box<PExpr> },
    /// Float matrix literal: `{1, 2, 3}` or `{{1, 2, 3}, {4, 5, 6}}`.
    /// `shape` is `[n]` for a single row, `[rows, cols]` otherwise.
    FloatMatrix { entries: Vec<Vec<PExpr>>, shape: Vec<usize> },
    /// Matrix multiplication: (@ a b)
    MatMul { a: Box<PExpr>, b: Box<PExpr> },
    /// Sum all entries of a float matrix: (sum m)
    Sum { expr: Box<PExpr> },
    /// An expression pinned to a value, with no syntax of its own
    Pin { expr: Box<PExpr>, val: Box<PExpr> },
}

/// The weight of one alternative of a discrete choice.
#[derive(Debug, Clone, Copy, PartialEq, Eq, Structural)]
pub enum Weight {
    /// A number, by the bits of its double-precision form.
    Real(u64),
    /// One in so many.
    OneIn(usize),
}

/// A native (non-ADT) value that can appear in a ConstNative.
#[derive(Debug)]
pub enum NativeVal {
    /// A double-precision number, by its bits.
    Float(u64),
    Int(i64),
    Symbol(Symbol),
    Bool(bool),
    /// The number that the first weight is as a share of all of them.
    Share(Vec<Weight>),
}

/// What a constant is.
pub enum Const {
    Float(u64),
    Int(i64),
    Symbol(Symbol),
    Bool(bool),
    Share(Seq<Weight>),
}

impl View for NativeVal {
    type V = Const;

    open spec fn view(&self) -> Const {
        match self {
            NativeVal::Float(b) => Const::Float(*b),
            NativeVal::Int(i) => Const::Int(*i),
            NativeVal::Symbol(s) => Const::Symbol(*s),
            NativeVal::Bool(b) => Const::Bool(*b),
            NativeVal::Share(w) => Const::Share(w@),
        }
    }
}

impl Clone for NativeVal {
    fn clone(&self) -> (r: Self)
        ensures
            r@ == self@,
    {
        match self {
            NativeVal::Float(b) => NativeVal::Float(*b),
            NativeVal::Int(i) => NativeVal::Int(*i),
            NativeVal::Symbol(s) => NativeVal::Symbol(*s),
            NativeVal::Bool(b) => NativeVal::Bool(*b),
            NativeVal::Share(w) => {
                let v: Vec<Weight> = w.clone();
                assert(v@ =~= w@);
                NativeVal::Share(v)
            },
        }
    }
}

/// The node kinds of the syntax tree, with what a node holds besides its
/// children.
pub enum Head {
    App,
    Abs(Symbol),
    Var(Symbol),
    Defined(Symbol),
    Construct(Symbol),
    /// The guards; the scrutinee is the first child, the branches follow.
    CaseOf(Seq<(Symbol, Seq<Symbol>)>),
    YComb,
    Const(Const),
    /// A primitive operation on the children.
    Prim(Primitive),
    GSymbol(Symbol),
    GVarSymbol(Symbol),
    /// The shape; each child is a `Row`.
    FloatMatrix(Seq<usize>),
    Row,
    Pin,
}

/// A syntax tree: a node and its children.
pub struct Tree {
    pub head: Head,
    pub kids: Seq<Tree>,
}

/// A node without children.
pub open spec fn leaf(head: Head) -> Tree {
    Tree { head, kids: Seq::empty() }
}

pub open spec fn node1(head: Head, a: Tree) -> Tree {
    Tree { head, kids: seq![a] }
}

pub open spec fn node2(head: Head, a: Tree, b: Tree) -> Tree {
    Tree { head, kids: seq![a, b] }
}

pub open spec fn node3(head: Head, a: Tree, b: Tree, c: Tree) -> Tree {
    Tree { head, kids: seq![a, b, c] }
}

impl CaseOfGuard {
    pub open spec fn guard(self) -> (Symbol, Seq<Symbol>) {
        (self.constructor, self.args@)
    }
}

pub open spec fn guards_of(s: Seq<CaseOfGuard>) -> Seq<(Symbol, Seq<Symbol>)> {
    s.map_values(|g: CaseOfGuard| g.guard())
}

impl PExpr {
    /// The expression as a tree.
    pub open spec fn tree(self) -> Tree
        decreases self,
    {
        match self {
            PExpr::App { func, arg } => node2(Head::App, func.tree(), arg.tree()),
            PExpr::Abs { var, body } => node1(Head::Abs(var), body.tree()),
            PExpr::Var { name } => leaf(Head::Var(name)),
            PExpr::Defined { name } => leaf(Head::Defined(name)),
            PExpr::Construct { constructor, args } => Tree {
                head: Head::Construct(constructor),
                kids: trees(args@),
            },
            PExpr::CaseOf { guards, scrutinee, branches } => Tree {
                head: Head::CaseOf(guards_of(guards@)),
                kids: seq![scrutinee.tree()] + trees(branches@),
            },
            PExpr::Flip { prob } => node1(Head::Prim(Primitive::Flip), prob.tree()),
            PExpr::YComb { func } => node1(Head::YComb, func.tree()),
            PExpr::ConstNative { val } => leaf(Head::Const(val@)),
            PExpr::NativeEq { a, b } => node2(Head::Prim(Primitive::NativeEq), a.tree(), b.tree()),
            PExpr::MkInt { bitwidth, value } => node2(
                Head::Prim(Primitive::MkInt),
                bitwidth.tree(),
                value.tree(),
            ),
            PExpr::UniformInt { bitwidth } => node1(
                Head::Prim(Primitive::UniformInt),
                bitwidth.tree(),
            ),
            PExpr::UniformIntRange { bitwidth, lo, hi } => node3(
                Head::Prim(Primitive::UniformIntRange),
                bitwidth.tree(),
                lo.tree(),
                hi.tree(),
            ),
            PExpr::IntDistEq { a, b } => node2(
                Head::Prim(Primitive::IntDistEq),
                a.tree(),
                b.tree(),
            ),
            PExpr::IntDistAdd { a, b } => node2(Head::Prim(Primitive::IntAdd), a.tree(), b.tree()),
            PExpr::IntDistSub { a, b } => node2(Head::Prim(Primitive::IntSub), a.tree(), b.tree()),
            PExpr::IntDistLt { a, b } => node2(Head::Prim(Primitive::IntLt), a.tree(), b.tree()),
            PExpr::GetArgs { expr } => node1(Head::Prim(Primitive::GetArgs), expr.tree()),
            PExpr::GetConstructor { expr } => node1(
                Head::Prim(Primitive::GetConstructor),
                expr.tree(),
            ),
            PExpr::Print { expr } => node1(Head::Prim(Primitive::Print), expr.tree()),
            PExpr::Error { msg } => node1(Head::Prim(Primitive::Error), msg.tree()),
            PExpr::Index { v, idx } => Tree {
                head: Head::Prim(Primitive::Index),
                kids: seq![v.tree()] + trees(idx@),
            },
            PExpr::FDiv { a, b } => node2(Head::Prim(Primitive::FDiv), a.tree(), b.tree()),
            PExpr::FMul { a, b } => node2(Head::Prim(Primitive::FMul), a.tree(), b.tree()),
            PExpr::FAdd { a, b } => node2(Head::Prim(Primitive::FAdd), a.tree(), b.tree()),
            PExpr::FSub { a, b } => node2(Head::Prim(Primitive::FSub), a.tree(), b.tree()),
            PExpr::GSymbol { name } => leaf(Head::GSymbol(name)),
            PExpr::GVarSymbol { ty } => leaf(Head::GVarSymbol(ty)),
            PExpr::Beta { a, b } => node2(Head::Prim(Primitive::Beta), a.tree(), b.tree()),
            PExpr::ProbEq { prob, val } => node2(
                Head::Prim(Primitive::ProbEq),
                prob.tree(),
                val.tree(),
            ),
            PExpr::Gaussian { mu, sigma } => node2(
                Head::Prim(Primitive::Gaussian),
                mu.tree(),
                sigma.tree(),
            ),
            PExpr::RealEq { expr, val } => node2(
                Head::Prim(Primitive::RealEq),
                expr.tree(),
                val.tree(),
            ),
            PExpr::RealLt { expr, val } => node2(
                Head::Prim(Primitive::RealLt),
                expr.tree(),
                val.tree(),
            ),
            PExpr::RealGeq { expr, val } => node2(
                Head::Prim(Primitive::RealGeq),
                expr.tree(),
                val.tree(),
            ),
            PExpr::Dirichlet { alphas } => Tree {
                head: Head::Prim(Primitive::Dirichlet),
                kids: trees(alphas@),
            },
            PExpr::DirichletEq { expr, val } => node2(
                Head::Prim(Primitive::DirichletEq),
                expr.tree(),
                val.tree(),
            ),
            PExpr::Categorical { probs } => Tree {
                head: Head::Prim(Primitive::Categorical),
                kids: trees(probs@),
            },
            PExpr::NativeLeq { a, b } => node2(
                Head::Prim(Primitive::NativeLeq),
                a.tree(),
                b.tree(),
            ),
            PExpr::NativeGeq { a, b } => node2(
                Head::Prim(Primitive::NativeGeq),
                a.tree(),
                b.tree(),
            ),
            PExpr::Poisson { rate } => node1(Head::Prim(Primitive::Poisson), rate.tree()),
            PExpr::Exponential { rate } => node1(Head::Prim(Primitive::Exponential), rate.tree()),
            PExpr::Gamma { shape, rate } => node2(
                Head::Prim(Primitive::Gamma),
                shape.tree(),
                rate.tree(),
            ),
            PExpr::FloatMatrix { entries, shape } => Tree {
                head: Head::FloatMatrix(shape@),
                kids: rows(entries@),
            },
            PExpr::MatMul { a, b } => node2(Head::Prim(Primitive::MatMul), a.tree(), b.tree()),
            PExpr::Sum { expr } => node1(Head::Prim(Primitive::Sum), expr.tree()),
            PExpr::Pin { expr, val } => node2(Head::Pin, expr.tree(), val.tree()),
        }
    }
}

/// The trees of a list of expressions.
pub open spec fn trees(s: Seq<PExpr>) -> Seq<Tree>
    decreases s,
{
    if s.len() == 0 {
        Seq::empty()
    } else {
        trees(s.drop_last()).push(s.last().tree())
    }
}

/// The rows of a matrix, each a tree.
pub open spec fn rows(s: Seq<Vec<PExpr>>) -> Seq<Tree>
    decreases s,
{
    if s.len() == 0 {
        Seq::empty()
    } else {
        rows(s.drop_last()).push(Tree { head: Head::Row, kids: trees(s.last()@) })
    }
}

/// Each expression of a list has its tree at its place.
pub proof fn lemma_trees(s: Seq<PExpr>)
    ensures
        trees(s).len() == s.len(),
        forall|i: int| 0 <= i < s.len() ==> #[trigger] trees(s)[i] == s[i].tree(),
    decreases s.len(),
{
    if s.len() > 0 {
        lemma_trees(s.drop_last());
    }
}

/// Each row of a matrix has its tree at its place.
pub proof fn lemma_rows(s: Seq<Vec<PExpr>>)
    ensures
        rows(s).len() == s.len(),
        forall|i: int|
            0 <= i < s.len() ==> #[trigger] rows(s)[i] == (Tree {
                head: Head::Row,
                kids: trees(s[i]@),
            }),
    decreases s.len(),
{
    if s.len() > 0 {
        lemma_rows(s.drop_last());
    }
}

impl Clone for PExpr {
    fn clone(&self) -> (r: Self)
        ensures
            r.tree() == self.tree(),
        decreases self,
    {
        match self {
            PExpr::App { func, arg } => PExpr::App { func: Box::new((**func).clone()), arg: Box::new((**arg).clone()) },
            PExpr::Abs { var, body } => PExpr::Abs { var: *var, body: Box::new((**body).clone()) },
            PExpr::Var { name } => PExpr::Var { name: *name },
            PExpr::Defined { name } => PExpr::Defined { name: *name },
            PExpr::Construct { constructor, args } => PExpr::Construct { constructor: *constructor, args: clone_all(args) },
            PExpr::CaseOf { guards, scrutinee, branches } => PExpr::CaseOf { guards: clone_guards(guards), scrutinee: Box::new((**scrutinee).clone()), branches: clone_all(branches) },
            PExpr::Flip { prob } => PExpr::Flip { prob: Box::new((**prob).clone()) },
            PExpr::YComb { func } => PExpr::YComb { func: Box::new((**func).clone()) },
            PExpr::ConstNative { val } => PExpr::ConstNative { val: val.clone() },
            PExpr::NativeEq { a, b } => PExpr::NativeEq { a: Box::new((**a).clone()), b: Box::new((**b).clone()) },
            PExpr::MkInt { bitwidth, value } => PExpr::MkInt { bitwidth: Box::new((**bitwidth).clone()), value: Box::new((**value).clone()) },
            PExpr::UniformInt { bitwidth } => PExpr::UniformInt { bitwidth: Box::new((**bitwidth).clone()) },
            PExpr::UniformIntRange { bitwidth, lo, hi } => PExpr::UniformIntRange { bitwidth: Box::new((**bitwidth).clone()), lo: Box::new((**lo).clone()), hi: Box::new((**hi).clone()) },
            PExpr::IntDistEq { a, b } => PExpr::IntDistEq { a: Box::new((**a).clone()), b: Box::new((**b).clone()) },
            PExpr::IntDistAdd { a, b } => PExpr::IntDistAdd { a: Box::new((**a).clone()), b: Box::new((**b).clone()) },
            PExpr::IntDistSub { a, b } => PExpr::IntDistSub { a: Box::new((**a).clone()), b: Box::new((**b).clone()) },
            PExpr::IntDistLt { a, b } => PExpr::IntDistLt { a: Box::new((**a).clone()), b: Box::new((**b).clone()) },
            PExpr::GetArgs { expr } => PExpr::GetArgs { expr: Box::new((**expr).clone()) },
            PExpr::GetConstructor { expr } => PExpr::GetConstructor { expr: Box::new((**expr).clone()) },
            PExpr::Print { expr } => PExpr::Print { expr: Box::new((**expr).clone()) },
            PExpr::Error { msg } => PExpr::Error { msg: Box::new((**msg).clone()) },
            PExpr::Index { v, idx } => PExpr::Index { v: Box::new((**v).clone()), idx: clone_all(idx) },
            PExpr::FDiv { a, b } => PExpr::FDiv { a: Box::new((**a).clone()), b: Box::new((**b).clone()) },
            PExpr::FMul { a, b } => PExpr::FMul { a: Box::new((**a).clone()), b: Box::new((**b).clone()) },
            PExpr::FAdd { a, b } => PExpr::FAdd { a: Box::new((**a).clone()), b: Box::new((**b).clone()) },
            PExpr::FSub { a, b } => PExpr::FSub { a: Box::new((**a).clone()), b: Box::new((**b).clone()) },
            PExpr::GSymbol { name } => PExpr::GSymbol { name: *name },
            PExpr::GVarSymbol { ty } => PExpr::GVarSymbol { ty: *ty },
            PExpr::Beta { a, b } => PExpr::Beta { a: Box::new((**a).clone()), b: Box::new((**b).clone()) },
            PExpr::ProbEq { prob, val } => PExpr::ProbEq { prob: Box::new((**prob).clone()), val: Box::new((**val).clone()) },
            PExpr::Gaussian { mu, sigma } => PExpr::Gaussian { mu: Box::new((**mu).clone()), sigma: Box::new((**sigma).clone()) },
            PExpr::RealEq { expr, val } => PExpr::RealEq { expr: Box::new((**expr).clone()), val: Box::new((**val).clone()) },
            PExpr::RealLt { expr, val } => PExpr::RealLt { expr: Box::new((**expr).clone()), val: Box::new((**val).clone()) },
            PExpr::RealGeq { expr, val } => PExpr::RealGeq { expr: Box::new((**expr).clone()), val: Box::new((**val).clone()) },
            PExpr::Dirichlet { alphas } => PExpr::Dirichlet { alphas: clone_all(alphas) },
            PExpr::DirichletEq { expr, val } => PExpr::DirichletEq { expr: Box::new((**expr).clone()), val: Box::new((**val).clone()) },
            PExpr::Categorical { probs } => PExpr::Categorical { probs: clone_all(probs) },
            PExpr::NativeLeq { a, b } => PExpr::NativeLeq { a: Box::new((**a).clone()), b: Box::new((**b).clone()) },
            PExpr::NativeGeq { a, b } => PExpr::NativeGeq { a: Box::new((**a).clone()), b: Box::new((**b).clone()) },
            PExpr::Poisson { rate } => PExpr::Poisson { rate: Box::new((**rate).clone()) },
            PExpr::Exponential { rate } => PExpr::Exponential { rate: Box::new((**rate).clone()) },
            PExpr::Gamma { shape, rate } => PExpr::Gamma { shape: Box::new((**shape).clone()), rate: Box::new((**rate).clone()) },
            PExpr::FloatMatrix { entries, shape } => PExpr::FloatMatrix { entries: clone_rows(entries), shape: clone_shape(shape) },
            PExpr::MatMul { a, b } => PExpr::MatMul { a: Box::new((**a).clone()), b: Box::new((**b).clone()) },
            PExpr::Sum { expr } => PExpr::Sum { expr: Box::new((**expr).clone()) },
            PExpr::Pin { expr, val } => PExpr::Pin { expr: Box::new((**expr).clone()), val: Box::new((**val).clone()) },
        }
    }
}

/// Copies of a list of expressions.
pub fn clone_all(s: &Vec<PExpr>) -> (r: Vec<PExpr>)
    ensures
        trees(r@) == trees(s@),
    decreases s,
{
    let mut r: Vec<PExpr> = Vec::new();
    let mut i: usize = 0;
    while i < s.len()
        invariant
            i <= s.len(),
            trees(r@) == trees(s@.take(i as int)),
        decreases s.len() - i,
    {
        let e: PExpr = s[i].clone();
        let ghost before = r@;
        r.push(e);
        proof {
            assert(r@.drop_last() =~= before);
            assert(s@.take(i + 1).drop_last() =~= s@.take(i as int));
        }
        i = i + 1;
    }
    assert(s@.take(s@.len() as int) =~= s@);
    r
}

fn clone_rows(s: &Vec<Vec<PExpr>>) -> (r: Vec<Vec<PExpr>>)
    ensures
        rows(r@) == rows(s@),
    decreases s,
{
    let mut r: Vec<Vec<PExpr>> = Vec::new();
    let mut i: usize = 0;
    while i < s.len()
        invariant
            i <= s.len(),
            rows(r@) == rows(s@.take(i as int)),
        decreases s.len() - i,
    {
        let e: Vec<PExpr> = clone_all(&s[i]);
        let ghost before = r@;
        r.push(e);
        proof {
            assert(r@.drop_last() =~= before);
            assert(s@.take(i + 1).drop_last() =~= s@.take(i as int));
        }
        i = i + 1;
    }
    assert(s@.take(s@.len() as int) =~= s@);
    r
}

fn clone_guards(s: &Vec<CaseOfGuard>) -> (r: Vec<CaseOfGuard>)
    ensures
        guards_of(r@) == guards_of(s@),
{
    let mut r: Vec<CaseOfGuard> = Vec::new();
    let mut i: usize = 0;
    while i < s.len()
        invariant
            i <= s.len(),
            r@.len() == i,
            forall|j: int| 0 <= j < i ==> (#[trigger] r@[j]).guard() == s@[j].guard(),
        decreases s.len() - i,
    {
        let args: Vec<Symbol> = s[i].args.clone();
        assert(args@ =~= s@[i as int].args@);
        r.push(CaseOfGuard { constructor: s[i].constructor, args });
        i = i + 1;
    }
    assert(guards_of(r@) =~= guards_of(s@));
    r
}

fn clone_shape(s: &Vec<usize>) -> (r: Vec<usize>)
    ensures
        r@ == s@,
{
    let r: Vec<usize> = s.clone();
    assert(r@ =~= s@);
    r
}

} // verus!
