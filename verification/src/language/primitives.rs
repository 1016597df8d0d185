//! The primitive operations and their arities.

use vstd::prelude::*;
use vstd::string::*;

use crate::utils::text::same_text;

verus! {

/// A primitive operation.
#[derive(Debug, Clone, Copy, PartialEq, Eq, Structural)]
pub enum Primitive {
    Flip,
    NativeEq,
    MkInt,
    UniformInt,
    UniformIntRange,
    IntEq,
    IntDistEq,
    IntAdd,
    IntSub,
    IntLt,
    GetArgs,
    GetConstructor,
    ConstructorsEqual,
    Print,
    Error,
    FDiv,
    FMul,
    FAdd,
    FSub,
    Beta,
    ProbEq,
    Gaussian,
    RealEq,
    RealLt,
    RealGeq,
    NativeLeq,
    NativeGeq,
    Dirichlet,
    DirichletEq,
    Categorical,
    Index,
    MatMul,
    Sum,
    Poisson,
    Gamma,
    Exponential,
}

/// How many arguments a primitive takes.
#[derive(Debug, Clone, Copy, PartialEq, Eq, Structural)]
pub enum Arity {
    Fixed(usize),
    AtLeast(usize),
}

/// The primitive with the given name.
pub open spec fn prim_named(s: Seq<char>) -> Option<Primitive> {
    if s == "flip"@ {
        Some(Primitive::Flip)
    } else if s == "native_eq"@ {
        Some(Primitive::NativeEq)
    } else if s == "mk_int"@ {
        Some(Primitive::MkInt)
    } else if s == "uniform_int"@ {
        Some(Primitive::UniformInt)
    } else if s == "uniform_int_range"@ {
        Some(Primitive::UniformIntRange)
    } else if s == "int_eq"@ {
        Some(Primitive::IntEq)
    } else if s == "int_dist_eq"@ {
        Some(Primitive::IntDistEq)
    } else if s == "int_add"@ {
        Some(Primitive::IntAdd)
    } else if s == "int_sub"@ {
        Some(Primitive::IntSub)
    } else if s == "int_lt"@ {
        Some(Primitive::IntLt)
    } else if s == "get_args"@ {
        Some(Primitive::GetArgs)
    } else if s == "get_constructor"@ {
        Some(Primitive::GetConstructor)
    } else if s == "constructors_equal"@ {
        Some(Primitive::ConstructorsEqual)
    } else if s == "print"@ {
        Some(Primitive::Print)
    } else if s == "error"@ {
        Some(Primitive::Error)
    } else if s == "/."@ {
        Some(Primitive::FDiv)
    } else if s == "*."@ {
        Some(Primitive::FMul)
    } else if s == "+."@ {
        Some(Primitive::FAdd)
    } else if s == "-."@ {
        Some(Primitive::FSub)
    } else if s == "beta"@ {
        Some(Primitive::Beta)
    } else if s == "prob_eq"@ {
        Some(Primitive::ProbEq)
    } else if s == "gaussian"@ {
        Some(Primitive::Gaussian)
    } else if s == "real_eq"@ {
        Some(Primitive::RealEq)
    } else if s == "real_lt"@ {
        Some(Primitive::RealLt)
    } else if s == "real_geq"@ {
        Some(Primitive::RealGeq)
    } else if s == "native_leq"@ {
        Some(Primitive::NativeLeq)
    } else if s == "native_geq"@ {
        Some(Primitive::NativeGeq)
    } else if s == "dirichlet"@ {
        Some(Primitive::Dirichlet)
    } else if s == "dirichlet_eq"@ {
        Some(Primitive::DirichletEq)
    } else if s == "categorical"@ {
        Some(Primitive::Categorical)
    } else if s == "vector_index"@ {
        Some(Primitive::Index)
    } else if s == "@"@ {
        Some(Primitive::MatMul)
    } else if s == "sum"@ {
        Some(Primitive::Sum)
    } else if s == "poisson"@ {
        Some(Primitive::Poisson)
    } else if s == "gamma"@ {
        Some(Primitive::Gamma)
    } else if s == "exponential"@ {
        Some(Primitive::Exponential)
    } else {
        None
    }
}

impl Arity {
    /// `n` arguments are as many as asked for.
    pub open spec fn admits(self, n: nat) -> bool {
        match self {
            Arity::Fixed(k) => n == k,
            Arity::AtLeast(k) => n >= k,
        }
    }
}

/// The arity of each primitive.
pub open spec fn arity_of(prim: Primitive) -> Arity {
    match prim {
        Primitive::Flip
        | Primitive::UniformInt
        | Primitive::GetArgs
        | Primitive::GetConstructor
        | Primitive::Print
        | Primitive::Error
        | Primitive::Sum
        | Primitive::Poisson
        | Primitive::Exponential => Arity::Fixed(1),
        Primitive::UniformIntRange => Arity::Fixed(3),
        Primitive::Index => Arity::AtLeast(2),
        Primitive::Dirichlet | Primitive::Categorical => Arity::AtLeast(1),
        _ => Arity::Fixed(2),
    }
}

/// Two names can stand for one operation: the operation that a primitive
/// becomes in the syntax tree.
pub open spec fn operation(prim: Primitive) -> Primitive {
    match prim {
        Primitive::ConstructorsEqual => Primitive::NativeEq,
        Primitive::IntEq => Primitive::IntDistEq,
        _ => prim,
    }
}

impl Primitive {
    /// The primitive with the name `s`.
    pub fn from_str(s: &str) -> (r: Result<Primitive, String>)
        ensures
            match r {
                Ok(p) => prim_named(s@) == Some(p),
                Err(msg) => prim_named(s@) is None && msg@ == "Unknown primitive: '"@ + s@ + "'"@,
            },
    {
        match prim_of(s) {
            Some(p) => Ok(p),
            None => Err("Unknown primitive: '".to_owned().concat(s).concat("'")),
        }
    }
}

fn prim_of(s: &str) -> (r: Option<Primitive>)
    ensures
        r == prim_named(s@),
{
    if same_text(s, "flip") {
        Some(Primitive::Flip)
    } else if same_text(s, "native_eq") {
        Some(Primitive::NativeEq)
    } else if same_text(s, "mk_int") {
        Some(Primitive::MkInt)
    } else if same_text(s, "uniform_int") {
        Some(Primitive::UniformInt)
    } else if same_text(s, "uniform_int_range") {
        Some(Primitive::UniformIntRange)
    } else if same_text(s, "int_eq") {
        Some(Primitive::IntEq)
    } else if same_text(s, "int_dist_eq") {
        Some(Primitive::IntDistEq)
    } else if same_text(s, "int_add") {
        Some(Primitive::IntAdd)
    } else if same_text(s, "int_sub") {
        Some(Primitive::IntSub)
    } else if same_text(s, "int_lt") {
        Some(Primitive::IntLt)
    } else if same_text(s, "get_args") {
        Some(Primitive::GetArgs)
    } else if same_text(s, "get_constructor") {
        Some(Primitive::GetConstructor)
    } else if same_text(s, "constructors_equal") {
        Some(Primitive::ConstructorsEqual)
    } else if same_text(s, "print") {
        Some(Primitive::Print)
    } else if same_text(s, "error") {
        Some(Primitive::Error)
    } else if same_text(s, "/.") {
        Some(Primitive::FDiv)
    } else if same_text(s, "*.") {
        Some(Primitive::FMul)
    } else if same_text(s, "+.") {
        Some(Primitive::FAdd)
    } else if same_text(s, "-.") {
        Some(Primitive::FSub)
    } else if same_text(s, "beta") {
        Some(Primitive::Beta)
    } else if same_text(s, "prob_eq") {
        Some(Primitive::ProbEq)
    } else if same_text(s, "gaussian") {
        Some(Primitive::Gaussian)
    } else if same_text(s, "real_eq") {
        Some(Primitive::RealEq)
    } else if same_text(s, "real_lt") {
        Some(Primitive::RealLt)
    } else if same_text(s, "real_geq") {
        Some(Primitive::RealGeq)
    } else if same_text(s, "native_leq") {
        Some(Primitive::NativeLeq)
    } else if same_text(s, "native_geq") {
        Some(Primitive::NativeGeq)
    } else if same_text(s, "dirichlet") {
        Some(Primitive::Dirichlet)
    } else if same_text(s, "dirichlet_eq") {
        Some(Primitive::DirichletEq)
    } else if same_text(s, "categorical") {
        Some(Primitive::Categorical)
    } else if same_text(s, "vector_index") {
        Some(Primitive::Index)
    } else if same_text(s, "@") {
        Some(Primitive::MatMul)
    } else if same_text(s, "sum") {
        Some(Primitive::Sum)
    } else if same_text(s, "poisson") {
        Some(Primitive::Poisson)
    } else if same_text(s, "gamma") {
        Some(Primitive::Gamma)
    } else if same_text(s, "exponential") {
        Some(Primitive::Exponential)
    } else {
        None
    }
}

/// Does the name stand for a primitive?
pub fn is_prim(name: &str) -> (r: bool)
    ensures
        r == (prim_named(name@) is Some),
{
    prim_of(name).is_some()
}

/// The arity of a primitive.
pub fn prim_arity(prim: &Primitive) -> (r: Arity)
    ensures
        r == arity_of(*prim),
{
    match prim {
        Primitive::Flip => Arity::Fixed(1),
        Primitive::UniformInt => Arity::Fixed(1),
        Primitive::GetArgs => Arity::Fixed(1),
        Primitive::GetConstructor => Arity::Fixed(1),
        Primitive::Print => Arity::Fixed(1),
        Primitive::Error => Arity::Fixed(1),
        Primitive::Sum => Arity::Fixed(1),
        Primitive::Poisson => Arity::Fixed(1),
        Primitive::Exponential => Arity::Fixed(1),
        Primitive::UniformIntRange => Arity::Fixed(3),
        Primitive::Index => Arity::AtLeast(2),
        Primitive::Dirichlet => Arity::AtLeast(1),
        Primitive::Categorical => Arity::AtLeast(1),
        _ => Arity::Fixed(2),
    }
}

} // verus!
