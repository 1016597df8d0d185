//! What the names of primitives are for: each primitive has one name, and no
//! two names stand for one.

use vstd::prelude::*;
use vstd::string::*;

use super::primitives;
use super::primitives::Primitive;

verus! {

/// The name of a primitive.
pub open spec fn name_of(p: Primitive) -> Seq<char> {
    match p {
        Primitive::Flip => "flip"@,
        Primitive::NativeEq => "native_eq"@,
        Primitive::MkInt => "mk_int"@,
        Primitive::UniformInt => "uniform_int"@,
        Primitive::UniformIntRange => "uniform_int_range"@,
        Primitive::IntEq => "int_eq"@,
        Primitive::IntDistEq => "int_dist_eq"@,
        Primitive::IntAdd => "int_add"@,
        Primitive::IntSub => "int_sub"@,
        Primitive::IntLt => "int_lt"@,
        Primitive::GetArgs => "get_args"@,
        Primitive::GetConstructor => "get_constructor"@,
        Primitive::ConstructorsEqual => "constructors_equal"@,
        Primitive::Print => "print"@,
        Primitive::Error => "error"@,
        Primitive::FDiv => "/."@,
        Primitive::FMul => "*."@,
        Primitive::FAdd => "+."@,
        Primitive::FSub => "-."@,
        Primitive::Beta => "beta"@,
        Primitive::ProbEq => "prob_eq"@,
        Primitive::Gaussian => "gaussian"@,
        Primitive::RealEq => "real_eq"@,
        Primitive::RealLt => "real_lt"@,
        Primitive::RealGeq => "real_geq"@,
        Primitive::NativeLeq => "native_leq"@,
        Primitive::NativeGeq => "native_geq"@,
        Primitive::Dirichlet => "dirichlet"@,
        Primitive::DirichletEq => "dirichlet_eq"@,
        Primitive::Categorical => "categorical"@,
        Primitive::Index => "vector_index"@,
        Primitive::MatMul => "@"@,
        Primitive::Sum => "sum"@,
        Primitive::Poisson => "poisson"@,
        Primitive::Gamma => "gamma"@,
        Primitive::Exponential => "exponential"@,
    }
}

/// All names, by their characters.
proof fn lemma_spelled()
    ensures
        "flip"@ == seq!['f', 'l', 'i', 'p'],
        "native_eq"@ == seq!['n', 'a', 't', 'i', 'v', 'e', '_', 'e', 'q'],
        "mk_int"@ == seq!['m', 'k', '_', 'i', 'n', 't'],
        "uniform_int"@ == seq!['u', 'n', 'i', 'f', 'o', 'r', 'm', '_', 'i', 'n', 't'],
        "uniform_int_range"@ == seq!['u', 'n', 'i', 'f', 'o', 'r', 'm', '_', 'i', 'n', 't', '_', 'r', 'a', 'n', 'g', 'e'],
        "int_eq"@ == seq!['i', 'n', 't', '_', 'e', 'q'],
        "int_dist_eq"@ == seq!['i', 'n', 't', '_', 'd', 'i', 's', 't', '_', 'e', 'q'],
        "int_add"@ == seq!['i', 'n', 't', '_', 'a', 'd', 'd'],
        "int_sub"@ == seq!['i', 'n', 't', '_', 's', 'u', 'b'],
        "int_lt"@ == seq!['i', 'n', 't', '_', 'l', 't'],
        "get_args"@ == seq!['g', 'e', 't', '_', 'a', 'r', 'g', 's'],
        "get_constructor"@ == seq!['g', 'e', 't', '_', 'c', 'o', 'n', 's', 't', 'r', 'u', 'c', 't', 'o', 'r'],
        "constructors_equal"@ == seq!['c', 'o', 'n', 's', 't', 'r', 'u', 'c', 't', 'o', 'r', 's', '_', 'e', 'q', 'u', 'a', 'l'],
        "print"@ == seq!['p', 'r', 'i', 'n', 't'],
        "error"@ == seq!['e', 'r', 'r', 'o', 'r'],
        "/."@ == seq!['/', '.'],
        "*."@ == seq!['*', '.'],
        "+."@ == seq!['+', '.'],
        "-."@ == seq!['-', '.'],
        "beta"@ == seq!['b', 'e', 't', 'a'],
        "prob_eq"@ == seq!['p', 'r', 'o', 'b', '_', 'e', 'q'],
        "gaussian"@ == seq!['g', 'a', 'u', 's', 's', 'i', 'a', 'n'],
        "real_eq"@ == seq!['r', 'e', 'a', 'l', '_', 'e', 'q'],
        "real_lt"@ == seq!['r', 'e', 'a', 'l', '_', 'l', 't'],
        "real_geq"@ == seq!['r', 'e', 'a', 'l', '_', 'g', 'e', 'q'],
        "native_leq"@ == seq!['n', 'a', 't', 'i', 'v', 'e', '_', 'l', 'e', 'q'],
        "native_geq"@ == seq!['n', 'a', 't', 'i', 'v', 'e', '_', 'g', 'e', 'q'],
        "dirichlet"@ == seq!['d', 'i', 'r', 'i', 'c', 'h', 'l', 'e', 't'],
        "dirichlet_eq"@ == seq!['d', 'i', 'r', 'i', 'c', 'h', 'l', 'e', 't', '_', 'e', 'q'],
        "categorical"@ == seq!['c', 'a', 't', 'e', 'g', 'o', 'r', 'i', 'c', 'a', 'l'],
        "vector_index"@ == seq!['v', 'e', 'c', 't', 'o', 'r', '_', 'i', 'n', 'd', 'e', 'x'],
        "@"@ == seq!['@'],
        "sum"@ == seq!['s', 'u', 'm'],
        "poisson"@ == seq!['p', 'o', 'i', 's', 's', 'o', 'n'],
        "gamma"@ == seq!['g', 'a', 'm', 'm', 'a'],
        "exponential"@ == seq!['e', 'x', 'p', 'o', 'n', 'e', 'n', 't', 'i', 'a', 'l'],
{
    reveal_strlit("flip");
    reveal_strlit("native_eq");
    reveal_strlit("mk_int");
    reveal_strlit("uniform_int");
    reveal_strlit("uniform_int_range");
    reveal_strlit("int_eq");
    reveal_strlit("int_dist_eq");
    reveal_strlit("int_add");
    reveal_strlit("int_sub");
    reveal_strlit("int_lt");
    reveal_strlit("get_args");
    reveal_strlit("get_constructor");
    reveal_strlit("constructors_equal");
    reveal_strlit("print");
    reveal_strlit("error");
    reveal_strlit("/.");
    reveal_strlit("*.");
    reveal_strlit("+.");
    reveal_strlit("-.");
    reveal_strlit("beta");
    reveal_strlit("prob_eq");
    reveal_strlit("gaussian");
    reveal_strlit("real_eq");
    reveal_strlit("real_lt");
    reveal_strlit("real_geq");
    reveal_strlit("native_leq");
    reveal_strlit("native_geq");
    reveal_strlit("dirichlet");
    reveal_strlit("dirichlet_eq");
    reveal_strlit("categorical");
    reveal_strlit("vector_index");
    reveal_strlit("@");
    reveal_strlit("sum");
    reveal_strlit("poisson");
    reveal_strlit("gamma");
    reveal_strlit("exponential");
    assert("flip"@ =~= seq!['f', 'l', 'i', 'p']);
    assert("native_eq"@ =~= seq!['n', 'a', 't', 'i', 'v', 'e', '_', 'e', 'q']);
    assert("mk_int"@ =~= seq!['m', 'k', '_', 'i', 'n', 't']);
    assert("uniform_int"@ =~= seq!['u', 'n', 'i', 'f', 'o', 'r', 'm', '_', 'i', 'n', 't']);
    assert("uniform_int_range"@ =~= seq!['u', 'n', 'i', 'f', 'o', 'r', 'm', '_', 'i', 'n', 't', '_', 'r', 'a', 'n', 'g', 'e']);
    assert("int_eq"@ =~= seq!['i', 'n', 't', '_', 'e', 'q']);
    assert("int_dist_eq"@ =~= seq!['i', 'n', 't', '_', 'd', 'i', 's', 't', '_', 'e', 'q']);
    assert("int_add"@ =~= seq!['i', 'n', 't', '_', 'a', 'd', 'd']);
    assert("int_sub"@ =~= seq!['i', 'n', 't', '_', 's', 'u', 'b']);
    assert("int_lt"@ =~= seq!['i', 'n', 't', '_', 'l', 't']);
    assert("get_args"@ =~= seq!['g', 'e', 't', '_', 'a', 'r', 'g', 's']);
    assert("get_constructor"@ =~= seq!['g', 'e', 't', '_', 'c', 'o', 'n', 's', 't', 'r', 'u', 'c', 't', 'o', 'r']);
    assert("constructors_equal"@ =~= seq!['c', 'o', 'n', 's', 't', 'r', 'u', 'c', 't', 'o', 'r', 's', '_', 'e', 'q', 'u', 'a', 'l']);
    assert("print"@ =~= seq!['p', 'r', 'i', 'n', 't']);
    assert("error"@ =~= seq!['e', 'r', 'r', 'o', 'r']);
    assert("/."@ =~= seq!['/', '.']);
    assert("*."@ =~= seq!['*', '.']);
    assert("+."@ =~= seq!['+', '.']);
    assert("-."@ =~= seq!['-', '.']);
    assert("beta"@ =~= seq!['b', 'e', 't', 'a']);
    assert("prob_eq"@ =~= seq!['p', 'r', 'o', 'b', '_', 'e', 'q']);
    assert("gaussian"@ =~= seq!['g', 'a', 'u', 's', 's', 'i', 'a', 'n']);
    assert("real_eq"@ =~= seq!['r', 'e', 'a', 'l', '_', 'e', 'q']);
    assert("real_lt"@ =~= seq!['r', 'e', 'a', 'l', '_', 'l', 't']);
    assert("real_geq"@ =~= seq!['r', 'e', 'a', 'l', '_', 'g', 'e', 'q']);
    assert("native_leq"@ =~= seq!['n', 'a', 't', 'i', 'v', 'e', '_', 'l', 'e', 'q']);
    assert("native_geq"@ =~= seq!['n', 'a', 't', 'i', 'v', 'e', '_', 'g', 'e', 'q']);
    assert("dirichlet"@ =~= seq!['d', 'i', 'r', 'i', 'c', 'h', 'l', 'e', 't']);
    assert("dirichlet_eq"@ =~= seq!['d', 'i', 'r', 'i', 'c', 'h', 'l', 'e', 't', '_', 'e', 'q']);
    assert("categorical"@ =~= seq!['c', 'a', 't', 'e', 'g', 'o', 'r', 'i', 'c', 'a', 'l']);
    assert("vector_index"@ =~= seq!['v', 'e', 'c', 't', 'o', 'r', '_', 'i', 'n', 'd', 'e', 'x']);
    assert("@"@ =~= seq!['@']);
    assert("sum"@ =~= seq!['s', 'u', 'm']);
    assert("poisson"@ =~= seq!['p', 'o', 'i', 's', 's', 'o', 'n']);
    assert("gamma"@ =~= seq!['g', 'a', 'm', 'm', 'a']);
    assert("exponential"@ =~= seq!['e', 'x', 'p', 'o', 'n', 'e', 'n', 't', 'i', 'a', 'l']);
}

/// Names of one length differ in a character.
proof fn lemma_apart(p: Primitive, q: Primitive)
    requires
        p != q,
    ensures
        name_of(p) != name_of(q),
{
    lemma_spelled();
    let (s, t) = (name_of(p), name_of(q));
    if s == t {
        assert(s.len() == t.len());
        assert(forall|i: int| 0 <= i < s.len() ==> s[i] == #[trigger] t[i]);
        assert(s.len() > 0 ==> s[0] == t[0]);
        assert(s.len() > 1 ==> s[1] == t[1]);
        assert(s.len() > 4 ==> s[4] == t[4]);
        assert(s.len() > 5 ==> s[5] == t[5]);
        assert(s.len() > 7 ==> s[7] == t[7]);
    }
}

/// A primitive is found under its name, and nothing else is found there.
pub proof fn lemma_found_by_name(s: Seq<char>, p: Primitive)
    ensures
        primitives::prim_named(s) == Some(p) <==> s == name_of(p),
{
    assert forall|a: Primitive, b: Primitive| a != b implies #[trigger] name_of(a) != #[trigger] name_of(
        b,
    ) by {
        lemma_apart(a, b);
    }
    assert(name_of(Primitive::Flip) == "flip"@);
    assert(name_of(Primitive::NativeEq) == "native_eq"@);
    assert(name_of(Primitive::MkInt) == "mk_int"@);
    assert(name_of(Primitive::UniformInt) == "uniform_int"@);
    assert(name_of(Primitive::UniformIntRange) == "uniform_int_range"@);
    assert(name_of(Primitive::IntEq) == "int_eq"@);
    assert(name_of(Primitive::IntDistEq) == "int_dist_eq"@);
    assert(name_of(Primitive::IntAdd) == "int_add"@);
    assert(name_of(Primitive::IntSub) == "int_sub"@);
    assert(name_of(Primitive::IntLt) == "int_lt"@);
    assert(name_of(Primitive::GetArgs) == "get_args"@);
    assert(name_of(Primitive::GetConstructor) == "get_constructor"@);
    assert(name_of(Primitive::ConstructorsEqual) == "constructors_equal"@);
    assert(name_of(Primitive::Print) == "print"@);
    assert(name_of(Primitive::Error) == "error"@);
    assert(name_of(Primitive::FDiv) == "/."@);
    assert(name_of(Primitive::FMul) == "*."@);
    assert(name_of(Primitive::FAdd) == "+."@);
    assert(name_of(Primitive::FSub) == "-."@);
    assert(name_of(Primitive::Beta) == "beta"@);
    assert(name_of(Primitive::ProbEq) == "prob_eq"@);
    assert(name_of(Primitive::Gaussian) == "gaussian"@);
    assert(name_of(Primitive::RealEq) == "real_eq"@);
    assert(name_of(Primitive::RealLt) == "real_lt"@);
    assert(name_of(Primitive::RealGeq) == "real_geq"@);
    assert(name_of(Primitive::NativeLeq) == "native_leq"@);
    assert(name_of(Primitive::NativeGeq) == "native_geq"@);
    assert(name_of(Primitive::Dirichlet) == "dirichlet"@);
    assert(name_of(Primitive::DirichletEq) == "dirichlet_eq"@);
    assert(name_of(Primitive::Categorical) == "categorical"@);
    assert(name_of(Primitive::Index) == "vector_index"@);
    assert(name_of(Primitive::MatMul) == "@"@);
    assert(name_of(Primitive::Sum) == "sum"@);
    assert(name_of(Primitive::Poisson) == "poisson"@);
    assert(name_of(Primitive::Gamma) == "gamma"@);
    assert(name_of(Primitive::Exponential) == "exponential"@);
}

/// A primitive takes as many operands as it computes from: one, two or three,
/// or from one or two on.
pub proof fn lemma_operands_taken(p: Primitive, n: nat)
    ensures
        primitives::arity_of(p).admits(n) <==> match p {
            Primitive::Flip
            | Primitive::UniformInt
            | Primitive::GetArgs
            | Primitive::GetConstructor
            | Primitive::Print
            | Primitive::Error
            | Primitive::Sum
            | Primitive::Poisson
            | Primitive::Exponential => n == 1,
            Primitive::NativeEq
            | Primitive::NativeLeq
            | Primitive::NativeGeq
            | Primitive::ConstructorsEqual
            | Primitive::MkInt
            | Primitive::IntEq
            | Primitive::IntDistEq
            | Primitive::IntAdd
            | Primitive::IntSub
            | Primitive::IntLt
            | Primitive::FAdd
            | Primitive::FSub
            | Primitive::FMul
            | Primitive::FDiv
            | Primitive::MatMul
            | Primitive::Beta
            | Primitive::Gamma
            | Primitive::Gaussian
            | Primitive::ProbEq
            | Primitive::RealEq
            | Primitive::RealLt
            | Primitive::RealGeq
            | Primitive::DirichletEq => n == 2,
            Primitive::UniformIntRange => n == 3,
            Primitive::Dirichlet | Primitive::Categorical => n >= 1,
            Primitive::Index => n >= 2,
        },
{
}

} // verus!
