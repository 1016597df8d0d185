//! What names, functions and cases are for: a name stands for what it is
//! bound to, and an argument is what its expression evaluates to, wherever it
//! is used.

use vstd::prelude::*;

use super::semantics;
use super::semantics::{Model, Scope};
use super::test_laws;
use crate::language::pexpr::{Const, Head, Tree};
use crate::language::primitives::Primitive;
use crate::language::types::Symbol;
use crate::language::values;
use crate::language::values::{Datum, Outcome};
use crate::utils::exact;
use crate::utils::exact::Field;

verus! {

/// The innermost binding of a name is the last one in the scope.
pub proof fn lemma_innermost(env: Scope, n: Symbol, d: Datum, m: Symbol)
    ensures
        values::lookup(env.push((n, d)), n) == Some(d),
        m != n ==> values::lookup(env.push((n, d)), m) == values::lookup(env, m),
        values::lookup(Seq::<(Symbol, Datum)>::empty(), n) is None,
{
    assert(env.push((n, d)).drop_last() =~= env);
}

/// An argument, once it is needed, is what its expression evaluates to at its
/// place; a name is what it is bound to.
pub proof fn lemma_delayed(t: Tree, env: Scope, index: i32, cs: Seq<i32>, x: Model, fuel: nat)
    ensures
        ({
            let d = semantics::delayed(t, env, index, cs);
            match t.head {
                Head::Var(n) => match values::lookup(env, n) {
                    Some(e) => d == e,
                    None => semantics::force(d, x, fuel) == semantics::call(
                        t,
                        env,
                        cs,
                        index,
                        x,
                        fuel,
                    ),
                },
                _ => semantics::force(d, x, fuel) == semantics::call(t, env, cs, index, x, fuel),
            }
        }),
{
}

/// The scope of a function's body: its parameter is the argument and the
/// name by which it calls itself is the function. Other names are as where
/// the function was made.
pub open spec fn opens(
    scope: Scope,
    env: Scope,
    var: Symbol,
    arg: Datum,
    rec_name: Option<Symbol>,
    f: Datum,
) -> bool {
    &&& rec_name matches Some(r) ==> values::lookup(scope, r) == Some(f)
    &&& rec_name != Some(var) ==> values::lookup(scope, var) == Some(arg)
    &&& forall|m: Symbol|
        m != var && rec_name != Some(m) ==> #[trigger] values::lookup(scope, m) == values::lookup(
            env,
            m,
        )
}

/// Applying a function evaluates its body, with the argument for the
/// parameter, at the third place of the call. Nothing else can be applied.
pub proof fn lemma_application(f: Datum, arg: Datum, cs: Seq<i32>, x: Model, fuel: nat)
    ensures
        match f {
            Datum::Closure { var, body, env, rec_name } => exists|scope: Scope| #[trigger]
                opens(scope, env, var, arg, rec_name, f) && semantics::applied(f, arg, cs, x, fuel)
                    == semantics::call(body, scope, cs, 2, x, fuel),
            _ => semantics::applied(f, arg, cs, x, fuel) == Outcome::Fail,
        },
{
    if let Datum::Closure { var, body, env, rec_name } = f {
        let inner = env.push((var, arg));
        assert(inner.drop_last() =~= env);
        let scope = match rec_name {
            Some(r) => inner.push((r, f)),
            None => inner,
        };
        if let Some(r) = rec_name {
            assert(scope.drop_last() =~= inner);
            assert forall|m: Symbol| m != r implies #[trigger] values::lookup(scope, m)
                == values::lookup(inner, m) by {
                lemma_innermost(inner, r, f, m);
            }
        }
        assert forall|m: Symbol| m != var && rec_name != Some(m) implies #[trigger] values::lookup(
            scope,
            m,
        ) == values::lookup(env, m) by {
            lemma_innermost(env, var, arg, m);
            assert(values::lookup(inner, m) == values::lookup(env, m));
        }
        lemma_innermost(env, var, arg, var);
        assert(opens(scope, env, var, arg, rec_name, f));
    }
}

/// A function of a function, applied to itself: its name stands for the
/// result, and the parameter for the argument.
pub proof fn lemma_recursion(
    var: Symbol,
    arg: Symbol,
    body: Tree,
    env: Scope,
    rec_name: Option<Symbol>,
    a: Datum,
    cs: Seq<i32>,
    x: Model,
    fuel: nat,
)
    requires
        body.head == Head::Abs(arg),
    ensures
        semantics::looped(Datum::Closure { var, body, env, rec_name }) matches Outcome::Done(g)
            && exists|scope: Scope| #[trigger]
            opens(scope, env, arg, a, Some(var), g) && semantics::applied(g, a, cs, x, fuel)
                == semantics::call(body.kids[0], scope, cs, 2, x, fuel),
{
    let g = Datum::Closure { var: arg, body: body.kids[0], env, rec_name: Some(var) };
    lemma_application(g, a, cs, x, fuel);
}

/// A call evaluates the function at the first place and the body at the
/// third; the argument, when it is needed, at the second.
pub proof fn lemma_call(t: Tree, env: Scope, cs: Seq<i32>, x: Model, fuel: nat)
    requires
        t.head is App,
        !(t.kids[1].head is Var),
    ensures
        match semantics::call(t.kids[0], env, cs, 0, x, fuel) {
            Outcome::Done(f) => match f {
                Datum::Closure { var, body, env: outer, rec_name } => exists|
                    scope: Scope,
                    arg: Datum,
                | #[trigger]
                    opens(scope, outer, var, arg, rec_name, f) && semantics::run(
                        t,
                        env,
                        cs,
                        x,
                        fuel,
                    ) == semantics::call(body, scope, cs, 2, x, fuel) && forall|n: nat| #[trigger]
                        semantics::force(arg, x, n) == semantics::call(t.kids[1], env, cs, 1, x, n),
                _ => semantics::run(t, env, cs, x, fuel) == Outcome::Fail,
            },
            o => semantics::run(t, env, cs, x, fuel) == o,
        },
{
    if let Outcome::Done(f) = semantics::call(t.kids[0], env, cs, 0, x, fuel) {
        let arg = semantics::delayed(t.kids[1], env, 1, cs);
        lemma_application(f, arg, cs, x, fuel);
        assert forall|n: nat| #[trigger] semantics::force(arg, x, n) == semantics::call(
            t.kids[1],
            env,
            cs,
            1,
            x,
            n,
        ) by {
            lemma_delayed(t.kids[1], env, 1, cs, x, n);
        }
    }
}

/// The parts of a constructed value are what their expressions evaluate to,
/// each at its place.
pub proof fn lemma_constructed(t: Tree, env: Scope, cs: Seq<i32>, x: Model, fuel: nat, c: Symbol, i: int)
    requires
        t.head == Head::Construct(c),
        0 <= i < t.kids.len(),
        t.kids.len() <= i32::MAX,
        !(t.kids[i].head is Var),
    ensures
        semantics::run(t, env, cs, x, fuel) matches Outcome::Done(Datum::Value { constructor, args })
            && constructor == c && args.len() == t.kids.len() && semantics::force(args[i], x, fuel)
            == semantics::call(t.kids[i], env, cs, i as i32, x, fuel),
{
    lemma_delayed(t.kids[i], env, i as i32, cs, x, fuel);
}

proof fn lemma_guard(guards: Seq<(Symbol, Seq<Symbol>)>, c: Symbol, from: int, i: int)
    requires
        0 <= from <= i < guards.len(),
        guards[i].0 == c,
        forall|j: int| from <= j < i ==> (#[trigger] guards[j]).0 != c,
    ensures
        semantics::guard_for(guards, c, from) == Some(i),
    decreases i - from,
{
    if from < i {
        assert(guards[from].0 != c);
        lemma_guard(guards, c, from + 1, i);
    }
}

proof fn lemma_no_guard(guards: Seq<(Symbol, Seq<Symbol>)>, c: Symbol, from: int)
    requires
        0 <= from <= guards.len(),
        forall|j: int| from <= j < guards.len() ==> (#[trigger] guards[j]).0 != c,
    ensures
        semantics::guard_for(guards, c, from) is None,
    decreases guards.len() - from,
{
    if from < guards.len() {
        assert(guards[from].0 != c);
        lemma_no_guard(guards, c, from + 1);
    }
}

/// The scope of a branch: its names are the parts of the value in order, and
/// other names are as before.
pub open spec fn unpacks(scope: Scope, env: Scope, names: Seq<Symbol>, args: Seq<Datum>) -> bool {
    &&& names.no_duplicates() ==> forall|j: int|
        0 <= j < names.len() && j < args.len() ==> values::lookup(scope, #[trigger] names[j])
            == Some(args[j])
    &&& forall|m: Symbol|
        !names.contains(m) ==> #[trigger] values::lookup(scope, m) == values::lookup(env, m)
}

proof fn lemma_unpacks(env: Scope, names: Seq<Symbol>, args: Seq<Datum>)
    ensures
        unpacks(semantics::bound_args(env, names, args), env, names, args),
    decreases names.len(),
{
    let scope = semantics::bound_args(env, names, args);
    if names.len() > 0 {
        let p = names.drop_last();
        let rest = semantics::bound_args(env, p, args);
        lemma_unpacks(env, p, args);
        assert(names =~= p.push(names.last()));
        assert forall|m: Symbol| !names.contains(m) implies #[trigger] values::lookup(scope, m)
            == values::lookup(env, m) by {
            if p.contains(m) {
                let j = p.index_of(m);
                assert(names[j] == m);
            }
            assert(names[names.len() - 1] != m);
            if names.len() <= args.len() {
                lemma_innermost(rest, names.last(), args[names.len() - 1], m);
            }
            assert(values::lookup(rest, m) == values::lookup(env, m));
        }
        if names.no_duplicates() {
            assert(p.no_duplicates());
            assert forall|j: int| 0 <= j < names.len() && j < args.len() implies values::lookup(
                scope,
                #[trigger] names[j],
            ) == Some(args[j]) by {
                if j < p.len() {
                    assert(p[j] == names[j]);
                    assert(names[names.len() - 1] != names[j]);
                    if names.len() <= args.len() {
                        lemma_innermost(
                            rest,
                            names.last(),
                            args[names.len() - 1],
                            names[j],
                        );
                    }
                    assert(values::lookup(rest, p[j]) == Some(args[j]));
                } else {
                    lemma_innermost(rest, names.last(), args[j], names[j]);
                }
            }
        }
    }
}

/// A case evaluates the branch of the first guard with the constructor of the
/// value, at the place behind the value's, with the names of the guard for
/// the parts of the value.
pub proof fn lemma_case(
    c: Symbol,
    args: Seq<Datum>,
    guards: Seq<(Symbol, Seq<Symbol>)>,
    branches: Seq<Tree>,
    env: Scope,
    cs: Seq<i32>,
    x: Model,
    fuel: nat,
    i: int,
)
    requires
        0 <= i < guards.len(),
        guards.len() <= branches.len(),
        guards[i].0 == c,
        forall|j: int| 0 <= j < i ==> (#[trigger] guards[j]).0 != c,
    ensures
        exists|scope: Scope| #[trigger]
            unpacks(scope, env, guards[i].1, args) && semantics::matched(
                Datum::Value { constructor: c, args },
                guards,
                branches,
                env,
                cs,
                x,
                fuel,
            ) == semantics::call(branches[i], scope, cs, (i + 1) as i32, x, fuel),
{
    lemma_guard(guards, c, 0, i);
    lemma_unpacks(env, guards[i].1, args);
}

/// A case in which no guard has the constructor of the value fails, and so
/// does one of a value without a constructor.
pub proof fn lemma_case_unmatched(
    d: Datum,
    guards: Seq<(Symbol, Seq<Symbol>)>,
    branches: Seq<Tree>,
    env: Scope,
    cs: Seq<i32>,
    x: Model,
    fuel: nat,
)
    requires
        d matches Datum::Value { constructor: c, .. } ==> forall|j: int|
            0 <= j < guards.len() ==> (#[trigger] guards[j]).0 != c,
    ensures
        semantics::matched(d, guards, branches, env, cs, x, fuel) == Outcome::Fail,
{
    if let Datum::Value { constructor, .. } = d {
        lemma_no_guard(guards, constructor, 0);
    }
}

proof fn lemma_counted(d: Datum, c: int, x: Model, fuel: nat)
    requires
        0 <= c <= i64::MAX,
    ensures
        match (semantics::numeral(d, 0, x, fuel), semantics::numeral(d, c, x, fuel)) {
            (
                Outcome::Done(Datum::Native(Const::Int(m))),
                Outcome::Done(e),
            ) => e == Datum::Native(Const::Int((m + c) as i64)) && m + c <= i64::MAX,
            _ => true,
        },
{
    lemma_counted_from(d, 0, c, x, fuel);
}

proof fn lemma_counted_from(d: Datum, b: int, c: int, x: Model, fuel: nat)
    requires
        0 <= b,
        0 <= c,
        b + c <= i64::MAX,
    ensures
        match (semantics::numeral(d, b, x, fuel), semantics::numeral(d, b + c, x, fuel)) {
            (
                Outcome::Done(Datum::Native(Const::Int(m))),
                Outcome::Done(e),
            ) => e == Datum::Native(Const::Int((m + c) as i64)) && m + c <= i64::MAX,
            _ => true,
        },
    decreases i64::MAX - b - c,
{
    if let Some((zero, succ)) = x.nat {
        if let Datum::Value { constructor, args } = d {
            if !(constructor == zero && args.len() == 0) && constructor == succ && args.len() == 1
                && b + c < i64::MAX {
                if let Outcome::Done(e) = semantics::force(args[0], x, fuel) {
                    lemma_counted_from(e, b + 1, c, x, fuel);
                }
            }
        }
    }
}

/// A natural number as an integer: zero is 0, the successor of a number is
/// one more than it, and an integer is itself.
pub proof fn lemma_natural(x: Model, zero: Symbol, succ: Symbol, d: Datum, i: i64, e: Datum, fuel: nat)
    requires
        x.nat == Some((zero, succ)),
        zero != succ,
    ensures
        semantics::numeral(
            Datum::Value { constructor: zero, args: Seq::empty() },
            0,
            x,
            fuel,
        ) == Outcome::Done(Datum::Native(Const::Int(0))),
        semantics::numeral(Datum::Native(Const::Int(i)), 0, x, fuel) == Outcome::Done(
            Datum::Native(Const::Int(i)),
        ),
        semantics::force(d, x, fuel) == Outcome::Done(e) ==> match (
            semantics::numeral(e, 0, x, fuel),
            semantics::numeral(
                Datum::Value { constructor: succ, args: seq![d] },
                0,
                x,
                fuel,
            ),
        ) {
            (
                Outcome::Done(Datum::Native(Const::Int(m))),
                Outcome::Done(r),
            ) => m < i64::MAX && r == Datum::Native(Const::Int((m + 1) as i64)),
            _ => true,
        },
{
    lemma_counted(e, 1, x, fuel);
    let s = seq![d];
    assert(s[0] == d && s.len() == 1);
}

/// What is left of a list behind its first `i` elements.
pub open spec fn behind(d: Datum, i: nat) -> Datum
    decreases i,
{
    if i == 0 {
        d
    } else {
        match behind(d, (i - 1) as nat) {
            Datum::Value { args, .. } => args[1],
            e => e,
        }
    }
}

/// The parts of a value as a list: the part at `i` is the first element
/// behind `i` others, and behind all of them the list is empty.
pub proof fn lemma_parts_listed(x: Model, nil: Symbol, cons: Symbol, c: Symbol, args: Seq<Datum>, got: Seq<Datum>, cs: Seq<i32>)
    requires
        x.list == Some((nil, cons)),
    ensures
        semantics::settled(
            Primitive::GetConstructor,
            seq![Datum::Value { constructor: c, args }],
            got,
            cs,
            x,
        ) == Outcome::Done(Datum::Native(Const::Symbol(c))),
        semantics::settled(
            Primitive::GetArgs,
            seq![Datum::Value { constructor: c, args }],
            got,
            cs,
            x,
        ) matches Outcome::Done(l) && {
            &&& forall|i: nat|
                i < args.len() ==> (#[trigger] behind(l, i) matches Datum::Value {
                    constructor,
                    args: s,
                } && constructor == cons && s.len() == 2 && s[0] == args[i as int])
            &&& behind(l, args.len()) == (Datum::Value { constructor: nil, args: Seq::empty() })
        },
{
    let l = semantics::list_of(nil, cons, args);
    assert forall|i: nat| i <= args.len() implies #[trigger] behind(l, i) == semantics::list_of(
        nil,
        cons,
        args.skip(i as int),
    ) by {
        lemma_behind(nil, cons, args, i);
    }
    assert forall|i: nat| i < args.len() implies (#[trigger] behind(l, i) matches Datum::Value {
        constructor,
        args: s,
    } && constructor == cons && s.len() == 2 && s[0] == args[i as int]) by {
        assert(args.skip(i as int)[0] == args[i as int]);
    }
    assert(behind(l, args.len()) == semantics::list_of(nil, cons, args.skip(args.len() as int)));
}

proof fn lemma_behind(nil: Symbol, cons: Symbol, args: Seq<Datum>, i: nat)
    requires
        i <= args.len(),
    ensures
        behind(semantics::list_of(nil, cons, args), i) == semantics::list_of(
            nil,
            cons,
            args.skip(i as int),
        ),
    decreases i,
{
    if i == 0 {
        assert(args.skip(0) =~= args);
    } else {
        lemma_behind(nil, cons, args, (i - 1) as nat);
        assert(args.skip(i - 1).skip(1) =~= args.skip(i as int));
    }
}

/// A value without parts is its own list of parts and its own constructor.
pub proof fn lemma_without_parts(x: Model, d: Datum, got: Seq<Datum>, cs: Seq<i32>)
    requires
        x.list is Some,
        !(d is Value),
    ensures
        semantics::settled(Primitive::GetArgs, seq![d], got, cs, x) == Outcome::Done(d),
        semantics::settled(Primitive::GetConstructor, seq![d], got, cs, x) == Outcome::Done(d),
{
    assert(seq![d][0] == d);
}

/// Values pinned to others hold only if each part, evaluated, holds pinned to
/// the other.
pub proof fn lemma_parts_pinned(
    s: Seq<Datum>,
    t: Seq<Datum>,
    from: int,
    cs: Seq<i32>,
    x: Model,
    fuel: nat,
    i: int,
)
    requires
        semantics::pin_all(s, t, from, cs, x, fuel) is Done,
        0 <= from <= i < s.len(),
        s.len() == t.len(),
    ensures
        semantics::pin_all(s, t, from, cs, x, fuel) == Outcome::Done(semantics::truth(x, true)),
        semantics::force(s[i], x, fuel) matches Outcome::Done(d) && semantics::force(
            t[i],
            x,
            fuel,
        ) matches Outcome::Done(e) && semantics::pin(d, e, cs, x, fuel) is Done,
    decreases i - from,
{
    if from < i {
        lemma_parts_pinned(s, t, from + 1, cs, x, fuel, i);
    } else {
        lemma_pinned_true(s, t, from, cs, x, fuel);
    }
}

proof fn lemma_pinned_true(s: Seq<Datum>, t: Seq<Datum>, from: int, cs: Seq<i32>, x: Model, fuel: nat)
    requires
        semantics::pin_all(s, t, from, cs, x, fuel) is Done,
        0 <= from <= s.len(),
    ensures
        semantics::pin_all(s, t, from, cs, x, fuel) == Outcome::Done(semantics::truth(x, true)),
    decreases s.len() - from,
{
    if from < s.len() && from < t.len() {
        lemma_pinned_true(s, t, from + 1, cs, x, fuel);
    }
}

/// Both values, evaluated, hold pinned to each other.
pub open spec fn pinned_at(d: Datum, e: Datum, cs: Seq<i32>, x: Model, fuel: nat) -> bool {
    match (semantics::force(d, x, fuel), semantics::force(e, x, fuel)) {
        (Outcome::Done(p), Outcome::Done(q)) => semantics::pin(p, q, cs, x, fuel) is Done,
        _ => false,
    }
}

/// Values pinned to others hold if each part, evaluated, holds pinned to the
/// other.
pub proof fn lemma_all_pinned(
    s: Seq<Datum>,
    t: Seq<Datum>,
    from: int,
    cs: Seq<i32>,
    x: Model,
    fuel: nat,
)
    requires
        s.len() == t.len(),
        0 <= from <= s.len(),
        forall|i: int| from <= i < s.len() ==> pinned_at(#[trigger] s[i], t[i], cs, x, fuel),
    ensures
        test_laws::says(semantics::pin_all(s, t, from, cs, x, fuel), x, true),
    decreases s.len() - from,
{
    if from < s.len() {
        assert(pinned_at(s[from], t[from], cs, x, fuel));
        lemma_all_pinned(s, t, from + 1, cs, x, fuel);
    }
}

/// Values of one constructor, and matrices of one shape, are pinned part by
/// part; matrices of different shapes fail.
pub proof fn lemma_pinned_by_parts(
    c: Symbol,
    s: Seq<Datum>,
    t: Seq<Datum>,
    p: Seq<usize>,
    q: Seq<usize>,
    cs: Seq<i32>,
    x: Model,
    fuel: nat,
)
    requires
        fuel > 0,
        s.len() == t.len(),
    ensures
        semantics::pin(
            Datum::Value { constructor: c, args: s },
            Datum::Value { constructor: c, args: t },
            cs,
            x,
            fuel,
        ) == semantics::pin_all(s, t, 0, cs, x, (fuel - 1) as nat),
        semantics::pin(
            Datum::Matrix { entries: s, shape: p },
            Datum::Matrix { entries: t, shape: q },
            cs,
            x,
            fuel,
        ) == (if p == q {
            semantics::pin_all(s, t, 0, cs, x, (fuel - 1) as nat)
        } else {
            Outcome::Fail
        }),
{
}

/// A value pinned to one with another constructor, or with another number of
/// parts, fails; one without parts holds pinned to itself, and native values
/// hold exactly if they are equal.
pub proof fn lemma_values_pinned(
    c: Symbol,
    d: Symbol,
    s: Seq<Datum>,
    t: Seq<Datum>,
    i: i64,
    j: i64,
    a: Seq<bool>,
    b: Seq<bool>,
    cs: Seq<i32>,
    x: Model,
    fuel: nat,
)
    requires
        fuel > 0,
    ensures
        c != d || s.len() != t.len() ==> semantics::pin(
            Datum::Value { constructor: c, args: s },
            Datum::Value { constructor: d, args: t },
            cs,
            x,
            fuel,
        ) == Outcome::Fail,
        c == d && s.len() == 0 && t.len() == 0 ==> test_laws::says(
            semantics::pin(
                Datum::Value { constructor: c, args: s },
                Datum::Value { constructor: d, args: t },
                cs,
                x,
                fuel,
            ),
            x,
            true,
        ),
        test_laws::confirms(
            semantics::pin(
                Datum::Native(Const::Int(i)),
                Datum::Native(Const::Int(j)),
                cs,
                x,
                fuel,
            ),
            x,
            i == j,
        ),
        test_laws::confirms(
            semantics::pin(Datum::Int(a), Datum::Int(b), cs, x, fuel),
            x,
            a == b,
        ),
{
}

/// The places of a matrix's rows: the cells of the rows before, and within.
pub open spec fn place(rows: Seq<Tree>, r: int) -> nat
    decreases r,
{
    if r <= 0 {
        0
    } else {
        place(rows, r - 1) + rows[r - 1].kids.len()
    }
}

proof fn lemma_cells(rows: Seq<Tree>, r: int, c: int)
    requires
        0 <= r < rows.len(),
        0 <= c < rows[r].kids.len(),
    ensures
        place(rows, r) + c < semantics::cells(rows).len(),
        semantics::cells(rows)[place(rows, r) + c] == rows[r].kids[c],
        semantics::cells(rows).len() == place(rows, rows.len() as int),
    decreases rows.len(),
{
    let p = rows.drop_last();
    lemma_cells_len(p);
    lemma_cells_len(rows);
    lemma_place_same(rows, p, r);
    lemma_place_same(rows, p, p.len() as int);
    if r < p.len() {
        lemma_cells(p, r, c);
    }
}

proof fn lemma_cells_len(rows: Seq<Tree>)
    ensures
        semantics::cells(rows).len() == place(rows, rows.len() as int),
    decreases rows.len(),
{
    if rows.len() > 0 {
        lemma_cells_len(rows.drop_last());
        lemma_place_same(rows, rows.drop_last(), rows.len() - 1);
    }
}

proof fn lemma_place_same(rows: Seq<Tree>, p: Seq<Tree>, r: int)
    requires
        p == rows.drop_last(),
        rows.len() > 0,
        r <= p.len(),
    ensures
        place(rows, r) == place(p, r),
    decreases r,
{
    if r > 0 {
        lemma_place_same(rows, p, r - 1);
    }
}

/// A matrix has the shape that is written, and its entries row by row: a
/// number is itself, and any other entry is what its expression evaluates to
/// at its place.
pub proof fn lemma_matrix<V>(
    k: Field<V>,
    t: Tree,
    shape: Seq<usize>,
    env: Scope,
    cs: Seq<i32>,
    x: Model,
    fuel: nat,
    r: int,
    c: int,
)
    requires
        k.exact(x.arith),
        t.head == Head::FloatMatrix(shape),
        0 <= r < t.kids.len(),
        0 <= c < t.kids[r].kids.len(),
        place(t.kids, t.kids.len() as int) <= i32::MAX,
    ensures
        semantics::run(t, env, cs, x, fuel) matches Outcome::Done(d) && d matches Datum::Matrix {
            entries,
            shape: p,
        } && p == shape && entries.len() == place(t.kids, t.kids.len() as int) && {
            let e = entries[place(t.kids, r) + c];
            match t.kids[r].kids[c].head {
                Head::Const(Const::Float(b)) => e == Datum::Native(Const::Float(b)),
                Head::Const(Const::Int(i)) => e matches Datum::Native(Const::Float(b)) && (k.value)(
                    b,
                ) == k.integer(i as int),
                _ => semantics::force(e, x, fuel) == semantics::call(
                    t.kids[r].kids[c],
                    env,
                    cs,
                    (place(t.kids, r) + c) as i32,
                    x,
                    fuel,
                ),
            }
        },
{
    lemma_cells(t.kids, r, c);
    if let Head::Const(Const::Int(i)) = t.kids[r].kids[c].head {
        exact::exact_integer(k, i, 0, x.arith);
    }
}

/// The operands are evaluated to these values, each at its own place; the
/// indices of an element are all evaluated at the first.
pub open spec fn come_to(
    p: Primitive,
    kids: Seq<Tree>,
    vals: Seq<Datum>,
    env: Scope,
    cs: Seq<i32>,
    x: Model,
    fuel: nat,
) -> bool {
    forall|i: int|
        0 <= i < vals.len() ==> semantics::call(
            #[trigger] kids[i],
            env,
            cs,
            if p == Primitive::Index {
                0
            } else {
                i as i32
            },
            x,
            fuel,
        ) == Outcome::Done(vals[i])
}

proof fn lemma_operands_from(
    p: Primitive,
    kids: Seq<Tree>,
    vals: Seq<Datum>,
    i: int,
    env: Scope,
    cs: Seq<i32>,
    x: Model,
    fuel: nat,
)
    requires
        kids.len() <= i32::MAX,
        vals.len() <= kids.len(),
        0 <= i <= vals.len(),
        come_to(p, kids, vals, env, cs, x, fuel),
    ensures
        semantics::operands(p, kids, vals.take(i), env, cs, x, fuel) == semantics::operands(
            p,
            kids,
            vals,
            env,
            cs,
            x,
            fuel,
        ),
    decreases vals.len() - i,
{
    if i < vals.len() {
        let v = vals.take(i);
        assert(v.len() == i);
        assert(v.push(vals[i]) =~= vals.take(i + 1));
        let k = kids[i];
        assert(semantics::call(k, env, cs, semantics::operand_index(p, i), x, fuel)
            == Outcome::Done(vals[i]));
        lemma_operands_from(p, kids, vals, i + 1, env, cs, x, fuel);
    } else {
        assert(vals.take(i) =~= vals);
    }
}

/// What the further evaluation of operands comes to, one by one.
pub open spec fn supply(
    wants: Seq<(semantics::Depth, Datum)>,
    got: Seq<Datum>,
    x: Model,
    fuel: nat,
) -> bool {
    forall|i: int|
        0 <= i < got.len() ==> semantics::evaluated(#[trigger] wants[i], x, fuel) == Outcome::Done(
            got[i],
        )
}

proof fn lemma_supplied_from(
    p: Primitive,
    vals: Seq<Datum>,
    got: Seq<Datum>,
    i: int,
    cs: Seq<i32>,
    x: Model,
    fuel: nat,
)
    requires
        got.len() == semantics::wants(p, vals).len(),
        0 <= i <= got.len(),
        supply(semantics::wants(p, vals), got, x, fuel),
    ensures
        semantics::supplied(p, vals, i, got.take(i), cs, x, fuel) == semantics::settled(
            p,
            vals,
            got,
            cs,
            x,
        ),
    decreases got.len() - i,
{
    if i < got.len() {
        assert(got.take(i).push(got[i]) =~= got.take(i + 1));
        let want = semantics::wants(p, vals)[i];
        assert(semantics::evaluated(want, x, fuel) == Outcome::Done(got[i]));
        lemma_supplied_from(p, vals, got, i + 1, cs, x, fuel);
    } else {
        assert(got.take(i) =~= got);
    }
}

/// A primitive is computed from the values of its operands, in order, and
/// from what they are evaluated to further.
pub proof fn lemma_primitive(
    t: Tree,
    p: Primitive,
    vals: Seq<Datum>,
    got: Seq<Datum>,
    env: Scope,
    cs: Seq<i32>,
    x: Model,
    fuel: nat,
)
    requires
        t.head == Head::Prim(p),
        p != Primitive::Print,
        p != Primitive::Error,
        t.kids.len() == vals.len(),
        vals.len() <= i32::MAX,
        come_to(p, t.kids, vals, env, cs, x, fuel),
        got.len() == semantics::wants(p, vals).len(),
        supply(semantics::wants(p, vals), got, x, fuel),
    ensures
        semantics::run(t, env, cs, x, fuel) == semantics::settled(p, vals, got, cs, x),
{
    lemma_operands_from(p, t.kids, vals, 0, env, cs, x, fuel);
    lemma_supplied_from(p, vals, got, 0, cs, x, fuel);
    assert(vals.take(0) =~= Seq::empty());
    assert(got.take(0) =~= Seq::empty());
}

/// The first operand that has no value is what a primitive comes to.
pub proof fn lemma_primitive_fails(
    t: Tree,
    p: Primitive,
    vals: Seq<Datum>,
    o: Outcome,
    env: Scope,
    cs: Seq<i32>,
    x: Model,
    fuel: nat,
)
    requires
        t.head == Head::Prim(p),
        p != Primitive::Print,
        p != Primitive::Error,
        vals.len() < t.kids.len() <= i32::MAX,
        come_to(p, t.kids, vals, env, cs, x, fuel),
        !(o is Done),
        semantics::call(
            t.kids[vals.len() as int],
            env,
            cs,
            if p == Primitive::Index {
                0
            } else {
                vals.len() as i32
            },
            x,
            fuel,
        ) == o,
    ensures
        semantics::run(t, env, cs, x, fuel) == o,
{
    lemma_operands_from(p, t.kids, vals, 0, env, cs, x, fuel);
    assert(vals.take(0) =~= Seq::empty());
}

/// Constants and symbols are themselves, a name is what it is bound to, a
/// definition is evaluated where it is used and sees no other names, and a
/// function remembers where it was made.
pub proof fn lemma_plain_forms(t: Tree, env: Scope, cs: Seq<i32>, x: Model, fuel: nat)
    ensures
        ({
            let r = semantics::run(t, env, cs, x, fuel);
            match t.head {
                Head::Const(Const::Share(_)) => true,
                Head::Const(c) => r == Outcome::Done(Datum::Native(c)),
                Head::GSymbol(s) | Head::GVarSymbol(s) => r == Outcome::Done(
                    Datum::Native(Const::Symbol(s)),
                ),
                Head::Var(n) => match values::lookup(env, n) {
                    Some(d) => r == semantics::force(d, x, fuel),
                    None => r == Outcome::Fail,
                },
                Head::Defined(n) => if x.defs.contains_key(n) {
                    r == semantics::call(x.defs[n], Seq::empty(), cs, 0, x, fuel)
                } else {
                    r == Outcome::Fail
                },
                Head::Abs(var) => r == Outcome::Done(
                    Datum::Closure { var, body: t.kids[0], env, rec_name: None },
                ),
                Head::Prim(Primitive::Print) => r == semantics::call(
                    t.kids[0],
                    env,
                    cs,
                    0,
                    x,
                    fuel,
                ),
                Head::Prim(Primitive::Error) => r == Outcome::Fail,
                _ => true,
            }
        }),
{
}

/// A pin compares the value of the first expression with that of the second.
pub proof fn lemma_pin_form(t: Tree, s: Datum, c: Datum, env: Scope, cs: Seq<i32>, x: Model, fuel: nat)
    requires
        t.head is Pin,
        semantics::call(t.kids[0], env, cs, 0, x, fuel) == Outcome::Done(s),
        semantics::call(t.kids[1], env, cs, 1, x, fuel) == Outcome::Done(c),
    ensures
        semantics::run(t, env, cs, x, fuel) == semantics::pin(s, c, cs, x, fuel),
{
}

} // verus!
