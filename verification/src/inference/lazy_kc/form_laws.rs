//! What the forms of the language are for: a choice takes each alternative by
//! its weight, a numeral is its number, and a binding stands for its value.

use vstd::prelude::*;

use super::chance_laws;
use super::semantics;
use super::semantics::{Model, Scope};
use crate::language::grammar;
use crate::language::grammar::{Known, Tok};
use crate::language::pexpr;
use crate::language::pexpr::{Const, Head, Tree, Weight};
use crate::language::primitives::Primitive;
use crate::language::types;
use crate::language::types::Symbol;
use crate::language::values::{Datum, Outcome};
use crate::results::query;
use crate::utils::decimal;
use crate::utils::exact;
use crate::utils::exact::Field;

verus! {

/// A condition takes the first branch if it is true, and the second if it is
/// false, each at a place of its own.
pub proof fn lemma_condition(t: Tree, env: Scope, cs: Seq<i32>, x: Model, fuel: nat, b: bool)
    requires
        x.yes != x.no,
        t.head == Head::CaseOf(grammar::two_way(x.yes, x.no)),
        t.kids.len() == 3,
        semantics::call(t.kids[0], env, cs, 0, x, fuel) == Outcome::Done(semantics::truth(x, b)),
    ensures
        semantics::run(t, env, cs, x, fuel) == (if b {
            semantics::call(t.kids[1], env, cs, 1, x, fuel)
        } else {
            semantics::call(t.kids[2], env, cs, 2, x, fuel)
        }),
{
    let g = grammar::two_way(x.yes, x.no);
    let branches = t.kids.skip(1);
    assert(g[0].0 == x.yes && g[1].0 == x.no);
    assert(branches[0] == t.kids[1] && branches[1] == t.kids[2]);
    reveal_with_fuel(semantics::guard_for, 3);
    assert(semantics::guard_for(
        g,
        if b {
            x.yes
        } else {
            x.no
        },
        0,
    ) == Some(
        if b {
            0int
        } else {
            1int
        },
    ));
    assert(semantics::bound_args(env, Seq::empty(), Seq::empty()) == env);
}

/// What is chosen from when the first `j` alternatives were not taken.
pub open spec fn otherwise(t: Tree, j: nat) -> Tree
    decreases j,
{
    if j == 0 {
        t
    } else {
        otherwise(t, (j - 1) as nat).kids[2]
    }
}

proof fn lemma_otherwise(cs: Seq<(Tree, Weight)>, t: Symbol, f: Symbol, j: nat)
    requires
        j < cs.len(),
    ensures
        otherwise(grammar::choice_tree(cs, t, f), j) == grammar::choice_tree(
            cs.skip(j as int),
            t,
            f,
        ),
    decreases j,
{
    if j == 0 {
        assert(cs.skip(0) =~= cs);
    } else {
        lemma_otherwise(cs, t, f, (j - 1) as nat);
        assert(cs.skip(j - 1).skip(1) =~= cs.skip(j as int));
    }
}

/// The flip at each level of a choice has a probability, by which it takes
/// the alternative there; the last alternative is what is left.
pub open spec fn flips_by<V>(
    k: Field<V>,
    x: Model,
    t: Tree,
    alternatives: Seq<Tree>,
    qs: Seq<V>,
) -> bool {
    &&& qs.len() + 1 == alternatives.len()
    &&& forall|j: nat|
        j < qs.len() ==> flips_at(
            k,
            x,
            #[trigger] otherwise(t, j),
            alternatives[j as int],
            qs[j as int],
        )
    &&& otherwise(t, qs.len()) == alternatives.last()
}

/// The flip has the probability `q`, and takes the alternative if it is true.
pub open spec fn flips_at<V>(k: Field<V>, x: Model, t: Tree, alternative: Tree, q: V) -> bool {
    &&& t.head == Head::CaseOf(seq![(x.yes, Seq::empty()), (x.no, Seq::empty())])
    &&& t.kids.len() == 3
    &&& t.kids[1] == alternative
    &&& t.kids[0].head == Head::Prim(Primitive::Flip)
    &&& t.kids[0].kids.len() == 1
    &&& forall|env: Scope, cs: Seq<i32>, fuel: nat|
        stands_with(k, q, #[trigger] semantics::run(t.kids[0].kids[0], env, cs, x, fuel))
}

/// The outcome is a number with this value.
pub open spec fn stands_with<V>(k: Field<V>, q: V, o: Outcome) -> bool {
    match o {
        Outcome::Done(Datum::Native(Const::Float(b))) => (k.value)(b) == q,
        _ => false,
    }
}

/// The alternatives of a choice.
pub open spec fn alternatives(cs: Seq<(Tree, Weight)>) -> Seq<Tree> {
    Seq::new(cs.len(), |i: int| cs[i].0)
}

/// A choice by weights takes each alternative with a probability that is its
/// share of all weights: the probability that the flips before it come out
/// false, and its own true, times all weights, is its weight.
pub proof fn lemma_choice_by_weight<V>(
    k: Field<V>,
    x: Model,
    cs: Seq<(Tree, Weight)>,
    vs: Seq<V>,
    i: int,
)
    requires
        k.exact(x.arith),
        chance_laws::weigh(k, cs.map_values(|c: (Tree, Weight)| c.1), vs),
        0 <= i < cs.len(),
        forall|j: int| 0 <= j < vs.len() ==> #[trigger] chance_laws::rest(k, vs, j) != k.zero,
    ensures
        exists|qs: Seq<V>| #[trigger]
            flips_by(
                k,
                x,
                grammar::choice_tree(cs, x.yes, x.no),
                alternatives(cs),
                qs,
            ) && (k.times)(chance_laws::first_chance(k, qs, i), chance_laws::rest(k, vs, 0))
                == vs[i],
{
    exact::exact_laws(k, x.arith);
    let ws = cs.map_values(|c: (Tree, Weight)| c.1);
    let n = cs.len();
    let share = |j: int|
        match semantics::constant(x, Const::Share(ws.skip(j))) {
            Outcome::Done(Datum::Native(Const::Float(b))) => (k.value)(b),
            _ => k.zero,
        };
    let qs = Seq::new((n - 1) as nat, share);
    let t = grammar::choice_tree(cs, x.yes, x.no);
    assert forall|j: int| 0 <= j < qs.len() implies (k.times)(
        #[trigger] qs[j],
        chance_laws::rest(k, vs, j),
    ) == vs[j] by {
        lemma_share_from(k, x, ws, vs, j);
    }
    chance_laws::lemma_shares_of_the_rest(k, vs, qs, i);
    assert forall|j: nat| j < qs.len() implies flips_at(
        k,
        x,
        #[trigger] otherwise(t, j),
        alternatives(cs)[j as int],
        qs[j as int],
    ) by {
        lemma_otherwise(cs, x.yes, x.no, j);
        lemma_share_from(k, x, ws, vs, j as int);
        let c = cs.skip(j as int);
        assert(c.map_values(|c: (Tree, Weight)| c.1) =~= ws.skip(j as int));
        assert(c[0] == cs[j as int]);
        assert(c.len() >= 2);
    }
    lemma_otherwise(cs, x.yes, x.no, qs.len());
    assert(cs.skip(qs.len() as int)[0] == cs.last());
    assert(flips_by(k, x, t, alternatives(cs), qs));
}

proof fn lemma_share_from<V>(k: Field<V>, x: Model, ws: Seq<Weight>, vs: Seq<V>, j: int)
    requires
        k.exact(x.arith),
        chance_laws::weigh(k, ws, vs),
        0 <= j < ws.len(),
        chance_laws::rest(k, vs, j) != k.zero,
    ensures
        semantics::constant(x, Const::Share(ws.skip(j))) matches Outcome::Done(
            Datum::Native(Const::Float(b)),
        ) && (k.times)((k.value)(b), chance_laws::rest(k, vs, j)) == vs[j],
{
    let (w, v) = (ws.skip(j), vs.skip(j));
    assert(chance_laws::weigh(k, w, v)) by {
        assert forall|i: int| 0 <= i < w.len() implies #[trigger] chance_laws::is_weight(
            k,
            w[i],
            v[i],
        ) by {
            assert(chance_laws::is_weight(k, ws[j + i], vs[j + i]));
        }
    }
    lemma_rest_skip(k, vs, j, 0);
    chance_laws::lemma_share_of_weights(k, x, w, v);
}

proof fn lemma_rest_skip<V>(k: Field<V>, vs: Seq<V>, j: int, i: int)
    requires
        0 <= j <= vs.len(),
        0 <= i <= vs.len() - j,
    ensures
        chance_laws::rest(k, vs.skip(j), i) == chance_laws::rest(k, vs, j + i),
    decreases vs.len() - j - i,
{
    if i < vs.len() - j {
        lemma_rest_skip(k, vs, j, i + 1);
    }
}

/// The alternatives of a uniform choice have equal weights, one in as many as
/// there are.
pub proof fn lemma_uniform_weights(vals: Seq<Tree>, i: int)
    requires
        0 <= i < vals.len() <= usize::MAX,
    ensures
        grammar::equally(vals).len() == vals.len(),
        grammar::equally(vals)[i] == (vals[i], Weight::OneIn(vals.len() as usize)),
{
}

/// A numeral evaluates to its number.
pub proof fn lemma_numeral(
    n: nat,
    zero: Symbol,
    succ: Symbol,
    env: Scope,
    cs: Seq<i32>,
    x: Model,
    fuel: nat,
    d: Datum,
)
    requires
        x.nat == Some((zero, succ)),
        zero != succ,
        n <= i64::MAX,
        fuel > 0,
        semantics::run(grammar::nat_tree(n, zero, succ), env, cs, x, fuel) == Outcome::Done(d),
    ensures
        semantics::numeral(d, 0, x, fuel) == Outcome::Done(Datum::Native(Const::Int(n as i64))),
{
    lemma_numeral_from(n, zero, succ, env, cs, x, fuel, d, 0);
}

proof fn lemma_numeral_from(
    n: nat,
    zero: Symbol,
    succ: Symbol,
    env: Scope,
    cs: Seq<i32>,
    x: Model,
    fuel: nat,
    d: Datum,
    c: int,
)
    requires
        x.nat == Some((zero, succ)),
        zero != succ,
        0 <= c,
        n + c <= i64::MAX,
        fuel > 0,
        d == (Datum::Value {
            constructor: if n == 0 {
                zero
            } else {
                succ
            },
            args: semantics::all_delayed(grammar::nat_tree(n, zero, succ).kids, env, cs),
        }),
    ensures
        semantics::numeral(d, c, x, fuel) == Outcome::Done(
            Datum::Native(Const::Int((n + c) as i64)),
        ),
    decreases n,
{
    let t = grammar::nat_tree(n, zero, succ);
    let args = semantics::all_delayed(t.kids, env, cs);
    if n > 0 {
        let u = grammar::nat_tree((n - 1) as nat, zero, succ);
        assert(t.kids =~= seq![u]);
        assert(args.len() == 1);
        assert(args[0] == Datum::Thunk { expr: u, env, index: 0, callstack: cs });
        let e = Datum::Value {
            constructor: if n == 1 {
                zero
            } else {
                succ
            },
            args: semantics::all_delayed(u.kids, env, cs.push(0)),
        };
        assert(semantics::run(u, env, cs.push(0), x, (fuel - 1) as nat) == Outcome::Done(e));
        assert(semantics::force(args[0], x, fuel) == Outcome::Done(e));
        lemma_numeral_from((n - 1) as nat, zero, succ, env, cs.push(0), x, fuel, e, c + 1);
    } else {
        assert(args.len() == 0);
    }
}

/// What is left of a list expression behind its first `i` elements.
pub open spec fn beyond(t: Tree, i: nat) -> Tree
    decreases i,
{
    if i == 0 {
        t
    } else {
        beyond(t, (i - 1) as nat).kids[1]
    }
}

/// A list has its elements in order, and is empty behind the last.
pub proof fn lemma_list(items: Seq<Tree>, nil: Symbol, cons: Symbol, i: nat)
    requires
        i <= items.len(),
    ensures
        ({
            let t = beyond(grammar::list_tree(items, nil, cons), i);
            if i < items.len() {
                t.head == Head::Construct(cons) && t.kids.len() == 2 && t.kids[0]
                    == items[i as int]
            } else {
                t.head == Head::Construct(nil) && t.kids.len() == 0
            }
        }),
{
    lemma_beyond(items, nil, cons, i);
    if i < items.len() {
        assert(items.skip(i as int)[0] == items[i as int]);
    }
}

proof fn lemma_beyond(items: Seq<Tree>, nil: Symbol, cons: Symbol, i: nat)
    requires
        i <= items.len(),
    ensures
        beyond(grammar::list_tree(items, nil, cons), i) == grammar::list_tree(
            items.skip(i as int),
            nil,
            cons,
        ),
    decreases i,
{
    if i == 0 {
        assert(items.skip(0) =~= items);
    } else {
        lemma_beyond(items, nil, cons, (i - 1) as nat);
        assert(items.skip(i - 1).skip(1) =~= items.skip(i as int));
    }
}

/// What is under the first `i` functions.
pub open spec fn under(t: Tree, i: nat) -> Tree
    decreases i,
{
    if i == 0 {
        t
    } else {
        under(t, (i - 1) as nat).kids[0]
    }
}

/// A function of several parameters takes them in order, and its body is
/// under the last.
pub proof fn lemma_parameters(bound: Seq<Seq<char>>, body: Tree, table: Seq<Seq<char>>, i: nat)
    requires
        table.no_duplicates(),
        i <= bound.len(),
    ensures
        ({
            let (t, next) = grammar::abstracted(bound, body, table);
            let u = under(t, i);
            if i < bound.len() {
                u.head == Head::Abs(types::symbol_in(next, bound[i as int])) && u.kids.len() == 1
                    && next.contains(bound[i as int])
            } else {
                u == body
            }
        }),
    decreases bound.len(),
{
    if bound.len() > 0 {
        let last = bound.last();
        let next = types::interned(table, last);
        let inner = pexpr::node1(Head::Abs(types::symbol_in(next, last)), body);
        let p = bound.drop_last();
        types::lemma_interned_contains(table, last);
        lemma_interned_distinct(table, last);
        if i < p.len() {
            lemma_parameters(p, inner, next, i);
        } else {
            lemma_parameters(p, inner, next, p.len());
            lemma_abstracted_kept(p, inner, next, last);
        }
    }
}

proof fn lemma_interned_distinct(table: Seq<Seq<char>>, s: Seq<char>)
    requires
        table.no_duplicates(),
    ensures
        types::interned(table, s).no_duplicates(),
{
}

proof fn lemma_abstracted_kept(bound: Seq<Seq<char>>, body: Tree, table: Seq<Seq<char>>, s: Seq<char>)
    requires
        table.no_duplicates(),
        table.contains(s),
    ensures
        grammar::abstracted(bound, body, table).1.contains(s),
        types::symbol_in(grammar::abstracted(bound, body, table).1, s) == types::symbol_in(
            table,
            s,
        ),
    decreases bound.len(),
{
    if bound.len() > 0 {
        types::lemma_symbol_kept(table, bound.last(), s);
        let next = types::interned(table, bound.last());
        lemma_abstracted_kept(
            bound.drop_last(),
            pexpr::node1(Head::Abs(types::symbol_in(next, bound.last())), body),
            next,
            s,
        );
    }
}

/// What is under the first `i` bindings.
pub open spec fn within(t: Tree, i: nat) -> Tree
    decreases i,
{
    if i == 0 {
        t
    } else {
        within(t, (i - 1) as nat).kids[0].kids[0]
    }
}

/// Bindings are functions of their names, applied to their values, from the
/// first to the last; the body is under all of them.
pub proof fn lemma_bindings(bs: Seq<(Seq<char>, Tree)>, body: Tree, table: Seq<Seq<char>>, i: nat)
    requires
        table.no_duplicates(),
        i <= bs.len(),
    ensures
        ({
            let (t, next) = grammar::bound_in(bs, body, table);
            let u = within(t, i);
            if i < bs.len() {
                u.head is App && u.kids.len() == 2 && u.kids[1] == bs[i as int].1 && u.kids[0].head
                    == Head::Abs(types::symbol_in(next, bs[i as int].0)) && u.kids[0].kids.len() == 1
                    && next.contains(bs[i as int].0)
            } else {
                u == body
            }
        }),
    decreases bs.len(),
{
    if bs.len() > 0 {
        let (name, val) = bs.last();
        let next = types::interned(table, name);
        let inner = pexpr::node2(
            Head::App,
            pexpr::node1(Head::Abs(types::symbol_in(next, name)), body),
            val,
        );
        let p = bs.drop_last();
        types::lemma_interned_contains(table, name);
        lemma_interned_distinct(table, name);
        if i < p.len() {
            lemma_bindings(p, inner, next, i);
        } else {
            lemma_bindings(p, inner, next, p.len());
            lemma_bound_kept(p, inner, next, name);
        }
    }
}

proof fn lemma_bound_kept(bs: Seq<(Seq<char>, Tree)>, body: Tree, table: Seq<Seq<char>>, s: Seq<char>)
    requires
        table.no_duplicates(),
        table.contains(s),
    ensures
        grammar::bound_in(bs, body, table).1.contains(s),
        types::symbol_in(grammar::bound_in(bs, body, table).1, s) == types::symbol_in(table, s),
    decreases bs.len(),
{
    if bs.len() > 0 {
        let (name, val) = bs.last();
        types::lemma_symbol_kept(table, name, s);
        let next = types::interned(table, name);
        lemma_bound_kept(
            bs.drop_last(),
            pexpr::node2(
                Head::App,
                pexpr::node1(Head::Abs(types::symbol_in(next, name)), body),
                val,
            ),
            next,
            s,
        );
    }
}

/// What is applied to the last `i` arguments.
pub open spec fn function(t: Tree, i: nat) -> Tree
    decreases i,
{
    if i == 0 {
        t
    } else {
        function(t, (i - 1) as nat).kids[0]
    }
}

proof fn lemma_function(t: Tree, i: nat)
    ensures
        function(t, i + 1) == function(t.kids[0], i),
    decreases i,
{
    reveal_with_fuel(function, 2);
    if i > 0 {
        lemma_function(t, (i - 1) as nat);
    }
}

/// A function is applied to its arguments one by one, to the first first.
pub proof fn lemma_arguments(f: Tree, args: Seq<Tree>, i: nat)
    requires
        i <= args.len(),
    ensures
        ({
            let t = function(grammar::applied(f, args), i);
            if i < args.len() {
                t.head is App && t.kids.len() == 2 && t.kids[1] == args[args.len() - 1 - i]
            } else {
                t == f
            }
        }),
    decreases args.len(),
{
    if args.len() > 0 && i > 0 {
        let t = grammar::applied(f, args);
        lemma_arguments(f, args.drop_last(), (i - 1) as nat);
        lemma_function(t, (i - 1) as nat);
    }
}

/// A matrix in braces: rows of one length, in order, or a single row of
/// numbers, which is a vector.
pub proof fn lemma_matrix_written(es: Seq<grammar::Entry>)
    requires
        es.len() <= usize::MAX,
    ensures
        match grammar::matrix_tree(es) {
            Ok(t) => match t.head {
                Head::FloatMatrix(shape) => {
                    ||| shape.len() == 1 && shape[0] == es.len() && t.kids.len() == 1
                        && t.kids[0].kids.len() == es.len() && forall|i: int|
                        0 <= i < es.len() ==> #[trigger] es[i] == grammar::Entry::Scalar(
                            t.kids[0].kids[i],
                        )
                    ||| shape.len() == 2 && shape[0] == es.len() && t.kids.len() == es.len()
                        && forall|i: int|
                        0 <= i < es.len() ==> #[trigger] es[i] == grammar::Entry::Row(
                            t.kids[i].kids,
                        ) && (t.kids[i].kids.len() <= usize::MAX ==> shape[1]
                            == t.kids[i].kids.len())
                },
                _ => false,
            },
            Err(_) => es.len() == 0 || exists|i: int, j: int|
                0 <= i < es.len() && 0 <= j < es.len() && match (#[trigger] es[i], #[trigger] es[j]) {
                    (grammar::Entry::Row(a), grammar::Entry::Row(b)) => a.len() != b.len(),
                    (grammar::Entry::Row(_), grammar::Entry::Scalar(_)) => true,
                    _ => false,
                },
        },
{
    if es.len() > 0 {
        if forall|i: int| 0 <= i < es.len() ==> (#[trigger] es[i]) is Row {
            assert(es[0] is Row);
        } else if !(forall|i: int| 0 <= i < es.len() ==> (#[trigger] es[i]) is Scalar) {
            let i = choose|i: int| 0 <= i < es.len() && !((#[trigger] es[i]) is Scalar);
            let j = choose|j: int| 0 <= j < es.len() && !((#[trigger] es[j]) is Row);
            assert(es[i] is Row && es[j] is Scalar);
        }
    }
}

proof fn lemma_digits(n: nat)
    ensures
        grammar::number(decimal::decimal(n)) == n,
        grammar::all_digits(decimal::decimal(n)),
        decimal::decimal(n).len() > 0,
    decreases n,
{
    let s = decimal::decimal(n);
    if n < 10 {
        assert(s.drop_last() =~= Seq::empty());
        assert(grammar::number(s.drop_last()) == 0);
        assert(s.last() as int == 0x30 + n);
    } else {
        lemma_digits(n / 10);
        let p = decimal::decimal(n / 10);
        assert(s.drop_last() =~= p);
        assert(s.last() as int == 0x30 + n % 10);
        assert forall|i: int| 0 <= i < s.len() implies grammar::digit(#[trigger] s[i]) by {
            if i < p.len() {
                assert(s[i] == p[i]);
            }
        }
    }
}

/// The digits of a number are read as its numeral, as far as it can be held,
/// and as the integer behind an at sign.
pub proof fn lemma_number_written(
    n: nat,
    t: Tok,
    table: Seq<Seq<char>>,
    k: Known,
    env: Seq<Seq<char>>,
)
    ensures
        t.text == decimal::decimal(n) ==> match grammar::atom(t, table, k, env) {
            Ok((tree, next)) => n <= u64::MAX && next.contains("O"@) && next.contains("S"@) && tree
                == grammar::nat_tree(
                n,
                types::symbol_in(next, "O"@),
                types::symbol_in(next, "S"@),
            ),
            Err(_) => n > u64::MAX,
        },
        t.text == seq!['@'] + decimal::decimal(n) ==> match grammar::atom(t, table, k, env) {
            Ok((tree, next)) => n <= i64::MAX && next == table && tree.head == Head::Const(
                Const::Int(n as i64),
            ),
            Err(_) => n > i64::MAX,
        },
{
    lemma_digits(n);
    let d = decimal::decimal(n);
    let s = t.text;
    if s == d {
        assert(grammar::digit(s[0]));
        if s.len() == 3 {
            assert(grammar::digit(s[1]));
        }
        types::lemma_interned_contains(table, "O"@);
        types::lemma_interned_contains(types::interned(table, "O"@), "S"@);
        let first = types::interned(table, "O"@);
        let next = types::interned(first, "S"@);
        let i = first.index_of("O"@);
        assert(next[i] == first[i]);
        assert(next.contains("O"@));
    }
    if s == seq!['@'] + d {
        assert(s.skip(1) =~= d);
        assert(s[0] == '@');
        assert(s.len() == d.len() + 1);
    }
}

/// A model is conditioned by the function that is named, applied to the
/// evidence and then to the model.
pub proof fn lemma_conditioned(given: Symbol, model: Symbol, evidence: Symbol)
    ensures
        ({
            let t = query::given_tree(given, model, evidence);
            &&& t.head is App
            &&& t.kids[1].head == Head::Var(model)
            &&& t.kids[0].head is App
            &&& t.kids[0].kids[1].head == Head::Var(evidence)
            &&& t.kids[0].kids[0].head == Head::Defined(given)
        }),
{
}

} // verus!
