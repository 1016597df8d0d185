//! What the forms of the grammar are for: the parts of a form stand in the
//! tree in the order in which they are written, and a name that a form binds
//! is known in its body alone.

use vstd::prelude::*;
use vstd::string::*;

use super::grammar;
use super::grammar::{Known, Out, ParseError, Tok};
use super::pexpr::{Head, Tree};
use super::primitives;
use super::types;

verus! {

/// The tokens start with an expression, behind which `o.rest` is left.
pub open spec fn starts_with(
    toks: Seq<Tok>,
    table: Seq<Seq<char>>,
    k: Known,
    env: Seq<Seq<char>>,
    o: Out<Tree>,
) -> bool {
    grammar::expr(toks, table, k, env) == Ok::<Out<Tree>, ParseError>(o) && o.rest.len()
        < toks.len()
}

/// The next token is this one.
pub open spec fn next_is(toks: Seq<Tok>, s: Seq<char>) -> bool {
    toks.len() > 0 && toks[0].text == s
}

proof fn lemma_words()
    ensures
        "("@ == seq!['('],
        ")"@ == seq![')'],
        "->"@ == seq!['-', '>'],
        ","@ == seq![','],
        "if"@ == seq!['i', 'f'],
        "let"@ == seq!['l', 'e', 't'],
        "lam"@ == seq!['l', 'a', 'm'],
        "lambda"@ == seq!['l', 'a', 'm', 'b', 'd', 'a'],
        "λ"@ == seq!['λ'],
        "fn"@ == seq!['f', 'n'],
        "Y"@ == seq!['Y'],
        "case"@ == seq!['c', 'a', 's', 'e'],
        "match"@ == seq!['m', 'a', 't', 'c', 'h'],
{
    reveal_strlit("(");
    reveal_strlit(")");
    reveal_strlit("->");
    reveal_strlit(",");
    reveal_strlit("if");
    reveal_strlit("let");
    reveal_strlit("lam");
    reveal_strlit("lambda");
    reveal_strlit("λ");
    reveal_strlit("fn");
    reveal_strlit("Y");
    reveal_strlit("case");
    reveal_strlit("match");
    assert("("@ =~= seq!['(']);
    assert(")"@ =~= seq![')']);
    assert("->"@ =~= seq!['-', '>']);
    assert(","@ =~= seq![',']);
    assert("if"@ =~= seq!['i', 'f']);
    assert("let"@ =~= seq!['l', 'e', 't']);
    assert("lam"@ =~= seq!['l', 'a', 'm']);
    assert("lambda"@ =~= seq!['l', 'a', 'm', 'b', 'd', 'a']);
    assert("λ"@ =~= seq!['λ']);
    assert("fn"@ =~= seq!['f', 'n']);
    assert("Y"@ =~= seq!['Y']);
    assert("case"@ =~= seq!['c', 'a', 's', 'e']);
    assert("match"@ =~= seq!['m', 'a', 't', 'c', 'h']);
}

proof fn lemma_conditional(
    toks: Seq<Tok>,
    table: Seq<Seq<char>>,
    k: Known,
    env: Seq<Seq<char>>,
    a: Out<Tree>,
    b: Out<Tree>,
    c: Out<Tree>,
)
    requires
        starts_with(toks, table, k, env, a),
        starts_with(a.rest, a.table, k, env, b),
        starts_with(b.rest, b.table, k, env, c),
        next_is(c.rest, ")"@),
    ensures
        grammar::conditional(toks, table, k, env) matches Ok(o) && o.rest == c.rest.skip(1)
            && o.val.kids == seq![a.val, b.val, c.val] && o.table.contains("True"@)
            && o.table.contains("False"@) && o.val.head == Head::CaseOf(
            seq![
                (types::symbol_in(o.table, "True"@), Seq::empty()),
                (types::symbol_in(o.table, "False"@), Seq::empty()),
            ],
        ),
{
    types::lemma_interned_contains(c.table, "True"@);
    let first = types::interned(c.table, "True"@);
    types::lemma_interned_contains(first, "False"@);
    let next = types::interned(first, "False"@);
    let i = first.index_of("True"@);
    assert(next[i] == first[i]);
    assert(next.contains("True"@));
}

proof fn lemma_if_form(toks: Seq<Tok>, table: Seq<Seq<char>>, k: Known, env: Seq<Seq<char>>)
    requires
        toks.len() > 0,
        toks[0].text == "if"@,
    ensures
        grammar::form(toks, table, k, env) == grammar::conditional(toks.skip(1), table, k, env),
{
    lemma_words();
    assert("if"@ != "lam"@ && "if"@ != "lambda"@ && "if"@ != "λ"@ && "if"@ != "fn"@) by {
        assert("if"@.len() == 2 && "lam"@.len() == 3 && "lambda"@.len() == 6 && "λ"@.len() == 1);
        assert("if"@[0] != "fn"@[0]);
    }
}

/// `(if a b c)`: the condition, what is taken if it is `True`, and what is
/// taken if it is `False`, in this order.
pub proof fn lemma_if_read(
    toks: Seq<Tok>,
    table: Seq<Seq<char>>,
    k: Known,
    env: Seq<Seq<char>>,
    a: Out<Tree>,
    b: Out<Tree>,
    c: Out<Tree>,
)
    requires
        toks.len() > 2,
        toks[0].text == "("@,
        toks[1].text == "if"@,
        starts_with(toks.skip(2), table, k, env, a),
        starts_with(a.rest, a.table, k, env, b),
        starts_with(b.rest, b.table, k, env, c),
        next_is(c.rest, ")"@),
    ensures
        grammar::expr(toks, table, k, env) matches Ok(o) && o.rest == c.rest.skip(1) && o.val.kids
            == seq![a.val, b.val, c.val] && o.table.contains("True"@) && o.table.contains("False"@)
            && o.val.head == Head::CaseOf(
            seq![
                (types::symbol_in(o.table, "True"@), Seq::empty()),
                (types::symbol_in(o.table, "False"@), Seq::empty()),
            ],
        ),
{
    let inner = toks.skip(1);
    assert(inner[0] == toks[1]);
    assert(inner.skip(1) =~= toks.skip(2));
    lemma_conditional(toks.skip(2), table, k, env, a, b, c);
    lemma_if_form(inner, table, k, env);
    lemma_parenthesis(toks, table, k, env);
}

proof fn lemma_parenthesis(toks: Seq<Tok>, table: Seq<Seq<char>>, k: Known, env: Seq<Seq<char>>)
    requires
        toks.len() > 0,
        toks[0].text == "("@,
    ensures
        grammar::expr(toks, table, k, env) == grammar::form(toks.skip(1), table, k, env),
{
}

proof fn lemma_lambda_form(toks: Seq<Tok>, table: Seq<Seq<char>>, k: Known, env: Seq<Seq<char>>)
    requires
        toks.len() > 0,
        toks[0].text == "lambda"@,
    ensures
        grammar::form(toks, table, k, env) == grammar::lambda(toks.skip(1), table, k, env),
{
}

proof fn lemma_one_parameter(rest: Seq<Tok>)
    requires
        rest.len() > 2,
        rest[1].text == "->"@,
    ensures
        grammar::parameters(rest) == Ok::<(Seq<Seq<char>>, Seq<Tok>), ParseError>(
            (seq![rest[0].text], rest.skip(2)),
        ),
{
    lemma_words();
    let after = rest.skip(1);
    assert(after[0] == rest[1]);
    assert("->"@ != ","@) by {
        assert("->"@.len() == 2 && ","@.len() == 1);
    }
    assert(grammar::past(after, ","@) == after);
    assert(after.skip(1) =~= rest.skip(2));
}

proof fn lemma_one_abstracted(x: Seq<char>, body: Tree, table: Seq<Seq<char>>)
    ensures
        ({
            let (t, next) = grammar::abstracted(seq![x], body, table);
            t.head == Head::Abs(types::symbol_in(next, x)) && t.kids == seq![body]
                && next.contains(x)
        }),
{
    types::lemma_interned_contains(table, x);
    assert(seq![x].drop_last() =~= Seq::<Seq<char>>::empty());
    reveal_with_fuel(grammar::abstracted, 2);
}

proof fn lemma_lambda_body(
    toks: Seq<Tok>,
    body: Seq<Tok>,
    x: Seq<char>,
    table: Seq<Seq<char>>,
    k: Known,
    env: Seq<Seq<char>>,
    b: Out<Tree>,
)
    requires
        toks.len() > body.len(),
        toks[0].text != "->"@,
        grammar::parameters(toks) == Ok::<(Seq<Seq<char>>, Seq<Tok>), ParseError>(
            (seq![x], body),
        ),
        starts_with(body, table, k, seq![x] + env, b),
        next_is(b.rest, ")"@),
    ensures
        grammar::lambda(toks, table, k, env) == Ok::<Out<Tree>, ParseError>(
            Out {
                val: grammar::abstracted(seq![x], b.val, b.table).0,
                rest: b.rest.skip(1),
                table: grammar::abstracted(seq![x], b.val, b.table).1,
            },
        ),
{
    assert(seq![x].reverse() =~= seq![x]);
    assert(grammar::scope(seq![x], env) == seq![x] + env);
}

/// `(lambda x -> body)`: a function of `x`, which is known in the body.
pub proof fn lemma_lambda_read(
    toks: Seq<Tok>,
    table: Seq<Seq<char>>,
    k: Known,
    env: Seq<Seq<char>>,
    b: Out<Tree>,
)
    requires
        toks.len() > 4,
        toks[0].text == "("@,
        toks[1].text == "lambda"@,
        toks[2].text != "->"@,
        toks[3].text == "->"@,
        starts_with(toks.skip(4), table, k, seq![toks[2].text] + env, b),
        next_is(b.rest, ")"@),
    ensures
        grammar::expr(toks, table, k, env) matches Ok(o) && o.rest == b.rest.skip(1) && o.val.kids
            == seq![b.val] && o.table.contains(toks[2].text) && o.val.head == Head::Abs(
            types::symbol_in(o.table, toks[2].text),
        ),
{
    let inner = toks.skip(1);
    let rest = toks.skip(2);
    let x = toks[2].text;
    assert(inner[0] == toks[1]);
    assert(inner.skip(1) =~= rest);
    assert(rest[0] == toks[2] && rest[1] == toks[3]);
    assert(rest.skip(2) =~= toks.skip(4));
    lemma_one_parameter(rest);
    lemma_lambda_body(rest, toks.skip(4), x, table, k, env, b);
    lemma_one_abstracted(x, b.val, b.table);
    lemma_lambda_form(inner, table, k, env);
    lemma_parenthesis(toks, table, k, env);
}

proof fn lemma_let_form(toks: Seq<Tok>, table: Seq<Seq<char>>, k: Known, env: Seq<Seq<char>>)
    requires
        toks.len() > 0,
        toks[0].text == "let"@,
    ensures
        grammar::form(toks, table, k, env) == grammar::let_in(toks.skip(1), table, k, env),
{
    lemma_words();
    assert("let"@ != "lam"@ && "let"@ != "lambda"@ && "let"@ != "λ"@ && "let"@ != "fn"@ && "let"@
        != "if"@ && "let"@ != "Y"@ && "let"@ != "case"@ && "let"@ != "match"@) by {
        assert("let"@.len() == 3 && "lambda"@.len() == 6 && "λ"@.len() == 1 && "fn"@.len() == 2
            && "if"@.len() == 2 && "Y"@.len() == 1 && "case"@.len() == 4 && "match"@.len() == 5);
        assert("let"@[1] != "lam"@[1]);
    }
}

proof fn lemma_no_binding(toks: Seq<Tok>, table: Seq<Seq<char>>, k: Known, env: Seq<Seq<char>>)
    requires
        next_is(toks, ")"@),
    ensures
        grammar::bindings(toks, ")"@, table, k, env) == Ok::<
            Out<Seq<(Seq<char>, Tree)>>,
            ParseError,
        >(Out { val: Seq::empty(), rest: toks.skip(1), table }),
{
}

proof fn lemma_one_binding(
    toks: Seq<Tok>,
    table: Seq<Seq<char>>,
    k: Known,
    env: Seq<Seq<char>>,
    v: Out<Tree>,
)
    requires
        toks.len() > 0,
        toks[0].text != "("@,
        toks[0].text != ")"@,
        starts_with(toks.skip(1), table, k, env, v),
        next_is(v.rest, ")"@),
    ensures
        grammar::bindings(toks, ")"@, table, k, env) == Ok::<
            Out<Seq<(Seq<char>, Tree)>>,
            ParseError,
        >(Out { val: seq![(toks[0].text, v.val)], rest: v.rest.skip(1), table: v.table }),
{
    let x = toks[0].text;
    lemma_no_binding(v.rest, v.table, k, seq![x] + env);
    let one = seq![(x, v.val)];
    assert(one + Seq::<(Seq<char>, Tree)>::empty() =~= one);
}

proof fn lemma_one_bound(x: Seq<char>, v: Tree, body: Tree, table: Seq<Seq<char>>)
    ensures
        ({
            let (t, next) = grammar::bound_in(seq![(x, v)], body, table);
            t.head is App && t.kids.len() == 2 && t.kids[1] == v && t.kids[0].head == Head::Abs(
                types::symbol_in(next, x),
            ) && t.kids[0].kids == seq![body] && next.contains(x)
        }),
{
    types::lemma_interned_contains(table, x);
    assert(seq![(x, v)].drop_last() =~= Seq::<(Seq<char>, Tree)>::empty());
    reveal_with_fuel(grammar::bound_in, 2);
}

proof fn lemma_let_body(
    rest: Seq<Tok>,
    x: Seq<char>,
    table: Seq<Seq<char>>,
    k: Known,
    env: Seq<Seq<char>>,
    v: Out<Tree>,
    b: Out<Tree>,
)
    requires
        rest.len() > v.rest.len(),
        next_is(rest, "("@),
        next_is(v.rest, ")"@),
        grammar::bindings(rest.skip(1), ")"@, table, k, env) == Ok::<
            Out<Seq<(Seq<char>, Tree)>>,
            ParseError,
        >(Out { val: seq![(x, v.val)], rest: v.rest.skip(1), table: v.table }),
        starts_with(v.rest.skip(1), v.table, k, seq![x] + env, b),
        next_is(b.rest, ")"@),
    ensures
        grammar::let_in(rest, table, k, env) == Ok::<Out<Tree>, ParseError>(
            Out {
                val: grammar::bound_in(seq![(x, v.val)], b.val, b.table).0,
                rest: b.rest.skip(1),
                table: grammar::bound_in(seq![(x, v.val)], b.val, b.table).1,
            },
        ),
{
    let names = seq![(x, v.val)].map_values(|b: (Seq<char>, Tree)| b.0);
    assert(names =~= seq![x]);
    assert(names.reverse() =~= seq![x]);
    assert(grammar::scope(names, env) == seq![x] + env);
}

/// `(let (x value) body)`: the body as a function of `x`, which is known in
/// it and not in the value, applied to the value.
pub proof fn lemma_let_read(
    toks: Seq<Tok>,
    table: Seq<Seq<char>>,
    k: Known,
    env: Seq<Seq<char>>,
    v: Out<Tree>,
    b: Out<Tree>,
)
    requires
        toks.len() > 4,
        toks[0].text == "("@,
        toks[1].text == "let"@,
        toks[2].text == "("@,
        toks[3].text != "("@,
        toks[3].text != ")"@,
        starts_with(toks.skip(4), table, k, env, v),
        next_is(v.rest, ")"@),
        starts_with(v.rest.skip(1), v.table, k, seq![toks[3].text] + env, b),
        next_is(b.rest, ")"@),
    ensures
        grammar::expr(toks, table, k, env) matches Ok(o) && o.rest == b.rest.skip(1)
            && o.val.head is App && o.val.kids.len() == 2 && o.val.kids[1] == v.val
            && o.table.contains(toks[3].text) && o.val.kids[0].head == Head::Abs(
            types::symbol_in(o.table, toks[3].text),
        ) && o.val.kids[0].kids == seq![b.val],
{
    let inner = toks.skip(1);
    let rest = toks.skip(2);
    let bound = rest.skip(1);
    let x = toks[3].text;
    assert(inner[0] == toks[1]);
    assert(inner.skip(1) =~= rest);
    assert(rest[0] == toks[2]);
    assert(bound[0] == toks[3]);
    assert(bound.skip(1) =~= toks.skip(4));
    lemma_one_binding(bound, table, k, env, v);
    lemma_let_body(rest, x, table, k, env, v, b);
    lemma_one_bound(x, v.val, b.val, b.table);
    lemma_let_form(inner, table, k, env);
    lemma_parenthesis(toks, table, k, env);
}

/// The word opens no form of its own.
pub open spec fn plain_word(s: Seq<char>, table: Seq<Seq<char>>, k: Known) -> bool {
    &&& !grammar::lambda_word(s)
    &&& s != "if"@ && s != "Y"@ && s != "case"@ && s != "match"@ && s != "let"@
    &&& s != "discrete"@ && s != "uniform"@
    &&& !grammar::names_constructor(s, table, k)
    &&& primitives::prim_named(s) is None
}

proof fn lemma_one_more(
    toks: Seq<Tok>,
    table: Seq<Seq<char>>,
    k: Known,
    env: Seq<Seq<char>>,
    a: Out<Tree>,
    more: Out<Seq<Tree>>,
)
    requires
        starts_with(toks, table, k, env, a),
        !next_is(toks, ")"@),
        grammar::items(a.rest, grammar::Items::Arguments, a.table, k, env) == Ok::<
            Out<Seq<Tree>>,
            ParseError,
        >(more),
    ensures
        grammar::items(toks, grammar::Items::Arguments, table, k, env) == Ok::<
            Out<Seq<Tree>>,
            ParseError,
        >(Out { val: seq![a.val] + more.val, rest: more.rest, table: more.table }),
{
}

proof fn lemma_no_more(toks: Seq<Tok>, table: Seq<Seq<char>>, k: Known, env: Seq<Seq<char>>)
    requires
        next_is(toks, ")"@),
    ensures
        grammar::items(toks, grammar::Items::Arguments, table, k, env) == Ok::<
            Out<Seq<Tree>>,
            ParseError,
        >(Out { val: Seq::empty(), rest: toks.skip(1), table }),
{
}

proof fn lemma_application_form(
    toks: Seq<Tok>,
    table: Seq<Seq<char>>,
    k: Known,
    env: Seq<Seq<char>>,
)
    requires
        toks.len() > 0,
        plain_word(toks[0].text, table, k),
    ensures
        grammar::form(toks, table, k, env) == grammar::application(toks, table, k, env),
{
}

proof fn lemma_applied(
    toks: Seq<Tok>,
    table: Seq<Seq<char>>,
    k: Known,
    env: Seq<Seq<char>>,
    f: Out<Tree>,
    args: Out<Seq<Tree>>,
)
    requires
        starts_with(toks, table, k, env, f),
        args.val.len() > 0,
        grammar::items(f.rest, grammar::Items::Arguments, f.table, k, env) == Ok::<
            Out<Seq<Tree>>,
            ParseError,
        >(args),
    ensures
        grammar::application(toks, table, k, env) == Ok::<Out<Tree>, ParseError>(
            Out { val: grammar::applied(f.val, args.val), rest: args.rest, table: args.table },
        ),
{
}

/// `(f a b)`: the function applied to the first argument, and the result to
/// the second.
pub proof fn lemma_application_read(
    toks: Seq<Tok>,
    table: Seq<Seq<char>>,
    k: Known,
    env: Seq<Seq<char>>,
    f: Out<Tree>,
    a: Out<Tree>,
    b: Out<Tree>,
)
    requires
        toks.len() > 1,
        toks[0].text == "("@,
        plain_word(toks[1].text, table, k),
        starts_with(toks.skip(1), table, k, env, f),
        starts_with(f.rest, f.table, k, env, a),
        starts_with(a.rest, a.table, k, env, b),
        !next_is(f.rest, ")"@),
        !next_is(a.rest, ")"@),
        next_is(b.rest, ")"@),
    ensures
        grammar::expr(toks, table, k, env) matches Ok(o) && o.rest == b.rest.skip(1) && o.table
            == b.table && o.val.head is App && o.val.kids.len() == 2 && o.val.kids[1] == b.val
            && o.val.kids[0].head is App && o.val.kids[0].kids == seq![f.val, a.val],
{
    let inner = toks.skip(1);
    assert(inner[0] == toks[1]);
    lemma_no_more(b.rest, b.table, k, env);
    let end = Out::<Seq<Tree>> { val: Seq::empty(), rest: b.rest.skip(1), table: b.table };
    lemma_one_more(a.rest, a.table, k, env, b, end);
    assert(seq![b.val] + end.val =~= seq![b.val]);
    let last = Out::<Seq<Tree>> { val: seq![b.val], rest: end.rest, table: end.table };
    lemma_one_more(f.rest, f.table, k, env, a, last);
    assert(seq![a.val] + last.val =~= seq![a.val, b.val]);
    let both = Out::<Seq<Tree>> { val: seq![a.val, b.val], rest: end.rest, table: end.table };
    lemma_applied(inner, table, k, env, f, both);
    lemma_application_form(inner, table, k, env);
    lemma_parenthesis(toks, table, k, env);
    let args = both.val;
    assert(args.drop_last() =~= seq![a.val]);
    assert(args.drop_last().drop_last() =~= Seq::<Tree>::empty());
    reveal_with_fuel(grammar::applied, 3);
}

} // verus!
