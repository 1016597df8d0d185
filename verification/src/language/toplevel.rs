//! Top-level forms: definitions, type definitions, queries and references
//! to other files.

use std::rc::Rc;

use vstd::prelude::*;
use vstd::slice::slice_subrange;
use vstd::string::*;

use super::define::DefinitionRegistry;
use super::grammar;
use super::grammar::{Known, Out, ParseError, Tok};
use super::parsing;
use super::parsing::{abstract_over, parse_expr_inner, tail, starts_with, expect_close, bind_names, ParseContext, Token};
use super::pexpr;
use super::pexpr::{Head, PExpr, Tree};
use super::tokens;
use super::types;
use super::types::{Registered, StringInterner, Symbol, TypeRegistry};
use crate::utils::text::{chars_of, same_text, string_of};

verus! {

/// What a program has built up: the symbol table, the types, and the
/// definitions.
pub struct Session {
    pub table: Seq<Seq<char>>,
    pub types: Registered,
    pub defs: Map<Symbol, Tree>,
}

impl Session {
    pub open spec fn known(self) -> Known {
        Known { types: self.types, defs: self.defs.dom() }
    }
}

/// What a top-level form leaves to do.
pub enum Event {
    /// Nothing: the form was a definition or a bare expression.
    Done,
    /// An inference query, with the text it is displayed by.
    Ask(Tree, Seq<char>),
    /// The file whose forms stand in place of this one.
    File(Seq<char>),
}

/// What a form leaves to do, the tokens behind it, and the session after it.
pub struct Step {
    pub event: Event,
    pub rest: Seq<Tok>,
    pub session: Session,
}

/// The position of the parenthesis that closes `depth` open ones, or the
/// number of tokens if there is none.
pub open spec fn ending(toks: Seq<Tok>, depth: nat) -> nat
    decreases toks.len(),
{
    if toks.len() == 0 || depth == 0 {
        0
    } else if toks[0].text == "("@ {
        1 + ending(toks.skip(1), depth + 1)
    } else if toks[0].text == ")"@ {
        if depth == 1 {
            0
        } else {
            1 + ending(toks.skip(1), (depth - 1) as nat)
        }
    } else {
        1 + ending(toks.skip(1), depth)
    }
}

pub open spec fn is_paren(s: Seq<char>) -> bool {
    s == "("@ || s == ")"@
}

/// The text of token `i` with the blank that sets it off: before a name
/// that does not open a form, and between a closing and an opening
/// parenthesis.
pub open spec fn spaced(ts: Seq<Seq<char>>, i: int) -> Seq<char> {
    if is_paren(ts[i]) {
        if ts[i] == ")"@ && i + 1 < ts.len() && ts[i + 1] == "("@ {
            ts[i].push(' ')
        } else {
            ts[i]
        }
    } else if i > 0 && ts[i - 1] != "("@ {
        seq![' '] + ts[i]
    } else {
        ts[i]
    }
}

/// The text of the first `n` tokens.
pub open spec fn detokenized(ts: Seq<Seq<char>>, n: int) -> Seq<char>
    decreases n,
{
    if n <= 0 {
        Seq::empty()
    } else {
        detokenized(ts, n - 1) + spaced(ts, n - 1)
    }
}

/// The text that displays a query, and the tokens of its expression: a query
/// that does not start with a parenthesis and has more than one token starts
/// with its name.
pub open spec fn titled(q: Seq<Tok>) -> (Seq<char>, Seq<Tok>) {
    if q.len() <= 1 || q[0].text == "("@ {
        (detokenized(grammar::names(q), q.len() as int), q)
    } else {
        (q[0].text, q.skip(1))
    }
}

/// `(query expr)` or `(query name expr)` behind its keyword.
pub open spec fn query(toks: Seq<Tok>, s: Session) -> Result<Step, ParseError> {
    let end = ending(toks, 1) as int;
    let (title, body) = titled(toks.take(end));
    match grammar::expr(body, s.table, s.known(), Seq::empty()) {
        Err(e) => Err(e),
        Ok(o) => if end >= toks.len() {
            Err(ParseError::UnexpectedEnd)
        } else {
            Ok(
                Step {
                    event: Event::Ask(o.val, title),
                    rest: toks.skip(end + 1),
                    session: Session { table: o.table, ..s },
                },
            )
        },
    }
}

/// The constructors of a type up to the closing parenthesis, each
/// `(Name field ...)`.
pub open spec fn constructors(toks: Seq<Tok>, table: Seq<Seq<char>>) -> Result<
    Out<Seq<(Symbol, Seq<Symbol>)>>,
    ParseError,
>
    decreases toks.len(),
{
    if toks.len() == 0 {
        Err(ParseError::UnexpectedEnd)
    } else if toks[0].text == ")"@ {
        Ok(Out { val: Seq::empty(), rest: toks.skip(1), table })
    } else if toks[0].text != "("@ {
        Err(ParseError::ExpectedOpen)
    } else {
        let n = grammar::before(toks, ")"@) as int;
        if n >= toks.len() {
            Err(ParseError::UnexpectedEnd)
        } else if n < 2 {
            Err(ParseError::MissingName)
        } else {
            let named = grammar::names(toks.subrange(1, n));
            let next = types::interned_all(table, named);
            let syms = grammar::symbols(next, named);
            grammar::front((syms[0], syms.skip(1)), constructors(toks.skip(n + 1), next))
        }
    }
}

/// `(define-type name (Ctor field ...) ...)` behind its keyword.
pub open spec fn type_definition(toks: Seq<Tok>, s: Session) -> Result<Step, ParseError> {
    if toks.len() == 0 {
        Err(ParseError::UnexpectedEnd)
    } else {
        let next = types::interned(s.table, toks[0].text);
        match constructors(toks.skip(1), next) {
            Err(e) => Err(e),
            Ok(o) => Ok(
                Step {
                    event: Event::Done,
                    rest: o.rest,
                    session: Session {
                        table: o.table,
                        types: s.types.define(types::symbol_in(next, toks[0].text), o.val),
                        ..s
                    },
                },
            ),
        }
    }
}

/// The session in which the body of a definition of `name` is parsed: the
/// name is already defined, as `Unit`, so that the body can refer to it.
pub open spec fn announced(s: Session, name: Seq<char>) -> Session {
    let named = types::interned(s.table, name);
    let next = types::interned(named, "Unit"@);
    Session {
        table: next,
        defs: s.defs.insert(
            types::symbol_in(next, name),
            pexpr::leaf(Head::Construct(types::symbol_in(next, "Unit"@))),
        ),
        ..s
    }
}

/// The definition of `name` as a function of `bound` whose body starts the
/// tokens.
pub open spec fn definition(
    name: Seq<char>,
    bound: Seq<Seq<char>>,
    toks: Seq<Tok>,
    s: Session,
) -> Result<Step, ParseError> {
    let inner = announced(s, name);
    match grammar::expr(toks, inner.table, inner.known(), bound.reverse()) {
        Err(e) => Err(e),
        Ok(o) => match grammar::closed(o.rest) {
            Err(e) => Err(e),
            Ok(rest) => {
                let (val, table) = grammar::abstracted(bound, o.val, o.table);
                Ok(
                    Step {
                        event: Event::Done,
                        rest,
                        session: Session {
                            table,
                            defs: inner.defs.insert(types::symbol_in(inner.table, name), val),
                            ..s
                        },
                    },
                )
            },
        },
    }
}

/// `(define (f x ...) body)` behind its second parenthesis. Without
/// parameters the variable is `_`.
pub open spec fn function_definition(toks: Seq<Tok>, s: Session) -> Result<Step, ParseError> {
    if toks.len() == 0 {
        Err(ParseError::UnexpectedEnd)
    } else {
        let params = toks.skip(1);
        let n = grammar::before(params, ")"@) as int;
        if n >= params.len() {
            Err(ParseError::UnexpectedEnd)
        } else {
            let bound = if n == 0 {
                seq!["_"@]
            } else {
                grammar::names(params.take(n))
            };
            definition(toks[0].text, bound, params.skip(n + 1), s)
        }
    }
}

/// A reference to a file, `"path")`, behind its keyword.
pub open spec fn file_reference(toks: Seq<Tok>, s: Session) -> Result<Step, ParseError> {
    if toks.len() == 0 {
        Err(ParseError::UnexpectedEnd)
    } else {
        let t = toks[0].text;
        if !grammar::string_literal(t) || t.len() < 2 {
            Err(ParseError::BadString)
        } else {
            match grammar::closed(toks.skip(1)) {
                Err(e) => Err(e),
                Ok(rest) => Ok(
                    Step { event: Event::File(t.subrange(1, t.len() - 1)), rest, session: s },
                ),
            }
        }
    }
}

/// An expression that stands alone.
pub open spec fn lone_expression(toks: Seq<Tok>, s: Session) -> Result<Step, ParseError> {
    match grammar::expr(toks, s.table, s.known(), Seq::empty()) {
        Err(e) => Err(e),
        Ok(o) => Ok(
            Step { event: Event::Done, rest: o.rest, session: Session { table: o.table, ..s } },
        ),
    }
}

/// One top-level form at the start of the tokens.
#[verifier::opaque]
pub open spec fn toplevel_form(toks: Seq<Tok>, s: Session) -> Result<Step, ParseError> {
    if toks.len() == 0 {
        Err(ParseError::UnexpectedEnd)
    } else if toks[0].text != "("@ {
        lone_expression(toks, s)
    } else if toks.len() < 2 {
        Err(ParseError::UnexpectedEnd)
    } else if toks[1].text == "query"@ {
        query(toks.skip(2), s)
    } else if toks[1].text == "define-type"@ {
        type_definition(toks.skip(2), s)
    } else if toks[1].text == "define"@ {
        let inner = toks.skip(2);
        if inner.len() == 0 {
            Err(ParseError::UnexpectedEnd)
        } else if inner[0].text == "("@ {
            function_definition(inner.skip(1), s)
        } else {
            definition(inner[0].text, Seq::empty(), inner.skip(1), s)
        }
    } else if toks[1].text == "include"@ {
        file_reference(toks.skip(2), s)
    } else {
        lone_expression(toks, s)
    }
}

/// How far a run over top-level forms comes: the queries it meets, and the
/// file it has to wait for, with the tokens behind the reference to it.
pub struct Progress {
    pub queries: Seq<(Tree, Seq<char>)>,
    pub waiting: Option<(Seq<char>, Seq<Tok>)>,
    pub session: Session,
}

/// A run over the top-level forms up to the first reference to a file.
pub open spec fn run(toks: Seq<Tok>, s: Session) -> Result<Progress, ParseError>
    decreases toks.len(),
{
    if toks.len() == 0 {
        Ok(Progress { queries: Seq::empty(), waiting: None, session: s })
    } else {
        match toplevel_form(toks, s) {
            Err(e) => Err(e),
            Ok(step) => match step.event {
                Event::File(path) => Ok(
                    Progress {
                        queries: Seq::empty(),
                        waiting: Some((path, step.rest)),
                        session: step.session,
                    },
                ),
                _ => if step.rest.len() >= toks.len() {
                    Err(ParseError::UnexpectedEnd)
                } else {
                    match run(step.rest, step.session) {
                        Err(e) => Err(e),
                        Ok(p) => match step.event {
                            Event::Ask(t, title) => Ok(
                                Progress { queries: seq![(t, title)] + p.queries, ..p },
                            ),
                            _ => Ok(p),
                        },
                    }
                },
            },
        }
    }
}

/// A parsed `(query …)` form: the query expression plus its display string.
#[derive(Debug)]
pub struct Query {
    pub expr: Rc<PExpr>,
    pub display_str: String,
}

impl Query {
    pub open spec fn asked(self) -> (Tree, Seq<char>) {
        (self.expr.tree(), self.display_str@)
    }
}

/// What a top-level form leaves to do.
#[derive(Debug)]
pub enum Form {
    /// Nothing: the form was a definition or a bare expression.
    Done,
    /// An inference query.
    Ask(Query),
    /// The path of the file whose forms stand in place of this one.
    File(String),
}

impl Form {
    pub open spec fn event(self) -> Event {
        match self {
            Form::Done => Event::Done,
            Form::Ask(q) => Event::Ask(q.expr.tree(), q.display_str@),
            Form::File(path) => Event::File(path@),
        }
    }
}

/// The session that the three registries hold.
pub open spec fn session(
    interner: StringInterner,
    types: TypeRegistry,
    defs: DefinitionRegistry,
) -> Session {
    Session { table: interner@, types: types@, defs: defs@ }
}

/// The outcome of a form is the one that the grammar gives, and consumes at
/// least one of `n` tokens.
pub open spec fn agrees(
    r: Result<(Form, &[Token]), ParseError>,
    after: Session,
    want: Result<Step, ParseError>,
    n: nat,
) -> bool {
    match (r, want) {
        (Ok((form, rest)), Ok(step)) => form.event() == step.event && parsing::toks(rest@)
            == step.rest && after == step.session && rest@.len() < n,
        (Err(a), Err(b)) => a == b,
        _ => false,
    }
}

/// How many tokens stand before the first with the text `s`.
fn count_before(tokens: &[Token], s: &str) -> (n: usize)
    ensures
        n == grammar::before(parsing::toks(tokens@), s@),
        n <= tokens@.len(),
{
    let ghost all = parsing::toks(tokens@);
    let mut n: usize = 0;
    assert(all.skip(0) =~= all);
    while n < tokens.len() && !same_text(tokens[n].text.as_str(), s)
        invariant
            n <= tokens@.len(),
            all == parsing::toks(tokens@),
            grammar::before(all, s@) == n + grammar::before(all.skip(n as int), s@),
        decreases tokens@.len() - n,
    {
        assert(all.skip(n as int).skip(1) =~= all.skip(n + 1));
        n = n + 1;
    }
    n
}

/// The tokens at `from..to`.
fn between<'a>(tokens: &'a [Token], from: usize, to: usize) -> (r: &'a [Token])
    requires
        from <= to <= tokens@.len(),
    ensures
        r@.len() == to - from,
        parsing::toks(r@) == parsing::toks(tokens@).subrange(from as int, to as int),
{
    let r = slice_subrange(tokens, from, to);
    assert(parsing::toks(r@) =~= parsing::toks(tokens@).subrange(from as int, to as int));
    r
}

/// The texts of tokens.
fn names_of(tokens: &[Token]) -> (r: Vec<String>)
    ensures
        tokens::texts(r@) == grammar::names(parsing::toks(tokens@)),
{
    let ghost want = grammar::names(parsing::toks(tokens@));
    let mut out: Vec<String> = Vec::new();
    for i in 0..tokens.len()
        invariant
            want == grammar::names(parsing::toks(tokens@)),
            tokens::texts(out@) == want.take(i as int),
    {
        let name: String = tokens[i].text.clone();
        proof {
            assert(tokens::texts(out@.push(name)) =~= tokens::texts(out@).push(name@));
            assert(want.take(i as int).push(name@) =~= want.take(i + 1));
        }
        out.push(name);
    }
    assert(want.take(tokens@.len() as int) =~= want);
    out
}

/// The position of the parenthesis that closes the one the caller already
/// consumed.
pub fn find_ending_paren(tokens: &[Token]) -> (r: usize)
    ensures
        r == ending(parsing::toks(tokens@), 1),
        r <= tokens@.len(),
        r < tokens@.len() ==> parsing::toks(tokens@)[r as int].text == ")"@,
{
    let ghost all = parsing::toks(tokens@);
    // Parentheses open besides the one the caller consumed.
    let mut nested: usize = 0;
    let mut i: usize = 0;
    assert(all.skip(0) =~= all);
    while i < tokens.len()
        invariant
            i <= tokens@.len(),
            nested <= i,
            all == parsing::toks(tokens@),
            ending(all, 1) == i + ending(all.skip(i as int), nested as nat + 1),
        decreases tokens@.len() - i,
    {
        let ghost here = all.skip(i as int);
        proof {
            assert(here.skip(1) =~= all.skip(i + 1));
            assert(here[0] == all[i as int]);
        }
        if same_text(tokens[i].text.as_str(), "(") {
            nested = nested + 1;
        } else if same_text(tokens[i].text.as_str(), ")") {
            if nested == 0 {
                return i;
            }
            nested = nested - 1;
        }
        i = i + 1;
    }
    i
}

/// The source text of tokens.
pub fn detokenize(tokens: &[Token]) -> (r: String)
    ensures
        r@ == detokenized(grammar::names(parsing::toks(tokens@)), tokens@.len() as int),
{
    let ghost ts = grammar::names(parsing::toks(tokens@));
    let mut result: String = String::new();
    for i in 0..tokens.len()
        invariant
            ts == grammar::names(parsing::toks(tokens@)),
            result@ == detokenized(ts, i as int),
    {
        let token: &str = tokens[i].text.as_str();
        let ghost before = result@;
        assert(ts[i as int] == token@);
        if same_text(token, "(") || same_text(token, ")") {
            result.append(token);
            if same_text(token, ")") && i + 1 < tokens.len() && same_text(
                tokens[i + 1].text.as_str(),
                "(",
            ) {
                assert(ts[i + 1] == "("@);
                result.push(' ');
                assert((before + token@).push(' ') =~= before + token@.push(' '));
            } else {
                assert(i + 1 < ts.len() ==> ts[i + 1] == tokens@[i + 1].text@);
            }
        } else {
            if i > 0 && !same_text(tokens[i - 1].text.as_str(), "(") {
                assert(ts[i - 1] != "("@);
                result.push(' ');
                result.append(token);
                assert(before.push(' ') + token@ =~= before + (seq![' '] + token@));
            } else {
                assert(i > 0 ==> ts[i - 1] == tokens@[i - 1].text@);
                result.append(token);
            }
        }
    }
    result
}

/// `(query expr)` or `(query name expr)` behind its keyword.
fn parse_and_process_query<'a>(
    tokens: &'a [Token],
    interner: &mut StringInterner,
    types: &TypeRegistry,
    defs: &DefinitionRegistry,
) -> (r: Result<(Form, &'a [Token]), ParseError>)
    requires
        old(interner).wf(),
    ensures
        final(interner).wf(),
        agrees(
            r,
            session(*final(interner), *types, *defs),
            query(parsing::toks(tokens@), session(*old(interner), *types, *defs)),
            tokens@.len() + 1,
        ),
{
    let end: usize = find_ending_paren(tokens);
    let q: &'a [Token] = between(tokens, 0, end);
    let ghost all = parsing::toks(tokens@);
    let ghost qt = parsing::toks(q@);
    assert(all.subrange(0, end as int) =~= all.take(end as int));
    let display_str: String;
    let body: &'a [Token];
    if q.len() <= 1 || starts_with(q, "(") {
        display_str = detokenize(q);
        body = q;
    } else {
        display_str = q[0].text.clone();
        body = tail(q, 1);
    }
    let ctx = ParseContext { types, defs };
    let env: Vec<String> = Vec::new();
    assert(tokens::texts(env@) =~= Seq::<Seq<char>>::empty());
    assert(ctx.known() == session(*old(interner), *types, *defs).known());
    match parse_expr_inner(body, interner, &ctx, &env) {
        Err(e) => Err(e),
        Ok((e, _)) => {
            if end >= tokens.len() {
                return Err(ParseError::UnexpectedEnd);
            }
            Ok((Form::Ask(Query { expr: Rc::new(e), display_str }), tail(tokens, end + 1)))
        },
    }
}

/// The constructors of a type up to the closing parenthesis, which is
/// consumed.
fn parse_constructors<'a>(tokens: &'a [Token], interner: &mut StringInterner) -> (r: Result<
    (Vec<(Symbol, Vec<Symbol>)>, &'a [Token]),
    ParseError,
>)
    requires
        old(interner).wf(),
    ensures
        final(interner).wf(),
        match (r, constructors(parsing::toks(tokens@), old(interner)@)) {
            (Ok((ctors, rest)), Ok(o)) => ctors@.map_values(
                |c: (Symbol, Vec<Symbol>)| types::signature(c),
            ) == o.val && parsing::toks(rest@) == o.rest && final(interner)@ == o.table
                && rest@.len() < tokens@.len(),
            (Err(a), Err(b)) => a == b,
            _ => false,
        },
    decreases tokens@.len(),
{
    if tokens.len() == 0 {
        return Err(ParseError::UnexpectedEnd);
    }
    if starts_with(tokens, ")") {
        let none: Vec<(Symbol, Vec<Symbol>)> = Vec::new();
        assert(none@.map_values(|c: (Symbol, Vec<Symbol>)| types::signature(c)) =~= Seq::empty());
        return Ok((none, tail(tokens, 1)));
    }
    if !starts_with(tokens, "(") {
        return Err(ParseError::ExpectedOpen);
    }
    let n: usize = count_before(tokens, ")");
    if n >= tokens.len() {
        return Err(ParseError::UnexpectedEnd);
    }
    if n < 2 {
        return Err(ParseError::MissingName);
    }
    let mut args: Vec<Symbol> = intern_all(between(tokens, 1, n), interner);
    let ghost syms = args@;
    let ctor: Symbol = args.remove(0);
    assert(args@ =~= syms.skip(1));
    match parse_constructors(tail(tokens, n + 1), interner) {
        Err(e) => Err(e),
        Ok((more, rest)) => {
            let mut ctors: Vec<(Symbol, Vec<Symbol>)> = more;
            let ghost others = ctors@;
            ctors.insert(0, (ctor, args));
            proof {
                let sig = |c: (Symbol, Vec<Symbol>)| types::signature(c);
                assert(ctors@ =~= seq![(ctor, args)] + others);
                assert(ctors@.map_values(sig) =~= seq![(ctor, args@)] + others.map_values(sig));
            }
            Ok((ctors, rest))
        },
    }
}

/// Interns the texts of the tokens in turn.
fn intern_all(tokens: &[Token], interner: &mut StringInterner) -> (r: Vec<Symbol>)
    requires
        old(interner).wf(),
    ensures
        final(interner).wf(),
        ({
            let named = grammar::names(parsing::toks(tokens@));
            &&& final(interner)@ == types::interned_all(old(interner)@, named)
            &&& r@ == grammar::symbols(final(interner)@, named)
            &&& r@.len() == tokens@.len()
        }),
{
    let ghost named = grammar::names(parsing::toks(tokens@));
    let mut out: Vec<Symbol> = Vec::new();
    proof {
        assert(named.take(0) =~= Seq::<Seq<char>>::empty());
        assert(grammar::symbols(interner@, named.take(0)) =~= out@);
    }
    for i in 0..tokens.len()
        invariant
            named == grammar::names(parsing::toks(tokens@)),
            interner.wf(),
            interner@ == types::interned_all(old(interner)@, named.take(i as int)),
            out@ == grammar::symbols(interner@, named.take(i as int)),
    {
        let ghost table = interner@;
        let ghost done = named.take(i as int);
        let sym: Symbol = interner.intern(tokens[i].text.as_str());
        proof {
            let name = tokens@[i as int].text@;
            assert(named[i as int] == name);
            assert(named.take(i + 1) =~= done.push(name));
            assert(done.push(name).drop_last() =~= done);
            interner.lemma_distinct();
            parsing::lemma_symbols_kept(old(interner)@, done, name, table);
            assert(grammar::symbols(interner@, done.push(name)) =~= grammar::symbols(
                interner@,
                done,
            ).push(sym));
        }
        out.push(sym);
    }
    assert(named.take(tokens@.len() as int) =~= named);
    out
}

/// `(define-type name (Ctor field ...) ...)` behind its keyword.
fn parse_and_process_define_type<'a>(
    tokens: &'a [Token],
    interner: &mut StringInterner,
    types: &mut TypeRegistry,
    defs: &DefinitionRegistry,
) -> (r: Result<(Form, &'a [Token]), ParseError>)
    requires
        old(interner).wf(),
    ensures
        final(interner).wf(),
        agrees(
            r,
            session(*final(interner), *final(types), *defs),
            type_definition(
                parsing::toks(tokens@),
                session(*old(interner), *old(types), *defs),
            ),
            tokens@.len(),
        ),
{
    if tokens.len() == 0 {
        return Err(ParseError::UnexpectedEnd);
    }
    let ty: Symbol = interner.intern(tokens[0].text.as_str());
    match parse_constructors(tail(tokens, 1), interner) {
        Err(e) => Err(e),
        Ok((ctors, rest)) => {
            types.define_type(ty, ctors);
            Ok((Form::Done, rest))
        },
    }
}

/// The definition of `name` as a function of `bound` whose body starts the
/// tokens.
fn define_as<'a>(
    name: &str,
    bound: &Vec<String>,
    tokens: &'a [Token],
    interner: &mut StringInterner,
    types: &TypeRegistry,
    defs: &mut DefinitionRegistry,
) -> (r: Result<(Form, &'a [Token]), ParseError>)
    requires
        old(interner).wf(),
        old(defs).wf(),
    ensures
        final(interner).wf(),
        final(defs).wf(),
        agrees(
            r,
            session(*final(interner), *types, *final(defs)),
            definition(
                name@,
                tokens::texts(bound@),
                parsing::toks(tokens@),
                session(*old(interner), *types, *old(defs)),
            ),
            tokens@.len(),
        ),
{
    let ghost before = session(*interner, *types, *defs);
    let (sym, unit) = parsing::intern_two(interner, name, "Unit");
    defs.define(sym, Rc::new(parsing::bare(unit)));
    let empty: Vec<String> = Vec::new();
    let env: Vec<String> = bind_names(bound, &empty);
    proof {
        assert(tokens::texts(empty@) =~= Seq::<Seq<char>>::empty());
        assert(tokens::texts(env@) =~= tokens::texts(bound@).reverse());
        assert(session(*interner, *types, *defs) == announced(before, name@));
    }
    let parsed = {
        let ctx = ParseContext { types, defs: &*defs };
        assert(ctx.known() == announced(before, name@).known());
        parse_expr_inner(tokens, interner, &ctx, &env)
    };
    match parsed {
        Err(e) => Err(e),
        Ok((e, left)) => match expect_close(left) {
            Err(err) => Err(err),
            Ok(rest) => {
                let body: PExpr = abstract_over(bound, e, interner);
                defs.define(sym, Rc::new(body));
                Ok((Form::Done, rest))
            },
        },
    }
}

/// `(define (f x ...) body)` behind its second parenthesis.
fn parse_and_process_define_function<'a>(
    tokens: &'a [Token],
    interner: &mut StringInterner,
    types: &TypeRegistry,
    defs: &mut DefinitionRegistry,
) -> (r: Result<(Form, &'a [Token]), ParseError>)
    requires
        old(interner).wf(),
        old(defs).wf(),
    ensures
        final(interner).wf(),
        final(defs).wf(),
        agrees(
            r,
            session(*final(interner), *types, *final(defs)),
            function_definition(
                parsing::toks(tokens@),
                session(*old(interner), *types, *old(defs)),
            ),
            tokens@.len(),
        ),
{
    if tokens.len() == 0 {
        return Err(ParseError::UnexpectedEnd);
    }
    let params: &'a [Token] = tail(tokens, 1);
    let n: usize = count_before(params, ")");
    if n >= params.len() {
        return Err(ParseError::UnexpectedEnd);
    }
    let bound: Vec<String> = if n == 0 {
        let dummy: Vec<String> = vec!["_".to_owned()];
        assert(tokens::texts(dummy@) =~= seq!["_"@]);
        dummy
    } else {
        let names: Vec<String> = names_of(between(params, 0, n));
        proof {
            let ps = parsing::toks(params@);
            assert(ps.subrange(0, n as int) =~= ps.take(n as int));
        }
        names
    };
    define_as(tokens[0].text.as_str(), &bound, tail(params, n + 1), interner, types, defs)
}

/// `(define x expr)` behind its keyword.
fn parse_and_process_define_value<'a>(
    tokens: &'a [Token],
    interner: &mut StringInterner,
    types: &TypeRegistry,
    defs: &mut DefinitionRegistry,
) -> (r: Result<(Form, &'a [Token]), ParseError>)
    requires
        old(interner).wf(),
        old(defs).wf(),
        tokens@.len() > 0,
    ensures
        final(interner).wf(),
        final(defs).wf(),
        agrees(
            r,
            session(*final(interner), *types, *final(defs)),
            definition(
                tokens@[0].text@,
                Seq::empty(),
                parsing::toks(tokens@).skip(1),
                session(*old(interner), *types, *old(defs)),
            ),
            tokens@.len(),
        ),
{
    let bound: Vec<String> = Vec::new();
    assert(tokens::texts(bound@) =~= Seq::<Seq<char>>::empty());
    define_as(tokens[0].text.as_str(), &bound, tail(tokens, 1), interner, types, defs)
}

/// A reference to a file, `"path")`, behind its keyword.
fn parse_file_reference<'a>(
    tokens: &'a [Token],
    interner: &StringInterner,
    types: &TypeRegistry,
    defs: &DefinitionRegistry,
) -> (r: Result<(Form, &'a [Token]), ParseError>)
    ensures
        agrees(
            r,
            session(*interner, *types, *defs),
            file_reference(parsing::toks(tokens@), session(*interner, *types, *defs)),
            tokens@.len(),
        ),
{
    if tokens.len() == 0 {
        return Err(ParseError::UnexpectedEnd);
    }
    let chars: Vec<char> = chars_of(tokens[0].text.as_str());
    let n: usize = chars.len();
    if n < 2 || chars[0] != '"' || chars[n - 1] != '"' {
        return Err(ParseError::BadString);
    }
    let path: String = string_of(&chars, 1, n - 1);
    match expect_close(tail(tokens, 1)) {
        Err(e) => Err(e),
        Ok(rest) => Ok((Form::File(path), rest)),
    }
}

/// An expression that stands alone: parsed for its tokens, with no query.
fn parse_lone_expression<'a>(
    tokens: &'a [Token],
    interner: &mut StringInterner,
    types: &TypeRegistry,
    defs: &DefinitionRegistry,
) -> (r: Result<(Form, &'a [Token]), ParseError>)
    requires
        old(interner).wf(),
    ensures
        final(interner).wf(),
        agrees(
            r,
            session(*final(interner), *types, *defs),
            lone_expression(parsing::toks(tokens@), session(*old(interner), *types, *defs)),
            tokens@.len(),
        ),
{
    let ctx = ParseContext { types, defs };
    let env: Vec<String> = Vec::new();
    assert(tokens::texts(env@) =~= Seq::<Seq<char>>::empty());
    assert(ctx.known() == session(*old(interner), *types, *defs).known());
    match parse_expr_inner(tokens, interner, &ctx, &env) {
        Err(e) => Err(e),
        Ok((_, rest)) => Ok((Form::Done, rest)),
    }
}

/// One top-level form at the start of the tokens.
///
/// All forms except queries and references to files are applied to the
/// registries.
pub fn process_toplevel_form<'a>(
    tokens: &'a [Token],
    interner: &mut StringInterner,
    types: &mut TypeRegistry,
    defs: &mut DefinitionRegistry,
) -> (r: Result<(Form, &'a [Token]), ParseError>)
    requires
        old(interner).wf(),
        old(defs).wf(),
    ensures
        final(interner).wf(),
        final(defs).wf(),
        agrees(
            r,
            session(*final(interner), *final(types), *final(defs)),
            toplevel_form(
                parsing::toks(tokens@),
                session(*old(interner), *old(types), *old(defs)),
            ),
            tokens@.len(),
        ),
{
    proof {
        reveal(toplevel_form);
    }
    if tokens.len() == 0 {
        return Err(ParseError::UnexpectedEnd);
    }
    if !starts_with(tokens, "(") {
        return parse_lone_expression(tokens, interner, &*types, &*defs);
    }
    if tokens.len() < 2 {
        return Err(ParseError::UnexpectedEnd);
    }
    let keyword: &str = tokens[1].text.as_str();
    let inner: &'a [Token] = tail(tokens, 2);
    if same_text(keyword, "query") {
        parse_and_process_query(inner, interner, &*types, &*defs)
    } else if same_text(keyword, "define-type") {
        parse_and_process_define_type(inner, interner, types, &*defs)
    } else if same_text(keyword, "define") {
        if inner.len() == 0 {
            return Err(ParseError::UnexpectedEnd);
        }
        if starts_with(inner, "(") {
            parse_and_process_define_function(tail(inner, 1), interner, &*types, defs)
        } else {
            parse_and_process_define_value(inner, interner, &*types, defs)
        }
    } else if same_text(keyword, "include") {
        parse_file_reference(inner, &*interner, &*types, &*defs)
    } else {
        parse_lone_expression(tokens, interner, &*types, &*defs)
    }
}

/// The queries of a list.
pub open spec fn asked(qs: Seq<Query>) -> Seq<(Tree, Seq<char>)> {
    qs.map_values(|q: Query| q.asked())
}

/// The queries so far, before what a run still meets.
spec fn so_far(
    done: Seq<(Tree, Seq<char>)>,
    more: Result<Progress, ParseError>,
) -> Result<Progress, ParseError> {
    match more {
        Ok(p) => Ok(Progress { queries: done + p.queries, ..p }),
        Err(e) => Err(e),
    }
}

/// Parse a Pluck source, applying every top-level form and returning the
/// inference queries.
///
/// Top-level forms:
/// - (define (f args...) body) — function definition
/// - (define x expr) — value definition
/// - (define-type name (Ctor1 args...) (Ctor2 args...) ...) — ADT type definition
/// - (query expr) — inference query
///
/// A reference to a file ends the run: the result holds its path and the
/// tokens behind it. The caller has the files: it runs the forms of that
/// file, then those tokens.
pub fn parse_toplevel<'a>(
    tokens: &'a [Token],
    interner: &mut StringInterner,
    types: &mut TypeRegistry,
    defs: &mut DefinitionRegistry,
) -> (r: Result<(Vec<Query>, Option<(String, &'a [Token])>), ParseError>)
    requires
        old(interner).wf(),
        old(defs).wf(),
    ensures
        final(interner).wf(),
        final(defs).wf(),
        match (
            r,
            run(parsing::toks(tokens@), session(*old(interner), *old(types), *old(defs))),
        ) {
            (Ok((queries, waiting)), Ok(p)) => {
                &&& asked(queries@) == p.queries
                &&& session(*final(interner), *final(types), *final(defs)) == p.session
                &&& match (waiting, p.waiting) {
                    (None, None) => true,
                    (Some((path, rest)), Some((want, left))) => path@ == want && parsing::toks(
                        rest@,
                    ) == left && rest@.len() < tokens@.len(),
                    _ => false,
                }
            },
            (Err(a), Err(b)) => a == b,
            _ => false,
        },
{
    let ghost want = run(
        parsing::toks(tokens@),
        session(*interner, *types, *defs),
    );
    let mut queries: Vec<Query> = Vec::new();
    let mut rest: &'a [Token] = tokens;
    proof {
        assert(asked(queries@) =~= Seq::<(Tree, Seq<char>)>::empty());
        if let Ok(p) = want {
            assert(asked(queries@) + p.queries =~= p.queries);
        }
    }
    while rest.len() > 0
        invariant
            want == run(
                parsing::toks(tokens@),
                session(*old(interner), *old(types), *old(defs)),
            ),
            interner.wf(),
            defs.wf(),
            rest@.len() <= tokens@.len(),
            want == so_far(
                asked(queries@),
                run(parsing::toks(rest@), session(*interner, *types, *defs)),
            ),
        decreases rest@.len(),
    {
        match process_toplevel_form(rest, interner, types, defs) {
            Err(e) => {
                return Err(e);
            },
            Ok((form, left)) => {
                match form {
                    Form::Done => {},
                    Form::Ask(q) => {
                        proof {
                            let done = asked(queries@);
                            let more = run(
                                parsing::toks(left@),
                                session(*interner, *types, *defs),
                            );
                            assert(asked(queries@.push(q)) =~= done.push(q.asked()));
                            if let Ok(p) = more {
                                assert(done + (seq![q.asked()] + p.queries) =~= done.push(
                                    q.asked(),
                                ) + p.queries);
                            }
                        }
                        queries.push(q);
                    },
                    Form::File(path) => {
                        assert(asked(queries@) + Seq::<(Tree, Seq<char>)>::empty() =~= asked(
                            queries@,
                        ));
                        return Ok((queries, Some((path, left))));
                    },
                }
                rest = left;
            },
        }
    }
    assert(asked(queries@) + Seq::<(Tree, Seq<char>)>::empty() =~= asked(queries@));
    Ok((queries, None))
}

} // verus!
