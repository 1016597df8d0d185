//! The grammar of Pluck expressions: which tree a sequence of tokens stands
//! for, what is left of the tokens, and which names are interned on the way.

use vstd::prelude::*;
use vstd::utf8;

use super::pexpr;
use super::pexpr::{Const, Head, Tree, Weight};
use super::primitives;
use super::primitives::Primitive;
use super::types;
use super::types::{Registered, Symbol};

verus! {

/// Why tokens are not an expression.
#[derive(Debug, Clone, Copy, PartialEq, Eq, Structural)]
pub enum ParseError {
    /// The tokens run out inside an expression.
    UnexpectedEnd,
    /// A closing parenthesis is missing.
    ExpectedClose,
    /// An opening parenthesis is missing.
    ExpectedOpen,
    /// A pattern stands in parentheses.
    PatternInParens,
    /// A constructor or primitive has the wrong number of arguments.
    WrongArity,
    /// A constructor with fields stands alone.
    MissingArguments,
    /// A number is malformed or too large.
    BadNumber,
    /// A string literal is a lone quote.
    BadString,
    /// A choice between no alternatives.
    EmptyChoice,
    /// A matrix row inside a matrix row.
    RowInRow,
    /// A matrix without entries.
    EmptyMatrix,
    /// Matrix rows of different lengths.
    RaggedRows,
    /// Rows and scalars side by side in a matrix.
    MixedRows,
    /// A constructor without a name.
    MissingName,
    /// A name that nothing defines.
    UnknownToken,
}

/// A token: its text, and the bits of the double-precision number that the
/// text denotes, if it denotes one.
pub struct Tok {
    pub text: Seq<char>,
    pub real: Option<u64>,
}

/// What the parser knows of the program so far.
pub struct Known {
    pub types: Registered,
    pub defs: Set<Symbol>,
}

/// What was parsed, the tokens left over, and the symbol table.
pub struct Out<T> {
    pub val: T,
    pub rest: Seq<Tok>,
    pub table: Seq<Seq<char>>,
}

/// `r`, where it leaves fewer than `n` tokens.
pub open spec fn advance<T>(r: Result<Out<T>, ParseError>, n: nat) -> Result<Out<T>, ParseError> {
    match r {
        Ok(o) => if o.rest.len() < n {
            Ok(o)
        } else {
            Err(ParseError::UnexpectedEnd)
        },
        Err(e) => Err(e),
    }
}

/// The tokens behind the closing parenthesis that they start with.
pub open spec fn closed(toks: Seq<Tok>) -> Result<Seq<Tok>, ParseError> {
    if toks.len() == 0 {
        Err(ParseError::UnexpectedEnd)
    } else if toks[0].text == ")"@ {
        Ok(toks.skip(1))
    } else {
        Err(ParseError::ExpectedClose)
    }
}

/// The tokens start with the text `s`.
pub open spec fn at(toks: Seq<Tok>, s: Seq<char>) -> bool {
    toks.len() > 0 && toks[0].text == s
}

/// The tokens without the optional separator `s` at their start.
pub open spec fn past(toks: Seq<Tok>, s: Seq<char>) -> Seq<Tok> {
    if at(toks, s) {
        toks.skip(1)
    } else {
        toks
    }
}

/// How many tokens stand before the first with the text `s`.
pub open spec fn before(toks: Seq<Tok>, s: Seq<char>) -> nat
    decreases toks.len(),
{
    if toks.len() == 0 || toks[0].text == s {
        0
    } else {
        1 + before(toks.skip(1), s)
    }
}

/// The texts of tokens.
pub open spec fn names(toks: Seq<Tok>) -> Seq<Seq<char>> {
    toks.map_values(|t: Tok| t.text)
}

/// The scope inside a binder of `bound`: the latest name comes first.
pub open spec fn scope(bound: Seq<Seq<char>>, env: Seq<Seq<char>>) -> Seq<Seq<char>> {
    bound.reverse() + env
}

/// The symbols of `bound` in a table.
pub open spec fn symbols(table: Seq<Seq<char>>, bound: Seq<Seq<char>>) -> Seq<Symbol> {
    bound.map_values(|s: Seq<char>| types::symbol_in(table, s))
}

pub open spec fn starts(s: Seq<char>, c: char) -> bool {
    s.len() > 0 && s[0] == c
}

pub open spec fn digit(c: char) -> bool {
    '0' <= c && c <= '9'
}

pub open spec fn all_digits(s: Seq<char>) -> bool {
    forall|i: int| 0 <= i < s.len() ==> digit(#[trigger] s[i])
}

/// Digits and decimal points only.
pub open spec fn digits_and_points(s: Seq<char>) -> bool {
    forall|i: int| 0 <= i < s.len() ==> digit(#[trigger] s[i]) || s[i] == '.'
}

/// The number that decimal digits stand for.
pub open spec fn number(s: Seq<char>) -> nat
    decreases s.len(),
{
    if s.len() == 0 {
        0
    } else {
        number(s.drop_last()) * 10 + (s.last() as nat - '0' as nat) as nat
    }
}

/// `0c` and one character of a single byte.
pub open spec fn byte_literal(s: Seq<char>) -> bool {
    s.len() == 3 && s[0] == '0' && s[1] == 'c' && (s[2] as int) < 128
}

pub open spec fn string_literal(s: Seq<char>) -> bool {
    s.len() > 0 && s[0] == '"' && s.last() == '"'
}

/// An eight-bit integer.
pub open spec fn byte_tree(b: u8) -> Tree {
    pexpr::node2(
        Head::Prim(Primitive::MkInt),
        pexpr::leaf(Head::Const(Const::Int(8))),
        pexpr::leaf(Head::Const(Const::Int(b as i64))),
    )
}

/// The list of `items` with the given constructors.
pub open spec fn list_tree(items: Seq<Tree>, nil: Symbol, cons: Symbol) -> Tree
    decreases items.len(),
{
    if items.len() == 0 {
        pexpr::leaf(Head::Construct(nil))
    } else {
        pexpr::node2(Head::Construct(cons), items[0], list_tree(items.skip(1), nil, cons))
    }
}

/// The unary numeral: `n` times `s` around `o`.
pub open spec fn nat_tree(n: nat, o: Symbol, s: Symbol) -> Tree
    decreases n,
{
    if n == 0 {
        pexpr::leaf(Head::Construct(o))
    } else {
        pexpr::node1(Head::Construct(s), nat_tree((n - 1) as nat, o, s))
    }
}

/// The expression that a single token stands for, and the symbol table
/// after it.
pub open spec fn atom(
    t: Tok,
    table: Seq<Seq<char>>,
    k: Known,
    env: Seq<Seq<char>>,
) -> Result<(Tree, Seq<Seq<char>>), ParseError> {
    let s = t.text;
    if starts(s, '\'') {
        let next = types::interned(table, s.skip(1));
        Ok((pexpr::leaf(Head::Const(Const::Symbol(types::symbol_in(next, s.skip(1))))), next))
    } else if byte_literal(s) {
        Ok((byte_tree(s[2] as u8), table))
    } else if string_literal(s) {
        if s.len() == 1 {
            Err(ParseError::BadString)
        } else {
            let next = types::interned(types::interned(table, "Nil"@), "Cons"@);
            let bytes = utf8::encode_utf8(s.subrange(1, s.len() - 1));
            Ok(
                (
                    list_tree(
                        bytes.map_values(|b: u8| byte_tree(b)),
                        types::symbol_in(next, "Nil"@),
                        types::symbol_in(next, "Cons"@),
                    ),
                    next,
                ),
            )
        }
    } else if starts(s, '?') {
        let next = types::interned(table, s.skip(1));
        Ok((pexpr::leaf(Head::GSymbol(types::symbol_in(next, s.skip(1)))), next))
    } else if starts(s, '#') {
        let next = types::interned(table, s.skip(1));
        Ok((pexpr::leaf(Head::GVarSymbol(types::symbol_in(next, s.skip(1)))), next))
    } else if starts(s, '@') && s.len() > 1 && all_digits(s.skip(1)) {
        if number(s.skip(1)) <= i64::MAX {
            Ok((pexpr::leaf(Head::Const(Const::Int(number(s.skip(1)) as i64))), table))
        } else {
            Err(ParseError::BadNumber)
        }
    } else if all_digits(s) {
        if s.len() > 0 && number(s) <= u64::MAX {
            let next = types::interned(types::interned(table, "O"@), "S"@);
            Ok((nat_tree(number(s), types::symbol_in(next, "O"@), types::symbol_in(next, "S"@)), next))
        } else {
            Err(ParseError::BadNumber)
        }
    } else if digits_and_points(s) || (starts(s, '-') && s.len() > 1 && digits_and_points(
        s.skip(1),
    )) {
        match t.real {
            Some(bits) => Ok((pexpr::leaf(Head::Const(Const::Float(bits))), table)),
            None => Err(ParseError::BadNumber),
        }
    } else if s == "true"@ {
        let next = types::interned(table, "True"@);
        Ok((pexpr::leaf(Head::Construct(types::symbol_in(next, "True"@))), next))
    } else if s == "false"@ {
        let next = types::interned(table, "False"@);
        Ok((pexpr::leaf(Head::Construct(types::symbol_in(next, "False"@))), next))
    } else if s == "nothing"@ {
        let next = types::interned(table, "Unit"@);
        Ok((pexpr::leaf(Head::Construct(types::symbol_in(next, "Unit"@))), next))
    } else if starts(s, '$') {
        let next = types::interned(table, s.skip(1));
        Ok((pexpr::leaf(Head::Var(types::symbol_in(next, s.skip(1)))), next))
    } else if env.contains(s) {
        let next = types::interned(table, s);
        Ok((pexpr::leaf(Head::Var(types::symbol_in(next, s))), next))
    } else {
        let next = types::interned(table, s);
        let sym = types::symbol_in(next, s);
        if k.defs.contains(sym) {
            Ok((pexpr::leaf(Head::Defined(sym)), next))
        } else if !k.types.owner.dom().contains(sym) {
            Err(ParseError::UnknownToken)
        } else if k.types.arity(sym) > 0 {
            Err(ParseError::MissingArguments)
        } else {
            Ok((pexpr::leaf(Head::Construct(sym)), next))
        }
    }
}

/// The lists of expressions in the grammar.
#[derive(Debug, Clone, Copy, PartialEq, Eq, Structural)]
pub enum Items {
    /// Up to `)`.
    Arguments,
    /// Up to `]`, with optional commas.
    List,
    /// Up to `}`, with optional commas and without rows inside.
    Row,
}

impl Items {
    pub open spec fn close(self) -> Seq<char> {
        match self {
            Items::Arguments => ")"@,
            Items::List => "]"@,
            Items::Row => "}"@,
        }
    }
}

/// An entry of a matrix literal.
pub enum Entry {
    Row(Seq<Tree>),
    Scalar(Tree),
}

/// A branch of a case expression.
pub struct Branch {
    pub guard: (Symbol, Seq<Symbol>),
    pub body: Tree,
}

/// `first` before what follows it.
pub open spec fn front<T>(
    first: T,
    more: Result<Out<Seq<T>>, ParseError>,
) -> Result<Out<Seq<T>>, ParseError> {
    match more {
        Ok(m) => Ok(Out { val: seq![first] + m.val, rest: m.rest, table: m.table }),
        Err(e) => Err(e),
    }
}

/// One expression at the start of the tokens.
pub open spec fn expr(
    toks: Seq<Tok>,
    table: Seq<Seq<char>>,
    k: Known,
    env: Seq<Seq<char>>,
) -> Result<Out<Tree>, ParseError>
    decreases toks.len(), 0nat,
{
    if toks.len() == 0 {
        Err(ParseError::UnexpectedEnd)
    } else if toks[0].text == "("@ {
        form(toks.skip(1), table, k, env)
    } else if toks[0].text == "["@ {
        match items(toks.skip(1), Items::List, table, k, env) {
            Err(e) => Err(e),
            Ok(o) => {
                let next = types::interned(types::interned(o.table, "Nil"@), "Cons"@);
                Ok(
                    Out {
                        val: list_tree(o.val, types::symbol_in(next, "Nil"@), types::symbol_in(next, "Cons"@)),
                        rest: o.rest,
                        table: next,
                    },
                )
            },
        }
    } else if toks[0].text == "{"@ {
        match entries(toks.skip(1), table, k, env) {
            Err(e) => Err(e),
            Ok(o) => match matrix_tree(o.val) {
                Err(e) => Err(e),
                Ok(m) => Ok(Out { val: m, rest: o.rest, table: o.table }),
            },
        }
    } else {
        match atom(toks[0], table, k, env) {
            Err(e) => Err(e),
            Ok((val, next)) => Ok(Out { val, rest: toks.skip(1), table: next }),
        }
    }
}

/// The expressions up to the closing token of the list, which is consumed.
pub open spec fn items(
    toks: Seq<Tok>,
    style: Items,
    table: Seq<Seq<char>>,
    k: Known,
    env: Seq<Seq<char>>,
) -> Result<Out<Seq<Tree>>, ParseError>
    decreases toks.len(), 1nat,
{
    if toks.len() == 0 {
        Err(ParseError::UnexpectedEnd)
    } else if toks[0].text == style.close() {
        Ok(Out { val: Seq::empty(), rest: toks.skip(1), table })
    } else if style == Items::Row && toks[0].text == "{"@ {
        Err(ParseError::RowInRow)
    } else {
        match advance(expr(toks, table, k, env), toks.len()) {
            Err(e) => Err(e),
            Ok(o) => {
                let rest = if style == Items::Arguments {
                    o.rest
                } else {
                    past(o.rest, ","@)
                };
                front(o.val, items(rest, style, o.table, k, env))
            },
        }
    }
}

/// The entries of a matrix literal up to its closing brace.
pub open spec fn entries(
    toks: Seq<Tok>,
    table: Seq<Seq<char>>,
    k: Known,
    env: Seq<Seq<char>>,
) -> Result<Out<Seq<Entry>>, ParseError>
    decreases toks.len(), 1nat,
{
    if toks.len() == 0 {
        Err(ParseError::UnexpectedEnd)
    } else if toks[0].text == "}"@ {
        Ok(Out { val: Seq::empty(), rest: toks.skip(1), table })
    } else if toks[0].text == "{"@ {
        match advance(items(toks.skip(1), Items::Row, table, k, env), toks.len()) {
            Err(e) => Err(e),
            Ok(o) => front(Entry::Row(o.val), entries(past(o.rest, ","@), o.table, k, env)),
        }
    } else {
        match advance(expr(toks, table, k, env), toks.len()) {
            Err(e) => Err(e),
            Ok(o) => front(Entry::Scalar(o.val), entries(past(o.rest, ","@), o.table, k, env)),
        }
    }
}

/// The matrix with the given entries: rows of one length, or scalars, which
/// are a single row.
pub open spec fn matrix_tree(es: Seq<Entry>) -> Result<Tree, ParseError> {
    if es.len() == 0 {
        Err(ParseError::EmptyMatrix)
    } else if forall|i: int| 0 <= i < es.len() ==> (#[trigger] es[i]) is Row {
        let cols = es[0]->Row_0.len();
        if forall|i: int| 0 <= i < es.len() ==> (#[trigger] es[i])->Row_0.len() == cols {
            Ok(
                Tree {
                    head: Head::FloatMatrix(seq![es.len() as usize, cols as usize]),
                    kids: es.map_values(|e: Entry| Tree { head: Head::Row, kids: e->Row_0 }),
                },
            )
        } else {
            Err(ParseError::RaggedRows)
        }
    } else if forall|i: int| 0 <= i < es.len() ==> (#[trigger] es[i]) is Scalar {
        Ok(
            pexpr::node1(
                Head::FloatMatrix(seq![es.len() as usize]),
                Tree { head: Head::Row, kids: es.map_values(|e: Entry| e->Scalar_0) },
            ),
        )
    } else {
        Err(ParseError::MixedRows)
    }
}

/// The keyword binds variables.
pub open spec fn lambda_word(s: Seq<char>) -> bool {
    s == "lam"@ || s == "lambda"@ || s == "λ"@ || s == "fn"@
}

/// The name belongs to a constructor.
pub open spec fn names_constructor(s: Seq<char>, table: Seq<Seq<char>>, k: Known) -> bool {
    table.contains(s) && k.types.owner.dom().contains(types::symbol_in(table, s))
}

/// What stands behind an opening parenthesis.
pub open spec fn form(
    toks: Seq<Tok>,
    table: Seq<Seq<char>>,
    k: Known,
    env: Seq<Seq<char>>,
) -> Result<Out<Tree>, ParseError>
    decreases toks.len(), 2nat,
{
    if toks.len() == 0 {
        Err(ParseError::UnexpectedEnd)
    } else {
        let word = toks[0].text;
        let rest = toks.skip(1);
        if lambda_word(word) {
            lambda(rest, table, k, env)
        } else if word == "if"@ {
            conditional(rest, table, k, env)
        } else if word == "Y"@ {
            recursion(rest, table, k, env)
        } else if word == "case"@ || word == "match"@ {
            case(rest, table, k, env)
        } else if word == "let"@ {
            let_in(rest, table, k, env)
        } else if names_constructor(word, table, k) {
            construct(types::symbol_in(table, word), rest, table, k, env)
        } else {
            let next = if primitives::prim_named(word) is Some {
                types::interned(table, word)
            } else {
                table
            };
            if primitives::prim_named(word) is Some && !k.defs.contains(types::symbol_in(next, word)) {
                primitive(primitives::prim_named(word)->Some_0, rest, next, k, env)
            } else if word == "discrete"@ {
                discrete(rest, next, k, env)
            } else if word == "uniform"@ {
                uniform(rest, next, k, env)
            } else {
                application(toks, next, k, env)
            }
        }
    }
}

/// The parameters of a lambda up to its arrow, which is consumed. A comma
/// may follow each parameter.
pub open spec fn parameters(toks: Seq<Tok>) -> Result<(Seq<Seq<char>>, Seq<Tok>), ParseError>
    decreases toks.len(),
{
    if toks.len() < 2 {
        Err(ParseError::UnexpectedEnd)
    } else {
        let rest = past(toks.skip(1), ","@);
        if rest.len() == 0 {
            Err(ParseError::UnexpectedEnd)
        } else if rest[0].text == "->"@ {
            Ok((seq![toks[0].text], rest.skip(1)))
        } else {
            match parameters(rest) {
                Err(e) => Err(e),
                Ok((more, left)) => Ok((seq![toks[0].text] + more, left)),
            }
        }
    }
}

/// The body under a lambda for each name, the first outermost, and the
/// symbol table: the names are interned from the last to the first.
pub open spec fn abstracted(
    bound: Seq<Seq<char>>,
    body: Tree,
    table: Seq<Seq<char>>,
) -> (Tree, Seq<Seq<char>>)
    decreases bound.len(),
{
    if bound.len() == 0 {
        (body, table)
    } else {
        let next = types::interned(table, bound.last());
        abstracted(
            bound.drop_last(),
            pexpr::node1(Head::Abs(types::symbol_in(next, bound.last())), body),
            next,
        )
    }
}

/// `(lambda x y -> body)`; without parameters the variable is `_`.
pub open spec fn lambda(
    toks: Seq<Tok>,
    table: Seq<Seq<char>>,
    k: Known,
    env: Seq<Seq<char>>,
) -> Result<Out<Tree>, ParseError>
    decreases toks.len(), 1nat,
{
    if toks.len() == 0 {
        Err(ParseError::UnexpectedEnd)
    } else {
        let header = if toks[0].text == "->"@ {
            Ok((seq!["_"@], toks.skip(1)))
        } else {
            parameters(toks)
        };
        match header {
            Err(e) => Err(e),
            Ok((bound, body)) => if body.len() >= toks.len() {
                Err(ParseError::UnexpectedEnd)
            } else {
                match expr(body, table, k, scope(bound, env)) {
                    Err(e) => Err(e),
                    Ok(o) => match closed(o.rest) {
                        Err(e) => Err(e),
                        Ok(rest) => {
                            let (val, next) = abstracted(bound, o.val, o.table);
                            Ok(Out { val, rest, table: next })
                        },
                    },
                }
            },
        }
    }
}

/// The guards of a two-way choice.
pub open spec fn two_way(t: Symbol, f: Symbol) -> Seq<(Symbol, Seq<Symbol>)> {
    seq![(t, Seq::empty()), (f, Seq::empty())]
}

/// `(if condition yes no)`
pub open spec fn conditional(
    toks: Seq<Tok>,
    table: Seq<Seq<char>>,
    k: Known,
    env: Seq<Seq<char>>,
) -> Result<Out<Tree>, ParseError>
    decreases toks.len(), 1nat,
{
    match advance(expr(toks, table, k, env), toks.len()) {
        Err(e) => Err(e),
        Ok(cond) => match advance(expr(cond.rest, cond.table, k, env), cond.rest.len()) {
            Err(e) => Err(e),
            Ok(yes) => match expr(yes.rest, yes.table, k, env) {
                Err(e) => Err(e),
                Ok(no) => match closed(no.rest) {
                    Err(e) => Err(e),
                    Ok(rest) => {
                        let next = types::interned(types::interned(no.table, "True"@), "False"@);
                        let guards = two_way(types::symbol_in(next, "True"@), types::symbol_in(next, "False"@));
                        Ok(
                            Out {
                                val: Tree {
                                    head: Head::CaseOf(guards),
                                    kids: seq![cond.val, yes.val, no.val],
                                },
                                rest,
                                table: next,
                            },
                        )
                    },
                },
            },
        },
    }
}

/// `(Y f)` or `(Y f x)`
pub open spec fn recursion(
    toks: Seq<Tok>,
    table: Seq<Seq<char>>,
    k: Known,
    env: Seq<Seq<char>>,
) -> Result<Out<Tree>, ParseError>
    decreases toks.len(), 1nat,
{
    match advance(expr(toks, table, k, env), toks.len()) {
        Err(e) => Err(e),
        Ok(f) => if f.rest.len() == 0 {
            Err(ParseError::UnexpectedEnd)
        } else if f.rest[0].text == ")"@ {
            Ok(Out { val: pexpr::node1(Head::YComb, f.val), rest: f.rest.skip(1), table: f.table })
        } else {
            match expr(f.rest, f.table, k, env) {
                Err(e) => Err(e),
                Ok(x) => match closed(x.rest) {
                    Err(e) => Err(e),
                    Ok(rest) => Ok(
                        Out {
                            val: pexpr::node2(Head::App, pexpr::node1(Head::YComb, f.val), x.val),
                            rest,
                            table: x.table,
                        },
                    ),
                },
            }
        },
    }
}

/// The variables of the lambdas around a body, and the body.
pub open spec fn unwrapped(t: Tree) -> (Seq<Symbol>, Tree)
    decreases t,
{
    if t.head is Abs && t.kids.len() == 1 {
        let (vars, body) = unwrapped(t.kids[0]);
        (seq![t.head->Abs_0] + vars, body)
    } else {
        (Seq::empty(), t)
    }
}

/// The branches of a case expression up to its closing parenthesis. A
/// pattern is a constructor and its variables; the variables can also be
/// those of lambdas around the body. A `|` may follow each branch.
pub open spec fn alternatives(
    toks: Seq<Tok>,
    table: Seq<Seq<char>>,
    k: Known,
    env: Seq<Seq<char>>,
) -> Result<Out<Seq<Branch>>, ParseError>
    decreases toks.len(), 1nat,
{
    if toks.len() == 0 {
        Err(ParseError::UnexpectedEnd)
    } else if toks[0].text == ")"@ {
        Ok(Out { val: Seq::empty(), rest: toks.skip(1), table })
    } else if toks[0].text == "("@ {
        Err(ParseError::PatternInParens)
    } else {
        let named = types::interned(table, toks[0].text);
        let constructor = types::symbol_in(named, toks[0].text);
        let pattern = toks.skip(1);
        let n = before(pattern, "=>"@);
        if n >= pattern.len() {
            Err(ParseError::UnexpectedEnd)
        } else {
            let bound = names(pattern.take(n as int));
            let next = types::interned_all(named, bound);
            let body = pattern.skip(n as int + 1);
            match advance(expr(body, next, k, scope(bound, env)), toks.len()) {
                Err(e) => Err(e),
                Ok(o) => {
                    let branch = if n == 0 {
                        let (vars, inner) = unwrapped(o.val);
                        Branch { guard: (constructor, vars), body: inner }
                    } else {
                        Branch { guard: (constructor, symbols(next, bound)), body: o.val }
                    };
                    front(branch, alternatives(past(o.rest, "|"@), o.table, k, env))
                },
            }
        }
    }
}

/// `(case scrutinee of pattern => body | ...)`
pub open spec fn case(
    toks: Seq<Tok>,
    table: Seq<Seq<char>>,
    k: Known,
    env: Seq<Seq<char>>,
) -> Result<Out<Tree>, ParseError>
    decreases toks.len(), 1nat,
{
    match advance(expr(toks, table, k, env), toks.len()) {
        Err(e) => Err(e),
        Ok(o) => match alternatives(past(o.rest, "of"@), o.table, k, env) {
            Err(e) => Err(e),
            Ok(bs) => Ok(
                Out {
                    val: Tree {
                        head: Head::CaseOf(bs.val.map_values(|b: Branch| b.guard)),
                        kids: seq![o.val] + bs.val.map_values(|b: Branch| b.body),
                    },
                    rest: bs.rest,
                    table: bs.table,
                },
            ),
        },
    }
}

/// The bindings of a let expression up to `close`: `x value` or
/// `(x value)`. Each value sees the variables before it.
pub open spec fn bindings(
    toks: Seq<Tok>,
    close: Seq<char>,
    table: Seq<Seq<char>>,
    k: Known,
    env: Seq<Seq<char>>,
) -> Result<Out<Seq<(Seq<char>, Tree)>>, ParseError>
    decreases toks.len(), 1nat,
{
    if toks.len() == 0 {
        Err(ParseError::UnexpectedEnd)
    } else if toks[0].text == close {
        Ok(Out { val: Seq::empty(), rest: toks.skip(1), table })
    } else if toks[0].text == "("@ {
        if toks.len() < 2 {
            Err(ParseError::UnexpectedEnd)
        } else {
            let name = toks[1].text;
            match advance(expr(toks.skip(2), table, k, env), toks.len()) {
                Err(e) => Err(e),
                Ok(o) => match closed(o.rest) {
                    Err(e) => Err(e),
                    Ok(rest) => front(
                        (name, o.val),
                        bindings(rest, close, o.table, k, seq![name] + env),
                    ),
                },
            }
        }
    } else {
        let name = toks[0].text;
        match advance(expr(toks.skip(1), table, k, env), toks.len()) {
            Err(e) => Err(e),
            Ok(o) => front((name, o.val), bindings(o.rest, close, o.table, k, seq![name] + env)),
        }
    }
}

/// The body applied to the bound values, the first outermost, and the
/// symbol table: the names are interned from the last to the first.
pub open spec fn bound_in(
    bs: Seq<(Seq<char>, Tree)>,
    body: Tree,
    table: Seq<Seq<char>>,
) -> (Tree, Seq<Seq<char>>)
    decreases bs.len(),
{
    if bs.len() == 0 {
        (body, table)
    } else {
        let (name, val) = bs.last();
        let next = types::interned(table, name);
        bound_in(
            bs.drop_last(),
            pexpr::node2(Head::App, pexpr::node1(Head::Abs(types::symbol_in(next, name)), body), val),
            next,
        )
    }
}

/// `(let (x 1 y 2) body)`, also with brackets around the bindings.
pub open spec fn let_in(
    toks: Seq<Tok>,
    table: Seq<Seq<char>>,
    k: Known,
    env: Seq<Seq<char>>,
) -> Result<Out<Tree>, ParseError>
    decreases toks.len(), 2nat,
{
    if toks.len() == 0 {
        Err(ParseError::UnexpectedEnd)
    } else {
        let close = if toks[0].text == "("@ {
            ")"@
        } else {
            "]"@
        };
        match advance(bindings(toks.skip(1), close, table, k, env), toks.len()) {
            Err(e) => Err(e),
            Ok(bs) => match expr(
                bs.rest,
                bs.table,
                k,
                scope(bs.val.map_values(|b: (Seq<char>, Tree)| b.0), env),
            ) {
                Err(e) => Err(e),
                Ok(o) => match closed(o.rest) {
                    Err(e) => Err(e),
                    Ok(rest) => {
                        let (val, next) = bound_in(bs.val, o.val, o.table);
                        Ok(Out { val, rest, table: next })
                    },
                },
            },
        }
    }
}

/// `(Constructor a b)`, with as many arguments as the constructor has fields.
pub open spec fn construct(
    constructor: Symbol,
    toks: Seq<Tok>,
    table: Seq<Seq<char>>,
    k: Known,
    env: Seq<Seq<char>>,
) -> Result<Out<Tree>, ParseError>
    decreases toks.len(), 2nat,
{
    match items(toks, Items::Arguments, table, k, env) {
        Err(e) => Err(e),
        Ok(o) => if o.val.len() == k.types.arity(constructor) {
            Ok(
                Out {
                    val: Tree { head: Head::Construct(constructor), kids: o.val },
                    rest: o.rest,
                    table: o.table,
                },
            )
        } else {
            Err(ParseError::WrongArity)
        },
    }
}

/// `(primitive a b)`, with as many arguments as the primitive takes.
pub open spec fn primitive(
    prim: Primitive,
    toks: Seq<Tok>,
    table: Seq<Seq<char>>,
    k: Known,
    env: Seq<Seq<char>>,
) -> Result<Out<Tree>, ParseError>
    decreases toks.len(), 2nat,
{
    match items(toks, Items::Arguments, table, k, env) {
        Err(e) => Err(e),
        Ok(o) => if primitives::arity_of(prim).admits(o.val.len()) {
            Ok(
                Out {
                    val: Tree { head: Head::Prim(primitives::operation(prim)), kids: o.val },
                    rest: o.rest,
                    table: o.table,
                },
            )
        } else {
            Err(ParseError::WrongArity)
        },
    }
}

/// The weighted alternatives of a discrete choice, each `(value weight)`.
pub open spec fn weighted(
    toks: Seq<Tok>,
    table: Seq<Seq<char>>,
    k: Known,
    env: Seq<Seq<char>>,
) -> Result<Out<Seq<(Tree, Weight)>>, ParseError>
    decreases toks.len(), 1nat,
{
    if toks.len() == 0 {
        Err(ParseError::UnexpectedEnd)
    } else if toks[0].text == ")"@ {
        Ok(Out { val: Seq::empty(), rest: toks.skip(1), table })
    } else if toks[0].text != "("@ {
        Err(ParseError::ExpectedOpen)
    } else {
        match advance(expr(toks.skip(1), table, k, env), toks.len()) {
            Err(e) => Err(e),
            Ok(o) => if o.rest.len() == 0 {
                Err(ParseError::UnexpectedEnd)
            } else {
                match o.rest[0].real {
                    None => Err(ParseError::BadNumber),
                    Some(bits) => match closed(o.rest.skip(1)) {
                        Err(e) => Err(e),
                        Ok(rest) => front(
                            (o.val, Weight::Real(bits)),
                            weighted(rest, o.table, k, env),
                        ),
                    },
                }
            },
        }
    }
}

/// A choice by flips: each takes the first alternative with its share of the
/// weight of those that are left.
pub open spec fn choice_tree(cs: Seq<(Tree, Weight)>, t: Symbol, f: Symbol) -> Tree
    decreases cs.len(),
{
    if cs.len() <= 1 {
        cs[0].0
    } else {
        let share = Const::Share(cs.map_values(|c: (Tree, Weight)| c.1));
        Tree {
            head: Head::CaseOf(two_way(t, f)),
            kids: seq![
                pexpr::node1(Head::Prim(Primitive::Flip), pexpr::leaf(Head::Const(share))),
                cs[0].0,
                choice_tree(cs.skip(1), t, f),
            ],
        }
    }
}

/// The choice between the alternatives, and the symbol table after it.
pub open spec fn choice(
    cs: Seq<(Tree, Weight)>,
    table: Seq<Seq<char>>,
) -> Result<(Tree, Seq<Seq<char>>), ParseError> {
    if cs.len() == 0 {
        Err(ParseError::EmptyChoice)
    } else if cs.len() == 1 {
        Ok((cs[0].0, table))
    } else {
        let next = types::interned(types::interned(table, "True"@), "False"@);
        Ok((choice_tree(cs, types::symbol_in(next, "True"@), types::symbol_in(next, "False"@)), next))
    }
}

/// `(discrete (a 0.2) (b 0.8))`
pub open spec fn discrete(
    toks: Seq<Tok>,
    table: Seq<Seq<char>>,
    k: Known,
    env: Seq<Seq<char>>,
) -> Result<Out<Tree>, ParseError>
    decreases toks.len(), 2nat,
{
    match weighted(toks, table, k, env) {
        Err(e) => Err(e),
        Ok(o) => match choice(o.val, o.table) {
            Err(e) => Err(e),
            Ok((val, next)) => Ok(Out { val, rest: o.rest, table: next }),
        },
    }
}

/// Alternatives of equal weight.
pub open spec fn equally(vals: Seq<Tree>) -> Seq<(Tree, Weight)> {
    vals.map_values(|t: Tree| (t, Weight::OneIn(vals.len() as usize)))
}

/// `(uniform a b c)`
pub open spec fn uniform(
    toks: Seq<Tok>,
    table: Seq<Seq<char>>,
    k: Known,
    env: Seq<Seq<char>>,
) -> Result<Out<Tree>, ParseError>
    decreases toks.len(), 2nat,
{
    match items(toks, Items::Arguments, table, k, env) {
        Err(e) => Err(e),
        Ok(o) => match choice(equally(o.val), o.table) {
            Err(e) => Err(e),
            Ok((val, next)) => Ok(Out { val, rest: o.rest, table: next }),
        },
    }
}

/// The function applied to the arguments one by one.
pub open spec fn applied(f: Tree, args: Seq<Tree>) -> Tree
    decreases args.len(),
{
    if args.len() == 0 {
        f
    } else {
        pexpr::node2(Head::App, applied(f, args.drop_last()), args.last())
    }
}

/// `(f a b)`; without arguments the function is applied to `Unit`.
pub open spec fn application(
    toks: Seq<Tok>,
    table: Seq<Seq<char>>,
    k: Known,
    env: Seq<Seq<char>>,
) -> Result<Out<Tree>, ParseError>
    decreases toks.len(), 1nat,
{
    match advance(expr(toks, table, k, env), toks.len()) {
        Err(e) => Err(e),
        Ok(f) => match items(f.rest, Items::Arguments, f.table, k, env) {
            Err(e) => Err(e),
            Ok(o) => if o.val.len() == 0 {
                let next = types::interned(o.table, "Unit"@);
                let unit = pexpr::leaf(Head::Construct(types::symbol_in(next, "Unit"@)));
                Ok(Out { val: pexpr::node2(Head::App, f.val, unit), rest: o.rest, table: next })
            } else {
                Ok(Out { val: applied(f.val, o.val), rest: o.rest, table: o.table })
            },
        },
    }
}

} // verus!
