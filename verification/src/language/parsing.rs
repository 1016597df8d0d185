//! Recursive descent parser for Pluck expressions.

use vstd::prelude::*;
use vstd::slice::slice_subrange;
use vstd::string::*;
use vstd::utf8;

pub use super::grammar::{Items, ParseError};
pub use super::primitives::{is_prim, prim_arity, Arity, Primitive};
pub use super::tokens::{tokenize, TokenError};
use super::define::DefinitionRegistry;
use super::grammar;
use super::grammar::{Branch, Entry, Known, Out, Tok};
use super::pexpr;
use super::pexpr::{CaseOfGuard, Const, Head, NativeVal, PExpr, Tree, Weight};
use super::primitives;
use super::tokens;
use super::types;
use super::types::{StringInterner, Symbol, TypeRegistry};
use crate::utils::text::{chars_of, same_text};

verus! {

/// A token: its text, and the bits of the double-precision number that the
/// text denotes, if it denotes one.
#[derive(Debug)]
pub struct Token {
    pub text: String,
    pub real: Option<u64>,
}

impl Token {
    pub open spec fn tok(self) -> Tok {
        Tok { text: self.text@, real: self.real }
    }
}

pub open spec fn toks(s: Seq<Token>) -> Seq<Tok> {
    s.map_values(|t: Token| t.tok())
}

/// What the parser may consult besides the symbol table.
pub struct ParseContext<'a> {
    pub types: &'a TypeRegistry,
    pub defs: &'a DefinitionRegistry,
}

impl<'a> ParseContext<'a> {
    pub open spec fn known(self) -> Known {
        Known { types: self.types@, defs: self.defs@.dom() }
    }
}

/// The outcome of a parse is the one that the grammar gives, and consumes
/// at least one of `n` tokens.
pub open spec fn agrees(
    r: Result<(PExpr, &[Token]), ParseError>,
    table: Seq<Seq<char>>,
    want: Result<Out<Tree>, ParseError>,
    n: nat,
) -> bool {
    match (r, want) {
        (Ok((e, rest)), Ok(o)) => e.tree() == o.val && toks(rest@) == o.rest && table == o.table
            && rest@.len() < n,
        (Err(a), Err(b)) => a == b,
        _ => false,
    }
}

pub open spec fn agrees_list(
    r: Result<(Vec<PExpr>, &[Token]), ParseError>,
    table: Seq<Seq<char>>,
    want: Result<Out<Seq<Tree>>, ParseError>,
    n: nat,
) -> bool {
    match (r, want) {
        (Ok((es, rest)), Ok(o)) => pexpr::trees(es@) == o.val && toks(rest@) == o.rest && table == o.table
            && rest@.len() < n,
        (Err(a), Err(b)) => a == b,
        _ => false,
    }
}

/// `done` before what follows it.
spec fn joined<T>(
    done: Seq<T>,
    more: Result<Out<Seq<T>>, ParseError>,
) -> Result<Out<Seq<T>>, ParseError> {
    match more {
        Ok(m) => Ok(Out { val: done + m.val, rest: m.rest, table: m.table }),
        Err(e) => Err(e),
    }
}

proof fn lemma_joined<T>(done: Seq<T>, t: T, more: Result<Out<Seq<T>>, ParseError>)
    ensures
        joined(done, grammar::front(t, more)) == joined(done.push(t), more),
{
    if let Ok(m) = more {
        assert(done + (seq![t] + m.val) =~= done.push(t) + m.val);
    }
}

proof fn lemma_joined_empty<T>(more: Result<Out<Seq<T>>, ParseError>)
    ensures
        joined(Seq::<T>::empty(), more) == more,
{
    if let Ok(m) = more {
        assert(Seq::<T>::empty() + m.val =~= m.val);
    }
}

proof fn lemma_trees_push(s: Seq<PExpr>, e: PExpr)
    ensures
        pexpr::trees(s.push(e)) == pexpr::trees(s).push(e.tree()),
{
    assert(s.push(e).drop_last() =~= s);
}

/// The tokens behind the first `k`.
pub(crate) fn tail<'a>(tokens: &'a [Token], k: usize) -> (r: &'a [Token])
    requires
        k <= tokens@.len(),
    ensures
        r@ == tokens@.skip(k as int),
        toks(r@) == toks(tokens@).skip(k as int),
        r@.len() == tokens@.len() - k,
{
    let r = slice_subrange(tokens, k, tokens.len());
    assert(r@ =~= tokens@.skip(k as int));
    assert(toks(r@) =~= toks(tokens@).skip(k as int));
    r
}

/// Do the tokens start with the text `s`?
pub(crate) fn starts_with(tokens: &[Token], s: &str) -> (r: bool)
    ensures
        r == grammar::at(toks(tokens@), s@),
{
    tokens.len() > 0 && same_text(tokens[0].text.as_str(), s)
}

/// The tokens behind the separator `s`, if they start with it.
fn skip_optional<'a>(tokens: &'a [Token], s: &str) -> (r: &'a [Token])
    ensures
        toks(r@) == grammar::past(toks(tokens@), s@),
        r@.len() <= tokens@.len(),
{
    if starts_with(tokens, s) {
        tail(tokens, 1)
    } else {
        tokens
    }
}

/// The tokens behind a closing parenthesis.
pub(crate) fn expect_close<'a>(tokens: &'a [Token]) -> (r: Result<&'a [Token], ParseError>)
    ensures
        match r {
            Ok(rest) => grammar::closed(toks(tokens@)) == Ok::<Seq<Tok>, ParseError>(toks(rest@))
                && rest@.len() < tokens@.len(),
            Err(e) => grammar::closed(toks(tokens@)) == Err::<Seq<Tok>, ParseError>(e),
        },
{
    if tokens.len() == 0 {
        Err(ParseError::UnexpectedEnd)
    } else if starts_with(tokens, ")") {
        Ok(tail(tokens, 1))
    } else {
        Err(ParseError::ExpectedClose)
    }
}

/// Is the name in scope?
fn in_scope(env: &Vec<String>, s: &str) -> (r: bool)
    ensures
        r == tokens::texts(env@).contains(s@),
{
    let mut i: usize = 0;
    while i < env.len()
        invariant
            i <= env@.len(),
            forall|j: int| 0 <= j < i ==> (#[trigger] tokens::texts(env@)[j]) != s@,
        decreases env@.len() - i,
    {
        if same_text(env[i].as_str(), s) {
            assert(tokens::texts(env@)[i as int] == s@);
            return true;
        }
        i = i + 1;
    }
    false
}

/// The scope inside a binder of `bound`.
pub(crate) fn bind_names(bound: &Vec<String>, env: &Vec<String>) -> (r: Vec<String>)
    ensures
        tokens::texts(r@) == grammar::scope(tokens::texts(bound@), tokens::texts(env@)),
{
    let mut out: Vec<String> = Vec::new();
    let mut i: usize = bound.len();
    while i > 0
        invariant
            i <= bound@.len(),
            tokens::texts(out@) == tokens::texts(bound@).reverse().take(bound@.len() - i),
        decreases i,
    {
        i = i - 1;
        let name: String = bound[i].clone();
        proof {
            let ghost want = tokens::texts(bound@).reverse();
            assert(tokens::texts(out@.push(name)) =~= tokens::texts(out@).push(name@));
            assert(want[bound@.len() - i - 1] == name@);
            assert(want.take(bound@.len() - i - 1).push(name@) =~= want.take(bound@.len() - i));
        }
        out.push(name);
    }
    assert(tokens::texts(out@) =~= tokens::texts(bound@).reverse());
    let mut j: usize = 0;
    while j < env.len()
        invariant
            j <= env@.len(),
            tokens::texts(out@) == tokens::texts(bound@).reverse() + tokens::texts(env@).take(j as int),
        decreases env@.len() - j,
    {
        let name: String = env[j].clone();
        proof {
            let inner = tokens::texts(bound@).reverse();
            let outer = tokens::texts(env@);
            assert(tokens::texts(out@.push(name)) =~= tokens::texts(out@).push(name@));
            assert((inner + outer.take(j as int)).push(name@) =~= inner + outer.take(j + 1));
        }
        out.push(name);
        j = j + 1;
    }
    assert(tokens::texts(env@).take(env@.len() as int) =~= tokens::texts(env@));
    out
}

fn is_digit(c: char) -> (r: bool)
    ensures
        r == grammar::digit(c),
{
    '0' <= c && c <= '9'
}

/// Are the characters from `from` on all digits?
pub(crate) fn only_digits(s: &Vec<char>, from: usize) -> (r: bool)
    requires
        from <= s@.len(),
    ensures
        r == grammar::all_digits(s@.skip(from as int)),
{
    let mut i: usize = from;
    while i < s.len()
        invariant
            from <= i <= s@.len(),
            forall|j: int| 0 <= j < i - from ==> grammar::digit(#[trigger] s@.skip(from as int)[j]),
        decreases s@.len() - i,
    {
        if !is_digit(s[i]) {
            assert(!grammar::digit(s@.skip(from as int)[i - from]));
            return false;
        }
        i = i + 1;
    }
    true
}

/// Are the characters from `from` on all digits or decimal points?
fn only_digits_and_points(s: &Vec<char>, from: usize) -> (r: bool)
    requires
        from <= s@.len(),
    ensures
        r == grammar::digits_and_points(s@.skip(from as int)),
{
    let mut i: usize = from;
    while i < s.len()
        invariant
            from <= i <= s@.len(),
            forall|j: int|
                0 <= j < i - from ==> grammar::digit(#[trigger] s@.skip(from as int)[j]) || s@.skip(
                    from as int,
                )[j] == '.',
        decreases s@.len() - i,
    {
        if !is_digit(s[i]) && s[i] != '.' {
            assert(!grammar::digit(s@.skip(from as int)[i - from]));
            return false;
        }
        i = i + 1;
    }
    true
}

/// The number that the digits from `from` on stand for, if it fits.
pub(crate) fn read_number(s: &Vec<char>, from: usize) -> (r: Option<u64>)
    requires
        from <= s@.len(),
        grammar::all_digits(s@.skip(from as int)),
    ensures
        match r {
            Some(n) => n == grammar::number(s@.skip(from as int)),
            None => grammar::number(s@.skip(from as int)) > u64::MAX,
        },
{
    let ghost ds = s@.skip(from as int);
    let mut n: u64 = 0;
    let mut i: usize = from;
    assert(ds.take(0) =~= Seq::<char>::empty());
    while i < s.len()
        invariant
            from <= i <= s@.len(),
            ds == s@.skip(from as int),
            grammar::all_digits(ds),
            n == grammar::number(ds.take(i - from)),
        decreases s@.len() - i,
    {
        let c: char = s[i];
        proof {
            assert(ds[i - from] == c);
            assert(grammar::digit(c));
            assert(ds.take(i - from + 1).drop_last() =~= ds.take(i - from));
        }
        let d: u64 = (c as u32 - '0' as u32) as u64;
        let tens: Option<u64> = n.checked_mul(10);
        if tens.is_none() {
            proof {
                lemma_number_grows(ds, i - from + 1);
            }
            return None;
        }
        let sum: Option<u64> = tens.unwrap().checked_add(d);
        if sum.is_none() {
            proof {
                lemma_number_grows(ds, i - from + 1);
            }
            return None;
        }
        n = sum.unwrap();
        i = i + 1;
    }
    assert(ds.take(i - from) =~= ds);
    Some(n)
}

proof fn lemma_number_grows(s: Seq<char>, k: int)
    requires
        0 <= k <= s.len(),
        grammar::all_digits(s),
    ensures
        grammar::number(s.take(k)) <= grammar::number(s),
    decreases s.len() - k,
{
    if k < s.len() {
        lemma_number_grows(s, k + 1);
        assert(s.take(k + 1).drop_last() =~= s.take(k));
        assert(grammar::digit(s[k]));
    } else {
        assert(s.take(k) =~= s);
    }
}

/// A constructor without arguments.
pub(crate) fn bare(constructor: Symbol) -> (e: PExpr)
    ensures
        e.tree() == pexpr::leaf(Head::Construct(constructor)),
{
    let args: Vec<PExpr> = Vec::new();
    assert(pexpr::trees(args@) =~= Seq::<Tree>::empty());
    PExpr::Construct { constructor, args }
}

/// A constructor with two arguments.
fn pair(constructor: Symbol, a: PExpr, b: PExpr) -> (e: PExpr)
    ensures
        e.tree() == pexpr::node2(Head::Construct(constructor), a.tree(), b.tree()),
{
    let args: Vec<PExpr> = vec![a, b];
    proof {
        pexpr::lemma_trees(args@);
        assert(pexpr::trees(args@) =~= seq![a.tree(), b.tree()]);
    }
    PExpr::Construct { constructor, args }
}

/// An eight-bit integer.
fn byte_expr(b: u8) -> (e: PExpr)
    ensures
        e.tree() == grammar::byte_tree(b),
{
    let bitwidth = PExpr::ConstNative { val: NativeVal::Int(8) };
    let value = PExpr::ConstNative { val: NativeVal::Int(b as i64) };
    assert(bitwidth.tree() == pexpr::leaf(Head::Const(Const::Int(8))));
    assert(value.tree() == pexpr::leaf(Head::Const(Const::Int(b as i64))));
    PExpr::MkInt { bitwidth: Box::new(bitwidth), value: Box::new(value) }
}

/// The list of the expressions.
fn list_expr(items: Vec<PExpr>, nil: Symbol, cons: Symbol) -> (e: PExpr)
    ensures
        e.tree() == grammar::list_tree(pexpr::trees(items@), nil, cons),
{
    let mut items = items;
    let ghost all = pexpr::trees(items@);
    let mut e: PExpr = bare(nil);
    proof {
        pexpr::lemma_trees(items@);
        assert(all.skip(all.len() as int) =~= Seq::<Tree>::empty());
    }
    while items.len() > 0
        invariant
            items@.len() <= all.len(),
            pexpr::trees(items@) == all.take(items@.len() as int),
            e.tree() == grammar::list_tree(all.skip(items@.len() as int), nil, cons),
        decreases items@.len(),
    {
        let ghost before = items@;
        let last: PExpr = items.pop().unwrap();
        proof {
            let n = before.len() as int;
            pexpr::lemma_trees(before);
            pexpr::lemma_trees(items@);
            assert(pexpr::trees(items@) =~= all.take(n - 1));
            assert(all.skip(n - 1).skip(1) =~= all.skip(n));
            assert(all.take(n)[n - 1] == last.tree());
        }
        e = pair(cons, last, e);
    }
    assert(all.skip(0) =~= all);
    e
}

/// Convert a natural number to the unary representation: 0 -> O, 3 -> S(S(S(O)))
fn nat_to_expr(n: u64, interner: &mut StringInterner) -> (e: PExpr)
    requires
        old(interner).wf(),
    ensures
        final(interner).wf(),
        ({
            let next = types::interned(types::interned(old(interner)@, "O"@), "S"@);
            &&& final(interner)@ == next
            &&& e.tree() == grammar::nat_tree(
                n as nat,
                types::symbol_in(next, "O"@),
                types::symbol_in(next, "S"@),
            )
        }),
{
    let (o_sym, s_sym) = intern_two(interner, "O", "S");
    let mut e: PExpr = bare(o_sym);
    for i in 0..n
        invariant
            e.tree() == grammar::nat_tree(i as nat, o_sym, s_sym),
    {
        let args: Vec<PExpr> = vec![e];
        proof {
            pexpr::lemma_trees(args@);
            assert(pexpr::trees(args@) =~= seq![e.tree()]);
        }
        e = PExpr::Construct { constructor: s_sym, args };
    }
    e
}

/// Interns two names in turn.
pub(crate) fn intern_two(interner: &mut StringInterner, a: &str, b: &str) -> (r: (Symbol, Symbol))
    requires
        old(interner).wf(),
    ensures
        final(interner).wf(),
        final(interner)@ == types::interned(types::interned(old(interner)@, a@), b@),
        r.0 == types::symbol_in(final(interner)@, a@),
        r.1 == types::symbol_in(final(interner)@, b@),
{
    let first: Symbol = interner.intern(a);
    proof {
        interner.lemma_distinct();
        types::lemma_interned_contains(old(interner)@, a@);
        types::lemma_symbol_kept(interner@, b@, a@);
    }
    let second: Symbol = interner.intern(b);
    (first, second)
}

/// The code of a character of a single byte.
fn single_byte(c: char) -> (r: Option<u8>)
    ensures
        r == (if (c as int) < 128 {
            Some(c as u8)
        } else {
            None
        }),
{
    let n: u32 = c as u32;
    if n < 128 {
        Some(n as u8)
    } else {
        None
    }
}

/// The expression that a single token stands for.
fn parse_atom(
    token: &Token,
    interner: &mut StringInterner,
    ctx: &ParseContext,
    env: &Vec<String>,
) -> (r: Result<PExpr, ParseError>)
    requires
        old(interner).wf(),
    ensures
        final(interner).wf(),
        match (r, grammar::atom(token.tok(), old(interner)@, ctx.known(), tokens::texts(env@))) {
            (Ok(e), Ok((t, table))) => e.tree() == t && final(interner)@ == table,
            (Err(a), Err(b)) => a == b,
            _ => false,
        },
{
    let s: &str = token.text.as_str();
    let chars: Vec<char> = chars_of(s);
    let n: usize = chars.len();
    let first: char = if n > 0 {
        chars[0]
    } else {
        ' '
    };
    let third: Option<u8> = if n == 3 {
        single_byte(chars[2])
    } else {
        None
    };
    assert(chars@.skip(0) =~= chars@);
    proof {
        let t = token.tok().text;
        assert(t == chars@);
        assert(grammar::starts(t, '\'') == (n > 0 && first == '\''));
        assert(grammar::byte_literal(t) == (n == 3 && first == '0' && chars@[1] == 'c'
            && third is Some));
        assert(grammar::string_literal(t) == (n > 0 && first == '"' && chars@[n - 1] == '"'));
        assert(grammar::starts(t, '?') == (n > 0 && first == '?'));
        assert(grammar::starts(t, '#') == (n > 0 && first == '#'));
        assert(grammar::starts(t, '@') == (n > 0 && first == '@'));
        assert(grammar::starts(t, '-') == (n > 0 && first == '-'));
        assert(grammar::starts(t, '$') == (n > 0 && first == '$'));
    }
    if n > 0 && first == '\'' {
        let name: &str = s.substring_char(1, n);
        assert(name@ =~= s@.skip(1));
        let sym: Symbol = interner.intern(name);
        return Ok(PExpr::ConstNative { val: NativeVal::Symbol(sym) });
    }
    if n == 3 && first == '0' && chars[1] == 'c' && third.is_some() {
        return Ok(byte_expr(third.unwrap()));
    }
    if n > 0 && first == '"' && chars[n - 1] == '"' {
        if n == 1 {
            return Err(ParseError::BadString);
        }
        let inner: &str = s.substring_char(1, n - 1);
        return Ok(string_expr(inner, interner));
    }
    if n > 0 && first == '?' {
        let name: &str = s.substring_char(1, n);
        assert(name@ =~= s@.skip(1));
        let sym: Symbol = interner.intern(name);
        return Ok(PExpr::GSymbol { name: sym });
    }
    if n > 0 && first == '#' {
        let name: &str = s.substring_char(1, n);
        assert(name@ =~= s@.skip(1));
        let sym: Symbol = interner.intern(name);
        return Ok(PExpr::GVarSymbol { ty: sym });
    }
    if n > 1 && first == '@' && only_digits(&chars, 1) {
        return match read_number(&chars, 1) {
            Some(v) => if v <= 0x7fff_ffff_ffff_ffff {
                Ok(PExpr::ConstNative { val: NativeVal::Int(v as i64) })
            } else {
                Err(ParseError::BadNumber)
            },
            None => Err(ParseError::BadNumber),
        };
    }
    if only_digits(&chars, 0) {
        if n == 0 {
            return Err(ParseError::BadNumber);
        }
        return match read_number(&chars, 0) {
            Some(v) => Ok(nat_to_expr(v, interner)),
            None => Err(ParseError::BadNumber),
        };
    }
    if only_digits_and_points(&chars, 0) || (n > 1 && first == '-' && only_digits_and_points(
        &chars,
        1,
    )) {
        return match token.real {
            Some(bits) => Ok(PExpr::ConstNative { val: NativeVal::Float(bits) }),
            None => Err(ParseError::BadNumber),
        };
    }
    if same_text(s, "true") {
        return Ok(bare(interner.intern("True")));
    }
    if same_text(s, "false") {
        return Ok(bare(interner.intern("False")));
    }
    if same_text(s, "nothing") {
        return Ok(bare(interner.intern("Unit")));
    }
    if n > 0 && first == '$' {
        let name: &str = s.substring_char(1, n);
        assert(name@ =~= s@.skip(1));
        let sym: Symbol = interner.intern(name);
        return Ok(PExpr::Var { name: sym });
    }
    if in_scope(env, s) {
        let sym: Symbol = interner.intern(s);
        return Ok(PExpr::Var { name: sym });
    }
    let sym: Symbol = interner.intern(s);
    if ctx.defs.is_defined(sym) {
        Ok(PExpr::Defined { name: sym })
    } else if !ctx.types.is_constructor(sym) {
        Err(ParseError::UnknownToken)
    } else if ctx.types.constructor_arity(sym) > 0 {
        Err(ParseError::MissingArguments)
    } else {
        Ok(bare(sym))
    }
}

/// The list of the bytes of a string.
fn string_expr(s: &str, interner: &mut StringInterner) -> (e: PExpr)
    requires
        old(interner).wf(),
    ensures
        final(interner).wf(),
        ({
            let next = types::interned(types::interned(old(interner)@, "Nil"@), "Cons"@);
            &&& final(interner)@ == next
            &&& e.tree() == grammar::list_tree(
                utf8::encode_utf8(s@).map_values(|b: u8| grammar::byte_tree(b)),
                types::symbol_in(next, "Nil"@),
                types::symbol_in(next, "Cons"@),
            )
        }),
{
    let bytes: &[u8] = s.as_bytes();
    let (nil, cons) = intern_two(interner, "Nil", "Cons");
    let mut items: Vec<PExpr> = Vec::new();
    let ghost want = bytes@.map_values(|b: u8| grammar::byte_tree(b));
    for i in 0..bytes.len()
        invariant
            want == bytes@.map_values(|b: u8| grammar::byte_tree(b)),
            items@.len() == i,
            pexpr::trees(items@) == want.take(i as int),
    {
        let item: PExpr = byte_expr(bytes[i]);
        proof {
            lemma_trees_push(items@, item);
            assert(want.take(i as int).push(item.tree()) =~= want.take(i + 1));
        }
        items.push(item);
    }
    assert(want.take(bytes@.len() as int) =~= want);
    list_expr(items, nil, cons)
}

/// A primitive of one argument.
fn unary(prim: Primitive, x: PExpr) -> (e: PExpr)
    requires
        primitives::arity_of(prim) == Arity::Fixed(1),
    ensures
        e.tree() == pexpr::node1(Head::Prim(primitives::operation(prim)), x.tree()),
{
    let x: Box<PExpr> = Box::new(x);
    match prim {
        Primitive::Flip => PExpr::Flip { prob: x },
        Primitive::UniformInt => PExpr::UniformInt { bitwidth: x },
        Primitive::GetArgs => PExpr::GetArgs { expr: x },
        Primitive::GetConstructor => PExpr::GetConstructor { expr: x },
        Primitive::Print => PExpr::Print { expr: x },
        Primitive::Error => PExpr::Error { msg: x },
        Primitive::Sum => PExpr::Sum { expr: x },
        Primitive::Poisson => PExpr::Poisson { rate: x },
        _ => PExpr::Exponential { rate: x },
    }
}

/// A primitive of two arguments.
fn binary(prim: Primitive, x: PExpr, y: PExpr) -> (e: PExpr)
    requires
        primitives::arity_of(prim) == Arity::Fixed(2),
    ensures
        e.tree() == pexpr::node2(Head::Prim(primitives::operation(prim)), x.tree(), y.tree()),
{
    let x: Box<PExpr> = Box::new(x);
    let y: Box<PExpr> = Box::new(y);
    match prim {
        Primitive::NativeEq | Primitive::ConstructorsEqual => PExpr::NativeEq { a: x, b: y },
        Primitive::IntEq | Primitive::IntDistEq => PExpr::IntDistEq { a: x, b: y },
        Primitive::MkInt => PExpr::MkInt { bitwidth: x, value: y },
        Primitive::IntAdd => PExpr::IntDistAdd { a: x, b: y },
        Primitive::IntSub => PExpr::IntDistSub { a: x, b: y },
        Primitive::IntLt => PExpr::IntDistLt { a: x, b: y },
        Primitive::FDiv => PExpr::FDiv { a: x, b: y },
        Primitive::FMul => PExpr::FMul { a: x, b: y },
        Primitive::FAdd => PExpr::FAdd { a: x, b: y },
        Primitive::FSub => PExpr::FSub { a: x, b: y },
        Primitive::Beta => PExpr::Beta { a: x, b: y },
        Primitive::ProbEq => PExpr::ProbEq { prob: x, val: y },
        Primitive::Gaussian => PExpr::Gaussian { mu: x, sigma: y },
        Primitive::RealEq => PExpr::RealEq { expr: x, val: y },
        Primitive::RealLt => PExpr::RealLt { expr: x, val: y },
        Primitive::RealGeq => PExpr::RealGeq { expr: x, val: y },
        Primitive::NativeLeq => PExpr::NativeLeq { a: x, b: y },
        Primitive::NativeGeq => PExpr::NativeGeq { a: x, b: y },
        Primitive::DirichletEq => PExpr::DirichletEq { expr: x, val: y },
        Primitive::MatMul => PExpr::MatMul { a: x, b: y },
        _ => PExpr::Gamma { shape: x, rate: y },
    }
}

/// The operation of a primitive on as many arguments as it takes.
fn prim_expr(prim: Primitive, args: Vec<PExpr>) -> (e: PExpr)
    requires
        primitives::arity_of(prim).admits(args@.len()),
    ensures
        e.tree() == (Tree {
            head: Head::Prim(primitives::operation(prim)),
            kids: pexpr::trees(args@),
        }),
{
    let ghost kids = pexpr::trees(args@);
    proof {
        pexpr::lemma_trees(args@);
    }
    let mut args = args;
    match prim_arity(&prim) {
        Arity::Fixed(n) => {
            if n == 1 {
                let x: PExpr = args.remove(0);
                assert(kids =~= seq![x.tree()]);
                unary(prim, x)
            } else if n == 2 {
                let x: PExpr = args.remove(0);
                let y: PExpr = args.remove(0);
                assert(kids =~= seq![x.tree(), y.tree()]);
                binary(prim, x, y)
            } else {
                let x: PExpr = args.remove(0);
                let y: PExpr = args.remove(0);
                let z: PExpr = args.remove(0);
                assert(kids =~= seq![x.tree(), y.tree(), z.tree()]);
                PExpr::UniformIntRange { bitwidth: Box::new(x), lo: Box::new(y), hi: Box::new(z) }
            }
        },
        Arity::AtLeast(_) => match prim {
            Primitive::Dirichlet => PExpr::Dirichlet { alphas: args },
            Primitive::Categorical => PExpr::Categorical { probs: args },
            _ => {
                let v: PExpr = args.remove(0);
                proof {
                    pexpr::lemma_trees(args@);
                    assert(kids =~= seq![v.tree()] + pexpr::trees(args@));
                }
                PExpr::Index { v: Box::new(v), idx: args }
            },
        },
    }
}

/// Recursive descent parser for Pluck expressions.
/// Returns the parsed expression and the remaining unconsumed tokens.
pub fn parse_expr_inner<'a>(
    tokens: &'a [Token],
    interner: &mut StringInterner,
    ctx: &ParseContext,
    env: &Vec<String>,
) -> (r: Result<(PExpr, &'a [Token]), ParseError>)
    requires
        old(interner).wf(),
    ensures
        final(interner).wf(),
        agrees(
            r,
            final(interner)@,
            grammar::expr(toks(tokens@), old(interner)@, ctx.known(), tokens::texts(env@)),
            tokens@.len(),
        ),
    decreases tokens@.len(), 0nat,
{
    if tokens.len() == 0 {
        return Err(ParseError::UnexpectedEnd);
    }
    if starts_with(tokens, "(") {
        parse_form(tail(tokens, 1), interner, ctx, env)
    } else if starts_with(tokens, "[") {
        parse_list_literal(tail(tokens, 1), interner, ctx, env)
    } else if starts_with(tokens, "{") {
        parse_matrix_literal(tail(tokens, 1), interner, ctx, env)
    } else {
        match parse_atom(&tokens[0], interner, ctx, env) {
            Err(e) => Err(e),
            Ok(e) => Ok((e, tail(tokens, 1))),
        }
    }
}

/// The expressions up to the closing token of the list, which is consumed.
fn parse_items<'a>(
    tokens: &'a [Token],
    style: Items,
    interner: &mut StringInterner,
    ctx: &ParseContext,
    env: &Vec<String>,
) -> (r: Result<(Vec<PExpr>, &'a [Token]), ParseError>)
    requires
        old(interner).wf(),
    ensures
        final(interner).wf(),
        agrees_list(
            r,
            final(interner)@,
            grammar::items(toks(tokens@), style, old(interner)@, ctx.known(), tokens::texts(env@)),
            tokens@.len(),
        ),
    decreases tokens@.len(), 1nat,
{
    let close: &str = match style {
        Items::Arguments => ")",
        Items::List => "]",
        Items::Row => "}",
    };
    let ghost want = grammar::items(
        toks(tokens@),
        style,
        old(interner)@,
        ctx.known(),
        tokens::texts(env@),
    );
    let mut es: Vec<PExpr> = Vec::new();
    let mut rest: &'a [Token] = tokens;
    proof {
        assert(pexpr::trees(es@) =~= Seq::<Tree>::empty());
        lemma_joined_empty(want);
    }
    while rest.len() > 0 && !starts_with(rest, close)
        invariant
            interner.wf(),
            want == grammar::items(
                toks(tokens@),
                style,
                old(interner)@,
                ctx.known(),
                tokens::texts(env@),
            ),
            close@ == style.close(),
            rest@.len() <= tokens@.len(),
            want == joined(
                pexpr::trees(es@),
                grammar::items(toks(rest@), style, interner@, ctx.known(), tokens::texts(env@)),
            ),
        decreases rest@.len(),
    {
        if style == Items::Row && starts_with(rest, "{") {
            return Err(ParseError::RowInRow);
        }
        let ghost here = rest@.len();
        match parse_expr_inner(rest, interner, ctx, env) {
            Err(e) => {
                return Err(e);
            },
            Ok((e, left)) => {
                let left: &'a [Token] = if style == Items::Arguments {
                    left
                } else {
                    skip_optional(left, ",")
                };
                proof {
                    lemma_joined(
                        pexpr::trees(es@),
                        e.tree(),
                        grammar::items(
                            toks(left@),
                            style,
                            interner@,
                            ctx.known(),
                            tokens::texts(env@),
                        ),
                    );
                    lemma_trees_push(es@, e);
                }
                es.push(e);
                rest = left;
            },
        }
    }
    if rest.len() == 0 {
        return Err(ParseError::UnexpectedEnd);
    }
    assert(pexpr::trees(es@) + Seq::<Tree>::empty() =~= pexpr::trees(es@));
    Ok((es, tail(rest, 1)))
}

/// `[a, b, c]`; the bracket is consumed.
fn parse_list_literal<'a>(
    tokens: &'a [Token],
    interner: &mut StringInterner,
    ctx: &ParseContext,
    env: &Vec<String>,
) -> (r: Result<(PExpr, &'a [Token]), ParseError>)
    requires
        old(interner).wf(),
    ensures
        final(interner).wf(),
        ({
            let o = grammar::items(
                toks(tokens@),
                Items::List,
                old(interner)@,
                ctx.known(),
                tokens::texts(env@),
            );
            match (r, o) {
                (Ok((e, rest)), Ok(o)) => {
                    let next = types::interned(types::interned(o.table, "Nil"@), "Cons"@);
                    &&& e.tree() == grammar::list_tree(
                        o.val,
                        types::symbol_in(next, "Nil"@),
                        types::symbol_in(next, "Cons"@),
                    )
                    &&& toks(rest@) == o.rest
                    &&& final(interner)@ == next
                    &&& rest@.len() < tokens@.len()
                },
                (Err(a), Err(b)) => a == b,
                _ => false,
            }
        }),
    decreases tokens@.len(), 2nat,
{
    match parse_items(tokens, Items::List, interner, ctx, env) {
        Err(e) => Err(e),
        Ok((vals, rest)) => {
            let (nil, cons) = intern_two(interner, "Nil", "Cons");
            Ok((list_expr(vals, nil, cons), rest))
        },
    }
}

/// The entries of a matrix literal: rows and scalars.
pub open spec fn entries_of(rows: Seq<Vec<PExpr>>, scalars: Seq<PExpr>, es: Seq<Entry>) -> bool {
    &&& scalars.len() == 0 ==> {
        &&& es.len() == rows.len()
        &&& forall|i: int|
            0 <= i < es.len() ==> #[trigger] es[i] == Entry::Row(pexpr::trees(rows[i]@))
    }
    &&& rows.len() == 0 ==> {
        &&& es.len() == scalars.len()
        &&& forall|i: int|
            0 <= i < es.len() ==> #[trigger] es[i] == Entry::Scalar(scalars[i].tree())
    }
    &&& rows.len() > 0 ==> exists|i: int| 0 <= i < es.len() && (#[trigger] es[i]) is Row
    &&& scalars.len() > 0 ==> exists|i: int| 0 <= i < es.len() && (#[trigger] es[i]) is Scalar
}

proof fn lemma_entry_added(
    rows: Seq<Vec<PExpr>>,
    scalars: Seq<PExpr>,
    es: Seq<Entry>,
    rows2: Seq<Vec<PExpr>>,
    scalars2: Seq<PExpr>,
    e: Entry,
)
    requires
        entries_of(rows, scalars, es),
        ({
            ||| (exists|row: Vec<PExpr>|
                rows2 == #[trigger] rows.push(row) && e == Entry::Row(pexpr::trees(row@)))
                && scalars2 == scalars
            ||| (exists|x: PExpr|
                scalars2 == #[trigger] scalars.push(x) && e == Entry::Scalar(x.tree())) && rows2
                == rows
        }),
    ensures
        entries_of(rows2, scalars2, es.push(e)),
{
    let next = es.push(e);
    assert(next[es.len() as int] == e);
    if rows.len() > 0 {
        let i = choose|i: int| 0 <= i < es.len() && (#[trigger] es[i]) is Row;
        assert(next[i] is Row);
    }
    if scalars.len() > 0 {
        let i = choose|i: int| 0 <= i < es.len() && (#[trigger] es[i]) is Scalar;
        assert(next[i] is Scalar);
    }
}

/// The matrix with the given entries.
fn matrix_expr(rows: Vec<Vec<PExpr>>, scalars: Vec<PExpr>, Ghost(es): Ghost<Seq<Entry>>) -> (r:
    Result<PExpr, ParseError>)
    requires
        entries_of(rows@, scalars@, es),
    ensures
        match (r, grammar::matrix_tree(es)) {
            (Ok(e), Ok(t)) => e.tree() == t,
            (Err(a), Err(b)) => a == b,
            _ => false,
        },
{
    if rows.len() == 0 && scalars.len() == 0 {
        return Err(ParseError::EmptyMatrix);
    }
    if rows.len() > 0 && scalars.len() > 0 {
        return Err(ParseError::MixedRows);
    }
    if rows.len() > 0 {
        let cols: usize = rows[0].len();
        proof {
            pexpr::lemma_trees(rows@[0]@);
            assert(es[0] == Entry::Row(pexpr::trees(rows@[0]@)));
        }
        let mut i: usize = 0;
        while i < rows.len()
            invariant
                i <= rows@.len(),
                es.len() == rows@.len(),
                forall|j: int|
                    0 <= j < es.len() ==> #[trigger] es[j] == Entry::Row(pexpr::trees(rows@[j]@)),
                es[0]->Row_0.len() == cols,
                forall|j: int| 0 <= j < i ==> (#[trigger] es[j])->Row_0.len() == cols,
                rows@.len() > 0,
            decreases rows@.len() - i,
        {
            proof {
                pexpr::lemma_trees(rows@[i as int]@);
                assert(es[i as int] is Row);
            }
            if rows[i].len() != cols {
                assert(es[i as int]->Row_0.len() != cols);
                return Err(ParseError::RaggedRows);
            }
            i = i + 1;
        }
        let shape: Vec<usize> = vec![rows.len(), cols];
        proof {
            pexpr::lemma_rows(rows@);
            assert(shape@ =~= seq![es.len() as usize, cols]);
            assert(pexpr::rows(rows@) =~= es.map_values(
                |e: Entry| Tree { head: Head::Row, kids: e->Row_0 },
            ));
        }
        Ok(PExpr::FloatMatrix { entries: rows, shape })
    } else {
        let shape: Vec<usize> = vec![scalars.len()];
        let entries: Vec<Vec<PExpr>> = vec![scalars];
        proof {
            assert(es[0] is Scalar);
            pexpr::lemma_trees(scalars@);
            pexpr::lemma_rows(entries@);
            assert(shape@ =~= seq![es.len() as usize]);
            assert(pexpr::trees(scalars@) =~= es.map_values(|e: Entry| e->Scalar_0));
            assert(pexpr::rows(entries@) =~= seq![
                Tree { head: Head::Row, kids: pexpr::trees(scalars@) },
            ]);
        }
        Ok(PExpr::FloatMatrix { entries, shape })
    }
}

/// A matrix literal behind its opening brace.
///
/// A matrix literal is either:
///   * 2D: every top-level element is a nested `{row}`; all rows must have the
/// same length; shape is `[n_rows, n_cols]`.
///   * 1D: no top-level element is a nested `{...}`; shape is `[n_cols]`.
/// Commas between entries are optional (a trailing comma is allowed).
fn parse_matrix_literal<'a>(
    tokens: &'a [Token],
    interner: &mut StringInterner,
    ctx: &ParseContext,
    env: &Vec<String>,
) -> (r: Result<(PExpr, &'a [Token]), ParseError>)
    requires
        old(interner).wf(),
    ensures
        final(interner).wf(),
        match (
            r,
            grammar::entries(toks(tokens@), old(interner)@, ctx.known(), tokens::texts(env@)),
        ) {
            (Ok((e, rest)), Ok(o)) => grammar::matrix_tree(o.val) == Ok::<Tree, ParseError>(
                e.tree(),
            ) && toks(rest@) == o.rest && final(interner)@ == o.table && rest@.len()
                < tokens@.len(),
            (Err(a), Ok(o)) => grammar::matrix_tree(o.val) == Err::<Tree, ParseError>(a),
            (Err(a), Err(b)) => a == b,
            _ => false,
        },
    decreases tokens@.len(), 1nat,
{
    let ghost want = grammar::entries(
        toks(tokens@),
        old(interner)@,
        ctx.known(),
        tokens::texts(env@),
    );
    let mut rows: Vec<Vec<PExpr>> = Vec::new();
    let mut scalars: Vec<PExpr> = Vec::new();
    let ghost mut es: Seq<Entry> = Seq::empty();
    let mut rest: &'a [Token] = tokens;
    proof {
        lemma_joined_empty(want);
    }
    while rest.len() > 0 && !starts_with(rest, "}")
        invariant
            interner.wf(),
            want == grammar::entries(
                toks(tokens@),
                old(interner)@,
                ctx.known(),
                tokens::texts(env@),
            ),
            rest@.len() <= tokens@.len(),
            entries_of(rows@, scalars@, es),
            want == joined(
                es,
                grammar::entries(toks(rest@), interner@, ctx.known(), tokens::texts(env@)),
            ),
        decreases rest@.len(),
    {
        let ghost rows0 = rows@;
        let ghost scalars0 = scalars@;
        let ghost added: Entry;
        if starts_with(rest, "{") {
            match parse_items(tail(rest, 1), Items::Row, interner, ctx, env) {
                Err(e) => {
                    return Err(e);
                },
                Ok((row, left)) => {
                    proof {
                        added = Entry::Row(pexpr::trees(row@));
                    }
                    rows.push(row);
                    rest = skip_optional(left, ",");
                },
            }
        } else {
            match parse_expr_inner(rest, interner, ctx, env) {
                Err(e) => {
                    return Err(e);
                },
                Ok((e, left)) => {
                    proof {
                        added = Entry::Scalar(e.tree());
                    }
                    scalars.push(e);
                    rest = skip_optional(left, ",");
                },
            }
        }
        proof {
            lemma_joined(
                es,
                added,
                grammar::entries(toks(rest@), interner@, ctx.known(), tokens::texts(env@)),
            );
            lemma_entry_added(rows0, scalars0, es, rows@, scalars@, added);
            es = es.push(added);
        }
    }
    if rest.len() == 0 {
        return Err(ParseError::UnexpectedEnd);
    }
    assert(es + Seq::<Entry>::empty() =~= es);
    match matrix_expr(rows, scalars, Ghost(es)) {
        Err(e) => Err(e),
        Ok(m) => Ok((m, tail(rest, 1))),
    }
}

/// What stands behind an opening parenthesis.
fn parse_form<'a>(
    tokens: &'a [Token],
    interner: &mut StringInterner,
    ctx: &ParseContext,
    env: &Vec<String>,
) -> (r: Result<(PExpr, &'a [Token]), ParseError>)
    requires
        old(interner).wf(),
    ensures
        final(interner).wf(),
        agrees(
            r,
            final(interner)@,
            grammar::form(toks(tokens@), old(interner)@, ctx.known(), tokens::texts(env@)),
            tokens@.len(),
        ),
    decreases tokens@.len(), 3nat,
{
    if tokens.len() == 0 {
        return Err(ParseError::UnexpectedEnd);
    }
    let word: &str = tokens[0].text.as_str();
    let rest: &'a [Token] = tail(tokens, 1);
    if same_text(word, "lam") || same_text(word, "lambda") || same_text(word, "λ") || same_text(
        word,
        "fn",
    ) {
        parse_lambda(rest, interner, ctx, env)
    } else if same_text(word, "if") {
        parse_if(rest, interner, ctx, env)
    } else if same_text(word, "Y") {
        parse_y(rest, interner, ctx, env)
    } else if same_text(word, "case") || same_text(word, "match") {
        parse_case(rest, interner, ctx, env)
    } else if same_text(word, "let") {
        parse_let(rest, interner, ctx, env)
    } else if is_constructor(word, interner, ctx) {
        parse_constructor_expr(word, rest, interner, ctx, env)
    } else {
        match Primitive::from_str(word) {
            Ok(prim) => {
                let sym: Symbol = interner.intern(word);
                if !ctx.defs.is_defined(sym) {
                    return parse_prim(prim, rest, interner, ctx, env);
                }
            },
            Err(_) => {},
        }
        if same_text(word, "discrete") {
            parse_discrete(rest, interner, ctx, env)
        } else if same_text(word, "uniform") {
            parse_uniform(rest, interner, ctx, env)
        } else {
            parse_application(tokens, interner, ctx, env)
        }
    }
}

/// Does the name belong to a constructor?
fn is_constructor(name: &str, interner: &StringInterner, ctx: &ParseContext) -> (r: bool)
    requires
        interner.wf(),
    ensures
        r == grammar::names_constructor(name@, interner@, ctx.known()),
{
    match interner.lookup(name) {
        Some(sym) => ctx.types.is_constructor(*sym),
        None => false,
    }
}

/// The parameters of a lambda up to its arrow, which is consumed.
fn parse_parameters<'a>(tokens: &'a [Token]) -> (r: Result<
    (Vec<String>, &'a [Token]),
    ParseError,
>)
    ensures
        match (r, grammar::parameters(toks(tokens@))) {
            (Ok((bound, rest)), Ok((want, left))) => tokens::texts(bound@) == want && toks(rest@)
                == left && rest@.len() < tokens@.len(),
            (Err(a), Err(b)) => a == b,
            _ => false,
        },
    decreases tokens@.len(),
{
    if tokens.len() < 2 {
        return Err(ParseError::UnexpectedEnd);
    }
    let name: String = tokens[0].text.clone();
    let rest: &'a [Token] = skip_optional(tail(tokens, 1), ",");
    if rest.len() == 0 {
        return Err(ParseError::UnexpectedEnd);
    }
    if starts_with(rest, "->") {
        let bound: Vec<String> = vec![name];
        assert(tokens::texts(bound@) =~= seq![name@]);
        return Ok((bound, tail(rest, 1)));
    }
    match parse_parameters(rest) {
        Err(e) => Err(e),
        Ok((more, left)) => {
            let mut bound: Vec<String> = more;
            let ghost others = bound@;
            bound.insert(0, name);
            assert(tokens::texts(bound@) =~= seq![name@] + tokens::texts(others));
            Ok((bound, left))
        },
    }
}

/// The body under a lambda for each name, the first outermost.
pub fn abstract_over(bound: &Vec<String>, body: PExpr, interner: &mut StringInterner) -> (e: PExpr)
    requires
        old(interner).wf(),
    ensures
        final(interner).wf(),
        (e.tree(), final(interner)@) == grammar::abstracted(
            tokens::texts(bound@),
            body.tree(),
            old(interner)@,
        ),
{
    let ghost names = tokens::texts(bound@);
    let mut e: PExpr = body;
    let mut i: usize = bound.len();
    assert(names.take(names.len() as int) =~= names);
    while i > 0
        invariant
            i <= bound@.len(),
            names == tokens::texts(bound@),
            interner.wf(),
            grammar::abstracted(names, body.tree(), old(interner)@) == grammar::abstracted(
                names.take(i as int),
                e.tree(),
                interner@,
            ),
        decreases i,
    {
        i = i - 1;
        assert(names.take(i + 1).drop_last() =~= names.take(i as int));
        assert(names.take(i + 1).last() == bound@[i as int]@);
        let sym: Symbol = interner.intern(bound[i].as_str());
        e = PExpr::Abs { var: sym, body: Box::new(e) };
    }
    e
}

/// `(lambda x y -> body)` behind its keyword.
fn parse_lambda<'a>(
    tokens: &'a [Token],
    interner: &mut StringInterner,
    ctx: &ParseContext,
    env: &Vec<String>,
) -> (r: Result<(PExpr, &'a [Token]), ParseError>)
    requires
        old(interner).wf(),
    ensures
        final(interner).wf(),
        agrees(
            r,
            final(interner)@,
            grammar::lambda(toks(tokens@), old(interner)@, ctx.known(), tokens::texts(env@)),
            tokens@.len(),
        ),
    decreases tokens@.len(), 1nat,
{
    if tokens.len() == 0 {
        return Err(ParseError::UnexpectedEnd);
    }
    let bound: Vec<String>;
    let body: &'a [Token];
    if starts_with(tokens, "->") {
        bound = vec!["_".to_owned()];
        body = tail(tokens, 1);
        assert(tokens::texts(bound@) =~= seq!["_"@]);
    } else {
        match parse_parameters(tokens) {
            Err(e) => {
                return Err(e);
            },
            Ok((names, left)) => {
                bound = names;
                body = left;
            },
        }
    }
    let inner: Vec<String> = bind_names(&bound, env);
    match parse_expr_inner(body, interner, ctx, &inner) {
        Err(e) => Err(e),
        Ok((e, rest)) => match expect_close(rest) {
            Err(err) => Err(err),
            Ok(left) => Ok((abstract_over(&bound, e, interner), left)),
        },
    }
}

/// A choice between two branches by a boolean.
fn two_way_expr(cond: PExpr, yes: PExpr, no: PExpr, t: Symbol, f: Symbol) -> (e: PExpr)
    ensures
        e.tree() == (Tree {
            head: Head::CaseOf(grammar::two_way(t, f)),
            kids: seq![cond.tree(), yes.tree(), no.tree()],
        }),
{
    let guards: Vec<CaseOfGuard> = vec![
        CaseOfGuard { constructor: t, args: Vec::new() },
        CaseOfGuard { constructor: f, args: Vec::new() },
    ];
    let branches: Vec<PExpr> = vec![yes, no];
    proof {
        assert(guards@[0].guard().1 =~= Seq::<Symbol>::empty());
        assert(guards@[1].guard().1 =~= Seq::<Symbol>::empty());
        assert(pexpr::guards_of(guards@) =~= grammar::two_way(t, f));
        pexpr::lemma_trees(branches@);
        assert(seq![cond.tree()] + pexpr::trees(branches@) =~= seq![
            cond.tree(),
            yes.tree(),
            no.tree(),
        ]);
    }
    PExpr::CaseOf { guards, scrutinee: Box::new(cond), branches }
}

/// `(if condition yes no)` behind its keyword.
fn parse_if<'a>(
    tokens: &'a [Token],
    interner: &mut StringInterner,
    ctx: &ParseContext,
    env: &Vec<String>,
) -> (r: Result<(PExpr, &'a [Token]), ParseError>)
    requires
        old(interner).wf(),
    ensures
        final(interner).wf(),
        agrees(
            r,
            final(interner)@,
            grammar::conditional(toks(tokens@), old(interner)@, ctx.known(), tokens::texts(env@)),
            tokens@.len(),
        ),
    decreases tokens@.len(), 1nat,
{
    match parse_expr_inner(tokens, interner, ctx, env) {
        Err(e) => Err(e),
        Ok((cond, left)) => match parse_expr_inner(left, interner, ctx, env) {
            Err(e) => Err(e),
            Ok((yes, left)) => match parse_expr_inner(left, interner, ctx, env) {
                Err(e) => Err(e),
                Ok((no, left)) => match expect_close(left) {
                    Err(e) => Err(e),
                    Ok(rest) => {
                        let (t, f) = intern_two(interner, "True", "False");
                        Ok((two_way_expr(cond, yes, no, t, f), rest))
                    },
                },
            },
        },
    }
}

/// `(Y f)` or `(Y f x)` behind its keyword.
fn parse_y<'a>(
    tokens: &'a [Token],
    interner: &mut StringInterner,
    ctx: &ParseContext,
    env: &Vec<String>,
) -> (r: Result<(PExpr, &'a [Token]), ParseError>)
    requires
        old(interner).wf(),
    ensures
        final(interner).wf(),
        agrees(
            r,
            final(interner)@,
            grammar::recursion(toks(tokens@), old(interner)@, ctx.known(), tokens::texts(env@)),
            tokens@.len(),
        ),
    decreases tokens@.len(), 1nat,
{
    match parse_expr_inner(tokens, interner, ctx, env) {
        Err(e) => Err(e),
        Ok((f, left)) => {
            if left.len() == 0 {
                return Err(ParseError::UnexpectedEnd);
            }
            let y = PExpr::YComb { func: Box::new(f) };
            if starts_with(left, ")") {
                return Ok((y, tail(left, 1)));
            }
            match parse_expr_inner(left, interner, ctx, env) {
                Err(e) => Err(e),
                Ok((x, left)) => match expect_close(left) {
                    Err(e) => Err(e),
                    Ok(rest) => {
                        assert(y.tree() == pexpr::node1(Head::YComb, f.tree()));
                        Ok((PExpr::App { func: Box::new(y), arg: Box::new(x) }, rest))
                    },
                },
            }
        },
    }
}

/// The variables of the lambdas around a body, and the body.
fn unwrap_lambdas(e: PExpr) -> (r: (Vec<Symbol>, PExpr))
    ensures
        (r.0@, r.1.tree()) == grammar::unwrapped(e.tree()),
    decreases e,
{
    match e {
        PExpr::Abs { var, body } => {
            assert(e.tree().kids[0] == body.tree());
            let (mut vars, inner) = unwrap_lambdas(*body);
            let ghost more = vars@;
            vars.insert(0, var);
            assert(vars@ =~= seq![var] + more);
            (vars, inner)
        },
        other => {
            let vars: Vec<Symbol> = Vec::new();
            assert(vars@ =~= Seq::<Symbol>::empty());
            (vars, other)
        },
    }
}

/// The variables of a pattern up to `=>`, which is consumed, with their
/// symbols.
fn parse_pattern<'a>(tokens: &'a [Token], interner: &mut StringInterner) -> (r: Result<
    (Vec<String>, Vec<Symbol>, &'a [Token]),
    ParseError,
>)
    requires
        old(interner).wf(),
    ensures
        final(interner).wf(),
        ({
            let n = grammar::before(toks(tokens@), "=>"@);
            match r {
                Ok((bound, syms, rest)) => {
                    let names = grammar::names(toks(tokens@).take(n as int));
                    &&& n < tokens@.len()
                    &&& tokens::texts(bound@) == names
                    &&& final(interner)@ == types::interned_all(old(interner)@, names)
                    &&& syms@ == grammar::symbols(final(interner)@, names)
                    &&& toks(rest@) == toks(tokens@).skip(n as int + 1)
                    &&& rest@.len() < tokens@.len()
                },
                Err(e) => n >= tokens@.len() && e == ParseError::UnexpectedEnd,
            }
        }),
{
    let ghost all = toks(tokens@);
    let ghost n = grammar::before(all, "=>"@);
    let mut bound: Vec<String> = Vec::new();
    let mut rest: &'a [Token] = tokens;
    let mut syms: Vec<Symbol> = Vec::new();
    proof {
        assert(all.skip(0) =~= all);
        assert(grammar::names(all.take(0)) =~= Seq::<Seq<char>>::empty());
        assert(grammar::symbols(interner@, Seq::empty()) =~= Seq::<Symbol>::empty());
        assert(tokens::texts(bound@) =~= Seq::<Seq<char>>::empty());
        assert(syms@ =~= Seq::<Symbol>::empty());
    }
    while rest.len() > 0 && !starts_with(rest, "=>")
        invariant
            interner.wf(),
            all == toks(tokens@),
            n == grammar::before(all, "=>"@),
            rest@.len() + bound@.len() == tokens@.len(),
            toks(rest@) == all.skip(bound@.len() as int),
            n == bound@.len() + grammar::before(toks(rest@), "=>"@),
            tokens::texts(bound@) == grammar::names(all.take(bound@.len() as int)),
            interner@ == types::interned_all(old(interner)@, tokens::texts(bound@)),
            syms@ == grammar::symbols(interner@, tokens::texts(bound@)),
        decreases rest@.len(),
    {
        let name: String = rest[0].text.clone();
        let ghost k = bound@.len() as int;
        let ghost table = interner@;
        let ghost done = tokens::texts(bound@);
        let sym: Symbol = interner.intern(name.as_str());
        proof {
            assert(toks(rest@)[0] == all[k]);
            assert(name@ == all[k].text);
            assert(all.skip(k).skip(1) =~= all.skip(k + 1));
            assert(tokens::texts(bound@.push(name)) =~= done.push(name@));
            assert(grammar::names(all.take(k + 1)) =~= grammar::names(all.take(k)).push(name@));
            assert(done.push(name@).drop_last() =~= done);
            interner.lemma_distinct();
            types::lemma_interned_contains(table, name@);
            lemma_symbols_kept(old(interner)@, done, name@, table);
            assert(grammar::symbols(interner@, done.push(name@)) =~= grammar::symbols(
                interner@,
                done,
            ).push(sym));
        }
        bound.push(name);
        syms.push(sym);
        rest = tail(rest, 1);
    }
    if rest.len() == 0 {
        proof {
            assert(n == tokens@.len());
        }
        return Err(ParseError::UnexpectedEnd);
    }
    proof {
        assert(all.skip(n as int).skip(1) =~= all.skip(n as int + 1));
    }
    Ok((bound, syms, tail(rest, 1)))
}

/// Names that were interned keep their symbols when one more is.
pub(crate) proof fn lemma_symbols_kept(
    start: Seq<Seq<char>>,
    done: Seq<Seq<char>>,
    name: Seq<char>,
    table: Seq<Seq<char>>,
)
    requires
        table == types::interned_all(start, done),
        table.no_duplicates() || types::interned(table, name).no_duplicates(),
    ensures
        grammar::symbols(types::interned(table, name), done) == grammar::symbols(table, done),
{
    lemma_all_interned(start, done);
    lemma_prefix_distinct(table, name);
    let next = types::interned(table, name);
    assert forall|i: int| 0 <= i < done.len() implies types::symbol_in(next, #[trigger] done[i])
        == types::symbol_in(table, done[i]) by {
        types::lemma_symbol_kept(table, name, done[i]);
    }
    assert(grammar::symbols(next, done) =~= grammar::symbols(table, done));
}

proof fn lemma_prefix_distinct(table: Seq<Seq<char>>, name: Seq<char>)
    requires
        table.no_duplicates() || types::interned(table, name).no_duplicates(),
    ensures
        table.no_duplicates(),
{
    let next = types::interned(table, name);
    assert forall|i: int, j: int| 0 <= i < table.len() && 0 <= j < table.len() && i != j implies
        table[i] != table[j] by {
        assert(next[i] == table[i] && next[j] == table[j]);
    }
}

proof fn lemma_all_interned(start: Seq<Seq<char>>, names: Seq<Seq<char>>)
    ensures
        forall|i: int|
            0 <= i < names.len() ==> types::interned_all(start, names).contains(
                #[trigger] names[i],
            ),
    decreases names.len(),
{
    if names.len() > 0 {
        let before = types::interned_all(start, names.drop_last());
        lemma_all_interned(start, names.drop_last());
        types::lemma_interned_contains(before, names.last());
        assert forall|i: int| 0 <= i < names.len() implies types::interned_all(
            start,
            names,
        ).contains(#[trigger] names[i]) by {
            if i < names.len() - 1 {
                assert(names.drop_last()[i] == names[i]);
                let j = choose|j: int| 0 <= j < before.len() && before[j] == names[i];
                assert(types::interned(before, names.last())[j] == names[i]);
            }
        }
    }
}

/// The branches of a case expression up to its closing parenthesis, which
/// is consumed.
fn parse_alternatives<'a>(
    tokens: &'a [Token],
    interner: &mut StringInterner,
    ctx: &ParseContext,
    env: &Vec<String>,
) -> (r: Result<(Vec<CaseOfGuard>, Vec<PExpr>, &'a [Token]), ParseError>)
    requires
        old(interner).wf(),
    ensures
        final(interner).wf(),
        match (
            r,
            grammar::alternatives(toks(tokens@), old(interner)@, ctx.known(), tokens::texts(env@)),
        ) {
            (Ok((guards, branches, rest)), Ok(o)) => {
                &&& pexpr::guards_of(guards@) == o.val.map_values(|b: Branch| b.guard)
                &&& pexpr::trees(branches@) == o.val.map_values(|b: Branch| b.body)
                &&& toks(rest@) == o.rest
                &&& final(interner)@ == o.table
                &&& rest@.len() < tokens@.len()
            },
            (Err(a), Err(b)) => a == b,
            _ => false,
        },
    decreases tokens@.len(), 2nat,
{
    let ghost want = grammar::alternatives(
        toks(tokens@),
        old(interner)@,
        ctx.known(),
        tokens::texts(env@),
    );
    let mut rest: &'a [Token] = tokens;
    let mut guards: Vec<CaseOfGuard> = Vec::new();
    let mut branches: Vec<PExpr> = Vec::new();
    let ghost mut bs: Seq<Branch> = Seq::empty();
    proof {
        lemma_joined_empty(want);
        assert(pexpr::guards_of(guards@) =~= bs.map_values(|b: Branch| b.guard));
        assert(pexpr::trees(branches@) =~= bs.map_values(|b: Branch| b.body));
    }
    while rest.len() > 0 && !starts_with(rest, ")")
        invariant
            interner.wf(),
            want == grammar::alternatives(
                toks(tokens@),
                old(interner)@,
                ctx.known(),
                tokens::texts(env@),
            ),
            rest@.len() <= tokens@.len(),
            want == joined(
                bs,
                grammar::alternatives(toks(rest@), interner@, ctx.known(), tokens::texts(env@)),
            ),
            pexpr::guards_of(guards@) == bs.map_values(|b: Branch| b.guard),
            pexpr::trees(branches@) == bs.map_values(|b: Branch| b.body),
        decreases rest@.len(),
    {
        if starts_with(rest, "(") {
            return Err(ParseError::PatternInParens);
        }
        proof {
            lemma_alternatives_step(toks(rest@), interner@, ctx.known(), tokens::texts(env@));
        }
        match parse_branch(rest, interner, ctx, env) {
            Err(e) => {
                return Err(e);
            },
            Ok((guard, body, left)) => {
                proof {
                    let branch = Branch { guard: guard.guard(), body: body.tree() };
                    lemma_joined(
                        bs,
                        branch,
                        grammar::alternatives(
                            toks(left@),
                            interner@,
                            ctx.known(),
                            tokens::texts(env@),
                        ),
                    );
                    lemma_trees_push(branches@, body);
                    lemma_branch_added(guards@, bs, guard, branch);
                    bs = bs.push(branch);
                }
                guards.push(guard);
                branches.push(body);
                rest = left;
            },
        }
    }
    if rest.len() == 0 {
        return Err(ParseError::UnexpectedEnd);
    }
    assert(bs + Seq::<Branch>::empty() =~= bs);
    Ok((guards, branches, tail(rest, 1)))
}

proof fn lemma_branch_added(
    guards: Seq<CaseOfGuard>,
    bs: Seq<Branch>,
    guard: CaseOfGuard,
    branch: Branch,
)
    requires
        branch.guard == guard.guard(),
        pexpr::guards_of(guards) == bs.map_values(|b: Branch| b.guard),
    ensures
        pexpr::guards_of(guards.push(guard)) == bs.push(branch).map_values(|b: Branch| b.guard),
        bs.push(branch).map_values(|b: Branch| b.body) == bs.map_values(|b: Branch| b.body).push(
            branch.body,
        ),
{
    let next = bs.push(branch);
    assert(pexpr::guards_of(guards.push(guard)) =~= pexpr::guards_of(guards).push(guard.guard()));
    assert(next.map_values(|b: Branch| b.guard) =~= bs.map_values(|b: Branch| b.guard).push(
        guard.guard(),
    ));
    assert(next.map_values(|b: Branch| b.body) =~= bs.map_values(|b: Branch| b.body).push(
        branch.body,
    ));
}

proof fn lemma_alternatives_step(
    toks: Seq<Tok>,
    table: Seq<Seq<char>>,
    k: Known,
    env: Seq<Seq<char>>,
)
    requires
        toks.len() > 0,
        toks[0].text != ")"@,
        toks[0].text != "("@,
    ensures
        grammar::alternatives(toks, table, k, env) == (match branch_of(toks, table, k, env) {
            Err(e) => Err(e),
            Ok(o) => grammar::front(o.val, grammar::alternatives(o.rest, o.table, k, env)),
        }),
{
}

/// `(case scrutinee of pattern => body | ...)` behind its keyword.
fn parse_case<'a>(
    tokens: &'a [Token],
    interner: &mut StringInterner,
    ctx: &ParseContext,
    env: &Vec<String>,
) -> (r: Result<(PExpr, &'a [Token]), ParseError>)
    requires
        old(interner).wf(),
    ensures
        final(interner).wf(),
        agrees(
            r,
            final(interner)@,
            grammar::case(toks(tokens@), old(interner)@, ctx.known(), tokens::texts(env@)),
            tokens@.len(),
        ),
    decreases tokens@.len(), 1nat,
{
    match parse_expr_inner(tokens, interner, ctx, env) {
        Err(e) => Err(e),
        Ok((scrutinee, left)) => match parse_alternatives(
            skip_optional(left, "of"),
            interner,
            ctx,
            env,
        ) {
            Err(e) => Err(e),
            Ok((guards, branches, rest)) => Ok(
                (PExpr::CaseOf { guards, scrutinee: Box::new(scrutinee), branches }, rest),
            ),
        },
    }
}

/// The branch that a case expression's first alternative is.
spec fn branch_of(
    toks: Seq<Tok>,
    table: Seq<Seq<char>>,
    k: Known,
    env: Seq<Seq<char>>,
) -> Result<Out<Branch>, ParseError> {
    let named = types::interned(table, toks[0].text);
    let constructor = types::symbol_in(named, toks[0].text);
    let pattern = toks.skip(1);
    let n = grammar::before(pattern, "=>"@);
    if n >= pattern.len() {
        Err(ParseError::UnexpectedEnd)
    } else {
        let bound = grammar::names(pattern.take(n as int));
        let next = types::interned_all(named, bound);
        match grammar::advance(
            grammar::expr(pattern.skip(n as int + 1), next, k, grammar::scope(bound, env)),
            toks.len(),
        ) {
            Err(e) => Err(e),
            Ok(o) => Ok(
                Out {
                    val: if n == 0 {
                        let (vars, inner) = grammar::unwrapped(o.val);
                        Branch { guard: (constructor, vars), body: inner }
                    } else {
                        Branch {
                            guard: (constructor, grammar::symbols(next, bound)),
                            body: o.val,
                        }
                    },
                    rest: grammar::past(o.rest, "|"@),
                    table: o.table,
                },
            ),
        }
    }
}

/// A branch of a case expression: its pattern, its body, and the tokens
/// behind it.
fn parse_branch<'a>(
    tokens: &'a [Token],
    interner: &mut StringInterner,
    ctx: &ParseContext,
    env: &Vec<String>,
) -> (r: Result<(CaseOfGuard, PExpr, &'a [Token]), ParseError>)
    requires
        old(interner).wf(),
        tokens@.len() > 0,
    ensures
        final(interner).wf(),
        match (
            r,
            branch_of(toks(tokens@), old(interner)@, ctx.known(), tokens::texts(env@)),
        ) {
            (Ok((guard, body, rest)), Ok(o)) => o.val == (Branch {
                guard: guard.guard(),
                body: body.tree(),
            }) && toks(rest@) == o.rest && final(interner)@ == o.table && rest@.len()
                < tokens@.len(),
            (Err(a), Err(b)) => a == b,
            _ => false,
        },
    decreases tokens@.len(), 1nat,
{
    let constructor: Symbol = interner.intern(tokens[0].text.as_str());
    match parse_pattern(tail(tokens, 1), interner) {
        Err(e) => Err(e),
        Ok((bound, syms, left)) => {
            let inner: Vec<String> = bind_names(&bound, env);
            match parse_expr_inner(left, interner, ctx, &inner) {
                Err(e) => Err(e),
                Ok((e, left)) => {
                    let rest: &'a [Token] = skip_optional(left, "|");
                    if bound.len() == 0 {
                        let (vars, body) = unwrap_lambdas(e);
                        Ok((CaseOfGuard { constructor, args: vars }, body, rest))
                    } else {
                        Ok((CaseOfGuard { constructor, args: syms }, e, rest))
                    }
                },
            }
        },
    }
}

/// The bindings of a let expression up to `close`, which is consumed, with
/// the scope that they leave.
fn parse_bindings<'a>(
    tokens: &'a [Token],
    close: &str,
    interner: &mut StringInterner,
    ctx: &ParseContext,
    env: &Vec<String>,
) -> (r: Result<(Vec<String>, Vec<PExpr>, &'a [Token]), ParseError>)
    requires
        old(interner).wf(),
    ensures
        final(interner).wf(),
        match (
            r,
            grammar::bindings(
                toks(tokens@),
                close@,
                old(interner)@,
                ctx.known(),
                tokens::texts(env@),
            ),
        ) {
            (Ok((bound, vals, rest)), Ok(o)) => {
                &&& bound@.len() == vals@.len() == o.val.len()
                &&& forall|i: int|
                    0 <= i < o.val.len() ==> #[trigger] o.val[i] == (
                        bound@[i]@,
                        vals@[i].tree(),
                    )
                &&& toks(rest@) == o.rest
                &&& final(interner)@ == o.table
                &&& rest@.len() < tokens@.len()
            },
            (Err(a), Err(b)) => a == b,
            _ => false,
        },
    decreases tokens@.len(), 1nat,
{
    if tokens.len() == 0 {
        return Err(ParseError::UnexpectedEnd);
    }
    if starts_with(tokens, close) {
        return Ok((Vec::new(), Vec::new(), tail(tokens, 1)));
    }
    let nested: bool = starts_with(tokens, "(");
    if nested && tokens.len() < 2 {
        return Err(ParseError::UnexpectedEnd);
    }
    let at_name: &'a [Token] = if nested {
        tail(tokens, 1)
    } else {
        tokens
    };
    let name: String = at_name[0].text.clone();
    let value: &'a [Token] = tail(at_name, 1);
    assert(nested ==> toks(tokens@).skip(1).skip(1) =~= toks(tokens@).skip(2));
    match parse_expr_inner(value, interner, ctx, env) {
        Err(e) => Err(e),
        Ok((val, left)) => {
            let more: &'a [Token] = if nested {
                match expect_close(left) {
                    Err(e) => {
                        return Err(e);
                    },
                    Ok(rest) => rest,
                }
            } else {
                left
            };
            let bound_here: Vec<String> = vec![name.clone()];
            let inner: Vec<String> = bind_names(&bound_here, env);
            proof {
                assert(tokens::texts(bound_here@) =~= seq![name@]);
                assert(tokens::texts(inner@) =~= seq![name@] + tokens::texts(env@));
            }
            match parse_bindings(more, close, interner, ctx, &inner) {
                Err(e) => Err(e),
                Ok((bound, vals, rest)) => {
                    let mut bound: Vec<String> = bound;
                    let mut vals: Vec<PExpr> = vals;
                    bound.insert(0, name);
                    vals.insert(0, val);
                    Ok((bound, vals, rest))
                },
            }
        },
    }
}

/// The body applied to the bound values, the first outermost.
fn bind_values(
    bound: &Vec<String>,
    vals: Vec<PExpr>,
    body: PExpr,
    interner: &mut StringInterner,
    Ghost(bs): Ghost<Seq<(Seq<char>, Tree)>>,
) -> (e: PExpr)
    requires
        old(interner).wf(),
        bound@.len() == vals@.len() == bs.len(),
        forall|i: int| 0 <= i < bs.len() ==> #[trigger] bs[i] == (bound@[i]@, vals@[i].tree()),
    ensures
        final(interner).wf(),
        (e.tree(), final(interner)@) == grammar::bound_in(bs, body.tree(), old(interner)@),
{
    let mut vals: Vec<PExpr> = vals;
    let mut e: PExpr = body;
    assert(bs.take(bs.len() as int) =~= bs);
    while vals.len() > 0
        invariant
            interner.wf(),
            vals@.len() <= bs.len(),
            bound@.len() == bs.len(),
            forall|i: int|
                0 <= i < vals@.len() ==> #[trigger] bs[i] == (bound@[i]@, vals@[i].tree()),
            grammar::bound_in(bs, body.tree(), old(interner)@) == grammar::bound_in(
                bs.take(vals@.len() as int),
                e.tree(),
                interner@,
            ),
        decreases vals@.len(),
    {
        let ghost n = vals@.len() as int;
        let val: PExpr = vals.pop().unwrap();
        let k: usize = vals.len();
        let sym: Symbol = interner.intern(bound[k].as_str());
        proof {
            assert(bs.take(n).drop_last() =~= bs.take(n - 1));
            assert(bs.take(n).last() == bs[n - 1]);
            assert(bs[n - 1] == (bound@[n - 1]@, val.tree()));
        }
        let f = PExpr::Abs { var: sym, body: Box::new(e) };
        assert(f.tree() == pexpr::node1(Head::Abs(sym), e.tree()));
        e = PExpr::App { func: Box::new(f), arg: Box::new(val) };
    }
    e
}

/// `(let (x 1 y 2) body)` behind its keyword.
fn parse_let<'a>(
    tokens: &'a [Token],
    interner: &mut StringInterner,
    ctx: &ParseContext,
    env: &Vec<String>,
) -> (r: Result<(PExpr, &'a [Token]), ParseError>)
    requires
        old(interner).wf(),
    ensures
        final(interner).wf(),
        agrees(
            r,
            final(interner)@,
            grammar::let_in(toks(tokens@), old(interner)@, ctx.known(), tokens::texts(env@)),
            tokens@.len(),
        ),
    decreases tokens@.len(), 2nat,
{
    if tokens.len() == 0 {
        return Err(ParseError::UnexpectedEnd);
    }
    let close: &str = if starts_with(tokens, "(") {
        ")"
    } else {
        "]"
    };
    let ghost want = grammar::bindings(
        toks(tokens@).skip(1),
        close@,
        interner@,
        ctx.known(),
        tokens::texts(env@),
    );
    match parse_bindings(tail(tokens, 1), close, interner, ctx, env) {
        Err(e) => Err(e),
        Ok((bound, vals, left)) => {
            let ghost bs = want->Ok_0.val;
            let inner: Vec<String> = bind_names(&bound, env);
            proof {
                assert(bs.map_values(|b: (Seq<char>, Tree)| b.0) =~= tokens::texts(bound@));
            }
            match parse_expr_inner(left, interner, ctx, &inner) {
                Err(e) => Err(e),
                Ok((body, left)) => match expect_close(left) {
                    Err(e) => Err(e),
                    Ok(rest) => Ok((bind_values(&bound, vals, body, interner, Ghost(bs)), rest)),
                },
            }
        },
    }
}

/// `(Constructor a b)` behind the constructor's name.
fn parse_constructor_expr<'a>(
    name: &str,
    tokens: &'a [Token],
    interner: &mut StringInterner,
    ctx: &ParseContext,
    env: &Vec<String>,
) -> (r: Result<(PExpr, &'a [Token]), ParseError>)
    requires
        old(interner).wf(),
        old(interner)@.contains(name@),
    ensures
        final(interner).wf(),
        agrees(
            r,
            final(interner)@,
            grammar::construct(
                types::symbol_in(old(interner)@, name@),
                toks(tokens@),
                old(interner)@,
                ctx.known(),
                tokens::texts(env@),
            ),
            tokens@.len(),
        ),
    decreases tokens@.len(), 2nat,
{
    let constructor: Symbol = interner.intern(name);
    match parse_items(tokens, Items::Arguments, interner, ctx, env) {
        Err(e) => Err(e),
        Ok((args, rest)) => {
            proof {
                pexpr::lemma_trees(args@);
            }
            if args.len() == ctx.types.constructor_arity(constructor) {
                Ok((PExpr::Construct { constructor, args }, rest))
            } else {
                Err(ParseError::WrongArity)
            }
        },
    }
}

/// Does the primitive take that many arguments?
fn validate_prim_args(prim: &Primitive, args: &Vec<PExpr>) -> (r: bool)
    ensures
        r == primitives::arity_of(*prim).admits(args@.len()),
{
    match prim_arity(prim) {
        Arity::Fixed(n) => args.len() == n,
        Arity::AtLeast(n) => args.len() >= n,
    }
}

/// `(primitive a b)` behind the name of the primitive.
fn parse_prim<'a>(
    prim: Primitive,
    tokens: &'a [Token],
    interner: &mut StringInterner,
    ctx: &ParseContext,
    env: &Vec<String>,
) -> (r: Result<(PExpr, &'a [Token]), ParseError>)
    requires
        old(interner).wf(),
    ensures
        final(interner).wf(),
        agrees(
            r,
            final(interner)@,
            grammar::primitive(prim, toks(tokens@), old(interner)@, ctx.known(), tokens::texts(env@)),
            tokens@.len(),
        ),
    decreases tokens@.len(), 2nat,
{
    match parse_items(tokens, Items::Arguments, interner, ctx, env) {
        Err(e) => Err(e),
        Ok((args, rest)) => {
            proof {
                pexpr::lemma_trees(args@);
            }
            if validate_prim_args(&prim, &args) {
                Ok((prim_expr(prim, args), rest))
            } else {
                Err(ParseError::WrongArity)
            }
        },
    }
}

/// The alternatives of a choice with their weights.
spec fn choices(options: Seq<PExpr>, weights: Seq<Weight>, cs: Seq<(Tree, Weight)>) -> bool {
    &&& options.len() == cs.len()
    &&& weights.len() == cs.len()
    &&& forall|i: int|
        0 <= i < cs.len() ==> #[trigger] cs[i] == (options[i].tree(), weights[i])
}

/// Build a nested if-expression tree for a discrete distribution.
fn build_discrete_tree(
    options: Vec<PExpr>,
    weights: &Vec<Weight>,
    interner: &mut StringInterner,
    Ghost(cs): Ghost<Seq<(Tree, Weight)>>,
) -> (r: Result<PExpr, ParseError>)
    requires
        old(interner).wf(),
        choices(options@, weights@, cs),
    ensures
        final(interner).wf(),
        match (r, grammar::choice(cs, old(interner)@)) {
            (Ok(e), Ok((t, table))) => e.tree() == t && final(interner)@ == table,
            (Err(a), Err(b)) => a == b,
            _ => false,
        },
{
    let mut options: Vec<PExpr> = options;
    let n: usize = options.len();
    if n == 0 {
        return Err(ParseError::EmptyChoice);
    }
    let ghost all = options@;
    let mut e: PExpr = options.pop().unwrap();
    assert(e.tree() == cs[n - 1].0);
    if n == 1 {
        return Ok(e);
    }
    let (t, f) = intern_two(interner, "True", "False");
    assert(grammar::choice_tree(cs.skip(n - 1), t, f) == e.tree());
    while options.len() > 0
        invariant
            n == cs.len(),
            all.len() == n,
            choices(all, weights@, cs),
            options@.len() < n,
            options@ == all.take(options@.len() as int),
            e.tree() == grammar::choice_tree(cs.skip(options@.len() as int), t, f),
        decreases options@.len(),
    {
        let ghost k = options@.len() - 1;
        let option: PExpr = options.pop().unwrap();
        let first: usize = options.len();
        let mut left: Vec<Weight> = Vec::new();
        let mut j: usize = first;
        while j < weights.len()
            invariant
                first <= j <= weights@.len(),
                left@ == weights@.subrange(first as int, j as int),
            decreases weights@.len() - j,
        {
            left.push(weights[j]);
            assert(weights@.subrange(first as int, j + 1) =~= weights@.subrange(
                first as int,
                j as int,
            ).push(weights@[j as int]));
            j = j + 1;
        }
        proof {
            let rest = cs.skip(k);
            assert(options@ =~= all.take(k));
            assert(rest.skip(1) =~= cs.skip(k + 1));
            assert(rest.map_values(|c: (Tree, Weight)| c.1) =~= left@);
            assert(rest[0] == cs[k]);
            assert(cs[k] == (all[k].tree(), weights@[k]));
            assert(option == all[k]);
        }
        let prob = PExpr::ConstNative { val: NativeVal::Share(left) };
        assert(prob.tree() == pexpr::leaf(Head::Const(Const::Share(left@))));
        let cond = PExpr::Flip { prob: Box::new(prob) };
        assert(cond.tree() == pexpr::node1(Head::Prim(Primitive::Flip), prob.tree()));
        e = two_way_expr(cond, option, e, t, f);
    }
    assert(cs.skip(0) =~= cs);
    Ok(e)
}

/// The weighted alternatives of a discrete choice up to its closing
/// parenthesis, which is consumed.
fn parse_weighted<'a>(
    tokens: &'a [Token],
    interner: &mut StringInterner,
    ctx: &ParseContext,
    env: &Vec<String>,
) -> (r: Result<(Vec<PExpr>, Vec<Weight>, &'a [Token]), ParseError>)
    requires
        old(interner).wf(),
    ensures
        final(interner).wf(),
        match (
            r,
            grammar::weighted(toks(tokens@), old(interner)@, ctx.known(), tokens::texts(env@)),
        ) {
            (Ok((options, weights, rest)), Ok(o)) => {
                &&& choices(options@, weights@, o.val)
                &&& toks(rest@) == o.rest
                &&& final(interner)@ == o.table
                &&& rest@.len() < tokens@.len()
            },
            (Err(a), Err(b)) => a == b,
            _ => false,
        },
    decreases tokens@.len(), 1nat,
{
    let ghost want = grammar::weighted(
        toks(tokens@),
        old(interner)@,
        ctx.known(),
        tokens::texts(env@),
    );
    let mut options: Vec<PExpr> = Vec::new();
    let mut weights: Vec<Weight> = Vec::new();
    let ghost mut cs: Seq<(Tree, Weight)> = Seq::empty();
    let mut rest: &'a [Token] = tokens;
    proof {
        lemma_joined_empty(want);
    }
    while rest.len() > 0 && !starts_with(rest, ")")
        invariant
            interner.wf(),
            want == grammar::weighted(
                toks(tokens@),
                old(interner)@,
                ctx.known(),
                tokens::texts(env@),
            ),
            rest@.len() <= tokens@.len(),
            choices(options@, weights@, cs),
            want == joined(
                cs,
                grammar::weighted(toks(rest@), interner@, ctx.known(), tokens::texts(env@)),
            ),
        decreases rest@.len(),
    {
        if !starts_with(rest, "(") {
            return Err(ParseError::ExpectedOpen);
        }
        match parse_expr_inner(tail(rest, 1), interner, ctx, env) {
            Err(e) => {
                return Err(e);
            },
            Ok((e, left)) => {
                if left.len() == 0 {
                    return Err(ParseError::UnexpectedEnd);
                }
                let bits: u64 = match left[0].real {
                    None => {
                        return Err(ParseError::BadNumber);
                    },
                    Some(bits) => bits,
                };
                match expect_close(tail(left, 1)) {
                    Err(err) => {
                        return Err(err);
                    },
                    Ok(left) => {
                        proof {
                            let c = (e.tree(), Weight::Real(bits));
                            lemma_joined(
                                cs,
                                c,
                                grammar::weighted(
                                    toks(left@),
                                    interner@,
                                    ctx.known(),
                                    tokens::texts(env@),
                                ),
                            );
                            cs = cs.push(c);
                        }
                        options.push(e);
                        weights.push(Weight::Real(bits));
                        rest = left;
                    },
                }
            },
        }
    }
    if rest.len() == 0 {
        return Err(ParseError::UnexpectedEnd);
    }
    assert(cs + Seq::<(Tree, Weight)>::empty() =~= cs);
    Ok((options, weights, tail(rest, 1)))
}

/// `(discrete (a 0.2) (b 0.8))` behind its keyword.
fn parse_discrete<'a>(
    tokens: &'a [Token],
    interner: &mut StringInterner,
    ctx: &ParseContext,
    env: &Vec<String>,
) -> (r: Result<(PExpr, &'a [Token]), ParseError>)
    requires
        old(interner).wf(),
    ensures
        final(interner).wf(),
        agrees(
            r,
            final(interner)@,
            grammar::discrete(toks(tokens@), old(interner)@, ctx.known(), tokens::texts(env@)),
            tokens@.len(),
        ),
    decreases tokens@.len(), 2nat,
{
    let ghost want = grammar::weighted(
        toks(tokens@),
        old(interner)@,
        ctx.known(),
        tokens::texts(env@),
    );
    match parse_weighted(tokens, interner, ctx, env) {
        Err(e) => Err(e),
        Ok((options, weights, rest)) => match build_discrete_tree(
            options,
            &weights,
            interner,
            Ghost(want->Ok_0.val),
        ) {
            Err(e) => Err(e),
            Ok(e) => Ok((e, rest)),
        },
    }
}

/// `(uniform a b c)` behind its keyword.
fn parse_uniform<'a>(
    tokens: &'a [Token],
    interner: &mut StringInterner,
    ctx: &ParseContext,
    env: &Vec<String>,
) -> (r: Result<(PExpr, &'a [Token]), ParseError>)
    requires
        old(interner).wf(),
    ensures
        final(interner).wf(),
        agrees(
            r,
            final(interner)@,
            grammar::uniform(toks(tokens@), old(interner)@, ctx.known(), tokens::texts(env@)),
            tokens@.len(),
        ),
    decreases tokens@.len(), 2nat,
{
    match parse_items(tokens, Items::Arguments, interner, ctx, env) {
        Err(e) => Err(e),
        Ok((options, rest)) => {
            let n: usize = options.len();
            let mut weights: Vec<Weight> = Vec::new();
            for i in 0..n
                invariant
                    weights@.len() == i,
                    forall|j: int| 0 <= j < i ==> #[trigger] weights@[j] == Weight::OneIn(n),
            {
                weights.push(Weight::OneIn(n));
            }
            let ghost cs = grammar::equally(pexpr::trees(options@));
            proof {
                pexpr::lemma_trees(options@);
            }
            match build_discrete_tree(options, &weights, interner, Ghost(cs)) {
                Err(e) => Err(e),
                Ok(e) => Ok((e, rest)),
            }
        },
    }
}

/// `(f a b)` behind its parenthesis.
fn parse_application<'a>(
    tokens: &'a [Token],
    interner: &mut StringInterner,
    ctx: &ParseContext,
    env: &Vec<String>,
) -> (r: Result<(PExpr, &'a [Token]), ParseError>)
    requires
        old(interner).wf(),
    ensures
        final(interner).wf(),
        agrees(
            r,
            final(interner)@,
            grammar::application(toks(tokens@), old(interner)@, ctx.known(), tokens::texts(env@)),
            tokens@.len(),
        ),
    decreases tokens@.len(), 2nat,
{
    match parse_expr_inner(tokens, interner, ctx, env) {
        Err(e) => Err(e),
        Ok((f, left)) => match parse_items(left, Items::Arguments, interner, ctx, env) {
            Err(e) => Err(e),
            Ok((args, rest)) => {
                proof {
                    pexpr::lemma_trees(args@);
                }
                if args.len() == 0 {
                    let unit = bare(interner.intern("Unit"));
                    return Ok((PExpr::App { func: Box::new(f), arg: Box::new(unit) }, rest));
                }
                Ok((apply_all(f, args), rest))
            },
        },
    }
}

/// The function applied to the arguments one by one.
fn apply_all(f: PExpr, args: Vec<PExpr>) -> (e: PExpr)
    ensures
        e.tree() == grammar::applied(f.tree(), pexpr::trees(args@)),
    decreases args@.len(),
{
    let mut args: Vec<PExpr> = args;
    let ghost all = pexpr::trees(args@);
    match args.pop() {
        None => f,
        Some(last) => {
            proof {
                pexpr::lemma_trees(args@);
                assert(all.drop_last() =~= pexpr::trees(args@));
                assert(all.last() == last.tree());
            }
            let inner: PExpr = apply_all(f, args);
            PExpr::App { func: Box::new(inner), arg: Box::new(last) }
        },
    }
}

} // verus!
