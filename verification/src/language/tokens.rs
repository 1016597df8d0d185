//! Source text to tokens.

use vstd::prelude::*;

use crate::utils::text::{chars_of, string_of};

verus! {

/// Why a source text has no tokens.
#[derive(Debug, Clone, Copy, PartialEq, Eq, Structural)]
pub enum TokenError {
    /// A string literal is not closed.
    Unterminated,
    /// A name holds a character whose UTF-8 form has the byte `85` or `A0`.
    /// The text is scanned bytewise and those two bytes count as blanks, so
    /// the name would end inside the character.
    SplitCharacter,
}

/// White space among the one-byte characters.
pub open spec fn blank(c: char) -> bool {
    c == ' ' || c == '\t' || c == '\n' || c == '\u{b}' || c == '\u{c}' || c == '\r'
}

/// A character that is a token by itself.
pub open spec fn single(c: char) -> bool {
    c == '(' || c == ')' || c == '{' || c == '}' || c == '[' || c == ']' || c == ',' || c == '~'
        || c == '`'
}

/// The six payload bits of a UTF-8 continuation byte `85` or `A0`.
pub open spec fn split_bits(x: int) -> bool {
    x == 5 || x == 32
}

/// One of the continuation bytes of `c` in UTF-8 is `85` or `A0`.
pub open spec fn splits(c: char) -> bool {
    let n = c as int;
    ||| n >= 0x80 && split_bits(n % 64)
    ||| n >= 0x800 && split_bits(n / 64 % 64)
    ||| n >= 0x10000 && split_bits(n / 4096 % 64)
}

/// The text without its comments, which run from `;` to the end of the
/// line, and with `\n` for every line end.
pub open spec fn uncommented(s: Seq<char>, in_comment: bool) -> Seq<char>
    decreases s.len(),
{
    if s.len() == 0 {
        s
    } else {
        let rest = s.skip(1);
        if s[0] == '\n' {
            seq!['\n'] + uncommented(rest, false)
        } else if in_comment || s[0] == ';' {
            uncommented(rest, true)
        } else if s[0] == '\r' && rest.len() > 0 && rest[0] == '\n' {
            uncommented(rest, false)
        } else {
            seq![s[0]] + uncommented(rest, false)
        }
    }
}

/// The text starts with an arrow.
pub open spec fn arrow(p: Seq<char>) -> bool {
    p.len() > 1 && p[0] == '-' && p[1] == '>'
}

/// A name ends where `p` starts.
pub open spec fn name_ends(p: Seq<char>) -> bool {
    p.len() == 0 || blank(p[0]) || single(p[0]) || p[0] == '"' || arrow(p)
}

/// The length of the name at the start of `p`.
pub open spec fn name_len(p: Seq<char>) -> nat
    decreases p.len(),
{
    if name_ends(p) {
        0
    } else {
        1 + name_len(p.skip(1))
    }
}

/// The position of the first `"`, or the length if there is none.
pub open spec fn quote_at(p: Seq<char>) -> nat
    decreases p.len(),
{
    if p.len() == 0 || p[0] == '"' {
        0
    } else {
        1 + quote_at(p.skip(1))
    }
}

/// `first` before the tokens of `rest`.
pub open spec fn cons(
    first: Seq<char>,
    rest: Result<Seq<Seq<char>>, TokenError>,
) -> Result<Seq<Seq<char>>, TokenError> {
    match rest {
        Ok(ts) => Ok(seq![first] + ts),
        Err(e) => Err(e),
    }
}

/// The tokens of a text without comments: string literals with their
/// quotes, `->`, single characters, and names, which run until any of those
/// or a blank.
pub open spec fn lexed(p: Seq<char>) -> Result<Seq<Seq<char>>, TokenError>
    decreases p.len(),
{
    if p.len() == 0 {
        Ok(Seq::empty())
    } else if blank(p[0]) {
        lexed(p.skip(1))
    } else if p[0] == '"' {
        let close = 1 + quote_at(p.skip(1));
        if close >= p.len() {
            Err(TokenError::Unterminated)
        } else {
            cons(p.take(close as int + 1), lexed(p.skip(close as int + 1)))
        }
    } else if arrow(p) {
        cons(p.take(2), lexed(p.skip(2)))
    } else if single(p[0]) {
        cons(p.take(1), lexed(p.skip(1)))
    } else {
        let n = 1 + name_len(p.skip(1)) as int;
        if exists|i: int| 0 <= i < n && splits(#[trigger] p[i]) {
            Err(TokenError::SplitCharacter)
        } else {
            proof {
                lemma_name_len(p.skip(1));
            }
            cons(p.take(n), lexed(p.skip(n)))
        }
    }
}

/// A name is no longer than the text it starts.
pub proof fn lemma_name_len(p: Seq<char>)
    ensures
        name_len(p) <= p.len(),
    decreases p.len(),
{
    if !name_ends(p) {
        lemma_name_len(p.skip(1));
    }
}

/// The tokens of a source text.
pub open spec fn tokens_of(s: Seq<char>) -> Result<Seq<Seq<char>>, TokenError> {
    lexed(uncommented(s, false))
}

/// The strings as sequences of characters.
pub open spec fn texts(v: Seq<String>) -> Seq<Seq<char>> {
    v.map_values(|s: String| s@)
}

fn is_blank(c: char) -> (r: bool)
    ensures
        r == blank(c),
{
    c == ' ' || c == '\t' || c == '\n' || c == '\u{b}' || c == '\u{c}' || c == '\r'
}

fn is_single(c: char) -> (r: bool)
    ensures
        r == single(c),
{
    c == '(' || c == ')' || c == '{' || c == '}' || c == '[' || c == ']' || c == ',' || c == '~'
        || c == '`'
}

fn is_split(c: char) -> (r: bool)
    ensures
        r == splits(c),
{
    let n: u32 = c as u32;
    let last: u32 = n % 64;
    let middle: u32 = n / 64 % 64;
    let first: u32 = n / 4096 % 64;
    (n >= 0x80 && (last == 5 || last == 32)) || (n >= 0x800 && (middle == 5 || middle == 32)) || (n
        >= 0x10000 && (first == 5 || first == 32))
}

/// The text without comments.
fn strip_comments(s: &Vec<char>) -> (r: Vec<char>)
    ensures
        r@ == uncommented(s@, false),
{
    let mut out: Vec<char> = Vec::new();
    let mut in_comment: bool = false;
    let mut i: usize = 0;
    assert(s@.skip(0) =~= s@);
    assert(out@ + uncommented(s@, false) =~= uncommented(s@, false));
    while i < s.len()
        invariant
            i <= s@.len(),
            uncommented(s@, false) == out@ + uncommented(s@.skip(i as int), in_comment),
        decreases s@.len() - i,
    {
        let c: char = s[i];
        let ghost here = s@.skip(i as int);
        assert(here.skip(1) =~= s@.skip(i + 1));
        let ghost before = out@;
        if c == '\n' {
            out.push(c);
            in_comment = false;
            assert(before + (seq!['\n'] + uncommented(here.skip(1), false)) =~= out@ + uncommented(
                here.skip(1),
                false,
            ));
        } else if in_comment || c == ';' {
            in_comment = true;
        } else if c == '\r' && i + 1 < s.len() && s[i + 1] == '\n' {
            assert(here.skip(1)[0] == '\n');
        } else {
            out.push(c);
            assert(before + (seq![c] + uncommented(here.skip(1), false)) =~= out@ + uncommented(
                here.skip(1),
                false,
            ));
        }
        i = i + 1;
    }
    assert(out@ + uncommented(s@.skip(i as int), in_comment) =~= out@);
    out
}

/// `tokens` before the tokens of `rest`.
spec fn after(
    tokens: Seq<Seq<char>>,
    rest: Result<Seq<Seq<char>>, TokenError>,
) -> Result<Seq<Seq<char>>, TokenError> {
    match rest {
        Ok(ts) => Ok(tokens + ts),
        Err(e) => Err(e),
    }
}

proof fn lemma_after(
    tokens: Seq<Seq<char>>,
    t: Seq<char>,
    rest: Result<Seq<Seq<char>>, TokenError>,
)
    ensures
        after(tokens, cons(t, rest)) == after(tokens.push(t), rest),
{
    if let Ok(ts) = rest {
        assert(tokens + (seq![t] + ts) =~= tokens.push(t) + ts);
    }
}

/// The end of the string literal that opens at `start`: the position of its
/// closing quote, or the length of the text if there is none.
fn closing_quote(p: &Vec<char>, start: usize) -> (end: usize)
    requires
        start < p.len(),
    ensures
        end == start + 1 + quote_at(p@.skip(start as int).skip(1)),
        start < end <= p@.len(),
{
    let mut i: usize = start + 1;
    assert(p@.skip(start as int).skip(1) =~= p@.skip(start + 1));
    while i < p.len() && p[i] != '"'
        invariant
            start < i <= p@.len(),
            start + 1 + quote_at(p@.skip(start as int).skip(1)) == i + quote_at(p@.skip(i as int)),
        decreases p@.len() - i,
    {
        assert(p@.skip(i as int).skip(1) =~= p@.skip(i + 1));
        i = i + 1;
    }
    i
}

/// The end of the name that starts at `start`, and whether the name holds a
/// character that splits it.
fn name_end(p: &Vec<char>, start: usize) -> (r: (usize, bool))
    requires
        start < p.len(),
    ensures
        r.0 == start + 1 + name_len(p@.skip(start as int).skip(1)),
        start < r.0 <= p@.len(),
        r.1 == exists|i: int| start <= i < r.0 && splits(#[trigger] p@[i]),
{
    let mut split: bool = is_split(p[start]);
    let mut i: usize = start + 1;
    assert(p@.skip(start as int).skip(1) =~= p@.skip(start + 1));
    while i < p.len() && !(is_blank(p[i]) || is_single(p[i]) || p[i] == '"' || (p[i] == '-' && i + 1
        < p.len() && p[i + 1] == '>'))
        invariant
            start < i <= p@.len(),
            start + 1 + name_len(p@.skip(start as int).skip(1)) == i + name_len(p@.skip(i as int)),
            split == exists|k: int| start <= k < i && splits(#[trigger] p@[k]),
        decreases p@.len() - i,
    {
        assert(p@.skip(i as int).skip(1) =~= p@.skip(i + 1));
        let here: bool = is_split(p[i]);
        proof {
            if here {
                assert(splits(p@[i as int]));
            }
        }
        split = split || here;
        i = i + 1;
    }
    (i, split)
}

/// Tokenize a Pluck source string into a list of tokens.
/// Comments start with ";" and run to end of line.
pub fn tokenize(s: &str) -> (r: Result<Vec<String>, TokenError>)
    ensures
        match r {
            Ok(tokens) => tokens_of(s@) == Ok::<Seq<Seq<char>>, TokenError>(texts(tokens@)),
            Err(e) => tokens_of(s@) == Err::<Seq<Seq<char>>, TokenError>(e),
        },
{
    let source: Vec<char> = chars_of(s);
    let p: Vec<char> = strip_comments(&source);
    let mut tokens: Vec<String> = Vec::new();
    let mut i: usize = 0;
    assert(p@.skip(0) =~= p@);
    proof {
        if let Ok(ts) = lexed(p@) {
            assert(texts(tokens@) + ts =~= ts);
        }
    }
    while i < p.len()
        invariant
            i <= p@.len(),
            p@ == uncommented(s@, false),
            lexed(p@) == after(texts(tokens@), lexed(p@.skip(i as int))),
        decreases p@.len() - i,
    {
        let c: char = p[i];
        let ghost here = p@.skip(i as int);
        let ghost done = texts(tokens@);
        if is_blank(c) {
            assert(here.skip(1) =~= p@.skip(i + 1));
            i = i + 1;
        } else {
            let end: usize = if c == '"' {
                let close: usize = closing_quote(&p, i);
                if close >= p.len() {
                    return Err(TokenError::Unterminated);
                }
                close + 1
            } else if c == '-' && i + 1 < p.len() && p[i + 1] == '>' {
                i + 2
            } else if is_single(c) {
                i + 1
            } else {
                let (end, split): (usize, bool) = name_end(&p, i);
                proof {
                    if split {
                        let k = choose|k: int| i <= k < end && splits(#[trigger] p@[k]);
                        assert(splits(here[k - i]));
                    } else {
                        assert forall|k: int| 0 <= k < end - i implies !splits(
                            #[trigger] here[k],
                        ) by {
                            assert(!splits(p@[k + i]));
                        }
                    }
                }
                if split {
                    return Err(TokenError::SplitCharacter);
                }
                end
            };
            let token: String = string_of(&p, i, end);
            proof {
                let n = end - i;
                assert(here.take(n) =~= p@.subrange(i as int, end as int));
                assert(here.skip(n) =~= p@.skip(end as int));
                lemma_after(done, token@, lexed(p@.skip(end as int)));
                assert(texts(tokens@.push(token)) =~= done.push(token@));
            }
            tokens.push(token);
            i = end;
        }
    }
    proof {
        assert(p@.skip(i as int) =~= Seq::<char>::empty());
        assert(texts(tokens@) + Seq::<Seq<char>>::empty() =~= texts(tokens@));
    }
    Ok(tokens)
}

} // verus!
