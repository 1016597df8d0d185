//! Tokens that are displayed as text can be read again.

use vstd::prelude::*;

use super::tokens;
use super::tokens::TokenError;
use super::toplevel;

verus! {

/// No character of the text starts a comment or is dropped at a line end.
pub open spec fn verbatim(s: Seq<char>) -> bool {
    forall|i: int| 0 <= i < s.len() ==> #[trigger] s[i] != ';' && s[i] != '\r'
}

/// A string literal with its quotes.
pub open spec fn literal(t: Seq<char>) -> bool {
    t.len() >= 2 && t[0] == '"' && t[t.len() - 1] == '"' && forall|i: int|
        0 < i < t.len() - 1 ==> #[trigger] t[i] != '"'
}

/// A name: nothing in it ends it.
pub open spec fn named(t: Seq<char>) -> bool {
    t.len() > 0 && forall|i: int|
        0 <= i < t.len() ==> !tokens::blank(#[trigger] t[i]) && !tokens::single(t[i]) && t[i] != '"'
            && !tokens::splits(t[i]) && !tokens::arrow(t.skip(i))
}

/// A text that is one token.
pub open spec fn lexeme(t: Seq<char>) -> bool {
    literal(t) || t == "->"@ || (t.len() == 1 && tokens::single(t[0])) || named(t)
}

proof fn lemma_verbatim_kept(s: Seq<char>)
    requires
        verbatim(s),
    ensures
        tokens::uncommented(s, false) == s,
    decreases s.len(),
{
    if s.len() > 0 {
        let rest = s.skip(1);
        assert forall|i: int| 0 <= i < rest.len() implies #[trigger] rest[i] != ';' && rest[i] != '\r' by {
            assert(rest[i] == s[i + 1]);
        }
        lemma_verbatim_kept(rest);
        assert(s[0] != ';' && s[0] != '\r');
        assert(seq![s[0]] + rest =~= s);
    }
}

proof fn lemma_uncommented_verbatim(s: Seq<char>, in_comment: bool)
    requires
        forall|i: int| 0 <= i < s.len() ==> #[trigger] s[i] != '\r',
    ensures
        verbatim(tokens::uncommented(s, in_comment)),
    decreases s.len(),
{
    if s.len() > 0 {
        let rest = s.skip(1);
        assert forall|i: int| 0 <= i < rest.len() implies #[trigger] rest[i] != '\r' by {
            assert(rest[i] == s[i + 1]);
        }
        lemma_uncommented_verbatim(rest, false);
        lemma_uncommented_verbatim(rest, true);
        assert(s[0] != '\r');
        let (p, q) = (tokens::uncommented(s, in_comment), tokens::uncommented(rest, false));
        assert forall|i: int| 0 <= i < p.len() implies #[trigger] p[i] != ';' && p[i] != '\r' by {
            if s[0] == '\n' || (!in_comment && s[0] != ';') {
                if i > 0 {
                    assert(p[i] == q[i - 1]);
                }
            } else {
                assert(p == tokens::uncommented(rest, true));
            }
        }
    }
}

proof fn lemma_part_verbatim(p: Seq<char>, n: int)
    requires
        verbatim(p),
        0 <= n <= p.len(),
    ensures
        verbatim(p.take(n)),
        verbatim(p.skip(n)),
{
    assert forall|i: int| 0 <= i < p.skip(n).len() implies #[trigger] p.skip(n)[i] != ';' && p.skip(n)[i]
        != '\r' by {
        assert(p.skip(n)[i] == p[i + n]);
    }
    assert forall|i: int| 0 <= i < n implies #[trigger] p.take(n)[i] != ';' && p.take(n)[i] != '\r' by {
        assert(p.take(n)[i] == p[i]);
    }
}

/// Nothing in a name ends it before its end.
proof fn lemma_name(p: Seq<char>, k: int)
    requires
        0 <= k < tokens::name_len(p),
    ensures
        !tokens::name_ends(p.skip(k)),
        k < p.len(),
    decreases p.len(),
{
    tokens::lemma_name_len(p);
    if k == 0 {
        assert(p.skip(0) =~= p);
    } else {
        lemma_name(p.skip(1), k - 1);
        assert(p.skip(1).skip(k - 1) =~= p.skip(k));
    }
}

proof fn lemma_quote(p: Seq<char>)
    ensures
        tokens::quote_at(p) <= p.len(),
        tokens::quote_at(p) < p.len() ==> p[tokens::quote_at(p) as int] == '"',
        forall|i: int| 0 <= i < tokens::quote_at(p) ==> #[trigger] p[i] != '"',
    decreases p.len(),
{
    if p.len() > 0 && p[0] != '"' {
        let rest = p.skip(1);
        lemma_quote(rest);
        assert forall|i: int| 0 <= i < tokens::quote_at(p) implies #[trigger] p[i] != '"' by {
            if i > 0 {
                assert(rest[i - 1] == p[i]);
            }
        }
    }
}

/// The first token of a text is one token.
proof fn lemma_first(p: Seq<char>, n: int)
    requires
        p.len() > 0,
        !tokens::blank(p[0]),
        if p[0] == '"' {
            n == 2 + tokens::quote_at(p.skip(1)) && n <= p.len()
        } else if tokens::arrow(p) {
            n == 2
        } else if tokens::single(p[0]) {
            n == 1
        } else {
            n == 1 + tokens::name_len(p.skip(1)) && forall|i: int|
                0 <= i < n ==> !tokens::splits(#[trigger] p[i])
        },
    ensures
        0 < n <= p.len(),
        lexeme(p.take(n)),
{
    let t = p.take(n);
    tokens::lemma_name_len(p.skip(1));
    lemma_quote(p.skip(1));
    if p[0] == '"' {
        assert(p.skip(1)[n - 2] == p[n - 1]);
        assert forall|i: int| 0 < i < t.len() - 1 implies #[trigger] t[i] != '"' by {
            assert(p.skip(1)[i - 1] == p[i]);
        }
        assert(literal(t));
    } else if tokens::arrow(p) {
        reveal_strlit("->");
        assert(t =~= "->"@);
    } else if !tokens::single(p[0]) {
        assert forall|i: int| 0 <= i < t.len() implies !tokens::blank(#[trigger] t[i]) && !tokens::single(
            t[i],
        ) && t[i] != '"' && !tokens::splits(t[i]) && !tokens::arrow(t.skip(i)) by {
            assert(t[i] == p[i]);
            if i > 0 {
                lemma_name(p.skip(1), i - 1);
                assert(p.skip(1).skip(i - 1) =~= p.skip(i));
            } else {
                assert(p.skip(0) =~= p);
            }
            assert(!tokens::arrow(p.skip(i)));
            assert(p.skip(i)[0] == p[i]);
            if tokens::arrow(t.skip(i)) {
                assert(t.skip(i)[0] == p.skip(i)[0]);
                assert(t.skip(i)[1] == p.skip(i)[1]);
            }
        }
        assert(named(t));
    }
}

/// Each token of a text is one token, and holds what the text holds.
proof fn lemma_lexemes(p: Seq<char>, ts: Seq<Seq<char>>)
    requires
        verbatim(p),
        tokens::lexed(p) == Ok::<Seq<Seq<char>>, TokenError>(ts),
    ensures
        forall|i: int| 0 <= i < ts.len() ==> lexeme(#[trigger] ts[i]) && verbatim(ts[i]),
    decreases p.len(),
{
    if p.len() > 0 {
        if tokens::blank(p[0]) {
            lemma_part_verbatim(p, 1);
            lemma_lexemes(p.skip(1), ts);
        } else {
            tokens::lemma_name_len(p.skip(1));
            lemma_quote(p.skip(1));
            let n: int = if p[0] == '"' {
                2 + tokens::quote_at(p.skip(1)) as int
            } else if tokens::arrow(p) {
                2
            } else if tokens::single(p[0]) {
                1
            } else {
                1 + tokens::name_len(p.skip(1)) as int
            };
            lemma_first(p, n);
            lemma_part_verbatim(p, n);
            let rest = tokens::lexed(p.skip(n));
            assert(tokens::lexed(p) == tokens::cons(p.take(n), rest));
            let us = rest->Ok_0;
            assert(ts == seq![p.take(n)] + us);
            lemma_lexemes(p.skip(n), us);
            assert forall|i: int| 0 <= i < ts.len() implies lexeme(#[trigger] ts[i]) && verbatim(ts[i]) by {
                if i > 0 {
                    assert(ts[i] == us[i - 1]);
                } else {
                    assert(ts[0] == p.take(n));
                }
            }
        }
    }
}

proof fn lemma_name_again(t: Seq<char>, r: Seq<char>, k: int)
    requires
        named(t),
        tokens::name_ends(r),
        0 <= k <= t.len(),
    ensures
        tokens::name_len((t + r).skip(k)) == t.len() - k,
    decreases t.len() - k,
{
    let s = t + r;
    if k == t.len() {
        assert(s.skip(k) =~= r);
    } else {
        lemma_name_again(t, r, k + 1);
        assert(s.skip(k).skip(1) =~= s.skip(k + 1));
        assert(s.skip(k)[0] == t[k]);
        assert(!tokens::arrow(t.skip(k)));
        if tokens::arrow(s.skip(k)) {
            assert(s.skip(k)[1] == s[k + 1]);
            if k + 1 < t.len() {
                assert(t.skip(k)[0] == t[k] && t.skip(k)[1] == t[k + 1]);
            } else {
                assert(s[k + 1] == r[0]);
            }
        }
    }
}

proof fn lemma_quote_again(t: Seq<char>, r: Seq<char>, k: int)
    requires
        literal(t),
        1 <= k < t.len(),
    ensures
        tokens::quote_at((t + r).skip(k)) == t.len() - 1 - k,
    decreases t.len() - k,
{
    let s = t + r;
    assert(s.skip(k)[0] == t[k]);
    if k < t.len() - 1 {
        lemma_quote_again(t, r, k + 1);
        assert(s.skip(k).skip(1) =~= s.skip(k + 1));
    }
}

/// A token in front of a text is its first token, if a name does not run on.
proof fn lemma_token_ahead(t: Seq<char>, r: Seq<char>)
    requires
        lexeme(t),
        named(t) ==> tokens::name_ends(r),
    ensures
        tokens::lexed(t + r) == tokens::cons(t, tokens::lexed(r)),
{
    let s = t + r;
    let n = t.len() as int;
    reveal_strlit("->");
    assert(s[0] == t[0]);
    assert(s.take(n) =~= t);
    assert(s.skip(n) =~= r);
    if literal(t) {
        lemma_quote_again(t, r, 1);
    } else if t == "->"@ {
        assert(s[1] == '>');
    } else if t.len() == 1 && tokens::single(t[0]) {
    } else {
        lemma_name_again(t, r, 1);
        assert(!tokens::arrow(t.skip(0)));
        assert(t.skip(0) =~= t);
        if tokens::arrow(s) {
            if n > 1 {
                assert(s[1] == t[1]);
            } else {
                assert(s[1] == r[0]);
            }
        }
        assert forall|i: int| 0 <= i < n implies !tokens::splits(#[trigger] s[i]) by {
            assert(s[i] == t[i]);
        }
    }
}

/// The text of the tokens from `i` on.
spec fn onward(ts: Seq<Seq<char>>, i: int) -> Seq<char>
    decreases ts.len() - i,
{
    if i >= ts.len() {
        Seq::empty()
    } else {
        toplevel::spaced(ts, i) + onward(ts, i + 1)
    }
}

proof fn lemma_onward(ts: Seq<Seq<char>>, i: int)
    requires
        0 <= i <= ts.len(),
    ensures
        toplevel::detokenized(ts, i) + onward(ts, i) == toplevel::detokenized(ts, ts.len() as int),
    decreases ts.len() - i,
{
    if i < ts.len() {
        lemma_onward(ts, i + 1);
        let (a, b, c) = (toplevel::detokenized(ts, i), toplevel::spaced(ts, i), onward(ts, i + 1));
        assert(a + (b + c) =~= (a + b) + c);
        assert(toplevel::detokenized(ts, i + 1) == a + b);
    } else {
        assert(toplevel::detokenized(ts, i) + onward(ts, i) =~= toplevel::detokenized(ts, i));
    }
}

/// What follows a name ends it.
proof fn lemma_set_off(ts: Seq<Seq<char>>, i: int)
    requires
        0 <= i < ts.len(),
        named(ts[i]),
    ensures
        tokens::name_ends(onward(ts, i + 1)),
{
    reveal_strlit("(");
    reveal_strlit(")");
    if i + 1 < ts.len() {
        let r = onward(ts, i + 1);
        let b = toplevel::spaced(ts, i + 1);
        assert(ts[i] != "("@) by {
            if ts[i] == "("@ {
                assert(tokens::single(ts[i][0]));
            }
        }
        assert(b.len() > 0);
        assert(r[0] == b[0]);
    }
}

proof fn lemma_read_again(ts: Seq<Seq<char>>, i: int)
    requires
        0 <= i <= ts.len(),
        forall|j: int| 0 <= j < ts.len() ==> lexeme(#[trigger] ts[j]) && verbatim(ts[j]),
    ensures
        tokens::lexed(onward(ts, i)) == Ok::<Seq<Seq<char>>, TokenError>(ts.skip(i)),
        verbatim(onward(ts, i)),
    decreases ts.len() - i,
{
    if i < ts.len() {
        lemma_read_again(ts, i + 1);
        reveal_strlit("(");
        reveal_strlit(")");
        let t = ts[i];
        let r = onward(ts, i + 1);
        let b = toplevel::spaced(ts, i);
        let whole = b + r;
        assert(lexeme(t) && verbatim(t));
        if named(t) {
            lemma_set_off(ts, i);
        }
        assert(seq![t] + ts.skip(i + 1) =~= ts.skip(i));
        if b == t {
            lemma_token_ahead(t, r);
        } else if b == t.push(' ') {
            let gap = seq![' '] + r;
            assert(gap.skip(1) =~= r);
            assert(whole =~= t + gap);
            lemma_token_ahead(t, gap);
        } else {
            assert(b == seq![' '] + t);
            assert(whole.skip(1) =~= t + r);
            lemma_token_ahead(t, r);
        }
        assert forall|j: int| 0 <= j < whole.len() implies #[trigger] whole[j] != ';' && whole[j] != '\r' by {
            if j >= b.len() {
                assert(whole[j] == r[j - b.len()]);
            } else {
                assert(whole[j] == b[j]);
                if b == t {
                } else if b == t.push(' ') {
                    if j < t.len() {
                        assert(b[j] == t[j]);
                    }
                } else if j > 0 {
                    assert(b[j] == t[j - 1]);
                }
            }
        }
    } else {
        assert(ts.skip(i) =~= Seq::<Seq<char>>::empty());
    }
}

/// The tokens of a source text, displayed as text and read again, are the
/// same. A carriage return in a string literal may be dropped, so the source
/// has none.
pub proof fn lemma_displayed_tokens_read_back(source: Seq<char>, ts: Seq<Seq<char>>)
    requires
        forall|i: int| 0 <= i < source.len() ==> #[trigger] source[i] != '\r',
        tokens::tokens_of(source) == Ok::<Seq<Seq<char>>, TokenError>(ts),
    ensures
        tokens::tokens_of(toplevel::detokenized(ts, ts.len() as int)) == Ok::<
            Seq<Seq<char>>,
            TokenError,
        >(ts),
{
    lemma_uncommented_verbatim(source, false);
    lemma_lexemes(tokens::uncommented(source, false), ts);
    lemma_onward(ts, 0);
    lemma_read_again(ts, 0);
    let whole = toplevel::detokenized(ts, ts.len() as int);
    assert(Seq::<char>::empty() + onward(ts, 0) =~= onward(ts, 0));
    assert(whole == onward(ts, 0));
    lemma_verbatim_kept(whole);
    assert(ts.skip(0) =~= ts);
}

} // verus!
