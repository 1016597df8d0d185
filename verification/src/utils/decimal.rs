//! Decimal digits.

use vstd::prelude::*;

verus! {

/// The digit for a number below ten.
pub open spec fn digit(d: nat) -> char {
    (0x30 + d) as char
}

/// A number in decimal digits, without leading zeros.
pub open spec fn decimal(n: nat) -> Seq<char>
    decreases n,
{
    if n < 10 {
        seq![digit(n)]
    } else {
        decimal(n / 10).push(digit(n % 10))
    }
}

/// The number that digits stand for, when the digit for zero is `zero`.
pub open spec fn reading(s: Seq<char>, zero: int) -> int
    decreases s.len(),
{
    if s.len() == 0 {
        0
    } else {
        10 * reading(s.drop_last(), zero) + (s.last() as int - zero)
    }
}

/// Reading back the digits of a number gives the number.
pub proof fn lemma_decimal_read(n: nat)
    ensures
        reading(decimal(n), 0x30) == n,
        decimal(n).len() > 0,
    decreases n,
{
    if n < 10 {
        let s = seq![digit(n)];
        assert(s.drop_last().len() == 0);
        assert(reading(s.drop_last(), 0x30) == 0);
    } else {
        lemma_decimal_read(n / 10);
        assert(decimal(n).drop_last() =~= decimal(n / 10));
    }
}

/// Different numbers have different digits.
pub proof fn lemma_decimal_tells(m: nat, n: nat)
    requires
        decimal(m) == decimal(n),
    ensures
        m == n,
{
    lemma_decimal_read(m);
    lemma_decimal_read(n);
}

/// An integer in decimal digits, with a sign if it is negative.
pub open spec fn signed_decimal(n: int) -> Seq<char> {
    if n < 0 {
        seq!['-'] + decimal((-n) as nat)
    } else {
        decimal(n as nat)
    }
}

fn digit_char(d: u8) -> (r: char)
    requires
        d < 10,
    ensures
        r == digit(d as nat),
{
    (0x30u8 + d) as char
}

/// Append the digits of a number.
pub fn push_decimal(out: &mut String, n: u128)
    ensures
        final(out)@ == old(out)@ + decimal(n as nat),
    decreases n,
{
    if n < 10 {
        out.push(digit_char(n as u8));
        assert(out@ =~= old(out)@ + decimal(n as nat));
    } else {
        push_decimal(out, n / 10);
        out.push(digit_char((n % 10) as u8));
        assert(out@ =~= old(out)@ + decimal(n as nat));
    }
}

/// Append an integer.
pub fn push_signed(out: &mut String, n: i64)
    ensures
        final(out)@ == old(out)@ + signed_decimal(n as int),
{
    if n < 0 {
        out.push('-');
        push_decimal(out, (-(n as i128)) as u128);
        assert(out@ =~= old(out)@ + signed_decimal(n as int));
    } else {
        push_decimal(out, n as u128);
    }
}

/// The digit below the line for a number below ten.
pub open spec fn subscript_digit(d: nat) -> char {
    (0x2080 + d) as char
}

/// A number in digits below the line.
pub open spec fn subscript(n: nat) -> Seq<char> {
    Seq::new(decimal(n).len(), |i: int| (0x2080 + (decimal(n)[i] as int - 0x30)) as char)
}

fn subscript_char(d: u8) -> (r: char)
    requires
        d < 10,
    ensures
        r == subscript_digit(d as nat),
{
    match d {
        0 => '₀',
        1 => '₁',
        2 => '₂',
        3 => '₃',
        4 => '₄',
        5 => '₅',
        6 => '₆',
        7 => '₇',
        8 => '₈',
        _ => '₉',
    }
}

proof fn lemma_subscript_grows(n: nat)
    ensures
        n < 10 ==> subscript(n) == seq![subscript_digit(n)],
        n >= 10 ==> subscript(n) == subscript(n / 10).push(subscript_digit(n % 10)),
{
    if n < 10 {
        assert(subscript(n) =~= seq![subscript_digit(n)]);
    } else {
        assert(decimal(n) == decimal(n / 10).push(digit(n % 10)));
        assert(subscript(n) =~= subscript(n / 10).push(subscript_digit(n % 10)));
    }
}

/// Reading back the digits below the line gives the number.
pub proof fn lemma_subscript_read(n: nat)
    ensures
        reading(subscript(n), 0x2080) == n,
    decreases n,
{
    lemma_subscript_grows(n);
    if n < 10 {
        let s = seq![subscript_digit(n)];
        assert(s.drop_last().len() == 0);
        assert(reading(s.drop_last(), 0x2080) == 0);
    } else {
        lemma_subscript_read(n / 10);
        assert(subscript(n).drop_last() =~= subscript(n / 10));
    }
}

/// Append a number in digits below the line.
pub fn push_subscript(out: &mut String, n: u64)
    ensures
        final(out)@ == old(out)@ + subscript(n as nat),
    decreases n,
{
    proof {
        lemma_subscript_grows(n as nat);
    }
    if n < 10 {
        out.push(subscript_char(n as u8));
        assert(out@ =~= old(out)@ + subscript(n as nat));
    } else {
        push_subscript(out, n / 10);
        out.push(subscript_char((n % 10) as u8));
        assert(out@ =~= old(out)@ + subscript(n as nat));
    }
}

/// Render a non-negative integer as a Unicode subscript string
/// (`12` → `"₁₂"`).
pub fn subscript_str(n: usize) -> (r: String)
    ensures
        r@ == subscript(n as nat),
{
    let mut out: String = String::new();
    push_subscript(&mut out, n as u64);
    assert(out@ =~= subscript(n as nat));
    out
}

} // verus!
