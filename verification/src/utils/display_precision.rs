//! Numeric precision for posterior pretty-printing.
//!
//! By default posterior parameters print at 4 decimals and mixture-weight
//! percentages at 2. A setting, given as text, widens both.

use vstd::prelude::*;

use super::text::chars_of;
use crate::language::grammar;
use crate::language::parsing::{only_digits, read_number};

verus! {

/// White space in the sense of Unicode.
pub open spec fn white(c: char) -> bool {
    let n = c as int;
    ||| 0x9 <= n <= 0xd
    ||| n == 0x20 || n == 0x85 || n == 0xa0 || n == 0x1680
    ||| 0x2000 <= n <= 0x200a
    ||| n == 0x2028 || n == 0x2029 || n == 0x202f || n == 0x205f || n == 0x3000
}

/// The text without the white space at its start.
pub open spec fn from_first(s: Seq<char>) -> Seq<char>
    decreases s.len(),
{
    if s.len() > 0 && white(s[0]) {
        from_first(s.skip(1))
    } else {
        s
    }
}

/// The text without the white space at its end.
pub open spec fn up_to_last(s: Seq<char>) -> Seq<char>
    decreases s.len(),
{
    if s.len() > 0 && white(s.last()) {
        up_to_last(s.drop_last())
    } else {
        s
    }
}

/// The text without the white space around it.
pub open spec fn trimmed(s: Seq<char>) -> Seq<char> {
    up_to_last(from_first(s))
}

/// The number that a text stands for: decimal digits, with a plus sign or
/// without, as far as it can be held.
pub open spec fn count_of(s: Seq<char>) -> Option<usize> {
    let digits = if s.len() > 0 && s[0] == '+' {
        s.skip(1)
    } else {
        s
    };
    if digits.len() > 0 && grammar::all_digits(digits) && grammar::number(digits) <= usize::MAX {
        Some(grammar::number(digits) as usize)
    } else {
        None
    }
}

/// The precision that a setting asks for. Without a setting, or if its text
/// is no number, there is none.
pub open spec fn asked(setting: Option<&str>) -> Option<usize> {
    match setting {
        Some(text) => count_of(trimmed(text@)),
        None => None,
    }
}

/// The precision that holds: the one that is asked for, else the default.
pub open spec fn in_force(n: Option<usize>, default: usize) -> usize {
    match n {
        Some(n) => n,
        None => default,
    }
}

fn is_white(c: char) -> (r: bool)
    ensures
        r == white(c),
{
    let n: u32 = c as u32;
    (0x9 <= n && n <= 0xd) || n == 0x20 || n == 0x85 || n == 0xa0 || n == 0x1680 || (0x2000 <= n && n
        <= 0x200a) || n == 0x2028 || n == 0x2029 || n == 0x202f || n == 0x205f || n == 0x3000
}

/// The text without the white space around it.
fn trim(s: &str) -> (r: Vec<char>)
    ensures
        r@ == trimmed(s@),
{
    let all: Vec<char> = chars_of(s);
    let mut from: usize = 0;
    assert(all@.skip(0) =~= all@);
    while from < all.len() && is_white(all[from])
        invariant
            from <= all@.len(),
            from_first(all@) == from_first(all@.skip(from as int)),
        decreases all@.len() - from,
    {
        assert(all@.skip(from as int)[0] == all@[from as int]);
        assert(all@.skip(from as int).skip(1) =~= all@.skip(from + 1));
        from = from + 1;
    }
    assert(from < all@.len() ==> all@.skip(from as int)[0] == all@[from as int]);
    let ghost rest = all@.skip(from as int);
    assert(from_first(all@) == rest);
    let mut to: usize = all.len();
    assert(all@.subrange(from as int, to as int) =~= rest);
    while to > from && is_white(all[to - 1])
        invariant
            from <= to <= all@.len(),
            up_to_last(rest) == up_to_last(all@.subrange(from as int, to as int)),
        decreases to,
    {
        let ghost now = all@.subrange(from as int, to as int);
        assert(now.last() == all@[to - 1]);
        assert(now.drop_last() =~= all@.subrange(from as int, to - 1));
        to = to - 1;
    }
    assert(to > from ==> all@.subrange(from as int, to as int).last() == all@[to - 1]);
    let mut out: Vec<char> = Vec::new();
    let mut i: usize = from;
    while i < to
        invariant
            from <= i <= to <= all@.len(),
            out@ == all@.subrange(from as int, i as int),
        decreases to - i,
    {
        out.push(all[i]);
        assert(all@.subrange(from as int, i + 1) =~= all@.subrange(from as int, i as int).push(
            all@[i as int],
        ));
        i = i + 1;
    }
    out
}

/// Read a setting.
fn precision_of(setting: Option<&str>) -> (r: Option<usize>)
    ensures
        r == asked(setting),
{
    let text: Vec<char> = match setting {
        Some(text) => trim(text),
        None => {
            return None;
        },
    };
    let from: usize = if text.len() > 0 && text[0] == '+' {
        1
    } else {
        0
    };
    assert(text@.skip(0) =~= text@);
    if from == text.len() || !only_digits(&text, from) {
        return None;
    }
    match read_number(&text, from) {
        Some(n) => if n <= usize::MAX as u64 {
            Some(n as usize)
        } else {
            None
        },
        None => None,
    }
}

/// Decimal places for conjugate-family parameters (Beta / Gamma / Normal /
/// Dirichlet). Default 4; overridden by the setting.
pub fn param_precision(setting: Option<&str>) -> (r: usize)
    ensures
        r == in_force(asked(setting), 4),
{
    match precision_of(setting) {
        Some(n) => n,
        None => 4,
    }
}

/// Decimal places for within-group mixture-weight percentages. Default 2;
/// overridden by the setting.
pub fn weight_precision(setting: Option<&str>) -> (r: usize)
    ensures
        r == in_force(asked(setting), 2),
{
    match precision_of(setting) {
        Some(n) => n,
        None => 2,
    }
}

/// The setting that is read first, kept for all later calls.
#[derive(Debug)]
pub struct KeptPrecision {
    /// What was asked for, once it is read.
    pub first: Option<Option<usize>>,
}

impl Default for KeptPrecision {
    fn default() -> (r: Self)
        ensures
            r.first is None,
    {
        KeptPrecision { first: None }
    }
}

impl KeptPrecision {
    /// What is asked for when the setting is read now.
    pub open spec fn asks(self, setting: Option<&str>) -> Option<usize> {
        match self.first {
            Some(n) => n,
            None => asked(setting),
        }
    }

    fn read(&mut self, setting: Option<&str>) -> (r: Option<usize>)
        ensures
            r == old(self).asks(setting),
            final(self).first == Some(old(self).asks(setting)),
    {
        match self.first {
            Some(n) => n,
            None => {
                let n: Option<usize> = precision_of(setting);
                self.first = Some(n);
                n
            },
        }
    }

    /// Decimal places for conjugate-family parameters.
    pub fn param_precision(&mut self, setting: Option<&str>) -> (r: usize)
        ensures
            r == in_force(old(self).asks(setting), 4),
            final(self).first == Some(old(self).asks(setting)),
    {
        match self.read(setting) {
            Some(n) => n,
            None => 4,
        }
    }

    /// Decimal places for mixture-weight percentages.
    pub fn weight_precision(&mut self, setting: Option<&str>) -> (r: usize)
        ensures
            r == in_force(old(self).asks(setting), 2),
            final(self).first == Some(old(self).asks(setting)),
    {
        match self.read(setting) {
            Some(n) => n,
            None => 2,
        }
    }
}

/// A number in the setting holds for parameters and for percentages; any
/// other setting, or none, leaves both at their defaults.
pub proof fn lemma_one_setting_for_both(setting: Option<&str>)
    ensures
        asked(setting) matches Some(n) ==> in_force(asked(setting), 4) == n && in_force(
            asked(setting),
            2,
        ) == n,
        asked(setting) is None ==> in_force(asked(setting), 4) == 4 && in_force(asked(setting), 2)
            == 2,
{
}

/// Once the setting was read, by either function, every later call goes by
/// what was read first, whatever the setting is by then.
pub proof fn lemma_first_setting_stays(
    before: KeptPrecision,
    first: Option<&str>,
    after: KeptPrecision,
    later: Option<&str>,
)
    requires
        before.first is None,
        after.first == Some(before.asks(first)),
    ensures
        after.asks(later) == asked(first),
        Some(after.asks(later)) == after.first,
{
}

} // verus!
