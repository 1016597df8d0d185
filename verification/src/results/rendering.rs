//! Values as text.

use vstd::arithmetic::power2;
use vstd::prelude::*;

use super::naming;
use super::naming::{find_expr, lookup_or_max, text_views, Names, NamingScheme};
use super::positions::{Affine, GaussianAffineExpr};
use crate::discrete_factorizations::BooleanFunction;
use crate::inference::int_dists;
use crate::language::pexpr::NativeVal;
use crate::language::types;
use crate::language::types::{StringInterner, Symbol};
use crate::language::values;
use crate::language::values::{clone_pairs, extract_nat, PluckVal, PluckValue};
use crate::utils::decimal;
use crate::utils::decimal::{push_decimal, push_signed, push_subscript};
use crate::utils::reals;
use crate::utils::reals::{real_equal, spell, Spelling, ONE, ZERO};
use crate::utils::text::{push_text, same_text};

verus! {

broadcast use vstd::std_specs::hash::group_hash_axioms;

/// The text of bytes that need not be valid UTF-8, as
/// `String::from_utf8_lossy` gives it.
pub uninterp spec fn lossy_text(bytes: Seq<u8>) -> Seq<char>;

/// `String::from_utf8_lossy`: the text of valid UTF-8 is what it encodes;
/// what stands for other bytes is a function of the bytes, of which nothing
/// more is claimed.
#[verifier::external_body]
fn text_of_bytes(bytes: &Vec<u8>) -> (r: String)
    ensures
        r@ == lossy_text(bytes@),
        vstd::utf8::valid_utf8(bytes@) ==> r@ == vstd::utf8::decode_utf8(bytes@),
{
    String::from_utf8_lossy(bytes).to_string()
}

/// What a text is made from besides a value: the names of symbols, the names
/// of variables if there are any, and the way numbers are written.
pub struct Wording {
    pub table: Seq<Seq<char>>,
    pub names: Option<Names>,
    pub spell: Spelling,
}

impl Wording {
    pub open spec fn nil(self) -> Symbol {
        naming::symbol_or_max(self.table, "Nil"@)
    }

    pub open spec fn cons(self) -> Symbol {
        naming::symbol_or_max(self.table, "Cons"@)
    }

    /// The display name of a variable.
    pub open spec fn var(self, v: u64) -> Option<Seq<char>> {
        match self.names {
            Some(n) => if n.vars.dom().contains(v) {
                Some(n.vars[v])
            } else {
                None
            },
            None => None,
        }
    }

    /// The display name of a variable, or one made of its number.
    pub open spec fn var_or(self, v: u64, family: Seq<char>) -> Seq<char> {
        match self.var(v) {
            Some(n) => n,
            None => family + "(#"@ + decimal::decimal(v as nat) + ") [prior]"@,
        }
    }
}

/// Texts with a separator between them.
pub open spec fn join(parts: Seq<Seq<char>>, sep: Seq<char>) -> Seq<char>
    decreases parts.len(),
{
    if parts.len() == 0 {
        Seq::empty()
    } else if parts.len() == 1 {
        parts[0]
    } else {
        join(parts.drop_last(), sep) + sep + parts.last()
    }
}

/// A term of an affine expression.
pub open spec fn term(e: (u64, u64), spell: Spelling) -> Seq<char> {
    if reals::equal(e.1, ONE) {
        "G#"@ + decimal::decimal(e.0 as nat)
    } else {
        spell(e.1) + "*G#"@ + decimal::decimal(e.0 as nat)
    }
}

/// The terms of an affine expression: the constant unless it is 0, and one
/// for each variable.
pub open spec fn terms(constant: u64, coefficients: Seq<(u64, u64)>, spell: Spelling) -> Seq<Seq<char>>
    decreases coefficients.len(),
{
    if coefficients.len() == 0 {
        if reals::equal(constant, ZERO) {
            Seq::empty()
        } else {
            seq![spell(constant)]
        }
    } else {
        terms(constant, coefficients.drop_last(), spell).push(term(coefficients.last(), spell))
    }
}

/// The text of a symbolic value, none for others.
pub open spec fn symbolic_text(v: &PluckValue, w: Wording) -> Option<Seq<char>> {
    match v {
        PluckValue::Probability(name) => Some(w.var_or(*name, "Beta"@)),
        PluckValue::DirichletProbability { name, index, .. } => Some(
            match w.var(*name) {
                Some(n) => n + decimal::subscript(*index as nat),
                None => "Dirichlet(#"@ + decimal::decimal(*name as nat) + ")["@ + decimal::decimal(
                    *index as nat,
                ) + "] [prior]"@,
            },
        ),
        PluckValue::DirichletVector { name, .. } => Some(w.var_or(*name, "Dirichlet"@)),
        PluckValue::GaussianExpr { constant, coefficients } => Some(
            if coefficients@.len() == 0 {
                (w.spell)(*constant)
            } else {
                let e = Affine { constant: *constant, coefficients: coefficients@ };
                let known = match w.names {
                    Some(n) => n.expr(e),
                    None => None,
                };
                match known {
                    Some(n) => n,
                    None => "GaussianExpr("@ + join(
                        terms(*constant, coefficients@, w.spell),
                        " + "@,
                    ) + ")"@,
                }
            },
        ),
        PluckValue::Gamma { name, scale } => Some(
            if reals::equal(*scale, ONE) {
                w.var_or(*name, "Gamma"@)
            } else {
                (w.spell)(*scale) + " * "@ + w.var_or(*name, "Gamma"@)
            },
        ),
        PluckValue::Exponential { name, .. } => Some(w.var_or(*name, "Exponential"@)),
        PluckValue::Poisson { name, .. } => Some(w.var_or(*name, "Poisson"@)),
        _ => None,
    }
}

pub fn join_texts(parts: &Vec<String>, sep: &str) -> (r: String)
    ensures
        r@ == join(text_views(parts@), sep@),
{
    let mut out: String = String::new();
    let ghost all = text_views(parts@);
    let mut i: usize = 0;
    assert(out@ =~= join(all.take(0), sep@));
    while i < parts.len()
        invariant
            i <= parts@.len(),
            all == text_views(parts@),
            out@ == join(all.take(i as int), sep@),
        decreases parts@.len() - i,
    {
        let ghost before = out@;
        assert(all.take(i + 1).drop_last() =~= all.take(i as int));
        assert(all.take(i + 1).last() == parts@[i as int]@);
        if i > 0 {
            push_text(&mut out, sep);
        }
        push_text(&mut out, parts[i].as_str());
        proof {
            if i == 0 {
                assert(all.take(1)[0] == parts@[0]@);
                assert(out@ =~= join(all.take(1), sep@));
            } else {
                assert(out@ =~= join(all.take(i as int), sep@) + sep@ + parts@[i as int]@);
            }
        }
        i = i + 1;
    }
    assert(all.take(i as int) =~= all);
    out
}

pub open spec fn wording<G: Fn(u64) -> String>(
    interner: StringInterner,
    naming: Option<&NamingScheme>,
    g: G,
) -> Wording {
    Wording {
        table: interner@,
        names: match naming {
            Some(n) => Some(n@),
            None => None,
        },
        spell: reals::spelling(g),
    }
}

/// What names symbolic values have.
pub open spec fn symbolic_wording<G: Fn(u64) -> String>(
    naming: Option<&NamingScheme>,
    g: G,
) -> Wording {
    Wording {
        table: Seq::empty(),
        names: match naming {
            Some(n) => Some(n@),
            None => None,
        },
        spell: reals::spelling(g),
    }
}

fn push_var(out: &mut String, naming: Option<&NamingScheme>, name: u64, family: &str)
    ensures
        forall|w: Wording|
            w.names == (match naming {
                Some(n) => Some(n@),
                None => None::<Names>,
            }) ==> final(out)@ == old(out)@ + #[trigger] w.var_or(name, family@),
{
    if let Some(n) = naming {
        if let Some(text) = n.var_names.get(&name) {
            assert(n@.vars[name] == text@);
            push_text(out, text.as_str());
            return ;
        }
    }
    push_text(out, family);
    push_text(out, "(#");
    push_decimal(out, name as u128);
    push_text(out, ") [prior]");
    assert(out@ =~= old(out)@ + (family@ + "(#"@ + decimal::decimal(name as nat) + ") [prior]"@));
}

fn expression_terms<G: Fn(u64) -> String>(
    constant: u64,
    coefficients: &Vec<(u64, u64)>,
    g: &G,
) -> (r: Vec<String>)
    requires
        reals::spells(*g),
    ensures
        text_views(r@) == terms(constant, coefficients@, reals::spelling(*g)),
{
    let mut parts: Vec<String> = Vec::new();
    let ghost sp = reals::spelling(*g);
    if !real_equal(constant, ZERO) {
        parts.push(spell(g, constant));
    }
    let mut i: usize = 0;
    assert(text_views(parts@) =~= terms(constant, coefficients@.take(0), sp));
    while i < coefficients.len()
        invariant
            i <= coefficients@.len(),
            reals::spells(*g),
            sp == reals::spelling(*g),
            text_views(parts@) == terms(constant, coefficients@.take(i as int), sp),
        decreases coefficients@.len() - i,
    {
        let ghost before = text_views(parts@);
        let e: (u64, u64) = coefficients[i];
        assert(coefficients@.take(i + 1).drop_last() =~= coefficients@.take(i as int));
        let mut part: String = String::new();
        if real_equal(e.1, ONE) {
            push_text(&mut part, "G#");
        } else {
            let number: String = spell(g, e.1);
            push_text(&mut part, number.as_str());
            push_text(&mut part, "*G#");
        }
        push_decimal(&mut part, e.0 as u128);
        assert(part@ =~= term(e, sp));
        let ghost text = part@;
        parts.push(part);
        assert(text_views(parts@) =~= before.push(text));
        i = i + 1;
    }
    assert(coefficients@.take(i as int) =~= coefficients@);
    parts
}

impl PluckValue {
    /// Render a symbolic value under a naming scheme: by its display name if
    /// it has one, and by the number of its variable otherwise. Returns
    /// `None` for values that are not symbolic.
    pub fn render_symbolic<G: Fn(u64) -> String>(
        &self,
        naming: Option<&NamingScheme>,
        g: &G,
    ) -> (r: Option<String>)
        requires
            reals::spells(*g),
        ensures
            match r {
                Some(s) => symbolic_text(self, symbolic_wording(naming, *g)) == Some(s@),
                None => symbolic_text(self, symbolic_wording(naming, *g)) is None,
            },
    {
        let ghost w = symbolic_wording(naming, *g);
        let mut out: String = String::new();
        match self {
            PluckValue::Probability(name) => {
                push_var(&mut out, naming, *name, "Beta");
                assert(out@ =~= w.var_or(*name, "Beta"@));
            },
            PluckValue::DirichletProbability { name, index, .. } => {
                let known: Option<&String> = match naming {
                    Some(n) => n.var_names.get(name),
                    None => None,
                };
                match known {
                    Some(n) => {
                        assert(w.var(*name) == Some(n@));
                        push_text(&mut out, n.as_str());
                        push_subscript(&mut out, *index as u64);
                        assert(out@ =~= n@ + decimal::subscript(*index as nat));
                    },
                    None => {
                        assert(w.var(*name) is None);
                        push_text(&mut out, "Dirichlet(#");
                        push_decimal(&mut out, *name as u128);
                        push_text(&mut out, ")[");
                        push_decimal(&mut out, *index as u128);
                        push_text(&mut out, "] [prior]");
                        assert(out@ =~= "Dirichlet(#"@ + decimal::decimal(*name as nat) + ")["@
                            + decimal::decimal(*index as nat) + "] [prior]"@);
                    },
                }
            },
            PluckValue::DirichletVector { name, .. } => {
                push_var(&mut out, naming, *name, "Dirichlet");
                assert(out@ =~= w.var_or(*name, "Dirichlet"@));
            },
            PluckValue::GaussianExpr { constant, coefficients } => {
                if coefficients.len() == 0 {
                    return Some(spell(g, *constant));
                }
                let e = GaussianAffineExpr {
                    constant: *constant,
                    coefficients: clone_pairs(coefficients),
                };
                if let Some(n) = naming {
                    if let Some(text) = find_expr(&n.expr_names, &e) {
                        assert(n@.expr(e@) == Some(text@));
                        return Some(text.clone());
                    }
                    assert(n@.expr(e@) is None);
                }
                let parts: Vec<String> = expression_terms(*constant, coefficients, g);
                let text: String = join_texts(&parts, " + ");
                push_text(&mut out, "GaussianExpr(");
                push_text(&mut out, text.as_str());
                push_text(&mut out, ")");
                assert(out@ =~= "GaussianExpr("@ + text@ + ")"@);
            },
            PluckValue::Gamma { name, scale } => {
                if !real_equal(*scale, ONE) {
                    let number: String = spell(g, *scale);
                    push_text(&mut out, number.as_str());
                    push_text(&mut out, " * ");
                    push_var(&mut out, naming, *name, "Gamma");
                    assert(out@ =~= number@ + " * "@ + w.var_or(*name, "Gamma"@));
                } else {
                    push_var(&mut out, naming, *name, "Gamma");
                    assert(out@ =~= w.var_or(*name, "Gamma"@));
                }
            },
            PluckValue::Exponential { name, .. } => {
                push_var(&mut out, naming, *name, "Exponential");
                assert(out@ =~= w.var_or(*name, "Exponential"@));
            },
            PluckValue::Poisson { name, .. } => {
                push_var(&mut out, naming, *name, "Poisson");
                assert(out@ =~= w.var_or(*name, "Poisson"@));
            },
            _ => {
                return None;
            },
        }
        Some(out)
    }
}

/// The bits of an integer that is the same in all worlds.
pub open spec fn fixed_bits(bits: Seq<BooleanFunction>) -> Option<Seq<bool>> {
    if forall|i: int| 0 <= i < bits.len() ==> (#[trigger] bits[i]) is True || bits[i] is False {
        Some(Seq::new(bits.len(), |i: int| bits[i] is True))
    } else {
        None
    }
}

/// The number that an integer is in all worlds.
pub open spec fn fixed_number(bits: Seq<BooleanFunction>) -> Option<nat> {
    match fixed_bits(bits) {
        Some(b) => Some(int_dists::value(b)),
        None => None,
    }
}

/// The text of an integer: a printable character if it has eight bits, its
/// value, or its width if the value depends on the world.
pub open spec fn int_text(bits: Seq<BooleanFunction>) -> Seq<char> {
    match fixed_number(bits) {
        Some(n) => if bits.len() == 8 && 32 <= n <= 126 {
            seq!['\'', n as char, '\'']
        } else {
            "@"@ + decimal::decimal(n)
        },
        None => "IntDist{width="@ + decimal::decimal(bits.len()) + "}"@,
    }
}

/// The bytes of a list of eight-bit integers that are the same in all
/// worlds.
pub open spec fn byte_list(v: &PluckValue, nil: Symbol, cons: Symbol) -> Option<Seq<u8>>
    decreases v,
{
    match v {
        PluckValue::Value { constructor, args } => if *constructor == nil && args@.len() == 0 {
            Some(Seq::empty())
        } else if *constructor == cons && args@.len() == 2 {
            match (byte_of(&*args@[0]), byte_list(&*args@[1], nil, cons)) {
                (Some(b), Some(rest)) => Some(seq![b] + rest),
                _ => None,
            }
        } else {
            None
        },
        _ => None,
    }
}

pub open spec fn byte_of(v: &PluckValue) -> Option<u8> {
    match v {
        PluckValue::IntDist { bits } => if bits@.len() == 8 {
            match fixed_number(bits@) {
                Some(n) => Some(n as u8),
                None => None,
            }
        } else {
            None
        },
        _ => None,
    }
}

/// The value is a list.
pub open spec fn is_list(v: &PluckValue, nil: Symbol, cons: Symbol) -> bool
    decreases v,
{
    match v {
        PluckValue::Value { constructor, args } => (*constructor == nil && args@.len() == 0) || (
        *constructor == cons && args@.len() == 2 && is_list(&*args@[1], nil, cons)),
        _ => false,
    }
}

/// The number that a value is, if the constructors of numbers are known.
pub open spec fn number_of(v: &PluckValue, table: Seq<Seq<char>>) -> Option<u64> {
    if table.contains("O"@) && table.contains("S"@) {
        values::nat_of(*v, types::symbol_in(table, "O"@), types::symbol_in(table, "S"@))
    } else {
        None
    }
}

/// The text of a value: a string, a list, a number, or what else it is.
pub open spec fn rendered(v: &PluckValue, w: Wording) -> Seq<char>
    decreases v, 1int,
{
    match byte_list(v, w.nil(), w.cons()) {
        Some(bytes) => if bytes.len() > 0 {
            seq!['"'] + lossy_text(bytes) + seq!['"']
        } else {
            "["@ + join(elements(v, w), ", "@) + "]"@
        },
        None => if is_list(v, w.nil(), w.cons()) {
            "["@ + join(elements(v, w), ", "@) + "]"@
        } else {
            match number_of(v, w.table) {
                Some(n) => decimal::decimal(n as nat),
                None => plain(v, w),
            }
        },
    }
}

/// The texts of the elements of a list.
pub open spec fn elements(v: &PluckValue, w: Wording) -> Seq<Seq<char>>
    decreases v, 0int,
{
    match v {
        PluckValue::Value { constructor, args } => if args@.len() == 2 {
            seq![rendered(&*args@[0], w)] + elements(&*args@[1], w)
        } else {
            Seq::empty()
        },
        _ => Seq::empty(),
    }
}

/// The text of a value that is neither a string, a list nor a number.
pub open spec fn plain(v: &PluckValue, w: Wording) -> Seq<char>
    decreases v, 0int,
{
    match v {
        PluckValue::Value { constructor, args } => {
            let name = w.table[*constructor as int];
            if name == "Pair"@ && args@.len() == 2 {
                "("@ + rendered(&*args@[0], w) + ", "@ + rendered(&*args@[1], w) + ")"@
            } else if args@.len() == 0 {
                name
            } else {
                "("@ + name + " "@ + join(texts(args@, 0, args@.len() as int, w), " "@) + ")"@
            }
        },
        PluckValue::Native(NativeVal::Float(b)) => (w.spell)(*b),
        PluckValue::Native(NativeVal::Int(i)) => decimal::signed_decimal(*i as int),
        PluckValue::Native(NativeVal::Symbol(s)) => seq!['\''] + w.table[*s as int],
        PluckValue::Native(NativeVal::Bool(b)) => if *b {
            "true"@
        } else {
            "false"@
        },
        PluckValue::Native(NativeVal::Share(_)) => Seq::empty(),
        PluckValue::Closure(_) => "<closure>"@,
        PluckValue::IntDist { bits } => int_text(bits@),
        PluckValue::Thunk(_) => "<thunk>"@,
        PluckValue::ThunkUnion(_) => "<thunk-union>"@,
        PluckValue::FloatMatrix { entries, shape } => if shape@.len() == 1 {
            "{"@ + join(texts(entries@, 0, entries@.len() as int, w), ", "@) + "}"@
        } else if shape@.len() == 2 {
            "{"@ + join(rows(entries@, shape@[1] as int, shape@[0] as nat, w), ", "@) + "}"@
        } else {
            "<FloatMatrix shape=["@ + join(extents(shape@), ", "@) + "]>"@
        },
        _ => match symbolic_text(v, w) {
            Some(t) => t,
            None => Seq::empty(),
        },
    }
}

/// The texts of the values at `from..to`.
pub open spec fn texts(s: Seq<PluckVal>, from: int, to: int, w: Wording) -> Seq<Seq<char>>
    decreases s, to - from,
{
    if from < 0 || from >= to || to > s.len() {
        Seq::empty()
    } else {
        texts(s, from, to - 1, w).push(rendered(&*s[to - 1], w))
    }
}

/// The texts of the first `n` rows of a matrix.
pub open spec fn rows(s: Seq<PluckVal>, cols: int, n: nat, w: Wording) -> Seq<Seq<char>>
    decreases s, n + cols + 1,
{
    if n == 0 || cols < 0 {
        Seq::empty()
    } else {
        let start = (n - 1) * cols;
        rows(s, cols, (n - 1) as nat, w).push(
            "{"@ + join(texts(s, start, start + cols, w), ", "@) + "}"@,
        )
    }
}

/// Numbers as texts.
pub open spec fn extents(s: Seq<usize>) -> Seq<Seq<char>> {
    Seq::new(s.len(), |i: int| decimal::decimal(s[i] as nat))
}

/// A value that has a text: its symbols are in the table, integers are at
/// most 64 bits wide, and matrices have the entries that their shape asks
/// for.
pub open spec fn readable(v: &PluckValue, n: nat) -> bool
    decreases v,
{
    match v {
        PluckValue::Value { constructor, args } => (*constructor as int) < n && all_readable(
            args@,
            n,
        ),
        PluckValue::Native(NativeVal::Symbol(s)) => (*s as int) < n,
        PluckValue::Native(NativeVal::Share(_)) => false,
        PluckValue::IntDist { bits } => bits@.len() <= 64,
        PluckValue::FloatMatrix { entries, shape } => all_readable(entries@, n) && (shape@.len()
            == 2 ==> shape@[0] * shape@[1] <= entries@.len()),
        _ => true,
    }
}

pub open spec fn all_readable(s: Seq<PluckVal>, n: nat) -> bool
    decreases s,
{
    s.len() == 0 || (all_readable(s.drop_last(), n) && readable(&*s.last(), n))
}

proof fn lemma_all_readable(s: Seq<PluckVal>, n: nat)
    ensures
        all_readable(s, n) <==> forall|i: int| 0 <= i < s.len() ==> readable(&*(#[trigger] s[i]), n),
    decreases s.len(),
{
    if s.len() > 0 {
        let p = s.drop_last();
        lemma_all_readable(p, n);
        if all_readable(s, n) {
            assert forall|i: int| 0 <= i < s.len() implies readable(&*(#[trigger] s[i]), n) by {
                if i < p.len() {
                    assert(readable(&*p[i], n));
                }
            }
        }
        if forall|i: int| 0 <= i < s.len() ==> readable(&*(#[trigger] s[i]), n) {
            assert forall|i: int| 0 <= i < p.len() implies readable(&*(#[trigger] p[i]), n) by {
                assert(readable(&*s[i], n));
            }
            assert(readable(&*s[s.len() - 1], n));
        }
    }
}

/// Does the value have a text when `n` symbols are known?
pub fn is_readable(v: &PluckValue, n: usize) -> (r: bool)
    ensures
        r == readable(v, n as nat),
    decreases v,
{
    match v {
        PluckValue::Value { constructor, args } => (*constructor as usize) < n && are_readable(
            args,
            n,
        ),
        PluckValue::Native(NativeVal::Symbol(s)) => (*s as usize) < n,
        PluckValue::Native(NativeVal::Share(_)) => false,
        PluckValue::IntDist { bits } => bits.len() <= 64,
        PluckValue::FloatMatrix { entries, shape } => {
            if !are_readable(entries, n) {
                return false;
            }
            if shape.len() == 2 {
                let a: usize = shape[0];
                let b: usize = shape[1];
                assert(a * b <= u128::MAX) by (nonlinear_arith)
                    requires
                        a <= u64::MAX,
                        b <= u64::MAX,
                ;
                a as u128 * b as u128 <= entries.len() as u128
            } else {
                true
            }
        },
        _ => true,
    }
}

fn are_readable(s: &Vec<PluckVal>, n: usize) -> (r: bool)
    ensures
        r == all_readable(s@, n as nat),
    decreases s,
{
    proof {
        lemma_all_readable(s@, n as nat);
    }
    let mut i: usize = 0;
    while i < s.len()
        invariant
            i <= s@.len(),
            forall|j: int| 0 <= j < i ==> readable(&*(#[trigger] s@[j]), n as nat),
        decreases s@.len() - i,
    {
        if !is_readable(&s[i], n) {
            proof {
                lemma_all_readable(s@, n as nat);
                assert(!readable(&*s@[i as int], n as nat));
            }
            return false;
        }
        i = i + 1;
    }
    true
}

proof fn lemma_number_bound(bits: Seq<bool>)
    ensures
        int_dists::value(bits) < power2::pow2(bits.len()),
    decreases bits.len(),
{
    if bits.len() > 0 {
        lemma_number_bound(bits.drop_last());
        power2::lemma_pow2_unfold(bits.len());
    } else {
        power2::lemma2_to64();
    }
}

/// The number that an integer is in all worlds.
fn fixed_value(bits: &Vec<BooleanFunction>) -> (r: Option<u64>)
    requires
        bits@.len() <= 64,
    ensures
        match r {
            Some(n) => fixed_number(bits@) == Some(n as nat),
            None => fixed_number(bits@) is None,
        },
{
    let ghost all = Seq::new(bits@.len(), |i: int| bits@[i] is True);
    let mut total: u64 = 0;
    let mut unit: u64 = 1;
    let mut i: usize = 0;
    proof {
        power2::lemma2_to64();
    }
    while i < bits.len()
        invariant
            i <= bits@.len() <= 64,
            all == Seq::new(bits@.len(), |i: int| bits@[i] is True),
            forall|j: int| 0 <= j < i ==> (#[trigger] bits@[j]) is True || bits@[j] is False,
            total == int_dists::value(all.take(i as int)),
            i < 64 ==> unit == power2::pow2(i as nat),
        decreases bits@.len() - i,
    {
        proof {
            assert(all.take(i + 1).drop_last() =~= all.take(i as int));
            lemma_number_bound(all.take(i + 1));
            power2::lemma2_to64();
            power2::lemma2_to64_rest();
            if i + 1 < 64 {
                power2::lemma_pow2_unfold((i + 1) as nat);
                power2::lemma_pow2_strictly_increases((i + 1) as nat, 64);
            } else {
                assert(i + 1 == 64);
            }
            if i + 1 < 64 {
                assert(power2::pow2((i + 1) as nat) <= u64::MAX);
            }
            assert(power2::pow2(64) == 0x1_0000_0000_0000_0000);
            assert(int_dists::value(all.take(i + 1)) <= u64::MAX) by {
                if i + 1 < 64 {
                    power2::lemma_pow2_strictly_increases((i + 1) as nat, 64);
                }
            }
        }
        if bits[i].is_true() {
            total = total + unit;
        } else if !bits[i].is_false() {
            return None;
        }
        i = i + 1;
        if i < 64 {
            unit = unit * 2;
        }
    }
    assert(all.take(i as int) =~= all);
    Some(total)
}

fn format_int_dist(bits: &Vec<BooleanFunction>) -> (r: String)
    requires
        bits@.len() <= 64,
    ensures
        r@ == int_text(bits@),
{
    let mut out: String = String::new();
    match fixed_value(bits) {
        Some(n) => {
            if bits.len() == 8 && 32 <= n && n <= 126 {
                out.push('\'');
                out.push((n as u8) as char);
                out.push('\'');
                assert(out@ =~= int_text(bits@));
            } else {
                push_text(&mut out, "@");
                push_decimal(&mut out, n as u128);
                assert(out@ =~= "@"@ + decimal::decimal(n as nat));
            }
        },
        None => {
            push_text(&mut out, "IntDist{width=");
            push_decimal(&mut out, bits.len() as u128);
            push_text(&mut out, "}");
            assert(out@ =~= "IntDist{width="@ + decimal::decimal(bits@.len()) + "}"@);
        },
    }
    out
}

/// The bytes of a string: of a list of one eight-bit integer or more, each
/// the same in all worlds.
fn try_extract_string(val: &PluckVal, nil_sym: Symbol, cons_sym: Symbol) -> (r: Option<String>)
    ensures
        match byte_list(&**val, nil_sym, cons_sym) {
            Some(bytes) => if bytes.len() > 0 {
                r matches Some(s) && s@ == lossy_text(bytes)
            } else {
                r is None
            },
            None => r is None,
        },
{
    let mut chars: Vec<u8> = Vec::new();
    let mut current: &PluckValue = val;
    let ghost whole = byte_list(&**val, nil_sym, cons_sym);
    assert(whole matches Some(all) ==> chars@ + byte_list(current, nil_sym, cons_sym)->0 =~= all);
    loop
        invariant
            whole == byte_list(&**val, nil_sym, cons_sym),
            whole is Some <==> byte_list(current, nil_sym, cons_sym) is Some,
            whole matches Some(all) ==> all == chars@ + byte_list(
                current,
                nil_sym,
                cons_sym,
            )->0,
        decreases current,
    {
        match current {
            PluckValue::Value { constructor, args } => {
                if *constructor == nil_sym && args.len() == 0 {
                    assert(chars@ + Seq::<u8>::empty() =~= chars@);
                    if chars.len() == 0 {
                        return None;
                    }
                    return Some(text_of_bytes(&chars));
                }
                if *constructor != cons_sym || args.len() != 2 {
                    return None;
                }
                match single_byte(&args[0]) {
                    Some(b) => {
                        let ghost before = chars@;
                        chars.push(b);
                        proof {
                            if let Some(rest) = byte_list(&*args@[1], nil_sym, cons_sym) {
                                assert(before + (seq![b] + rest) =~= chars@ + rest);
                            }
                        }
                        current = &args[1];
                    },
                    None => {
                        return None;
                    },
                }
            },
            _ => {
                return None;
            },
        }
    }
}

fn single_byte(v: &PluckValue) -> (r: Option<u8>)
    ensures
        r == byte_of(v),
{
    match v {
        PluckValue::IntDist { bits } => {
            if bits.len() != 8 {
                return None;
            }
            match fixed_value(bits) {
                Some(n) => {
                    proof {
                        lemma_number_bound(fixed_bits(bits@)->0);
                        power2::lemma2_to64();
                    }
                    Some(n as u8)
                },
                None => None,
            }
        },
        _ => None,
    }
}

fn is_proper_list(v: &PluckValue, nil_sym: Symbol, cons_sym: Symbol) -> (r: bool)
    ensures
        r == is_list(v, nil_sym, cons_sym),
{
    let mut current: &PluckValue = v;
    loop
        invariant
            is_list(v, nil_sym, cons_sym) == is_list(current, nil_sym, cons_sym),
        decreases current,
    {
        match current {
            PluckValue::Value { constructor, args } => {
                if *constructor == nil_sym && args.len() == 0 {
                    return true;
                }
                if *constructor != cons_sym || args.len() != 2 {
                    return false;
                }
                current = &args[1];
            },
            _ => {
                return false;
            },
        }
    }
}

/// The symbols that formatting looks for.
struct Marks {
    nil: Symbol,
    cons: Symbol,
    /// The constructors of numbers, if both are known.
    numbers: Option<(Symbol, Symbol)>,
}

/// The marks are those of the table.
spec fn marked(m: Marks, table: Seq<Seq<char>>) -> bool {
    &&& m.nil == naming::symbol_or_max(table, "Nil"@)
    &&& m.cons == naming::symbol_or_max(table, "Cons"@)
    &&& m.numbers == (if table.contains("O"@) && table.contains("S"@) {
        Some((types::symbol_in(table, "O"@), types::symbol_in(table, "S"@)))
    } else {
        None
    })
}

/// Format a value for display.
pub fn format_value<G: Fn(u64) -> String>(
    val: &PluckVal,
    interner: &StringInterner,
    naming: Option<&NamingScheme>,
    g: &G,
) -> (r: String)
    requires
        interner.wf(),
        reals::spells(*g),
        readable(&**val, interner@.len()),
    ensures
        r@ == rendered(&**val, wording(*interner, naming, *g)),
{
    let numbers: Option<(Symbol, Symbol)> = match interner.lookup("O") {
        Some(o) => match interner.lookup("S") {
            Some(s) => Some((*o, *s)),
            None => None,
        },
        None => None,
    };
    let marks = Marks {
        nil: lookup_or_max(interner, "Nil"),
        cons: lookup_or_max(interner, "Cons"),
        numbers,
    };
    format_value_inner(val, interner, naming, g, &marks)
}

fn format_value_inner<G: Fn(u64) -> String>(
    val: &PluckVal,
    interner: &StringInterner,
    naming: Option<&NamingScheme>,
    g: &G,
    marks: &Marks,
) -> (r: String)
    requires
        reals::spells(*g),
        readable(&**val, interner@.len()),
        marked(*marks, interner@),
    ensures
        r@ == rendered(&**val, wording(*interner, naming, *g)),
    decreases val, 1int,
{
    let ghost w = wording(*interner, naming, *g);
    let mut out: String = String::new();
    if let Some(s) = try_extract_string(val, marks.nil, marks.cons) {
        out.push('"');
        push_text(&mut out, s.as_str());
        out.push('"');
        assert(out@ =~= seq!['"'] + s@ + seq!['"']);
        return out;
    }
    if is_proper_list(val, marks.nil, marks.cons) {
        let mut parts: Vec<String> = Vec::new();
        format_list(val, &mut parts, interner, naming, g, marks);
        assert(text_views(parts@) =~= elements(&**val, w));
        let text: String = join_texts(&parts, ", ");
        push_text(&mut out, "[");
        push_text(&mut out, text.as_str());
        push_text(&mut out, "]");
        assert(out@ =~= "["@ + text@ + "]"@);
        return out;
    }
    proof {
        lemma_byte_list_is_list(&**val, marks.nil, marks.cons);
    }
    if let Some((o, s)) = marks.numbers {
        if let Some(n) = extract_nat(val, o, s) {
            push_decimal(&mut out, n as u128);
            assert(out@ =~= decimal::decimal(n as nat));
            return out;
        }
    }
    format_plain(val, interner, naming, g, marks)
}

proof fn lemma_byte_list_is_list(v: &PluckValue, nil: Symbol, cons: Symbol)
    ensures
        byte_list(v, nil, cons) is Some ==> is_list(v, nil, cons),
    decreases v,
{
    match v {
        PluckValue::Value { constructor, args } => {
            if *constructor == cons && args@.len() == 2 {
                lemma_byte_list_is_list(&*args@[1], nil, cons);
            }
        },
        _ => {},
    }
}

/// Append the texts of the elements of a list.
fn format_list<G: Fn(u64) -> String>(
    val: &PluckVal,
    out: &mut Vec<String>,
    interner: &StringInterner,
    naming: Option<&NamingScheme>,
    g: &G,
    marks: &Marks,
)
    requires
        reals::spells(*g),
        readable(&**val, interner@.len()),
        marked(*marks, interner@),
        is_list(&**val, marks.nil, marks.cons),
    ensures
        text_views(final(out)@) == text_views(old(out)@) + elements(
            &**val,
            wording(*interner, naming, *g),
        ),
    decreases val, 0int,
{
    let ghost before = text_views(out@);
    match &**val {
        PluckValue::Value { constructor, args } => {
            if args.len() != 2 {
                assert(before + Seq::<Seq<char>>::empty() =~= before);
                return ;
            }
            proof {
                lemma_all_readable(args@, interner@.len());
                assert(readable(&*args@[0], interner@.len()));
                assert(readable(&*args@[1], interner@.len()));
            }
            let head: String = format_value_inner(&args[0], interner, naming, g, marks);
            let ghost first = head@;
            out.push(head);
            assert(text_views(out@) =~= before.push(first));
            format_list(&args[1], out, interner, naming, g, marks);
            proof {
                let rest = elements(&*args@[1], wording(*interner, naming, *g));
                assert(before.push(first) + rest =~= before + (seq![first] + rest));
            }
        },
        _ => {},
    }
}

/// The texts of the values at `from..to`.
fn format_all<G: Fn(u64) -> String>(
    s: &Vec<PluckVal>,
    from: usize,
    to: usize,
    interner: &StringInterner,
    naming: Option<&NamingScheme>,
    g: &G,
    marks: &Marks,
) -> (r: Vec<String>)
    requires
        reals::spells(*g),
        all_readable(s@, interner@.len()),
        marked(*marks, interner@),
        from <= to <= s@.len(),
    ensures
        text_views(r@) == texts(s@, from as int, to as int, wording(*interner, naming, *g)),
    decreases s, 0int,
{
    let ghost w = wording(*interner, naming, *g);
    proof {
        lemma_all_readable(s@, interner@.len());
    }
    let mut out: Vec<String> = Vec::new();
    let mut i: usize = from;
    assert(text_views(out@) =~= texts(s@, from as int, from as int, w));
    while i < to
        invariant
            from <= i <= to <= s@.len(),
            reals::spells(*g),
            marked(*marks, interner@),
            w == wording(*interner, naming, *g),
            forall|j: int| 0 <= j < s@.len() ==> readable(&*(#[trigger] s@[j]), interner@.len()),
            text_views(out@) == texts(s@, from as int, i as int, w),
        decreases to - i,
    {
        let ghost before = text_views(out@);
        assert(readable(&*s@[i as int], interner@.len()));
        let text: String = format_value_inner(&s[i], interner, naming, g, marks);
        let ghost t = text@;
        out.push(text);
        assert(text_views(out@) =~= before.push(t));
        i = i + 1;
    }
    out
}

/// The text of a matrix.
fn format_matrix<G: Fn(u64) -> String>(
    entries: &Vec<PluckVal>,
    shape: &Vec<usize>,
    interner: &StringInterner,
    naming: Option<&NamingScheme>,
    g: &G,
    marks: &Marks,
) -> (r: String)
    requires
        reals::spells(*g),
        all_readable(entries@, interner@.len()),
        shape@.len() == 2 ==> shape@[0] * shape@[1] <= entries@.len(),
        marked(*marks, interner@),
    ensures
        ({
            let w = wording(*interner, naming, *g);
            r@ == if shape@.len() == 1 {
                "{"@ + join(texts(entries@, 0, entries@.len() as int, w), ", "@) + "}"@
            } else if shape@.len() == 2 {
                "{"@ + join(rows(entries@, shape@[1] as int, shape@[0] as nat, w), ", "@) + "}"@
            } else {
                "<FloatMatrix shape=["@ + join(extents(shape@), ", "@) + "]>"@
            }
        }),
    decreases entries, 2int,
{
    let mut out: String = String::new();
    if shape.len() == 1 {
        let parts: Vec<String> = format_all(entries, 0, entries.len(), interner, naming, g, marks);
        let text: String = join_texts(&parts, ", ");
        push_text(&mut out, "{");
        push_text(&mut out, text.as_str());
        push_text(&mut out, "}");
        assert(out@ =~= "{"@ + text@ + "}"@);
        out
    } else if shape.len() == 2 {
        let parts: Vec<String> = format_rows(
            entries,
            shape[0],
            shape[1],
            interner,
            naming,
            g,
            marks,
        );
        let text: String = join_texts(&parts, ", ");
        push_text(&mut out, "{");
        push_text(&mut out, text.as_str());
        push_text(&mut out, "}");
        assert(out@ =~= "{"@ + text@ + "}"@);
        out
    } else {
        let mut parts: Vec<String> = Vec::new();
        let mut i: usize = 0;
        let ghost all = extents(shape@);
        assert(text_views(parts@) =~= all.take(0));
        while i < shape.len()
            invariant
                i <= shape@.len(),
                all == extents(shape@),
                text_views(parts@) == all.take(i as int),
            decreases shape@.len() - i,
        {
            let ghost before = text_views(parts@);
            let mut part: String = String::new();
            push_decimal(&mut part, shape[i] as u128);
            assert(part@ =~= all[i as int]);
            let ghost t = part@;
            parts.push(part);
            assert(text_views(parts@) =~= before.push(t));
            assert(all.take(i + 1) =~= all.take(i as int).push(t));
            i = i + 1;
        }
        assert(all.take(i as int) =~= all);
        let text: String = join_texts(&parts, ", ");
        push_text(&mut out, "<FloatMatrix shape=[");
        push_text(&mut out, text.as_str());
        push_text(&mut out, "]>");
        assert(out@ =~= "<FloatMatrix shape=["@ + text@ + "]>"@);
        out
    }
}

/// The texts of the rows of a matrix.
fn format_rows<G: Fn(u64) -> String>(
    entries: &Vec<PluckVal>,
    n: usize,
    cols: usize,
    interner: &StringInterner,
    naming: Option<&NamingScheme>,
    g: &G,
    marks: &Marks,
) -> (r: Vec<String>)
    requires
        reals::spells(*g),
        all_readable(entries@, interner@.len()),
        n * cols <= entries@.len(),
        marked(*marks, interner@),
    ensures
        text_views(r@) == rows(entries@, cols as int, n as nat, wording(*interner, naming, *g)),
    decreases entries, 1int,
{
    let ghost w = wording(*interner, naming, *g);
    let mut out: Vec<String> = Vec::new();
    let mut k: usize = 0;
    let mut start: usize = 0;
    let count: usize = entries.len();
    assert(text_views(out@) =~= rows(entries@, cols as int, 0, w));
    while k < n
        invariant
            k <= n,
            count == entries@.len(),
            reals::spells(*g),
            all_readable(entries@, interner@.len()),
            marked(*marks, interner@),
            w == wording(*interner, naming, *g),
            n * cols <= count,
            start == k * cols,
            text_views(out@) == rows(entries@, cols as int, k as nat, w),
        decreases n - k,
    {
        assert(start + cols <= n * cols && start + cols == (k + 1) * cols) by (nonlinear_arith)
            requires
                start == k * cols,
                k + 1 <= n,
        ;
        let ghost before = text_views(out@);
        let parts: Vec<String> = format_all(
            entries,
            start,
            start + cols,
            interner,
            naming,
            g,
            marks,
        );
        let text: String = join_texts(&parts, ", ");
        let mut row: String = String::new();
        push_text(&mut row, "{");
        push_text(&mut row, text.as_str());
        push_text(&mut row, "}");
        assert(row@ =~= "{"@ + text@ + "}"@);
        let ghost t = row@;
        out.push(row);
        assert(text_views(out@) =~= before.push(t));
        start = start + cols;
        k = k + 1;
        assert((k - 1) * cols == start - cols);
    }
    out
}

/// The text of a value that is neither a string, a list nor a number.
fn format_plain<G: Fn(u64) -> String>(
    val: &PluckVal,
    interner: &StringInterner,
    naming: Option<&NamingScheme>,
    g: &G,
    marks: &Marks,
) -> (r: String)
    requires
        reals::spells(*g),
        readable(&**val, interner@.len()),
        marked(*marks, interner@),
    ensures
        r@ == plain(&**val, wording(*interner, naming, *g)),
    decreases val, 0int,
{
    let ghost w = wording(*interner, naming, *g);
    let mut out: String = String::new();
    match &**val {
        PluckValue::Value { constructor, args } => {
            let name: &str = interner.resolve(*constructor);
            if same_text(name, "Pair") && args.len() == 2 {
                proof {
                    lemma_all_readable(args@, interner@.len());
                    assert(readable(&*args@[0], interner@.len()));
                    assert(readable(&*args@[1], interner@.len()));
                }
                let a: String = format_value_inner(&args[0], interner, naming, g, marks);
                let b: String = format_value_inner(&args[1], interner, naming, g, marks);
                push_text(&mut out, "(");
                push_text(&mut out, a.as_str());
                push_text(&mut out, ", ");
                push_text(&mut out, b.as_str());
                push_text(&mut out, ")");
                assert(out@ =~= "("@ + a@ + ", "@ + b@ + ")"@);
            } else if args.len() == 0 {
                push_text(&mut out, name);
                assert(out@ =~= name@);
            } else {
                let parts: Vec<String> = format_all(
                    args,
                    0,
                    args.len(),
                    interner,
                    naming,
                    g,
                    marks,
                );
                let text: String = join_texts(&parts, " ");
                push_text(&mut out, "(");
                push_text(&mut out, name);
                push_text(&mut out, " ");
                push_text(&mut out, text.as_str());
                push_text(&mut out, ")");
                assert(out@ =~= "("@ + name@ + " "@ + text@ + ")"@);
            }
        },
        PluckValue::Native(NativeVal::Float(b)) => {
            return spell(g, *b);
        },
        PluckValue::Native(NativeVal::Int(i)) => {
            push_signed(&mut out, *i);
            assert(out@ =~= decimal::signed_decimal(*i as int));
        },
        PluckValue::Native(NativeVal::Symbol(s)) => {
            out.push('\'');
            push_text(&mut out, interner.resolve(*s));
            assert(out@ =~= seq!['\''] + w.table[*s as int]);
        },
        PluckValue::Native(NativeVal::Bool(b)) => {
            let text: &str = if *b {
                "true"
            } else {
                "false"
            };
            return text.to_owned();
        },
        PluckValue::Native(NativeVal::Share(_)) => {},
        PluckValue::Closure(_) => {
            return "<closure>".to_owned();
        },
        PluckValue::IntDist { bits } => {
            return format_int_dist(bits);
        },
        PluckValue::Thunk(_) => {
            return "<thunk>".to_owned();
        },
        PluckValue::ThunkUnion(_) => {
            return "<thunk-union>".to_owned();
        },
        PluckValue::FloatMatrix { entries, shape } => {
            return format_matrix(entries, shape, interner, naming, g, marks);
        },
        _ => {
            proof {
                lemma_wording(&**val, w, symbolic_wording(naming, *g));
            }
            if let Some(text) = val.render_symbolic(naming, g) {
                return text;
            }
            assert(false);
        },
    }
    out
}

proof fn lemma_wording(v: &PluckValue, w: Wording, x: Wording)
    requires
        w.names == x.names,
        w.spell == x.spell,
    ensures
        symbolic_text(v, w) == symbolic_text(v, x),
{
}

} // verus!
