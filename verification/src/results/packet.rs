//! Posteriors for display: under display names, with Gaussian variables
//! rewritten to the expressions that were asked for.

use vstd::prelude::*;

use super::grouping;
use super::grouping::group_exprs_by_shared_blocks;
use super::naming;
use super::naming::{text_views, Names, NamingScheme};
use super::positions::{Affine, GaussianAffineExpr};
use super::registry;
use super::registry::pick_number;
use super::rendering::Wording;
use crate::inference::lazy_kc::state::clone_numbers;
use crate::inference::spn::node::{Family, Leaf, LeafView};
use crate::inference::spn::posterior;
use crate::language::values::PluckValue;
use crate::utils::decimal;
use crate::utils::decimal::push_decimal;
use crate::utils::reals;
use crate::utils::reals::{
    compute, real_equal, real_rank, Arithmetic, RealOp, Spelling, INFINITY, ONE, ZERO,
};
use crate::utils::text;
use crate::utils::text::{is_text_before, push_text};

verus! {

broadcast use vstd::std_specs::hash::group_hash_axioms;

/// The posterior of some variables, under their display names.
#[derive(Debug)]
pub struct PacketEntry {
    pub names: Vec<String>,
    pub numbers: Vec<u64>,
}

/// What an entry is.
pub struct Entry {
    pub names: Seq<Seq<char>>,
    pub numbers: Seq<u64>,
}

impl View for PacketEntry {
    type V = Entry;

    open spec fn view(&self) -> Entry {
        Entry { names: text_views(self.names@), numbers: self.numbers@ }
    }
}

pub open spec fn entry_views(s: Seq<PacketEntry>) -> Seq<Entry> {
    Seq::new(s.len(), |i: int| s[i]@)
}

/// Bundled posteriors for one mixture component. Beta, Dirichlet and Gamma
/// entries come in the order of their names. There is one Gaussian entry per
/// independent block of affine expressions: independent expressions land in
/// separate entries, expressions sharing underlying variables share one.
#[derive(Debug)]
pub struct PosteriorPacket {
    pub beta: Vec<PacketEntry>,
    pub dirichlet: Vec<PacketEntry>,
    pub gamma: Vec<PacketEntry>,
    pub gaussian: Vec<PacketEntry>,
}

/// What a packet is.
pub struct Packet {
    pub beta: Seq<Entry>,
    pub dirichlet: Seq<Entry>,
    pub gamma: Seq<Entry>,
    pub gaussian: Seq<Entry>,
}

impl View for PosteriorPacket {
    type V = Packet;

    open spec fn view(&self) -> Packet {
        Packet {
            beta: entry_views(self.beta@),
            dirichlet: entry_views(self.dirichlet@),
            gamma: entry_views(self.gamma@),
            gaussian: entry_views(self.gaussian@),
        }
    }
}

/// The first name of an entry.
pub open spec fn title(e: Entry) -> Seq<char> {
    if e.names.len() == 0 {
        Seq::empty()
    } else {
        e.names[0]
    }
}

/// An entry put behind all whose titles do not come after its own.
pub open spec fn entry_placed(s: Seq<Entry>, e: Entry) -> Seq<Entry>
    decreases s.len(),
{
    if s.len() == 0 || !text::text_before(title(e), title(s.last())) {
        s.push(e)
    } else {
        entry_placed(s.drop_last(), e).push(s.last())
    }
}

/// Entries in the order of their titles; those with one title stay in their
/// order.
pub open spec fn entries_sorted(s: Seq<Entry>) -> Seq<Entry>
    decreases s.len(),
{
    if s.len() == 0 {
        Seq::empty()
    } else {
        entry_placed(entries_sorted(s.drop_last()), s.last())
    }
}

fn precedes(a: &PacketEntry, b: &PacketEntry) -> (r: bool)
    ensures
        r == text::text_before(title(a@), title(b@)),
{
    if b.names.len() == 0 {
        return false;
    }
    assert(title(b@) == b.names@[0]@);
    if a.names.len() == 0 {
        !b.names[0].as_str().is_empty()
    } else {
        assert(title(a@) == a.names@[0]@);
        is_text_before(a.names[0].as_str(), b.names[0].as_str())
    }
}

/// An entry goes before the last of those it comes before.
proof fn lemma_entry_back(whole: Seq<Entry>, x: Entry, at: int)
    requires
        0 < at <= whole.len(),
        text::text_before(title(x), title(whole[at - 1])),
    ensures
        entry_placed(whole.take(at), x) + whole.skip(at) == entry_placed(whole.take(at - 1), x)
            + whole.skip(at - 1),
{
    let front = whole.take(at);
    assert(front.drop_last() =~= whole.take(at - 1));
    assert(front.last() == whole[at - 1]);
    let p = entry_placed(whole.take(at - 1), x);
    assert(entry_placed(front, x) == p.push(front.last()));
    assert(p.push(front.last()) + whole.skip(at) =~= p + whole.skip(at - 1));
}

/// An entry goes behind the last of those it does not come before.
proof fn lemma_entry_here(whole: Seq<Entry>, x: Entry, at: int)
    requires
        0 <= at <= whole.len(),
        at > 0 ==> !text::text_before(title(x), title(whole[at - 1])),
    ensures
        entry_placed(whole.take(at), x) + whole.skip(at) == whole.insert(at, x),
{
    let front = whole.take(at);
    if at > 0 {
        assert(front.last() == whole[at - 1]);
    }
    assert(entry_placed(front, x) == front.push(x));
    assert(front.push(x) + whole.skip(at) =~= whole.insert(at, x));
}

fn place_entry(s: &mut Vec<PacketEntry>, e: PacketEntry)
    ensures
        entry_views(final(s)@) == entry_placed(entry_views(old(s)@), e@),
{
    let ghost whole = entry_views(s@);
    let ghost x = e@;
    let mut at: usize = s.len();
    proof {
        assert(whole.take(at as int) =~= whole);
        assert(whole.skip(at as int) =~= Seq::empty());
        assert(entry_placed(whole, x) + Seq::<Entry>::empty() =~= entry_placed(whole, x));
    }
    while at > 0 && precedes(&e, &s[at - 1])
        invariant
            s@ == old(s)@,
            whole == entry_views(old(s)@),
            at <= whole.len(),
            x == e@,
            entry_placed(whole.take(at as int), x) + whole.skip(at as int) == entry_placed(whole, x),
        decreases at,
    {
        proof {
            assert(whole[at - 1] == s@[at - 1]@);
            lemma_entry_back(whole, x, at as int);
        }
        at = at - 1;
    }
    proof {
        if at > 0 {
            assert(whole[at - 1] == s@[at - 1]@);
        }
        lemma_entry_here(whole, x, at as int);
    }
    s.insert(at, e);
    assert(entry_views(s@) =~= whole.insert(at as int, x));
}

/// The entries of a family whose leaves have one variable each, if all of
/// them have a name.
pub open spec fn named_entries(s: Seq<LeafView>, family: Family, n: Names) -> Option<Seq<Entry>>
    decreases s.len(),
{
    if s.len() == 0 {
        Some(Seq::empty())
    } else {
        let l = s.last();
        match named_entries(s.drop_last(), family, n) {
            Some(e) => if l.family != family {
                Some(e)
            } else if l.names.len() > 0 && n.vars.dom().contains(l.names[0]) {
                Some(e.push(Entry { names: seq![n.vars[l.names[0]]], numbers: l.numbers }))
            } else {
                None
            },
            None => None,
        }
    }
}

proof fn lemma_unnamed(s: Seq<LeafView>, family: Family, n: Names, k: int)
    requires
        0 <= k <= s.len(),
        named_entries(s.take(k), family, n) is None,
    ensures
        named_entries(s, family, n) is None,
    decreases s.len() - k,
{
    if k < s.len() {
        assert(s.take(k + 1).drop_last() =~= s.take(k));
        lemma_unnamed(s, family, n, k + 1);
    } else {
        assert(s.take(k) =~= s);
    }
}

/// The Beta or Dirichlet entries.
fn name_entries(leaves: &Vec<Leaf>, family: Family, naming: &NamingScheme) -> (r: Option<
    Vec<PacketEntry>,
>)
    ensures
        match r {
            Some(e) => {
                let want = named_entries(posterior::leaf_views(leaves@), family, naming@);
                want is Some && entry_views(e@) == entries_sorted(want->0)
            },
            None => named_entries(posterior::leaf_views(leaves@), family, naming@) is None,
        },
{
    let ghost s = posterior::leaf_views(leaves@);
    let mut out: Vec<PacketEntry> = Vec::new();
    let mut i: usize = 0;
    assert(entry_views(out@) =~= Seq::empty());
    while i < leaves.len()
        invariant
            i <= leaves@.len(),
            s == posterior::leaf_views(leaves@),
            named_entries(s.take(i as int), family, naming@) is Some,
            entry_views(out@) == entries_sorted(
                named_entries(s.take(i as int), family, naming@)->0,
            ),
        decreases leaves@.len() - i,
    {
        let ghost so_far = named_entries(s.take(i as int), family, naming@)->0;
        assert(s.take(i + 1).drop_last() =~= s.take(i as int));
        assert(s.take(i + 1).last() == leaves@[i as int]@);
        if leaves[i].family == family {
            let found: Option<&String> = if leaves[i].names.len() == 0 {
                None
            } else {
                naming.var_names.get(&leaves[i].names[0])
            };
            match found {
                Some(name) => {
                    assert(naming@.vars[leaves@[i as int].names@[0]] == name@);
                    let mut names: Vec<String> = Vec::new();
                    names.push(name.clone());
                    assert(text_views(names@) =~= seq![name@]);
                    let e = PacketEntry { names, numbers: clone_numbers(&leaves[i].numbers) };
                    let ghost x = e@;
                    place_entry(&mut out, e);
                    assert(so_far.push(x).drop_last() =~= so_far);
                },
                None => {
                    proof {
                        lemma_unnamed(s, family, naming@, i + 1);
                    }
                    return None;
                },
            }
        }
        i = i + 1;
    }
    assert(s.take(i as int) =~= s);
    Some(out)
}

/// A scale put in the order of the numbers, unless it is there.
pub open spec fn scale_inserted(s: Seq<u64>, x: u64) -> Seq<u64>
    decreases s.len(),
{
    if s.len() == 0 || reals::rank(s.last()) < reals::rank(x) {
        s.push(x)
    } else if reals::rank(s.last()) == reals::rank(x) {
        s
    } else {
        scale_inserted(s.drop_last(), x).push(s.last())
    }
}

/// The scales at which a variable is asked for, in order, each once.
pub open spec fn scales_of(queried: Seq<(u64, u64)>, v: u64) -> Seq<u64>
    decreases queried.len(),
{
    if queried.len() == 0 {
        Seq::empty()
    } else {
        let s = scales_of(queried.drop_last(), v);
        if queried.last().0 == v {
            scale_inserted(s, queried.last().1)
        } else {
            s
        }
    }
}

/// The scales at which a rate is reported: those asked for, and 1 if it has
/// draws, or if none is asked for.
pub open spec fn reported_scales(queried: Seq<(u64, u64)>, l: LeafView) -> Seq<u64> {
    let s = scales_of(queried, registry::first_name(l));
    if l.names.len() > 1 || s.len() == 0 {
        scale_inserted(s, ONE)
    } else {
        s
    }
}

/// The display name of a rate or draw, or one made of its number.
pub open spec fn rate_name(v: u64, n: Names) -> Seq<char> {
    if n.vars.dom().contains(v) {
        n.vars[v]
    } else {
        "rate_"@ + decimal::decimal(v as nat)
    }
}

/// The distribution of a rate times a number. A rate that is known has an
/// infinite shape, and stands in the place of the rate parameter.
pub open spec fn scaled_gamma(numbers: Seq<u64>, s: u64, f: Arithmetic) -> Seq<u64> {
    let shape = registry::number_at(numbers, 0);
    let rate = registry::number_at(numbers, 1);
    seq![
        shape,
        if shape == INFINITY {
            f(RealOp::Product, rate, s)
        } else {
            f(RealOp::Quotient, rate, s)
        },
    ]
}

/// The entry of a rate at a scale: at 1 its posterior with that of its draws,
/// and otherwise the posterior of the scaled rate alone.
pub open spec fn gamma_entry(l: LeafView, s: u64, n: Names, spell: Spelling, f: Arithmetic) -> Entry {
    if reals::equal(s, ONE) {
        Entry {
            names: Seq::new(l.names.len(), |i: int| rate_name(l.names[i], n)),
            numbers: l.numbers,
        }
    } else {
        let w = Wording { table: Seq::empty(), names: Some(n), spell };
        Entry {
            names: seq![
                spell(s) + " * "@ + w.var_or(registry::first_name(l), "Gamma"@),
            ],
            numbers: scaled_gamma(l.numbers, s, f),
        }
    }
}

/// The entries of a rate at the first `k` scales.
pub open spec fn scaled_entries(
    l: LeafView,
    scales: Seq<u64>,
    n: Names,
    spell: Spelling,
    f: Arithmetic,
) -> Seq<Entry> {
    Seq::new(scales.len(), |i: int| gamma_entry(l, scales[i], n, spell, f))
}

/// The Gamma entries.
pub open spec fn gamma_entries(
    s: Seq<LeafView>,
    queried: Seq<(u64, u64)>,
    n: Names,
    spell: Spelling,
    f: Arithmetic,
) -> Seq<Entry>
    decreases s.len(),
{
    if s.len() == 0 {
        Seq::empty()
    } else {
        let e = gamma_entries(s.drop_last(), queried, n, spell, f);
        if s.last().family == Family::Gamma {
            e + scaled_entries(s.last(), reported_scales(queried, s.last()), n, spell, f)
        } else {
            e
        }
    }
}

fn insert_scale(s: &mut Vec<u64>, x: u64)
    ensures
        final(s)@ == scale_inserted(old(s)@, x),
{
    let ghost whole = s@;
    let rank: i64 = real_rank(x);
    let mut at: usize = s.len();
    assert(whole.take(at as int) =~= whole);
    assert(scale_inserted(whole.take(at as int), x) + whole.skip(at as int) =~= scale_inserted(
        whole,
        x,
    ));
    while at > 0 && real_rank(s[at - 1]) > rank
        invariant
            s@ == whole,
            rank == reals::rank(x),
            at <= whole.len(),
            scale_inserted(whole.take(at as int), x) + whole.skip(at as int) == scale_inserted(
                whole,
                x,
            ),
        decreases at,
    {
        proof {
            let front = whole.take(at as int);
            assert(front.drop_last() =~= whole.take(at - 1));
            assert(front.last() == whole[at - 1]);
            assert(scale_inserted(whole.take(at - 1), x) + whole.skip(at - 1) =~= scale_inserted(
                front,
                x,
            ) + whole.skip(at as int));
        }
        at = at - 1;
    }
    if at > 0 && real_rank(s[at - 1]) == rank {
        assert(scale_inserted(whole.take(at as int), x) == whole.take(at as int));
        assert(s@ =~= whole.take(at as int) + whole.skip(at as int));
    } else {
        s.insert(at, x);
        assert(scale_inserted(whole.take(at as int), x) == whole.take(at as int).push(x));
        assert(s@ =~= whole.take(at as int).push(x) + whole.skip(at as int));
    }
}

fn find_scales(queried: &Vec<(u64, u64)>, l: &Leaf) -> (r: Vec<u64>)
    ensures
        r@ == reported_scales(queried@, l@),
{
    let v: u64 = if l.names.len() == 0 {
        0
    } else {
        l.names[0]
    };
    let mut out: Vec<u64> = Vec::new();
    let mut i: usize = 0;
    while i < queried.len()
        invariant
            i <= queried@.len(),
            out@ == scales_of(queried@.take(i as int), v),
        decreases queried@.len() - i,
    {
        assert(queried@.take(i + 1).drop_last() =~= queried@.take(i as int));
        if queried[i].0 == v {
            insert_scale(&mut out, queried[i].1);
        }
        i = i + 1;
    }
    assert(queried@.take(i as int) =~= queried@);
    if l.names.len() > 1 || out.len() == 0 {
        insert_scale(&mut out, ONE);
    }
    out
}

fn name_of_rate(v: u64, naming: &NamingScheme) -> (r: String)
    ensures
        r@ == rate_name(v, naming@),
{
    match naming.var_names.get(&v) {
        Some(name) => {
            assert(naming@.vars[v] == name@);
            name.clone()
        },
        None => {
            let mut out: String = String::new();
            push_text(&mut out, "rate_");
            push_decimal(&mut out, v as u128);
            assert(out@ =~= "rate_"@ + decimal::decimal(v as nat));
            out
        },
    }
}

fn build_gamma_entry<G: Fn(u64) -> String, F: Fn(RealOp, u64, u64) -> u64>(
    l: &Leaf,
    s: u64,
    naming: &NamingScheme,
    g: &G,
    reals: &F,
) -> (r: PacketEntry)
    requires
        reals::spells(*g),
        reals::settled(*reals),
    ensures
        r@ == gamma_entry(l@, s, naming@, reals::spelling(*g), reals::operations(*reals)),
{
    let mut names: Vec<String> = Vec::new();
    if real_equal(s, ONE) {
        let mut i: usize = 0;
        let ghost want = Seq::new(l.names@.len(), |i: int| rate_name(l.names@[i], naming@));
        assert(text_views(names@) =~= want.take(0));
        while i < l.names.len()
            invariant
                i <= l.names@.len(),
                want == Seq::new(l.names@.len(), |i: int| rate_name(l.names@[i], naming@)),
                text_views(names@) == want.take(i as int),
            decreases l.names@.len() - i,
        {
            let ghost before = text_views(names@);
            let name: String = name_of_rate(l.names[i], naming);
            let ghost t = name@;
            names.push(name);
            assert(text_views(names@) =~= before.push(t));
            assert(want.take(i + 1) =~= want.take(i as int).push(want[i as int]));
            i = i + 1;
        }
        assert(want.take(i as int) =~= want);
        PacketEntry { names, numbers: clone_numbers(&l.numbers) }
    } else {
        let v: u64 = if l.names.len() == 0 {
            0
        } else {
            l.names[0]
        };
        let scaled = PluckValue::Gamma { name: v, scale: s };
        let label: String = match scaled.render_symbolic(Some(naming), g) {
            Some(t) => t,
            None => String::new(),
        };
        let ghost t = label@;
        names.push(label);
        assert(text_views(names@) =~= seq![t]);
        let shape: u64 = if l.numbers.len() > 0 {
            l.numbers[0]
        } else {
            ZERO
        };
        let rate: u64 = if l.numbers.len() > 1 {
            l.numbers[1]
        } else {
            ZERO
        };
        let mut numbers: Vec<u64> = Vec::new();
        numbers.push(shape);
        if shape == INFINITY {
            numbers.push(compute(reals, RealOp::Product, rate, s));
        } else {
            numbers.push(compute(reals, RealOp::Quotient, rate, s));
        }
        assert(numbers@ =~= scaled_gamma(l.numbers@, s, reals::operations(*reals)));
        PacketEntry { names, numbers }
    }
}

proof fn lemma_sorted_step(s: Seq<Entry>, e: Entry)
    ensures
        entries_sorted(s.push(e)) == entry_placed(entries_sorted(s), e),
{
    assert(s.push(e).drop_last() =~= s);
}

fn build_gamma_entries<G: Fn(u64) -> String, F: Fn(RealOp, u64, u64) -> u64>(
    leaves: &Vec<Leaf>,
    queried: &Vec<(u64, u64)>,
    naming: &NamingScheme,
    g: &G,
    reals: &F,
) -> (r: Vec<PacketEntry>)
    requires
        reals::spells(*g),
        reals::settled(*reals),
    ensures
        entry_views(r@) == entries_sorted(
            gamma_entries(
                posterior::leaf_views(leaves@),
                queried@,
                naming@,
                reals::spelling(*g),
                reals::operations(*reals),
            ),
        ),
{
    let ghost s = posterior::leaf_views(leaves@);
    let ghost sp = reals::spelling(*g);
    let ghost f = reals::operations(*reals);
    let mut out: Vec<PacketEntry> = Vec::new();
    let mut i: usize = 0;
    assert(entry_views(out@) =~= Seq::empty());
    while i < leaves.len()
        invariant
            i <= leaves@.len(),
            reals::spells(*g),
            reals::settled(*reals),
            s == posterior::leaf_views(leaves@),
            sp == reals::spelling(*g),
            f == reals::operations(*reals),
            entry_views(out@) == entries_sorted(
                gamma_entries(s.take(i as int), queried@, naming@, sp, f),
            ),
        decreases leaves@.len() - i,
    {
        assert(s.take(i + 1).drop_last() =~= s.take(i as int));
        assert(s.take(i + 1).last() == leaves@[i as int]@);
        if leaves[i].family == Family::Gamma {
            let scales: Vec<u64> = find_scales(queried, &leaves[i]);
            let ghost base = gamma_entries(s.take(i as int), queried@, naming@, sp, f);
            let ghost more = scaled_entries(leaves@[i as int]@, scales@, naming@, sp, f);
            let mut k: usize = 0;
            assert(base + more.take(0) =~= base);
            while k < scales.len()
                invariant
                    k <= scales@.len(),
                    i < leaves@.len(),
                    reals::spells(*g),
                    reals::settled(*reals),
                    sp == reals::spelling(*g),
                    f == reals::operations(*reals),
                    more == scaled_entries(leaves@[i as int]@, scales@, naming@, sp, f),
                    entry_views(out@) == entries_sorted(base + more.take(k as int)),
                decreases scales@.len() - k,
            {
                let e: PacketEntry = build_gamma_entry(&leaves[i], scales[k], naming, g, reals);
                let ghost x = e@;
                place_entry(&mut out, e);
                proof {
                    lemma_sorted_step(base + more.take(k as int), x);
                    assert(base + more.take(k + 1) =~= (base + more.take(k as int)).push(x));
                }
                k = k + 1;
            }
            assert(more.take(k as int) =~= more);
        }
        i = i + 1;
    }
    assert(s.take(i as int) =~= s);
    out
}

/// The order of lists of numbers: by the first that differ, and a list
/// before those that go on from it.
pub open spec fn list_before(a: Seq<int>, b: Seq<int>) -> bool
    decreases a.len(),
{
    if b.len() == 0 {
        false
    } else if a.len() == 0 {
        true
    } else {
        a[0] < b[0] || (a[0] == b[0] && list_before(a.drop_first(), b.drop_first()))
    }
}

/// The variables of an expression.
pub open spec fn keys(e: Affine) -> Seq<int> {
    Seq::new(e.coefficients.len(), |i: int| e.coefficients[i].0 as int)
}

/// The places of its coefficients in the order of the numbers.
pub open spec fn ranks(e: Affine) -> Seq<int> {
    Seq::new(e.coefficients.len(), |i: int| reals::rank(e.coefficients[i].1))
}

/// The order of expressions: by their variables, coefficients and constants.
pub open spec fn expr_before(a: Affine, b: Affine) -> bool {
    ||| list_before(keys(a), keys(b))
    ||| keys(a) == keys(b) && list_before(ranks(a), ranks(b))
    ||| keys(a) == keys(b) && ranks(a) == ranks(b) && reals::rank(a.constant) < reals::rank(
        b.constant,
    )
}

/// An expression put behind all that do not come after it.
pub open spec fn expr_placed(s: Seq<(Affine, Seq<char>)>, e: (Affine, Seq<char>)) -> Seq<
    (Affine, Seq<char>),
>
    decreases s.len(),
{
    if s.len() == 0 || !expr_before(e.0, s.last().0) {
        s.push(e)
    } else {
        expr_placed(s.drop_last(), e).push(s.last())
    }
}

/// Expressions in order.
pub open spec fn exprs_sorted(s: Seq<(Affine, Seq<char>)>) -> Seq<(Affine, Seq<char>)>
    decreases s.len(),
{
    if s.len() == 0 {
        Seq::empty()
    } else {
        expr_placed(exprs_sorted(s.drop_last()), s.last())
    }
}

/// How two lists of numbers compare: the first before the second, equal, or
/// neither.
#[derive(Debug, Clone, Copy, PartialEq, Eq, Structural)]
enum Side {
    Before,
    Equal,
    After,
}

fn compare_keys(a: &Vec<(u64, u64)>, b: &Vec<(u64, u64)>) -> (r: Side)
    ensures
        ({
            let x = Seq::new(a@.len(), |i: int| a@[i].0 as int);
            let y = Seq::new(b@.len(), |i: int| b@[i].0 as int);
            &&& (r == Side::Before) == list_before(x, y)
            &&& (r == Side::Equal) == (x == y)
        }),
{
    let ghost x = Seq::new(a@.len(), |i: int| a@[i].0 as int);
    let ghost y = Seq::new(b@.len(), |i: int| b@[i].0 as int);
    let mut i: usize = 0;
    assert(x.skip(0) =~= x);
    assert(y.skip(0) =~= y);
    while i < a.len() && i < b.len()
        invariant
            i <= a@.len(),
            i <= b@.len(),
            x == Seq::new(a@.len(), |i: int| a@[i].0 as int),
            y == Seq::new(b@.len(), |i: int| b@[i].0 as int),
            list_before(x, y) == list_before(x.skip(i as int), y.skip(i as int)),
            forall|j: int| 0 <= j < i ==> x[j] == y[j],
        decreases a@.len() - i,
    {
        assert(x.skip(i as int).drop_first() =~= x.skip(i + 1));
        assert(y.skip(i as int).drop_first() =~= y.skip(i + 1));
        if a[i].0 != b[i].0 {
            assert(x[i as int] != y[i as int]);
            return if a[i].0 < b[i].0 {
                Side::Before
            } else {
                Side::After
            };
        }
        i = i + 1;
    }
    if i < b.len() {
        Side::Before
    } else if i < a.len() {
        Side::After
    } else {
        assert(x =~= y);
        Side::Equal
    }
}

fn compare_ranks(a: &Vec<(u64, u64)>, b: &Vec<(u64, u64)>) -> (r: Side)
    ensures
        ({
            let x = Seq::new(a@.len(), |i: int| reals::rank(a@[i].1));
            let y = Seq::new(b@.len(), |i: int| reals::rank(b@[i].1));
            &&& (r == Side::Before) == list_before(x, y)
            &&& (r == Side::Equal) == (x == y)
        }),
{
    let ghost x = Seq::new(a@.len(), |i: int| reals::rank(a@[i].1));
    let ghost y = Seq::new(b@.len(), |i: int| reals::rank(b@[i].1));
    let mut i: usize = 0;
    assert(x.skip(0) =~= x);
    assert(y.skip(0) =~= y);
    while i < a.len() && i < b.len()
        invariant
            i <= a@.len(),
            i <= b@.len(),
            x == Seq::new(a@.len(), |i: int| reals::rank(a@[i].1)),
            y == Seq::new(b@.len(), |i: int| reals::rank(b@[i].1)),
            list_before(x, y) == list_before(x.skip(i as int), y.skip(i as int)),
            forall|j: int| 0 <= j < i ==> x[j] == y[j],
        decreases a@.len() - i,
    {
        assert(x.skip(i as int).drop_first() =~= x.skip(i + 1));
        assert(y.skip(i as int).drop_first() =~= y.skip(i + 1));
        let m: i64 = real_rank(a[i].1);
        let n: i64 = real_rank(b[i].1);
        if m != n {
            assert(x[i as int] != y[i as int]);
            return if m < n {
                Side::Before
            } else {
                Side::After
            };
        }
        i = i + 1;
    }
    if i < b.len() {
        Side::Before
    } else if i < a.len() {
        Side::After
    } else {
        assert(x =~= y);
        Side::Equal
    }
}

fn is_expr_before(a: &GaussianAffineExpr, b: &GaussianAffineExpr) -> (r: bool)
    ensures
        r == expr_before(a@, b@),
{
    proof {
        assert(keys(a@) =~= Seq::new(a.coefficients@.len(), |i: int| a.coefficients@[i].0 as int));
        assert(keys(b@) =~= Seq::new(b.coefficients@.len(), |i: int| b.coefficients@[i].0 as int));
        assert(ranks(a@) =~= Seq::new(
            a.coefficients@.len(),
            |i: int| reals::rank(a.coefficients@[i].1),
        ));
        assert(ranks(b@) =~= Seq::new(
            b.coefficients@.len(),
            |i: int| reals::rank(b.coefficients@[i].1),
        ));
    }
    match compare_keys(&a.coefficients, &b.coefficients) {
        Side::Before => true,
        Side::After => false,
        Side::Equal => match compare_ranks(&a.coefficients, &b.coefficients) {
            Side::Before => true,
            Side::After => false,
            Side::Equal => real_rank(a.constant) < real_rank(b.constant),
        },
    }
}

pub open spec fn expr_views(s: Seq<(GaussianAffineExpr, String)>) -> Seq<(Affine, Seq<char>)> {
    Seq::new(s.len(), |i: int| (s[i].0@, s[i].1@))
}

proof fn lemma_expr_back(whole: Seq<(Affine, Seq<char>)>, x: (Affine, Seq<char>), at: int)
    requires
        0 < at <= whole.len(),
        expr_before(x.0, whole[at - 1].0),
    ensures
        expr_placed(whole.take(at), x) + whole.skip(at) == expr_placed(whole.take(at - 1), x)
            + whole.skip(at - 1),
{
    let front = whole.take(at);
    assert(front.drop_last() =~= whole.take(at - 1));
    assert(front.last() == whole[at - 1]);
    let p = expr_placed(whole.take(at - 1), x);
    assert(expr_placed(front, x) == p.push(front.last()));
    assert(p.push(front.last()) + whole.skip(at) =~= p + whole.skip(at - 1));
}

proof fn lemma_expr_here(whole: Seq<(Affine, Seq<char>)>, x: (Affine, Seq<char>), at: int)
    requires
        0 <= at <= whole.len(),
        at > 0 ==> !expr_before(x.0, whole[at - 1].0),
    ensures
        expr_placed(whole.take(at), x) + whole.skip(at) == whole.insert(at, x),
{
    let front = whole.take(at);
    if at > 0 {
        assert(front.last() == whole[at - 1]);
    }
    assert(expr_placed(front, x) == front.push(x));
    assert(front.push(x) + whole.skip(at) =~= whole.insert(at, x));
}

fn place_expr(s: &mut Vec<(GaussianAffineExpr, String)>, e: (GaussianAffineExpr, String))
    ensures
        expr_views(final(s)@) == expr_placed(expr_views(old(s)@), (e.0@, e.1@)),
{
    let ghost whole = expr_views(s@);
    let ghost x = (e.0@, e.1@);
    let mut at: usize = s.len();
    proof {
        assert(whole.take(at as int) =~= whole);
        assert(whole.skip(at as int) =~= Seq::empty());
        assert(expr_placed(whole, x) + Seq::<(Affine, Seq<char>)>::empty() =~= expr_placed(
            whole,
            x,
        ));
    }
    while at > 0 && is_expr_before(&e.0, &s[at - 1].0)
        invariant
            s@ == old(s)@,
            whole == expr_views(old(s)@),
            at <= whole.len(),
            x == (e.0@, e.1@),
            expr_placed(whole.take(at as int), x) + whole.skip(at as int) == expr_placed(whole, x),
        decreases at,
    {
        proof {
            assert(whole[at - 1].0 == s@[at - 1].0@);
            lemma_expr_back(whole, x, at as int);
        }
        at = at - 1;
    }
    proof {
        if at > 0 {
            assert(whole[at - 1].0 == s@[at - 1].0@);
        }
        lemma_expr_here(whole, x, at as int);
    }
    s.insert(at, e);
    assert(expr_views(s@) =~= whole.insert(at as int, x));
}

/// The queried affine expressions with their names, in order.
fn dedupe_and_order_exprs(naming: &NamingScheme) -> (r: Vec<(GaussianAffineExpr, String)>)
    ensures
        expr_views(r@) == exprs_sorted(naming@.exprs),
{
    let mut out: Vec<(GaussianAffineExpr, String)> = Vec::new();
    let ghost all = naming@.exprs;
    let mut i: usize = 0;
    assert(expr_views(out@) =~= Seq::empty());
    while i < naming.expr_names.len()
        invariant
            i <= naming.expr_names@.len(),
            all == naming@.exprs,
            expr_views(out@) == exprs_sorted(all.take(i as int)),
        decreases naming.expr_names@.len() - i,
    {
        assert(all.take(i + 1).drop_last() =~= all.take(i as int));
        place_expr(
            &mut out,
            (naming.expr_names[i].0.duplicate(), naming.expr_names[i].1.clone()),
        );
        i = i + 1;
    }
    assert(all.take(i as int) =~= all);
    out
}

/// The Gaussian leaves.
pub open spec fn blocks_of(s: Seq<LeafView>) -> Seq<LeafView>
    decreases s.len(),
{
    if s.len() == 0 {
        Seq::empty()
    } else {
        let b = blocks_of(s.drop_last());
        if s.last().family == Family::Gaussian {
            b.push(s.last())
        } else {
            b
        }
    }
}

/// A variable of the expression is in the block.
pub open spec fn touches(e: Affine, b: LeafView) -> bool {
    exists|i: int|
        0 <= i < e.coefficients.len() && b.names.contains((#[trigger] e.coefficients[i]).0)
}

/// Every variable of the expression is in a block.
pub open spec fn supported(e: Affine, blocks: Seq<LeafView>) -> bool {
    forall|i: int|
        0 <= i < e.coefficients.len() ==> in_some_block((#[trigger] e.coefficients[i]).0, blocks)
}

pub open spec fn in_some_block(v: u64, blocks: Seq<LeafView>) -> bool {
    exists|k: int| 0 <= k < blocks.len() && (#[trigger] blocks[k]).names.contains(v)
}

/// Which expressions touch which blocks.
pub open spec fn touching(s: Seq<(Affine, Seq<char>)>, blocks: Seq<LeafView>) -> grouping::Grid {
    Seq::new(s.len(), |i: int| Seq::new(blocks.len(), |k: int| touches(s[i].0, blocks[k])))
}

fn find_name(names: &Vec<u64>, v: u64) -> (r: Option<usize>)
    ensures
        match r {
            Some(i) => i < names@.len() && i == place_in(names@, v, 0) && names@.contains(v),
            None => !names@.contains(v) && place_in(names@, v, 0) == names@.len(),
        },
{
    let mut i: usize = 0;
    while i < names.len()
        invariant
            i <= names@.len(),
            forall|j: int| 0 <= j < i ==> names@[j] != v,
            place_in(names@, v, 0) == place_in(names@, v, i as int),
        decreases names@.len() - i,
    {
        if names[i] == v {
            return Some(i);
        }
        i = i + 1;
    }
    None
}

/// The first place of a variable from `from` on.
pub open spec fn place_in(names: Seq<u64>, v: u64, from: int) -> int
    decreases names.len() - from,
{
    if from < 0 || from >= names.len() || names[from] == v {
        from
    } else {
        place_in(names, v, from + 1)
    }
}

fn does_touch(e: &GaussianAffineExpr, b: &Leaf) -> (r: bool)
    ensures
        r == touches(e@, b@),
{
    let mut i: usize = 0;
    while i < e.coefficients.len()
        invariant
            i <= e.coefficients@.len(),
            forall|j: int|
                0 <= j < i ==> !b@.names.contains((#[trigger] e@.coefficients[j]).0),
        decreases e.coefficients@.len() - i,
    {
        assert(e@.coefficients[i as int] == e.coefficients@[i as int]);
        if find_name(&b.names, e.coefficients[i].0).is_some() {
            return true;
        }
        i = i + 1;
    }
    false
}

fn is_supported(e: &GaussianAffineExpr, blocks: &Vec<Leaf>) -> (r: bool)
    ensures
        r == supported(e@, posterior::leaf_views(blocks@)),
{
    let ghost bs = posterior::leaf_views(blocks@);
    let mut i: usize = 0;
    while i < e.coefficients.len()
        invariant
            i <= e.coefficients@.len(),
            bs == posterior::leaf_views(blocks@),
            forall|j: int|
                0 <= j < i ==> in_some_block((#[trigger] e@.coefficients[j]).0, bs),
        decreases e.coefficients@.len() - i,
    {
        assert(e@.coefficients[i as int] == e.coefficients@[i as int]);
        let v: u64 = e.coefficients[i].0;
        let mut k: usize = 0;
        while k < blocks.len() && find_name(&blocks[k].names, v).is_none()
            invariant
                k <= blocks@.len(),
                bs == posterior::leaf_views(blocks@),
                forall|m: int| 0 <= m < k ==> !(#[trigger] bs[m]).names.contains(v),
            decreases blocks@.len() - k,
        {
            assert(bs[k as int].names == blocks@[k as int].names@);
            k = k + 1;
        }
        if k == blocks.len() {
            assert(!in_some_block(v, bs));
            return false;
        }
        assert(bs[k as int].names == blocks@[k as int].names@);
        assert(in_some_block(v, bs));
        i = i + 1;
    }
    true
}

/// For each queried expression, the blocks whose variables it mentions; none
/// if a variable is in no block.
fn compute_touched_blocks(
    unique_exprs: &Vec<(GaussianAffineExpr, String)>,
    blocks: &Vec<Leaf>,
) -> (r: Option<Vec<Vec<bool>>>)
    ensures
        match r {
            Some(t) => {
                &&& grouping::grid(t@) == touching(
                    expr_views(unique_exprs@),
                    posterior::leaf_views(blocks@),
                )
                &&& all_supported(expr_views(unique_exprs@), posterior::leaf_views(blocks@))
            },
            None => !all_supported(expr_views(unique_exprs@), posterior::leaf_views(blocks@)),
        },
{
    let ghost es = expr_views(unique_exprs@);
    let ghost bs = posterior::leaf_views(blocks@);
    let ghost want = touching(es, bs);
    let mut out: Vec<Vec<bool>> = Vec::new();
    let mut i: usize = 0;
    assert(grouping::grid(out@) =~= want.take(0));
    while i < unique_exprs.len()
        invariant
            i <= unique_exprs@.len(),
            es == expr_views(unique_exprs@),
            bs == posterior::leaf_views(blocks@),
            want == touching(es, bs),
            grouping::grid(out@) == want.take(i as int),
            forall|j: int| 0 <= j < i ==> supported((#[trigger] es[j]).0, bs),
        decreases unique_exprs@.len() - i,
    {
        assert(es[i as int].0 == unique_exprs@[i as int].0@);
        if !is_supported(&unique_exprs[i].0, blocks) {
            assert(!supported(es[i as int].0, bs));
            return None;
        }
        let ghost before = grouping::grid(out@);
        let mut row: Vec<bool> = Vec::new();
        let mut k: usize = 0;
        while k < blocks.len()
            invariant
                k <= blocks@.len(),
                i < unique_exprs@.len(),
                es == expr_views(unique_exprs@),
                bs == posterior::leaf_views(blocks@),
                row@.len() == k,
                forall|m: int| 0 <= m < k ==> #[trigger] row@[m] == touches(es[i as int].0, bs[m]),
            decreases blocks@.len() - k,
        {
            assert(es[i as int].0 == unique_exprs@[i as int].0@);
            assert(bs[k as int] == blocks@[k as int]@);
            row.push(does_touch(&unique_exprs[i].0, &blocks[k]));
            k = k + 1;
        }
        assert(row@ =~= want[i as int]);
        let ghost rv = row@;
        out.push(row);
        assert(grouping::grid(out@) =~= before.push(rv));
        assert(want.take(i + 1) =~= want.take(i as int).push(rv));
        i = i + 1;
    }
    assert(want.take(i as int) =~= want);
    Some(out)
}

pub open spec fn all_supported(s: Seq<(Affine, Seq<char>)>, blocks: Seq<LeafView>) -> bool {
    forall|j: int| 0 <= j < s.len() ==> supported((#[trigger] s[j]).0, blocks)
}

/// The first block from `from` on that a variable is in.
pub open spec fn block_with(blocks: Seq<LeafView>, v: u64, from: int) -> int
    decreases blocks.len() - from,
{
    if from < 0 || from >= blocks.len() || blocks[from].names.contains(v) {
        from
    } else {
        block_with(blocks, v, from + 1)
    }
}

/// The mean of a variable; 0 if it is in no block.
pub open spec fn mean_of(v: u64, blocks: Seq<LeafView>) -> u64 {
    let b = block_with(blocks, v, 0);
    if b < blocks.len() {
        registry::number_at(blocks[b].numbers, place_in(blocks[b].names, v, 0))
    } else {
        ZERO
    }
}

/// The covariance of two variables; those in different blocks are
/// independent.
pub open spec fn covariance_of(u: u64, v: u64, blocks: Seq<LeafView>) -> u64 {
    let b = block_with(blocks, u, 0);
    if b < blocks.len() && b == block_with(blocks, v, 0) {
        let n = blocks[b].names.len();
        registry::number_at(
            blocks[b].numbers,
            n + place_in(blocks[b].names, u, 0) * n + place_in(blocks[b].names, v, 0),
        )
    } else {
        ZERO
    }
}

/// The constant of an expression plus the means of its first `k` variables
/// times their coefficients.
pub open spec fn mean_upto(e: Affine, blocks: Seq<LeafView>, f: Arithmetic, k: nat) -> u64
    decreases k,
{
    if k == 0 {
        e.constant
    } else {
        let c = e.coefficients[k - 1];
        f(
            RealOp::Sum,
            mean_upto(e, blocks, f, (k - 1) as nat),
            f(RealOp::Product, c.1, mean_of(c.0, blocks)),
        )
    }
}

/// `acc` plus the covariances of a term with the first `k` terms of an
/// expression.
pub open spec fn covariances_upto(
    c: (u64, u64),
    e: Affine,
    blocks: Seq<LeafView>,
    f: Arithmetic,
    acc: u64,
    k: nat,
) -> u64
    decreases k,
{
    if k == 0 {
        acc
    } else {
        let d = e.coefficients[k - 1];
        f(
            RealOp::Sum,
            covariances_upto(c, e, blocks, f, acc, (k - 1) as nat),
            f(
                RealOp::Product,
                f(RealOp::Product, c.1, d.1),
                covariance_of(c.0, d.0, blocks),
            ),
        )
    }
}

/// The covariance of the first `k` terms of an expression with another
/// expression.
pub open spec fn covariance_upto(
    a: Affine,
    b: Affine,
    blocks: Seq<LeafView>,
    f: Arithmetic,
    k: nat,
) -> u64
    decreases k,
{
    if k == 0 {
        ZERO
    } else {
        covariances_upto(
            a.coefficients[k - 1],
            b,
            blocks,
            f,
            covariance_upto(a, b, blocks, f, (k - 1) as nat),
            b.coefficients.len(),
        )
    }
}

/// The mean of an expression.
pub open spec fn affine_mean(e: Affine, blocks: Seq<LeafView>, f: Arithmetic) -> u64 {
    mean_upto(e, blocks, f, e.coefficients.len())
}

/// The covariance of two expressions.
pub open spec fn affine_covariance(a: Affine, b: Affine, blocks: Seq<LeafView>, f: Arithmetic) -> u64 {
    covariance_upto(a, b, blocks, f, a.coefficients.len())
}

/// The joint distribution of some expressions: their means, and their
/// covariances row by row, each computed once for the later expression with
/// the earlier.
pub open spec fn joint_entry(
    c: Seq<int>,
    s: Seq<(Affine, Seq<char>)>,
    blocks: Seq<LeafView>,
    f: Arithmetic,
) -> Entry {
    let k = c.len();
    Entry {
        names: Seq::new(k, |i: int| s[c[i]].1),
        numbers: Seq::new(
            k + k * k,
            |i: int|
                if i < k {
                    affine_mean(s[c[i]].0, blocks, f)
                } else {
                    let row = (i - k) / (k as int);
                    let col = (i - k) % (k as int);
                    joint_covariance(c, s, blocks, f, row, col)
                },
        ),
    }
}

pub open spec fn joint_covariance(
    c: Seq<int>,
    s: Seq<(Affine, Seq<char>)>,
    blocks: Seq<LeafView>,
    f: Arithmetic,
    row: int,
    col: int,
) -> u64 {
    if row >= col {
        affine_covariance(s[c[row]].0, s[c[col]].0, blocks, f)
    } else {
        affine_covariance(s[c[col]].0, s[c[row]].0, blocks, f)
    }
}

/// The Gaussian entries: one for each set of expressions that are connected
/// over blocks, if every variable is in a block.
pub open spec fn gaussian_entries(
    leaves: Seq<LeafView>,
    n: Names,
    f: Arithmetic,
) -> Option<Seq<Entry>> {
    let s = exprs_sorted(n.exprs);
    let blocks = blocks_of(leaves);
    if all_supported(s, blocks) {
        let c = grouping::components(touching(s, blocks), blocks.len());
        Some(Seq::new(c.len(), |i: int| joint_entry(c[i], s, blocks, f)))
    } else {
        None
    }
}

fn find_block(blocks: &Vec<Leaf>, v: u64) -> (r: Option<(usize, usize)>)
    ensures
        ({
            let bs = posterior::leaf_views(blocks@);
            match r {
                Some((b, i)) => {
                    &&& b < bs.len()
                    &&& b == block_with(bs, v, 0)
                    &&& i < bs[b as int].names.len()
                    &&& i == place_in(bs[b as int].names, v, 0)
                },
                None => block_with(bs, v, 0) == bs.len(),
            }
        }),
{
    let ghost bs = posterior::leaf_views(blocks@);
    let mut b: usize = 0;
    while b < blocks.len()
        invariant
            b <= blocks@.len(),
            bs == posterior::leaf_views(blocks@),
            block_with(bs, v, 0) == block_with(bs, v, b as int),
        decreases blocks@.len() - b,
    {
        assert(bs[b as int].names == blocks@[b as int].names@);
        if let Some(i) = find_name(&blocks[b].names, v) {
            return Some((b, i));
        }
        b = b + 1;
    }
    None
}

fn variable_mean(v: u64, blocks: &Vec<Leaf>) -> (r: u64)
    ensures
        r == mean_of(v, posterior::leaf_views(blocks@)),
{
    let ghost bs = posterior::leaf_views(blocks@);
    match find_block(blocks, v) {
        Some((b, i)) => {
            assert(bs[b as int] == blocks@[b as int]@);
            pick_number(&blocks[b].numbers, i as u128)
        },
        None => ZERO,
    }
}

fn variable_covariance(u: u64, v: u64, blocks: &Vec<Leaf>) -> (r: u64)
    ensures
        r == covariance_of(u, v, posterior::leaf_views(blocks@)),
{
    let ghost bs = posterior::leaf_views(blocks@);
    if let Some((b, i)) = find_block(blocks, u) {
        if let Some((c, j)) = find_block(blocks, v) {
            if b == c {
                assert(bs[b as int] == blocks@[b as int]@);
                let n: usize = blocks[b].names.len();
                proof {
                    assert(n + i * n + j <= u128::MAX && 0 <= i * n <= u128::MAX) by (nonlinear_arith)
                        requires
                            i <= u64::MAX,
                            n <= u64::MAX,
                            j <= u64::MAX,
                    ;
                }
                return pick_number(&blocks[b].numbers, n as u128 + i as u128 * n as u128 + j as u128);
            }
        }
    }
    ZERO
}

fn affine_moment<F: Fn(RealOp, u64, u64) -> u64>(
    e: &GaussianAffineExpr,
    blocks: &Vec<Leaf>,
    reals: &F,
) -> (r: u64)
    requires
        reals::settled(*reals),
    ensures
        r == affine_mean(e@, posterior::leaf_views(blocks@), reals::operations(*reals)),
{
    let ghost f = reals::operations(*reals);
    let ghost bs = posterior::leaf_views(blocks@);
    let mut total: u64 = e.constant;
    let mut k: usize = 0;
    while k < e.coefficients.len()
        invariant
            k <= e.coefficients@.len(),
            reals::settled(*reals),
            f == reals::operations(*reals),
            bs == posterior::leaf_views(blocks@),
            total == mean_upto(e@, bs, f, k as nat),
        decreases e.coefficients@.len() - k,
    {
        let c: (u64, u64) = e.coefficients[k];
        let part: u64 = compute(reals, RealOp::Product, c.1, variable_mean(c.0, blocks));
        total = compute(reals, RealOp::Sum, total, part);
        k = k + 1;
    }
    total
}

fn affine_joint<F: Fn(RealOp, u64, u64) -> u64>(
    a: &GaussianAffineExpr,
    b: &GaussianAffineExpr,
    blocks: &Vec<Leaf>,
    reals: &F,
) -> (r: u64)
    requires
        reals::settled(*reals),
    ensures
        r == affine_covariance(a@, b@, posterior::leaf_views(blocks@), reals::operations(*reals)),
{
    let ghost f = reals::operations(*reals);
    let ghost bs = posterior::leaf_views(blocks@);
    let mut total: u64 = ZERO;
    let mut i: usize = 0;
    while i < a.coefficients.len()
        invariant
            i <= a.coefficients@.len(),
            reals::settled(*reals),
            f == reals::operations(*reals),
            bs == posterior::leaf_views(blocks@),
            total == covariance_upto(a@, b@, bs, f, i as nat),
        decreases a.coefficients@.len() - i,
    {
        let c: (u64, u64) = a.coefficients[i];
        let ghost start = total;
        let mut j: usize = 0;
        while j < b.coefficients.len()
            invariant
                j <= b.coefficients@.len(),
                reals::settled(*reals),
                f == reals::operations(*reals),
                bs == posterior::leaf_views(blocks@),
                total == covariances_upto(c, b@, bs, f, start, j as nat),
            decreases b.coefficients@.len() - j,
        {
            let d: (u64, u64) = b.coefficients[j];
            let weight: u64 = compute(reals, RealOp::Product, c.1, d.1);
            let part: u64 = compute(
                reals,
                RealOp::Product,
                weight,
                variable_covariance(c.0, d.0, blocks),
            );
            total = compute(reals, RealOp::Sum, total, part);
            j = j + 1;
        }
        i = i + 1;
    }
    total
}

/// The entry of connected expressions: the joint distribution of the
/// expressions, from that of the variables below them.
#[verifier::rlimit(30)]
fn build_block_for_component<F: Fn(RealOp, u64, u64) -> u64>(
    component: &Vec<usize>,
    unique_exprs: &Vec<(GaussianAffineExpr, String)>,
    blocks: &Vec<Leaf>,
    reals: &F,
) -> (r: PacketEntry)
    requires
        reals::settled(*reals),
        forall|i: int|
            0 <= i < component@.len() ==> (#[trigger] component@[i]) < unique_exprs@.len(),
    ensures
        r@ == joint_entry(
            grouping::as_ints(component@),
            expr_views(unique_exprs@),
            posterior::leaf_views(blocks@),
            reals::operations(*reals),
        ),
{
    let ghost f = reals::operations(*reals);
    let ghost bs = posterior::leaf_views(blocks@);
    let ghost es = expr_views(unique_exprs@);
    let ghost c = grouping::as_ints(component@);
    let ghost want = joint_entry(c, es, bs, f);
    let k: usize = component.len();
    let mut names: Vec<String> = Vec::new();
    let mut numbers: Vec<u64> = Vec::new();
    let mut i: usize = 0;
    assert(text_views(names@) =~= want.names.take(0));
    while i < k
        invariant
            i <= k,
            k == component@.len(),
            k == c.len(),
            c == grouping::as_ints(component@),
            es == expr_views(unique_exprs@),
            bs == posterior::leaf_views(blocks@),
            f == reals::operations(*reals),
            reals::settled(*reals),
            want == joint_entry(c, es, bs, f),
            want.numbers.len() == k + k * k,
            forall|i: int|
                0 <= i < component@.len() ==> (#[trigger] component@[i]) < unique_exprs@.len(),
            text_views(names@) == want.names.take(i as int),
            numbers@ == want.numbers.take(i as int),
        decreases k - i,
    {
        assert(k + k * k >= k) by (nonlinear_arith);
        let ghost before = text_views(names@);
        let at: usize = component[i];
        assert(c[i as int] == at);
        assert(es[at as int] == (unique_exprs@[at as int].0@, unique_exprs@[at as int].1@));
        numbers.push(affine_moment(&unique_exprs[at].0, blocks, reals));
        names.push(unique_exprs[at].1.clone());
        assert(text_views(names@) =~= before.push(unique_exprs@[at as int].1@));
        assert(want.names.take(i + 1) =~= want.names.take(i as int).push(want.names[i as int]));
        assert(want.numbers.take(i + 1) =~= want.numbers.take(i as int).push(
            want.numbers[i as int],
        ));
        i = i + 1;
    }
    let mut row: usize = 0;
    assert(numbers@ == want.numbers.take(k + 0 * k));
    while row < k
        invariant
            row <= k,
            k == component@.len(),
            k == c.len(),
            c == grouping::as_ints(component@),
            es == expr_views(unique_exprs@),
            bs == posterior::leaf_views(blocks@),
            f == reals::operations(*reals),
            reals::settled(*reals),
            want == joint_entry(c, es, bs, f),
            want.numbers.len() == k + k * k,
            forall|i: int|
                0 <= i < component@.len() ==> (#[trigger] component@[i]) < unique_exprs@.len(),
            numbers@ == want.numbers.take(k + row * k),
        decreases k - row,
    {
        let mut col: usize = 0;
        while col < k
            invariant
                row < k,
                col <= k,
                k == component@.len(),
                k == c.len(),
                c == grouping::as_ints(component@),
                es == expr_views(unique_exprs@),
                bs == posterior::leaf_views(blocks@),
                f == reals::operations(*reals),
                reals::settled(*reals),
                want == joint_entry(c, es, bs, f),
                want.numbers.len() == k + k * k,
                forall|i: int|
                    0 <= i < component@.len() ==> (#[trigger] component@[i]) < unique_exprs@.len(),
                numbers@ == want.numbers.take(k + row * k + col),
            decreases k - col,
        {
            let a: usize = component[row];
            let b: usize = component[col];
            proof {
                assert(k + row * k + col < k + k * k && (row * k + col) / (k as int) == row && (row
                    * k + col) % (k as int) == col) by (nonlinear_arith)
                    requires
                        row < k,
                        col < k,
                        k > 0,
                ;
                assert(c[row as int] == a && c[col as int] == b);
                assert(es[a as int].0 == unique_exprs@[a as int].0@);
                assert(es[b as int].0 == unique_exprs@[b as int].0@);
            }
            let number: u64 = if row >= col {
                affine_joint(&unique_exprs[a].0, &unique_exprs[b].0, blocks, reals)
            } else {
                affine_joint(&unique_exprs[b].0, &unique_exprs[a].0, blocks, reals)
            };
            proof {
                let at = k + row * k + col;
                assert(want.numbers[at] == joint_covariance(
                    c,
                    es,
                    bs,
                    f,
                    (at - k) / (k as int),
                    (at - k) % (k as int),
                ));
                assert(number == want.numbers[at]);
                assert(want.numbers.take(at + 1) =~= want.numbers.take(at).push(want.numbers[at]));
            }
            numbers.push(number);
            col = col + 1;
        }
        assert(k + row * k + k == k + (row + 1) * k) by (nonlinear_arith);
        row = row + 1;
    }
    assert(want.numbers.take(k + k * k) =~= want.numbers);
    assert(want.names.take(k as int) =~= want.names);
    PacketEntry { names, numbers }
}

fn gaussian_blocks(leaves: &Vec<Leaf>) -> (r: Vec<Leaf>)
    ensures
        posterior::leaf_views(r@) == blocks_of(posterior::leaf_views(leaves@)),
{
    let ghost s = posterior::leaf_views(leaves@);
    let mut out: Vec<Leaf> = Vec::new();
    let mut i: usize = 0;
    assert(posterior::leaf_views(out@) =~= Seq::empty());
    while i < leaves.len()
        invariant
            i <= leaves@.len(),
            s == posterior::leaf_views(leaves@),
            posterior::leaf_views(out@) == blocks_of(s.take(i as int)),
        decreases leaves@.len() - i,
    {
        assert(s.take(i + 1).drop_last() =~= s.take(i as int));
        assert(s.take(i + 1).last() == leaves@[i as int]@);
        let ghost before = posterior::leaf_views(out@);
        if leaves[i].family == Family::Gaussian {
            out.push(leaves[i].duplicate());
            assert(posterior::leaf_views(out@) =~= before.push(leaves@[i as int]@));
        }
        i = i + 1;
    }
    assert(s.take(i as int) =~= s);
    out
}

/// The Gaussian entries: one per connected set of queried expressions.
pub fn build_affine_gaussian_blocks<F: Fn(RealOp, u64, u64) -> u64>(
    leaves: &Vec<Leaf>,
    naming: &NamingScheme,
    reals: &F,
) -> (r: Option<Vec<PacketEntry>>)
    requires
        reals::settled(*reals),
    ensures
        match r {
            Some(e) => gaussian_entries(
                posterior::leaf_views(leaves@),
                naming@,
                reals::operations(*reals),
            ) == Some(entry_views(e@)),
            None => gaussian_entries(
                posterior::leaf_views(leaves@),
                naming@,
                reals::operations(*reals),
            ) is None,
        },
{
    let ghost f = reals::operations(*reals);
    let unique_exprs: Vec<(GaussianAffineExpr, String)> = dedupe_and_order_exprs(naming);
    let blocks: Vec<Leaf> = gaussian_blocks(leaves);
    let ghost es = expr_views(unique_exprs@);
    let ghost bs = posterior::leaf_views(blocks@);
    let touched: Vec<Vec<bool>> = match compute_touched_blocks(&unique_exprs, &blocks) {
        Some(t) => t,
        None => {
            return None;
        },
    };
    let ghost t = touching(es, bs);
    assert(grouping::grid(touched@).len() == es.len());
    let components: Vec<Vec<usize>> = group_exprs_by_shared_blocks(&touched, blocks.len());
    let ghost c = grouping::components(t, bs.len());
    let ghost want = Seq::new(c.len(), |i: int| joint_entry(c[i], es, bs, f));
    let mut out: Vec<PacketEntry> = Vec::new();
    let mut i: usize = 0;
    assert(entry_views(out@) =~= want.take(0));
    assert(grouping::as_classes(components@).len() == components@.len());
    while i < components.len()
        invariant
            i <= components@.len(),
            reals::settled(*reals),
            f == reals::operations(*reals),
            es == expr_views(unique_exprs@),
            bs == posterior::leaf_views(blocks@),
            c == grouping::as_classes(components@),
            want == Seq::new(c.len(), |i: int| joint_entry(c[i], es, bs, f)),
            touched@.len() == unique_exprs@.len(),
            forall|k: int, m: int|
                0 <= k < components@.len() && 0 <= m < components@[k]@.len() ==> (
                #[trigger] components@[k]@[m]) < touched@.len(),
            entry_views(out@) == want.take(i as int),
        decreases components@.len() - i,
    {
        let ghost before = entry_views(out@);
        let e: PacketEntry = build_block_for_component(
            &components[i],
            &unique_exprs,
            &blocks,
            reals,
        );
        let ghost x = e@;
        out.push(e);
        assert(entry_views(out@) =~= before.push(x));
        assert(want.take(i + 1) =~= want.take(i as int).push(want[i as int]));
        i = i + 1;
    }
    assert(want.take(i as int) =~= want);
    Some(out)
}

/// The packet of a posterior: none if a Beta or Dirichlet variable has no
/// name, or a queried expression has a variable that the posterior leaves
/// out.
pub open spec fn packet_of(
    leaves: Seq<LeafView>,
    n: Names,
    queried: Seq<(u64, u64)>,
    spell: Spelling,
    f: Arithmetic,
) -> Option<Packet> {
    match (
        named_entries(leaves, Family::Beta, n),
        named_entries(leaves, Family::Dirichlet, n),
        gaussian_entries(leaves, n, f),
    ) {
        (Some(beta), Some(dirichlet), Some(gaussian)) => Some(
            Packet {
                beta: entries_sorted(beta),
                dirichlet: entries_sorted(dirichlet),
                gamma: entries_sorted(gamma_entries(leaves, queried, n, spell, f)),
                gaussian,
            },
        ),
        _ => None,
    }
}

/// Re-tag a posterior as a client-facing packet under display names, and
/// rewrite its Gaussian section from the underlying variables to the affine
/// expressions the program queried.
pub fn rename_to_affine_posterior_packet<
    G: Fn(u64) -> String,
    F: Fn(RealOp, u64, u64) -> u64,
>(
    leaves: &Vec<Leaf>,
    naming: &NamingScheme,
    gamma_query_scales: &Vec<(u64, u64)>,
    g: &G,
    reals: &F,
) -> (r: Option<PosteriorPacket>)
    requires
        reals::spells(*g),
        reals::settled(*reals),
    ensures
        ({
            let want = packet_of(
                posterior::leaf_views(leaves@),
                naming@,
                gamma_query_scales@,
                reals::spelling(*g),
                reals::operations(*reals),
            );
            match r {
                Some(p) => want == Some(p@),
                None => want is None,
            }
        }),
{
    let beta: Vec<PacketEntry> = match name_entries(leaves, Family::Beta, naming) {
        Some(e) => e,
        None => {
            return None;
        },
    };
    let dirichlet: Vec<PacketEntry> = match name_entries(leaves, Family::Dirichlet, naming) {
        Some(e) => e,
        None => {
            return None;
        },
    };
    let gamma: Vec<PacketEntry> = build_gamma_entries(
        leaves,
        gamma_query_scales,
        naming,
        g,
        reals,
    );
    let gaussian: Vec<PacketEntry> = match build_affine_gaussian_blocks(leaves, naming, reals) {
        Some(e) => e,
        None => {
            return None;
        },
    };
    Some(PosteriorPacket { beta, dirichlet, gamma, gaussian })
}

} // verus!
