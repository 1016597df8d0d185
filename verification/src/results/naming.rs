//! Display names for the continuous variables in a result.

use std::collections::HashMap;

use vstd::prelude::*;

use super::positions::{clone_path, Affine, Found, GaussianAffineExpr, ResultPositions};
use crate::language::types;
use crate::language::types::{Registered, StringInterner, Symbol, TypeRegistry};
use crate::utils::decimal;
use crate::utils::decimal::{push_decimal, push_subscript};
use crate::utils::text::same_text;

verus! {

broadcast use vstd::std_specs::hash::group_hash_axioms;

/// The way from the root of a value to a part of it: at each step the
/// constructor, and which of its arguments.
pub type Path = Vec<(Symbol, usize)>;

/// What a path is.
pub type Steps = Seq<(Symbol, usize)>;

/// The families of names.
#[derive(Debug, Clone, Copy, PartialEq, Eq, Structural)]
pub enum NameStyle {
    /// Gaussian variables: x, y, z, …
    Gaussian,
    /// Beta and Dirichlet variables: p, q, r, …
    Probability,
    /// Gamma-family variables (rates and Poisson/Exponential draws): λ, μ, …
    Greek,
}

/// The letters of a style.
pub open spec fn letters(style: NameStyle) -> Seq<Seq<char>> {
    match style {
        NameStyle::Gaussian => seq![
            "x"@,
            "y"@,
            "z"@,
            "w"@,
            "v"@,
            "u"@,
            "t"@,
            "s"@,
            "r"@,
        ],
        NameStyle::Probability => seq!["p"@, "q"@, "r"@, "s"@, "t"@, "u"@, "v"@, "w"@],
        NameStyle::Greek => seq!["λ"@, "μ"@, "ν"@, "κ"@, "θ"@, "ρ"@, "σ"@, "τ"@],
    }
}

/// What numbered names begin with once the letters are used up.
pub open spec fn stem_text(style: NameStyle) -> Seq<char> {
    match style {
        NameStyle::Gaussian => "x"@,
        NameStyle::Probability => "p"@,
        NameStyle::Greek => "λ_"@,
    }
}

/// The name with the index `i`, counted from 0: a letter, or a number from
/// where the letters end.
pub open spec fn nth_name(style: NameStyle, i: nat) -> Seq<char> {
    if i < letters(style).len() {
        letters(style)[i as int]
    } else {
        stem_text(style) + decimal::decimal(i + 1)
    }
}

/// The index after `i`.
pub open spec fn next_index(i: nat) -> nat {
    if i < usize::MAX {
        i + 1
    } else {
        i
    }
}

fn gaussian_var_name(idx: usize) -> (r: String)
    ensures
        r@ == nth_name(NameStyle::Gaussian, idx as nat),
{
    let letter: &str = match idx {
        0 => "x",
        1 => "y",
        2 => "z",
        3 => "w",
        4 => "v",
        5 => "u",
        6 => "t",
        7 => "s",
        8 => "r",
        _ => {
            return numbered("x", idx);
        },
    };
    letter.to_owned()
}

fn probability_name(idx: usize) -> (r: String)
    ensures
        r@ == nth_name(NameStyle::Probability, idx as nat),
{
    let letter: &str = match idx {
        0 => "p",
        1 => "q",
        2 => "r",
        3 => "s",
        4 => "t",
        5 => "u",
        6 => "v",
        7 => "w",
        _ => {
            return numbered("p", idx);
        },
    };
    letter.to_owned()
}

fn greek_name(idx: usize) -> (r: String)
    ensures
        r@ == nth_name(NameStyle::Greek, idx as nat),
{
    let letter: &str = match idx {
        0 => "λ",
        1 => "μ",
        2 => "ν",
        3 => "κ",
        4 => "θ",
        5 => "ρ",
        6 => "σ",
        7 => "τ",
        _ => {
            return numbered("λ_", idx);
        },
    };
    letter.to_owned()
}

fn numbered(stem: &str, idx: usize) -> (r: String)
    ensures
        r@ == stem@ + decimal::decimal((idx + 1) as nat),
{
    let mut out: String = stem.to_owned();
    push_decimal(&mut out, idx as u128 + 1);
    out
}

/// A source of names.
#[derive(Debug)]
pub struct VarNameGenerator {
    pub style: NameStyle,
    pub index: usize,
}

impl VarNameGenerator {
    pub fn new(style: NameStyle) -> (r: Self)
        ensures
            r == (VarNameGenerator { style, index: 0 }),
    {
        VarNameGenerator { style, index: 0 }
    }

    pub fn next_name(&mut self) -> (r: String)
        ensures
            r@ == nth_name(old(self).style, old(self).index as nat),
            final(self).style == old(self).style,
            final(self).index == next_index(old(self).index as nat),
    {
        let idx: usize = self.index;
        if idx < usize::MAX {
            self.index = idx + 1;
        }
        match self.style {
            NameStyle::Gaussian => gaussian_var_name(idx),
            NameStyle::Probability => probability_name(idx),
            NameStyle::Greek => greek_name(idx),
        }
    }
}

/// The last step of a path that is not a step along a list.
pub open spec fn last_field(path: Steps, cons: Symbol) -> Option<(Symbol, usize)>
    decreases path.len(),
{
    if path.len() == 0 {
        None
    } else if path.last().0 != cons {
        Some(path.last())
    } else {
        last_field(path.drop_last(), cons)
    }
}

/// The element occurs nowhere else.
pub open spec fn alone(fields: Seq<Symbol>, k: int) -> bool {
    forall|j: int| 0 <= j < fields.len() && j != k ==> #[trigger] fields[j] != fields[k]
}

/// A field name that serves as a display name: of one byte to five.
pub open spec fn brief(name: Seq<char>) -> bool {
    name.len() > 0 && (vstd::utf8::encode_utf8(name).len() as usize) <= 5
}

/// The name that a path gets from the field it leads through last: if the
/// constructor has no other field of that name, and the name is short.
pub open spec fn field_name(
    path: Steps,
    table: Seq<Seq<char>>,
    reg: Registered,
    cons: Symbol,
) -> Option<Seq<char>> {
    match last_field(path, cons) {
        None => None,
        Some((ctor, k)) => if reg.fields.dom().contains(ctor) && k < reg.fields[ctor].len()
            && reg.fields[ctor][k as int] < table.len() && alone(reg.fields[ctor], k as int)
            && brief(table[reg.fields[ctor][k as int] as int]) {
            Some(table[reg.fields[ctor][k as int] as int])
        } else {
            None
        },
    }
}

fn find_field(path: &Path, cons_sym: Symbol) -> (r: Option<(Symbol, usize)>)
    ensures
        r == last_field(path@, cons_sym),
{
    let mut n: usize = path.len();
    assert(path@.take(n as int) =~= path@);
    while n > 0
        invariant
            n <= path@.len(),
            last_field(path@, cons_sym) == last_field(path@.take(n as int), cons_sym),
        decreases n,
    {
        let step: (Symbol, usize) = path[n - 1];
        assert(path@.take(n as int).drop_last() =~= path@.take(n - 1));
        if step.0 != cons_sym {
            return Some(step);
        }
        n = n - 1;
    }
    None
}

fn occurs_once(fields: &Vec<Symbol>, k: usize) -> (r: bool)
    requires
        k < fields@.len(),
    ensures
        r == alone(fields@, k as int),
{
    let mut j: usize = 0;
    while j < fields.len()
        invariant
            j <= fields@.len(),
            k < fields@.len(),
            forall|i: int| 0 <= i < j && i != k ==> #[trigger] fields@[i] != fields@[k as int],
        decreases fields@.len() - j,
    {
        if j != k && fields[j] == fields[k] {
            return false;
        }
        j = j + 1;
    }
    true
}

fn field_name_for_path(
    path: &Path,
    interner: &StringInterner,
    types: &TypeRegistry,
    cons_sym: Symbol,
) -> (r: Option<String>)
    ensures
        match r {
            Some(s) => field_name(path@, interner@, types@, cons_sym) == Some(s@),
            None => field_name(path@, interner@, types@, cons_sym) is None,
        },
{
    let (ctor, k): (Symbol, usize) = match find_field(path, cons_sym) {
        Some(step) => step,
        None => {
            return None;
        },
    };
    match types.args_of_constructor.get(&ctor) {
        None => None,
        Some(fields) => {
            assert(types@.fields[ctor] == fields@);
            if k >= fields.len() {
                return None;
            }
            let field: Symbol = fields[k];
            if field as usize >= interner.len() {
                return None;
            }
            let name: &str = interner.resolve(field);
            if occurs_once(fields, k) && name.len() <= 5 && !name.is_empty() {
                Some(name.to_owned())
            } else {
                None
            }
        },
    }
}

/// A path without the steps along a list at its end.
pub open spec fn list_stem(path: Steps, cons: Symbol) -> Steps
    decreases path.len(),
{
    if path.len() > 0 && path.last() == (cons, 1usize) {
        list_stem(path.drop_last(), cons)
    } else {
        path
    }
}

/// The list that a path leads into, if it leads to an element of one, and
/// which element.
pub open spec fn list_spot(path: Steps, cons: Symbol) -> Option<(Steps, nat)> {
    if path.len() == 0 || path.last() != (cons, 0usize) {
        None
    } else {
        let spine = path.drop_last();
        Some((list_stem(spine, cons), (spine.len() - list_stem(spine, cons).len()) as nat))
    }
}

/// The elements of one list: the path of the list, and the place of each
/// element in it with the number of the position that it is.
pub struct Members {
    pub prefix: Steps,
    pub entries: Seq<(usize, usize)>,
}

/// An entry put behind all that do not come after it.
pub open spec fn placed(s: Seq<(usize, usize)>, e: (usize, usize)) -> Seq<(usize, usize)>
    decreases s.len(),
{
    if s.len() == 0 || s.last().0 <= e.0 {
        s.push(e)
    } else {
        placed(s.drop_last(), e).push(s.last())
    }
}

/// The first list with the path.
pub open spec fn seek(g: Seq<Members>, prefix: Steps, from: int) -> int
    decreases g.len() - from,
{
    if from < 0 || from >= g.len() || g[from].prefix == prefix {
        from
    } else {
        seek(g, prefix, from + 1)
    }
}

/// The lists with one more element.
pub open spec fn entered(g: Seq<Members>, prefix: Steps, e: (usize, usize)) -> Seq<Members> {
    let j = seek(g, prefix, 0);
    if j < g.len() {
        g.update(j, Members { prefix, entries: placed(g[j].entries, e) })
    } else {
        g.push(Members { prefix, entries: seq![e] })
    }
}

/// The lists that the paths lead into, in the order in which the paths come
/// to them, if every path leads to an element of a list.
pub open spec fn list_groups(paths: Seq<Steps>, cons: Symbol) -> Option<Seq<Members>>
    decreases paths.len(),
{
    if paths.len() == 0 {
        Some(Seq::empty())
    } else {
        match (list_groups(paths.drop_last(), cons), list_spot(paths.last(), cons)) {
            (Some(g), Some((prefix, at))) => Some(
                entered(g, prefix, (at as usize, (paths.len() - 1) as usize)),
            ),
            _ => None,
        }
    }
}

/// The elements of one list.
#[derive(Debug)]
pub struct ListGroup {
    pub prefix: Path,
    pub entries: Vec<(usize, usize)>,
}

impl View for ListGroup {
    type V = Members;

    open spec fn view(&self) -> Members {
        Members { prefix: self.prefix@, entries: self.entries@ }
    }
}

pub open spec fn group_views(s: Seq<ListGroup>) -> Seq<Members> {
    Seq::new(s.len(), |i: int| s[i]@)
}

pub open spec fn path_views(s: Seq<Path>) -> Seq<Steps> {
    Seq::new(s.len(), |i: int| s[i]@)
}

fn same_path(a: &Path, b: &Path) -> (r: bool)
    ensures
        r == (a@ == b@),
{
    if a.len() != b.len() {
        return false;
    }
    let mut i: usize = 0;
    while i < a.len()
        invariant
            i <= a@.len(),
            a@.len() == b@.len(),
            forall|j: int| 0 <= j < i ==> a@[j] == b@[j],
        decreases a@.len() - i,
    {
        if a[i].0 != b[i].0 || a[i].1 != b[i].1 {
            return false;
        }
        i = i + 1;
    }
    assert(a@ =~= b@);
    true
}

/// Put an entry behind all that do not come after it.
fn place(s: &mut Vec<(usize, usize)>, e: (usize, usize))
    ensures
        final(s)@ == placed(old(s)@, e),
{
    let ghost whole = s@;
    let mut at: usize = s.len();
    assert(whole.take(at as int) =~= whole);
    assert(placed(whole.take(at as int), e) + whole.skip(at as int) =~= placed(whole, e));
    while at > 0 && s[at - 1].0 > e.0
        invariant
            s@ == whole,
            at <= whole.len(),
            placed(whole.take(at as int), e) + whole.skip(at as int) == placed(whole, e),
        decreases at,
    {
        proof {
            let front = whole.take(at as int);
            assert(front.drop_last() =~= whole.take(at - 1));
            assert(placed(front, e) == placed(front.drop_last(), e).push(front.last()));
            assert(placed(whole.take(at - 1), e) + whole.skip(at - 1) =~= placed(front, e)
                + whole.skip(at as int));
        }
        at = at - 1;
    }
    s.insert(at, e);
    assert(placed(whole.take(at as int), e) == whole.take(at as int).push(e));
    assert(s@ =~= whole.take(at as int).push(e) + whole.skip(at as int));
}

proof fn lemma_seek(g: Seq<Members>, prefix: Steps, from: int)
    requires
        0 <= from <= g.len(),
    ensures
        from <= seek(g, prefix, from) <= g.len(),
        seek(g, prefix, from) < g.len() ==> g[seek(g, prefix, from)].prefix == prefix,
    decreases g.len() - from,
{
    if from < g.len() && g[from].prefix != prefix {
        lemma_seek(g, prefix, from + 1);
    }
}

fn enter(groups: &mut Vec<ListGroup>, prefix: Path, e: (usize, usize))
    ensures
        group_views(final(groups)@) == entered(group_views(old(groups)@), prefix@, e),
{
    let ghost before = group_views(groups@);
    let mut j: usize = 0;
    while j < groups.len() && !same_path(&groups[j].prefix, &prefix)
        invariant
            groups@ == old(groups)@,
            before == group_views(old(groups)@),
            j <= groups@.len(),
            seek(before, prefix@, 0) == seek(before, prefix@, j as int),
        decreases groups@.len() - j,
    {
        assert(before[j as int].prefix == groups@[j as int].prefix@);
        j = j + 1;
    }
    if j < groups.len() {
        assert(before[j as int].prefix == prefix@);
        let mut group = ListGroup { prefix, entries: Vec::new() };
        let ghost entries = before[j as int].entries;
        std::mem::swap(&mut group, &mut groups[j]);
        let ListGroup { prefix: p, entries: mut kept } = group;
        place(&mut kept, e);
        groups[j] = ListGroup { prefix: p, entries: kept };
        assert(group_views(groups@) =~= entered(before, prefix@, e));
    } else {
        let mut entries: Vec<(usize, usize)> = Vec::new();
        entries.push(e);
        assert(entries@ =~= seq![e]);
        groups.push(ListGroup { prefix, entries });
        assert(group_views(groups@) =~= entered(before, prefix@, e));
    }
}

/// The list that a path leads into.
fn list_position(path: &Path, cons_sym: Symbol) -> (r: Option<(Path, usize)>)
    ensures
        match r {
            Some((prefix, at)) => list_spot(path@, cons_sym) == Some((prefix@, at as nat)),
            None => list_spot(path@, cons_sym) is None,
        },
{
    let n: usize = path.len();
    if n == 0 || path[n - 1].0 != cons_sym || path[n - 1].1 != 0 {
        return None;
    }
    let ghost spine = path@.drop_last();
    let mut end: usize = n - 1;
    assert(spine =~= path@.take(end as int));
    while end > 0 && path[end - 1].0 == cons_sym && path[end - 1].1 == 1
        invariant
            end <= n - 1,
            n == path@.len(),
            spine == path@.take(n - 1),
            list_stem(spine, cons_sym) == list_stem(path@.take(end as int), cons_sym),
        decreases end,
    {
        assert(path@.take(end as int).drop_last() =~= path@.take(end - 1));
        assert(path@.take(end as int).last() == (cons_sym, 1usize));
        end = end - 1;
    }
    assert(list_stem(spine, cons_sym) == path@.take(end as int));
    let mut prefix: Path = Vec::new();
    let mut i: usize = 0;
    while i < end
        invariant
            i <= end <= path@.len(),
            prefix@ == path@.take(i as int),
        decreases end - i,
    {
        prefix.push(path[i]);
        assert(path@.take(i + 1) =~= path@.take(i as int).push(path@[i as int]));
        i = i + 1;
    }
    Some((prefix, n - 1 - end))
}

/// Group the positions by the lists they are elements of.
fn detect_list_groups(positions: &Vec<Path>, cons_sym: Symbol) -> (r: Option<Vec<ListGroup>>)
    ensures
        match r {
            Some(g) => list_groups(path_views(positions@), cons_sym) == Some(group_views(g@)),
            None => list_groups(path_views(positions@), cons_sym) is None,
        },
{
    let mut groups: Vec<ListGroup> = Vec::new();
    let mut i: usize = 0;
    let ghost paths = path_views(positions@);
    assert(group_views(groups@) =~= Seq::empty());
    while i < positions.len()
        invariant
            i <= positions@.len(),
            paths == path_views(positions@),
            list_groups(paths.take(i as int), cons_sym) == Some(group_views(groups@)),
        decreases positions@.len() - i,
    {
        assert(paths.take(i + 1).drop_last() =~= paths.take(i as int));
        assert(paths.take(i + 1).last() == positions@[i as int]@);
        match list_position(&positions[i], cons_sym) {
            Some((prefix, at)) => {
                enter(&mut groups, prefix, (at, i));
            },
            None => {
                proof {
                    lemma_no_groups(paths, cons_sym, i + 1);
                }
                return None;
            },
        }
        i = i + 1;
    }
    assert(paths.take(i as int) =~= paths);
    Some(groups)
}

proof fn lemma_no_groups(paths: Seq<Steps>, cons: Symbol, k: int)
    requires
        0 <= k <= paths.len(),
        list_groups(paths.take(k), cons) is None,
    ensures
        list_groups(paths, cons) is None,
    decreases paths.len() - k,
{
    if k < paths.len() {
        assert(paths.take(k + 1).drop_last() =~= paths.take(k));
        lemma_no_groups(paths, cons, k + 1);
    } else {
        assert(paths.take(k) =~= paths);
    }
}

/// Entries stay in the order of their places.
pub proof fn lemma_placed_sorted(s: Seq<(usize, usize)>, e: (usize, usize))
    requires
        forall|i: int, j: int| 0 <= i < j < s.len() ==> (#[trigger] s[i]).0 <= (#[trigger] s[j]).0,
    ensures
        forall|i: int, j: int|
            0 <= i < j < placed(s, e).len() ==> (#[trigger] placed(s, e)[i]).0 <= (#[trigger] placed(
                s,
                e,
            )[j]).0,
        placed(s, e).len() == s.len() + 1,
        forall|i: int|
            0 <= i <= s.len() ==> ((#[trigger] placed(s, e)[i]) == e || s.contains(
                placed(s, e)[i],
            )),
    decreases s.len(),
{
    if s.len() > 0 && s.last().0 > e.0 {
        let p = s.drop_last();
        lemma_placed_sorted(p, e);
        let q = placed(p, e);
        assert forall|i: int| 0 <= i <= s.len() implies ((#[trigger] placed(s, e)[i]) == e
            || s.contains(placed(s, e)[i])) by {
            if i < s.len() {
                assert(placed(s, e)[i] == q[i]);
                if q[i] != e {
                    let j = choose|j: int| 0 <= j < p.len() && p[j] == q[i];
                    assert(s[j] == q[i]);
                }
            } else {
                assert(s[s.len() - 1] == placed(s, e)[i]);
            }
        }
        assert forall|i: int, j: int| 0 <= i < j < placed(s, e).len() implies (#[trigger] placed(
            s,
            e,
        )[i]).0 <= (#[trigger] placed(s, e)[j]).0 by {
            if j == s.len() {
                assert(placed(s, e)[i] == q[i]);
                if q[i] != e {
                    let k = choose|k: int| 0 <= k < p.len() && p[k] == q[i];
                    assert(s[k].0 <= s[s.len() - 1].0);
                }
            } else {
                assert(q[i].0 <= q[j].0);
            }
        }
    } else {
        assert(placed(s, e) == s.push(e));
        assert forall|i: int| 0 <= i <= s.len() implies ((#[trigger] placed(s, e)[i]) == e
            || s.contains(placed(s, e)[i])) by {
            if i < s.len() {
                assert(s[i] == placed(s, e)[i]);
            }
        }
    }
}

/// The entries name positions below `n`.
spec fn within(m: Members, n: int) -> bool {
    forall|i: int| 0 <= i < m.entries.len() ==> (#[trigger] m.entries[i]).1 < n
}

proof fn lemma_placed_within(s: Seq<(usize, usize)>, e: (usize, usize), n: int)
    requires
        forall|i: int| 0 <= i < s.len() ==> (#[trigger] s[i]).1 < n,
        e.1 < n,
    ensures
        forall|i: int| 0 <= i < placed(s, e).len() ==> (#[trigger] placed(s, e)[i]).1 < n,
    decreases s.len(),
{
    if s.len() > 0 && s.last().0 > e.0 {
        let p = s.drop_last();
        lemma_placed_within(p, e, n);
        assert forall|i: int| 0 <= i < placed(s, e).len() implies (#[trigger] placed(s, e)[i]).1
            < n by {
            if i < placed(p, e).len() {
                assert(placed(s, e)[i] == placed(p, e)[i]);
            } else {
                assert(placed(s, e)[i] == s[s.len() - 1]);
            }
        }
    } else {
        assert forall|i: int| 0 <= i < placed(s, e).len() implies (#[trigger] placed(s, e)[i]).1
            < n by {
            if i < s.len() {
                assert(placed(s, e)[i] == s[i]);
            }
        }
    }
}

proof fn lemma_groups_within(paths: Seq<Steps>, cons: Symbol)
    requires
        list_groups(paths, cons) is Some,
        paths.len() <= usize::MAX,
    ensures
        forall|j: int|
            0 <= j < list_groups(paths, cons)->0.len() ==> within(
                #[trigger] (list_groups(paths, cons)->0)[j],
                paths.len() as int,
            ),
    decreases paths.len(),
{
    if paths.len() > 0 {
        let p = paths.drop_last();
        lemma_groups_within(p, cons);
        let g = list_groups(p, cons)->0;
        let (prefix, at) = list_spot(paths.last(), cons)->0;
        let e = (at as usize, (paths.len() - 1) as usize);
        lemma_seek(g, prefix, 0);
        let j = seek(g, prefix, 0);
        if j < g.len() {
            assert(within(g[j], p.len() as int));
            lemma_placed_within(g[j].entries, e, paths.len() as int);
        }
        let h = list_groups(paths, cons)->0;
        assert(h == entered(g, prefix, e));
        assert forall|i: int| 0 <= i < h.len() implies within(#[trigger] h[i], paths.len() as int) by {
            if i < g.len() && i != j {
                assert(h[i] == g[i]);
                assert(within(g[i], p.len() as int));
            }
        }
    }
}

/// Names on the way to being assigned: those that are, and the index of the
/// next to be generated.
pub struct Draft {
    pub names: Seq<Option<Seq<char>>>,
    pub index: nat,
}

/// The first `k` elements of a list named by a base name and their number.
pub open spec fn numbered_names(
    names: Seq<Option<Seq<char>>>,
    entries: Seq<(usize, usize)>,
    base: Seq<char>,
    k: nat,
) -> Seq<Option<Seq<char>>>
    decreases k,
{
    if k == 0 {
        names
    } else {
        numbered_names(names, entries, base, (k - 1) as nat).update(
            entries[k - 1].1 as int,
            Some(base + decimal::subscript((k - 1) as nat)),
        )
    }
}

/// The elements of a list named: after the field that holds the list, or a
/// name generated for it. The only element of a list takes the name of the
/// field if there is one, and otherwise stays without.
pub open spec fn group_named(
    d: Draft,
    m: Members,
    field: Option<Seq<char>>,
    style: NameStyle,
) -> Draft {
    if m.entries.len() == 1 {
        match field {
            Some(n) => Draft { names: d.names.update(m.entries[0].1 as int, Some(n)), ..d },
            None => d,
        }
    } else {
        let n = m.entries.len();
        match field {
            Some(base) => Draft { names: numbered_names(d.names, m.entries, base, n), ..d },
            None => Draft {
                names: numbered_names(d.names, m.entries, nth_name(style, d.index), n),
                index: next_index(d.index),
            },
        }
    }
}

/// The name of the field that holds a list.
pub open spec fn group_field(
    m: Members,
    table: Seq<Seq<char>>,
    reg: Registered,
    cons: Symbol,
) -> Option<Seq<char>> {
    if m.prefix.len() == 0 {
        None
    } else {
        field_name(m.prefix, table, reg, cons)
    }
}

/// The elements of all lists named.
pub open spec fn groups_named(
    d: Draft,
    g: Seq<Members>,
    table: Seq<Seq<char>>,
    reg: Registered,
    cons: Symbol,
    style: NameStyle,
) -> Draft
    decreases g.len(),
{
    if g.len() == 0 {
        d
    } else {
        group_named(
            groups_named(d, g.drop_last(), table, reg, cons, style),
            g.last(),
            group_field(g.last(), table, reg, cons),
            style,
        )
    }
}

/// The names that positions get as elements of lists.
pub open spec fn drafted(
    paths: Seq<Steps>,
    table: Seq<Seq<char>>,
    reg: Registered,
    cons: Symbol,
    style: NameStyle,
    index: nat,
) -> Draft {
    let blank = Draft { names: Seq::new(paths.len(), |i: int| None::<Seq<char>>), index };
    match list_groups(paths, cons) {
        Some(g) => groups_named(blank, g, table, reg, cons, style),
        None => blank,
    }
}

/// The names that positions have or could take from their fields.
pub open spec fn candidates(
    d: Draft,
    paths: Seq<Steps>,
    table: Seq<Seq<char>>,
    reg: Registered,
    cons: Symbol,
) -> Seq<Option<Seq<char>>> {
    Seq::new(
        paths.len(),
        |i: int|
            match d.names[i] {
                Some(n) => Some(n),
                None => field_name(paths[i], table, reg, cons),
            },
    )
}

/// How often a name occurs.
pub open spec fn uses(s: Seq<Option<Seq<char>>>, name: Seq<char>) -> nat
    decreases s.len(),
{
    if s.len() == 0 {
        0
    } else {
        uses(s.drop_last(), name) + if s.last() == Some(name) {
            1nat
        } else {
            0
        }
    }
}

/// The first `k` names: a name from a list stays, a name from a field is
/// taken if nothing else could take it, and all others are generated.
pub open spec fn finished(
    d: Draft,
    c: Seq<Option<Seq<char>>>,
    style: NameStyle,
    k: nat,
) -> (Seq<Seq<char>>, nat)
    decreases k,
{
    if k == 0 {
        (Seq::empty(), d.index)
    } else {
        let (s, i) = finished(d, c, style, (k - 1) as nat);
        match (d.names[k - 1], c[k - 1]) {
            (Some(n), _) => (s.push(n), i),
            (None, Some(n)) => if uses(c, n) == 1 {
                (s.push(n), i)
            } else {
                (s.push(nth_name(style, i)), next_index(i))
            },
            (None, None) => (s.push(nth_name(style, i)), next_index(i)),
        }
    }
}

/// The names of positions, and the index of the next name to be generated.
pub open spec fn position_names(
    paths: Seq<Steps>,
    table: Seq<Seq<char>>,
    reg: Registered,
    cons: Symbol,
    style: NameStyle,
    index: nat,
) -> (Seq<Seq<char>>, nat) {
    let d = drafted(paths, table, reg, cons, style, index);
    finished(d, candidates(d, paths, table, reg, cons), style, paths.len())
}

/// Every position has a name.
pub proof fn lemma_all_named(d: Draft, c: Seq<Option<Seq<char>>>, style: NameStyle, k: nat)
    ensures
        finished(d, c, style, k).0.len() == k,
    decreases k,
{
    if k > 0 {
        lemma_all_named(d, c, style, (k - 1) as nat);
    }
}

pub open spec fn option_views(s: Seq<Option<String>>) -> Seq<Option<Seq<char>>> {
    Seq::new(
        s.len(),
        |i: int|
            match s[i] {
                Some(t) => Some(t@),
                None => None,
            },
    )
}

pub open spec fn text_views(s: Seq<String>) -> Seq<Seq<char>> {
    Seq::new(s.len(), |i: int| s[i]@)
}

fn number_elements(names: &mut Vec<Option<String>>, entries: &Vec<(usize, usize)>, base: &str)
    requires
        forall|i: int| 0 <= i < entries@.len() ==> (#[trigger] entries@[i]).1 < old(names)@.len(),
    ensures
        option_views(final(names)@) == numbered_names(
            option_views(old(names)@),
            entries@,
            base@,
            entries@.len(),
        ),
        final(names)@.len() == old(names)@.len(),
{
    let mut k: usize = 0;
    while k < entries.len()
        invariant
            k <= entries@.len(),
            names@.len() == old(names)@.len(),
            forall|i: int| 0 <= i < entries@.len() ==> (#[trigger] entries@[i]).1 < names@.len(),
            option_views(names@) == numbered_names(
                option_views(old(names)@),
                entries@,
                base@,
                k as nat,
            ),
        decreases entries@.len() - k,
    {
        let at: usize = entries[k].1;
        let mut name: String = base.to_owned();
        push_subscript(&mut name, k as u64);
        let ghost before = option_views(names@);
        names.set(at, Some(name));
        assert(option_views(names@) =~= before.update(
            at as int,
            Some(base@ + decimal::subscript(k as nat)),
        ));
        k = k + 1;
    }
}

fn name_group(
    names: &mut Vec<Option<String>>,
    group: &ListGroup,
    field: Option<String>,
    name_gen: &mut VarNameGenerator,
)
    requires
        within(group@, old(names)@.len() as int),
    ensures
        final(names)@.len() == old(names)@.len(),
        final(name_gen).style == old(name_gen).style,
        ({
            let d = Draft { names: option_views(old(names)@), index: old(name_gen).index as nat };
            let f = match field {
                Some(t) => Some(t@),
                None => None,
            };
            let e = group_named(d, group@, f, old(name_gen).style);
            option_views(final(names)@) == e.names && final(name_gen).index == e.index
        }),
{
    assert(forall|i: int|
        0 <= i < group.entries@.len() ==> (#[trigger] group@.entries[i]).1 < names@.len());
    if group.entries.len() == 1 {
        match field {
            Some(name) => {
                let ghost before = option_views(names@);
                let ghost text = name@;
                let at: usize = group.entries[0].1;
                assert(group@.entries[0].1 == at);
                names.set(at, Some(name));
                assert(option_views(names@) =~= before.update(at as int, Some(text)));
            },
            None => {},
        }
    } else {
        let base: String = match field {
            Some(name) => name,
            None => name_gen.next_name(),
        };
        assert forall|i: int| 0 <= i < group.entries@.len() implies (
        #[trigger] group.entries@[i]).1 < names@.len() by {
            assert(group@.entries[i].1 < names@.len());
        }
        number_elements(names, &group.entries, base.as_str());
    }
}

fn count_uses(c: &Vec<Option<String>>, name: &str) -> (r: usize)
    ensures
        r == uses(option_views(c@), name@),
{
    let mut n: usize = 0;
    let mut i: usize = 0;
    let ghost all = option_views(c@);
    while i < c.len()
        invariant
            i <= c@.len(),
            all == option_views(c@),
            n <= i,
            n == uses(all.take(i as int), name@),
        decreases c@.len() - i,
    {
        assert(all.take(i + 1).drop_last() =~= all.take(i as int));
        let hit: bool = match &c[i] {
            Some(t) => same_text(t.as_str(), name),
            None => false,
        };
        assert(hit == (all[i as int] == Some(name@)));
        if hit {
            n = n + 1;
        }
        i = i + 1;
    }
    assert(all.take(i as int) =~= all);
    n
}

/// Name the elements of lists.
fn draft_names(
    positions: &Vec<Path>,
    interner: &StringInterner,
    types: &TypeRegistry,
    cons_sym: Symbol,
    name_gen: &mut VarNameGenerator,
) -> (r: Vec<Option<String>>)
    ensures
        final(name_gen).style == old(name_gen).style,
        r@.len() == positions@.len(),
        ({
            let d = drafted(
                path_views(positions@),
                interner@,
                types@,
                cons_sym,
                old(name_gen).style,
                old(name_gen).index as nat,
            );
            option_views(r@) == d.names && final(name_gen).index == d.index
        }),
{
    let mut names: Vec<Option<String>> = Vec::new();
    let mut i: usize = 0;
    let n: usize = positions.len();
    while i < n
        invariant
            i <= n,
            names@.len() == i,
            forall|j: int| 0 <= j < i ==> (#[trigger] names@[j]) is None,
        decreases n - i,
    {
        names.push(None);
        i = i + 1;
    }
    let ghost paths = path_views(positions@);
    let ghost blank = Draft {
        names: Seq::new(paths.len(), |i: int| None::<Seq<char>>),
        index: name_gen.index as nat,
    };
    assert(option_views(names@) =~= blank.names);
    match detect_list_groups(positions, cons_sym) {
        None => {},
        Some(groups) => {
            let ghost all = group_views(groups@);
            proof {
                lemma_groups_within(paths, cons_sym);
                assert(list_groups(paths, cons_sym) == Some(all));
                assert forall|j: int| 0 <= j < all.len() implies within(#[trigger] all[j], n as int) by {
                    assert((list_groups(paths, cons_sym)->0)[j] == all[j]);
                }
            }
            let mut k: usize = 0;
            while k < groups.len()
                invariant
                    k <= groups@.len(),
                    names@.len() == n,
                    n == paths.len(),
                    all == group_views(groups@),
                    forall|j: int| 0 <= j < all.len() ==> within(#[trigger] all[j], n as int),
                    name_gen.style == old(name_gen).style,
                    ({
                        let d = groups_named(
                            blank,
                            all.take(k as int),
                            interner@,
                            types@,
                            cons_sym,
                            old(name_gen).style,
                        );
                        option_views(names@) == d.names && name_gen.index == d.index
                    }),
                decreases groups@.len() - k,
            {
                assert(all.take(k + 1).drop_last() =~= all.take(k as int));
                assert(all[k as int] == groups@[k as int]@);
                let field: Option<String> = if groups[k].prefix.len() == 0 {
                    None
                } else {
                    field_name_for_path(&groups[k].prefix, interner, types, cons_sym)
                };
                name_group(&mut names, &groups[k], field, name_gen);
                k = k + 1;
            }
            assert(all.take(k as int) =~= all);
        },
    }
    names
}

/// Name the positions: elements of lists by their list and number, others by
/// their field, and what is left by generated names.
pub fn assign_position_names(
    positions: &Vec<Path>,
    interner: &StringInterner,
    types: &TypeRegistry,
    cons_sym: Symbol,
    name_gen: &mut VarNameGenerator,
) -> (r: Vec<String>)
    ensures
        final(name_gen).style == old(name_gen).style,
        (text_views(r@), final(name_gen).index as nat) == position_names(
            path_views(positions@),
            interner@,
            types@,
            cons_sym,
            old(name_gen).style,
            old(name_gen).index as nat,
        ),
        r@.len() == positions@.len(),
{
    let ghost paths = path_views(positions@);
    let ghost style = name_gen.style;
    let ghost start = name_gen.index as nat;
    let names: Vec<Option<String>> = draft_names(positions, interner, types, cons_sym, name_gen);
    let ghost d = drafted(paths, interner@, types@, cons_sym, style, start);
    let ghost wanted = candidates(d, paths, interner@, types@, cons_sym);
    let mut options: Vec<Option<String>> = Vec::new();
    let mut i: usize = 0;
    while i < positions.len()
        invariant
            i <= positions@.len(),
            names@.len() == positions@.len(),
            paths == path_views(positions@),
            option_views(names@) == d.names,
            wanted == candidates(d, paths, interner@, types@, cons_sym),
            option_views(options@) == wanted.take(i as int),
            options@.len() == i,
        decreases positions@.len() - i,
    {
        let ghost before = option_views(options@);
        assert(d.names[i as int] == option_views(names@)[i as int]);
        assert(paths[i as int] == positions@[i as int]@);
        let option: Option<String> = match &names[i] {
            Some(name) => Some(name.clone()),
            None => field_name_for_path(&positions[i], interner, types, cons_sym),
        };
        options.push(option);
        assert(option_views(options@) =~= before.push(wanted[i as int]));
        assert(wanted.take(i + 1) =~= wanted.take(i as int).push(wanted[i as int]));
        i = i + 1;
    }
    assert(wanted.take(i as int) =~= wanted);
    let mut out: Vec<String> = Vec::new();
    let mut k: usize = 0;
    assert(text_views(out@) =~= Seq::empty());
    while k < positions.len()
        invariant
            k <= positions@.len(),
            names@.len() == positions@.len(),
            options@.len() == positions@.len(),
            option_views(names@) == d.names,
            option_views(options@) == wanted,
            name_gen.style == style,
            (text_views(out@), name_gen.index as nat) == finished(d, wanted, style, k as nat),
            out@.len() == k,
        decreases positions@.len() - k,
    {
        let ghost before = text_views(out@);
        assert(d.names[k as int] == option_views(names@)[k as int]);
        assert(wanted[k as int] == option_views(options@)[k as int]);
        let name: String = match &names[k] {
            Some(name) => name.clone(),
            None => match &options[k] {
                Some(name) => if count_uses(&options, name.as_str()) == 1 {
                    name.clone()
                } else {
                    name_gen.next_name()
                },
                None => name_gen.next_name(),
            },
        };
        let ghost text = name@;
        out.push(name);
        assert(text_views(out@) =~= before.push(text));
        k = k + 1;
    }
    out
}

/// Display names for continuous-variable leaves in a query distribution.
///
/// `var_names`: one entry per underlying variable. Beta, Dirichlet, and
/// Gamma-family leaves key here, so two references to the same variable
/// resolve to the same name.
///
/// `expr_names`: one entry per Gaussian affine expression.
#[derive(Debug)]
pub struct NamingScheme {
    pub var_names: HashMap<u64, String>,
    pub expr_names: Vec<(GaussianAffineExpr, String)>,
}

/// What names there are.
pub struct Names {
    pub vars: Map<u64, Seq<char>>,
    pub exprs: Seq<(Affine, Seq<char>)>,
}

impl View for NamingScheme {
    type V = Names;

    open spec fn view(&self) -> Names {
        Names {
            vars: self.var_names@.map_values(|s: String| s@),
            exprs: Seq::new(
                self.expr_names@.len(),
                |i: int| (self.expr_names@[i].0@, self.expr_names@[i].1@),
            ),
        }
    }
}

/// The names with those of further variables; a variable that has a name
/// keeps it.
pub open spec fn first_named(
    m: Map<u64, Seq<char>>,
    vars: Seq<u64>,
    names: Seq<Seq<char>>,
) -> Map<u64, Seq<char>>
    decreases vars.len(),
{
    if vars.len() == 0 {
        m
    } else {
        let n = first_named(m, vars.drop_last(), names);
        if n.dom().contains(vars.last()) {
            n
        } else {
            n.insert(vars.last(), names[vars.len() - 1])
        }
    }
}

/// The name of an expression, from `from` on.
pub open spec fn expr_name_from(s: Seq<(Affine, Seq<char>)>, e: Affine, from: int) -> Option<
    Seq<char>,
>
    decreases s.len() - from,
{
    if from < 0 || from >= s.len() {
        None
    } else if s[from].0 == e {
        Some(s[from].1)
    } else {
        expr_name_from(s, e, from + 1)
    }
}

/// The expressions with their names, each once.
pub open spec fn exprs_named(exprs: Seq<Affine>, names: Seq<Seq<char>>) -> Seq<(Affine, Seq<char>)>
    decreases exprs.len(),
{
    if exprs.len() == 0 {
        Seq::empty()
    } else {
        let s = exprs_named(exprs.drop_last(), names);
        match expr_name_from(s, exprs.last(), 0) {
            Some(_) => s,
            None => s.push((exprs.last(), names[exprs.len() - 1])),
        }
    }
}

impl Names {
    pub open spec fn expr(self, e: Affine) -> Option<Seq<char>> {
        expr_name_from(self.exprs, e, 0)
    }
}

/// The symbol of a name, or the greatest symbol if it is not in the table.
pub open spec fn symbol_or_max(table: Seq<Seq<char>>, s: Seq<char>) -> Symbol {
    if table.contains(s) {
        types::symbol_in(table, s)
    } else {
        u32::MAX
    }
}

pub fn lookup_or_max(interner: &StringInterner, s: &str) -> (r: Symbol)
    requires
        interner.wf(),
    ensures
        r == symbol_or_max(interner@, s@),
{
    match interner.lookup(s) {
        Some(sym) => *sym,
        None => u32::MAX,
    }
}

pub open spec fn paths_of<T>(s: Seq<(Steps, T)>) -> Seq<Steps> {
    Seq::new(s.len(), |i: int| s[i].0)
}

pub open spec fn targets_of<T>(s: Seq<(Steps, T)>) -> Seq<T> {
    Seq::new(s.len(), |i: int| s[i].1)
}

pub open spec fn gamma_names(s: Seq<(Steps, (u64, u64))>) -> Seq<u64> {
    Seq::new(s.len(), |i: int| (s[i].1).0)
}

/// The names for positions: of Gaussian expressions, of Beta and Dirichlet
/// variables, which share their letters, and of Gamma-family variables. The
/// first position of a variable or expression names it.
pub open spec fn names_for(f: Found, table: Seq<Seq<char>>, reg: Registered) -> Names {
    let cons = symbol_or_max(table, "Cons"@);
    let gauss = position_names(paths_of(f.gauss), table, reg, cons, NameStyle::Gaussian, 0);
    let beta = position_names(paths_of(f.beta), table, reg, cons, NameStyle::Probability, 0);
    let dirichlet = position_names(
        paths_of(f.dirichlet),
        table,
        reg,
        cons,
        NameStyle::Probability,
        beta.1,
    );
    let gamma = position_names(paths_of(f.gamma), table, reg, cons, NameStyle::Greek, 0);
    Names {
        vars: first_named(
            first_named(
                first_named(Map::empty(), targets_of(f.beta), beta.0),
                targets_of(f.dirichlet),
                dirichlet.0,
            ),
            gamma_names(f.gamma),
            gamma.0,
        ),
        exprs: exprs_named(targets_of(f.gauss), gauss.0),
    }
}

/// A variable has a name afterwards exactly if it had one before or is one
/// of those named, and a name once given stays.
pub proof fn lemma_first_named(
    m: Map<u64, Seq<char>>,
    vars: Seq<u64>,
    names: Seq<Seq<char>>,
    v: u64,
)
    ensures
        first_named(m, vars, names).dom().contains(v) <==> (m.dom().contains(v) || vars.contains(
            v,
        )),
        m.dom().contains(v) ==> first_named(m, vars, names)[v] == m[v],
    decreases vars.len(),
{
    if vars.len() > 0 {
        let p = vars.drop_last();
        lemma_first_named(m, p, names, v);
        if p.contains(v) {
            let i = choose|i: int| 0 <= i < p.len() && p[i] == v;
            assert(vars[i] == v);
        }
        if vars.contains(v) && vars.last() != v {
            let i = choose|i: int| 0 <= i < vars.len() && vars[i] == v;
            assert(p[i] == v);
        }
        assert(vars[vars.len() - 1] == vars.last());
    }
}

/// Every variable with a position gets a name.
pub proof fn lemma_positions_named(f: Found, table: Seq<Seq<char>>, reg: Registered, v: u64)
    ensures
        names_for(f, table, reg).vars.dom().contains(v) <==> (targets_of(f.beta).contains(v)
            || targets_of(f.dirichlet).contains(v) || gamma_names(f.gamma).contains(v)),
{
    let cons = symbol_or_max(table, "Cons"@);
    let beta = position_names(paths_of(f.beta), table, reg, cons, NameStyle::Probability, 0);
    let dirichlet = position_names(
        paths_of(f.dirichlet),
        table,
        reg,
        cons,
        NameStyle::Probability,
        beta.1,
    );
    let gamma = position_names(paths_of(f.gamma), table, reg, cons, NameStyle::Greek, 0);
    let none = Map::<u64, Seq<char>>::empty();
    let one = first_named(none, targets_of(f.beta), beta.0);
    lemma_first_named(none, targets_of(f.beta), beta.0, v);
    lemma_first_named(one, targets_of(f.dirichlet), dirichlet.0, v);
    lemma_first_named(
        first_named(one, targets_of(f.dirichlet), dirichlet.0),
        gamma_names(f.gamma),
        gamma.0,
        v,
    );
}

fn name_first(m: &mut HashMap<u64, String>, var: u64, name: &String)
    ensures
        ({
            let before = old(m)@.map_values(|s: String| s@);
            final(m)@.map_values(|s: String| s@) == if before.dom().contains(var) {
                before
            } else {
                before.insert(var, name@)
            }
        }),
{
    if !m.contains_key(&var) {
        let ghost before = m@.map_values(|s: String| s@);
        m.insert(var, name.clone());
        assert(m@.map_values(|s: String| s@) =~= before.insert(var, name@));
    }
}

/// The name of an expression.
pub fn find_expr<'a>(s: &'a Vec<(GaussianAffineExpr, String)>, e: &GaussianAffineExpr) -> (r: Option<&'a String>)
    ensures
        ({
            let all = Seq::new(s@.len(), |i: int| (s@[i].0@, s@[i].1@));
            match r {
                Some(t) => expr_name_from(all, e@, 0) == Some(t@),
                None => expr_name_from(all, e@, 0) is None,
            }
        }),
{
    let ghost all = Seq::new(s@.len(), |i: int| (s@[i].0@, s@[i].1@));
    let mut i: usize = 0;
    while i < s.len()
        invariant
            i <= s@.len(),
            all == Seq::new(s@.len(), |i: int| (s@[i].0@, s@[i].1@)),
            expr_name_from(all, e@, 0) == expr_name_from(all, e@, i as int),
        decreases s@.len() - i,
    {
        if s[i].0.same(e) {
            return Some(&s[i].1);
        }
        i = i + 1;
    }
    None
}

fn just_paths<T>(s: &Vec<(Path, T)>) -> (r: Vec<Path>)
    ensures
        r@.len() == s@.len(),
        forall|i: int| 0 <= i < r@.len() ==> (#[trigger] r@[i])@ == s@[i].0@,
{
    let mut out: Vec<Path> = Vec::new();
    let mut i: usize = 0;
    while i < s.len()
        invariant
            i <= s@.len(),
            out@.len() == i,
            forall|j: int| 0 <= j < i ==> (#[trigger] out@[j])@ == s@[j].0@,
        decreases s@.len() - i,
    {
        out.push(clone_path(&s[i].0));
        i = i + 1;
    }
    out
}

fn name_vars(m: &mut HashMap<u64, String>, s: &Vec<(Path, u64)>, names: &Vec<String>)
    requires
        names@.len() == s@.len(),
    ensures
        final(m)@.map_values(|s: String| s@) == first_named(
            old(m)@.map_values(|s: String| s@),
            Seq::new(s@.len(), |i: int| s@[i].1),
            text_views(names@),
        ),
{
    let ghost start = m@.map_values(|s: String| s@);
    let ghost vars = Seq::new(s@.len(), |i: int| s@[i].1);
    let mut i: usize = 0;
    while i < s.len()
        invariant
            i <= s@.len(),
            names@.len() == s@.len(),
            vars == Seq::new(s@.len(), |i: int| s@[i].1),
            m@.map_values(|s: String| s@) == first_named(
                start,
                vars.take(i as int),
                text_views(names@),
            ),
        decreases s@.len() - i,
    {
        assert(vars.take(i + 1).drop_last() =~= vars.take(i as int));
        assert(text_views(names@)[i as int] == names@[i as int]@);
        name_first(m, s[i].1, &names[i]);
        i = i + 1;
    }
    assert(vars.take(i as int) =~= vars);
}

fn name_gammas(m: &mut HashMap<u64, String>, s: &Vec<(Path, (u64, u64))>, names: &Vec<String>)
    requires
        names@.len() == s@.len(),
    ensures
        final(m)@.map_values(|s: String| s@) == first_named(
            old(m)@.map_values(|s: String| s@),
            Seq::new(s@.len(), |i: int| (s@[i].1).0),
            text_views(names@),
        ),
{
    let ghost start = m@.map_values(|s: String| s@);
    let ghost vars = Seq::new(s@.len(), |i: int| (s@[i].1).0);
    let mut i: usize = 0;
    while i < s.len()
        invariant
            i <= s@.len(),
            names@.len() == s@.len(),
            vars == Seq::new(s@.len(), |i: int| (s@[i].1).0),
            m@.map_values(|s: String| s@) == first_named(
                start,
                vars.take(i as int),
                text_views(names@),
            ),
        decreases s@.len() - i,
    {
        assert(vars.take(i + 1).drop_last() =~= vars.take(i as int));
        assert(text_views(names@)[i as int] == names@[i as int]@);
        name_first(m, (s[i].1).0, &names[i]);
        i = i + 1;
    }
    assert(vars.take(i as int) =~= vars);
}

fn name_exprs(s: &Vec<(Path, GaussianAffineExpr)>, names: &Vec<String>) -> (r: Vec<
    (GaussianAffineExpr, String),
>)
    requires
        names@.len() == s@.len(),
    ensures
        Seq::new(r@.len(), |i: int| (r@[i].0@, r@[i].1@)) == exprs_named(
            Seq::new(s@.len(), |i: int| s@[i].1@),
            text_views(names@),
        ),
{
    let ghost exprs = Seq::new(s@.len(), |i: int| s@[i].1@);
    let mut out: Vec<(GaussianAffineExpr, String)> = Vec::new();
    let mut i: usize = 0;
    assert(Seq::new(out@.len(), |i: int| (out@[i].0@, out@[i].1@)) =~= Seq::empty());
    while i < s.len()
        invariant
            i <= s@.len(),
            names@.len() == s@.len(),
            exprs == Seq::new(s@.len(), |i: int| s@[i].1@),
            Seq::new(out@.len(), |i: int| (out@[i].0@, out@[i].1@)) == exprs_named(
                exprs.take(i as int),
                text_views(names@),
            ),
        decreases s@.len() - i,
    {
        assert(exprs.take(i + 1).drop_last() =~= exprs.take(i as int));
        assert(text_views(names@)[i as int] == names@[i as int]@);
        let ghost before = Seq::new(out@.len(), |i: int| (out@[i].0@, out@[i].1@));
        let known: bool = find_expr(&out, &s[i].1).is_some();
        if !known {
            out.push((s[i].1.duplicate(), names[i].clone()));
            assert(Seq::new(out@.len(), |i: int| (out@[i].0@, out@[i].1@)) =~= before.push(
                (exprs[i as int], names@[i as int]@),
            ));
        }
        i = i + 1;
    }
    assert(exprs.take(i as int) =~= exprs);
    out
}

impl NamingScheme {
    pub fn derive(
        positions: &ResultPositions,
        interner: &StringInterner,
        types: &TypeRegistry,
    ) -> (r: Self)
        requires
            interner.wf(),
        ensures
            r@ == names_for(positions@, interner@, types@),
    {
        let cons_sym: Symbol = lookup_or_max(interner, "Cons");
        let ghost f = positions@;
        let gauss_paths: Vec<Path> = just_paths(&positions.gauss_path_to_expr);
        let beta_paths: Vec<Path> = just_paths(&positions.beta_path_to_var);
        let dir_paths: Vec<Path> = just_paths(&positions.dir_path_to_var);
        let gamma_paths: Vec<Path> = just_paths(&positions.gamma_path_to_var);
        proof {
            assert(path_views(gauss_paths@) =~= paths_of(f.gauss));
            assert(path_views(beta_paths@) =~= paths_of(f.beta));
            assert(path_views(dir_paths@) =~= paths_of(f.dirichlet));
            assert(path_views(gamma_paths@) =~= paths_of(f.gamma));
        }
        let mut gauss_gen = VarNameGenerator::new(NameStyle::Gaussian);
        let gauss_names: Vec<String> = assign_position_names(
            &gauss_paths,
            interner,
            types,
            cons_sym,
            &mut gauss_gen,
        );
        let mut prob_gen = VarNameGenerator::new(NameStyle::Probability);
        let beta_names: Vec<String> = assign_position_names(
            &beta_paths,
            interner,
            types,
            cons_sym,
            &mut prob_gen,
        );
        let dir_names: Vec<String> = assign_position_names(
            &dir_paths,
            interner,
            types,
            cons_sym,
            &mut prob_gen,
        );
        let mut greek_gen = VarNameGenerator::new(NameStyle::Greek);
        let gamma_display: Vec<String> = assign_position_names(
            &gamma_paths,
            interner,
            types,
            cons_sym,
            &mut greek_gen,
        );
        let mut var_names: HashMap<u64, String> = HashMap::new();
        assert(var_names@.map_values(|s: String| s@) =~= Map::empty());
        name_vars(&mut var_names, &positions.beta_path_to_var, &beta_names);
        name_vars(&mut var_names, &positions.dir_path_to_var, &dir_names);
        name_gammas(&mut var_names, &positions.gamma_path_to_var, &gamma_display);
        let expr_names: Vec<(GaussianAffineExpr, String)> = name_exprs(
            &positions.gauss_path_to_expr,
            &gauss_names,
        );
        proof {
            assert(targets_of(f.beta) =~= Seq::new(
                positions.beta_path_to_var@.len(),
                |i: int| positions.beta_path_to_var@[i].1,
            ));
            assert(targets_of(f.dirichlet) =~= Seq::new(
                positions.dir_path_to_var@.len(),
                |i: int| positions.dir_path_to_var@[i].1,
            ));
            assert(gamma_names(f.gamma) =~= Seq::new(
                positions.gamma_path_to_var@.len(),
                |i: int| (positions.gamma_path_to_var@[i].1).0,
            ));
            assert(targets_of(f.gauss) =~= Seq::new(
                positions.gauss_path_to_expr@.len(),
                |i: int| positions.gauss_path_to_expr@[i].1@,
            ));
        }
        NamingScheme { var_names, expr_names }
    }
}

} // verus!
