//! What packets are for: every posterior is in, under its name and with its
//! parameters.

use vstd::prelude::*;

use super::naming::Names;
use super::packet;
use super::packet::Entry;
use super::registry;
use crate::inference::lazy_kc::state::Prior;
use crate::inference::spn::node::{Family, LeafView};
use crate::utils::exact;
use crate::utils::exact::Field;
use crate::utils::reals;
use crate::utils::reals::{Arithmetic, Spelling};
use crate::utils::text;

verus! {

/// A rate times a number: the shape stays, and the rate parameter is what
/// gives back the old one when it is multiplied by the number. A rate that is
/// known, whose shape is infinite, is itself multiplied.
pub proof fn lemma_rate_scaled<V>(k: Field<V>, shape: u64, rate: u64, s: u64, f: Arithmetic)
    requires
        k.exact(f),
        (k.value)(s) != k.zero,
    ensures
        ({
            let r = packet::scaled_gamma(seq![shape, rate], s, f);
            &&& r.len() == 2
            &&& r[0] == shape
            &&& if shape == 0x7ff0_0000_0000_0000u64 {
                (k.value)(r[1]) == (k.times)((k.value)(rate), (k.value)(s))
            } else {
                (k.times)((k.value)(r[1]), (k.value)(s)) == (k.value)(rate)
            }
        }),
{
    exact::exact_product(k, rate, s, f);
    exact::exact_quotient(k, rate, s, f);
}

/// Numbers in ascending order.
pub open spec fn ascending(s: Seq<u64>) -> bool {
    forall|i: int, j: int|
        0 <= i < j < s.len() ==> reals::rank(#[trigger] s[i]) < reals::rank(#[trigger] s[j])
}

/// A number is in the list, with one sign of zero or the other.
pub open spec fn lists(s: Seq<u64>, x: u64) -> bool {
    exists|i: int| 0 <= i < s.len() && reals::rank(#[trigger] s[i]) == reals::rank(x)
}

proof fn lemma_scale_inserted(s: Seq<u64>, x: u64)
    requires
        ascending(s),
    ensures
        ascending(packet::scale_inserted(s, x)),
        forall|y: u64| #[trigger]
            lists(packet::scale_inserted(s, x), y) <==> lists(s, y) || reals::rank(y)
                == reals::rank(x),
        forall|i: int|
            0 <= i < packet::scale_inserted(s, x).len() ==> s.contains(
                #[trigger] packet::scale_inserted(s, x)[i],
            ) || packet::scale_inserted(s, x)[i] == x,
    decreases s.len(),
{
    let r = packet::scale_inserted(s, x);
    if s.len() == 0 || reals::rank(s.last()) < reals::rank(x) {
        assert forall|i: int, j: int| 0 <= i < j < r.len() implies reals::rank(#[trigger] r[i])
            < reals::rank(#[trigger] r[j]) by {
            assert(r[i] == s[i]);
            if j < s.len() {
                assert(r[j] == s[j]);
            } else if i < s.len() - 1 {
                assert(reals::rank(s[i]) < reals::rank(s[s.len() - 1]));
            }
        }
        assert forall|y: u64| #[trigger] lists(r, y) <==> lists(s, y) || reals::rank(y)
            == reals::rank(x) by {
            if lists(r, y) {
                let i = choose|i: int|
                    0 <= i < r.len() && reals::rank(#[trigger] r[i]) == reals::rank(y);
                if i < s.len() {
                    assert(s[i] == r[i]);
                }
            }
            if lists(s, y) {
                let i = choose|i: int|
                    0 <= i < s.len() && reals::rank(#[trigger] s[i]) == reals::rank(y);
                assert(r[i] == s[i]);
            }
            if reals::rank(y) == reals::rank(x) {
                assert(r[s.len() as int] == x);
            }
        }
        assert forall|i: int| 0 <= i < r.len() implies s.contains(#[trigger] r[i]) || r[i]
            == x by {
            if i < s.len() {
                assert(r[i] == s[i]);
            }
        }
    } else if reals::rank(s.last()) == reals::rank(x) {
        assert forall|y: u64| #[trigger] lists(r, y) <==> lists(s, y) || reals::rank(y)
            == reals::rank(x) by {
            if reals::rank(y) == reals::rank(x) {
                assert(reals::rank(s[s.len() - 1]) == reals::rank(y));
            }
        }
    } else {
        let p = s.drop_last();
        lemma_scale_inserted(p, x);
        let t = packet::scale_inserted(p, x);
        assert(r == t.push(s.last()));
        assert forall|i: int| 0 <= i < r.len() implies s.contains(#[trigger] r[i]) || r[i]
            == x by {
            if i < t.len() {
                assert(r[i] == t[i]);
                if t[i] != x {
                    let c = p.index_of(t[i]);
                    assert(s[c] == t[i]);
                }
            } else {
                assert(s[s.len() - 1] == r[i]);
            }
        }
        assert forall|i: int, j: int| 0 <= i < j < r.len() implies reals::rank(#[trigger] r[i])
            < reals::rank(#[trigger] r[j]) by {
            assert(r[i] == t[i]);
            if j < t.len() {
                assert(r[j] == t[j]);
            } else if t[i] != x {
                let c = p.index_of(t[i]);
                assert(s[c] == t[i]);
                assert(reals::rank(s[c]) < reals::rank(s[s.len() - 1]));
            }
        }
        assert forall|y: u64| #[trigger] lists(r, y) <==> lists(s, y) || reals::rank(y)
            == reals::rank(x) by {
            assert(lists(t, y) <==> lists(p, y) || reals::rank(y) == reals::rank(x));
            if lists(r, y) {
                let i = choose|i: int|
                    0 <= i < r.len() && reals::rank(#[trigger] r[i]) == reals::rank(y);
                if i < t.len() {
                    assert(t[i] == r[i]);
                    if lists(p, y) {
                        let c = choose|c: int|
                            0 <= c < p.len() && reals::rank(#[trigger] p[c]) == reals::rank(y);
                        assert(s[c] == p[c]);
                    }
                } else {
                    assert(s[s.len() - 1] == r[i]);
                }
            }
            if lists(s, y) {
                let i = choose|i: int|
                    0 <= i < s.len() && reals::rank(#[trigger] s[i]) == reals::rank(y);
                if i < p.len() {
                    assert(p[i] == s[i]);
                } else {
                    assert(r[t.len() as int] == s[i]);
                }
            }
            if lists(t, y) {
                let i = choose|i: int|
                    0 <= i < t.len() && reals::rank(#[trigger] t[i]) == reals::rank(y);
                assert(r[i] == t[i]);
            }
        }
    }
}

/// A variable is asked for at a scale.
pub open spec fn asked(queried: Seq<(u64, u64)>, v: u64, x: u64) -> bool {
    exists|i: int|
        0 <= i < queried.len() && (#[trigger] queried[i]).0 == v && reals::rank(queried[i].1)
            == reals::rank(x)
}

proof fn lemma_scales_of(queried: Seq<(u64, u64)>, v: u64)
    ensures
        ascending(packet::scales_of(queried, v)),
        forall|x: u64| #[trigger] lists(packet::scales_of(queried, v), x) <==> asked(queried, v, x),
    decreases queried.len(),
{
    let r = packet::scales_of(queried, v);
    if queried.len() > 0 {
        let p = queried.drop_last();
        let e = queried.last();
        lemma_scales_of(p, v);
        let t = packet::scales_of(p, v);
        lemma_scale_inserted(t, e.1);
        assert forall|x: u64| #[trigger] lists(r, x) <==> asked(queried, v, x) by {
            assert(lists(t, x) <==> asked(p, v, x));
            if asked(p, v, x) {
                let i = choose|i: int|
                    0 <= i < p.len() && (#[trigger] p[i]).0 == v && reals::rank(p[i].1)
                        == reals::rank(x);
                assert(queried[i] == p[i]);
            }
            if asked(queried, v, x) {
                let i = choose|i: int|
                    0 <= i < queried.len() && (#[trigger] queried[i]).0 == v && reals::rank(
                        queried[i].1,
                    ) == reals::rank(x);
                if i < p.len() {
                    assert(p[i] == queried[i]);
                }
            }
            if e.0 == v && reals::rank(e.1) == reals::rank(x) {
                assert(queried[queried.len() - 1] == e);
            }
        }
    } else {
        assert forall|x: u64| !(#[trigger] lists(r, x)) by {}
    }
}

/// A rate is reported at the scales at which it is asked for, in order and
/// each once, and at 1 as well if it has draws or is not asked for at all.
pub proof fn lemma_scales_reported(queried: Seq<(u64, u64)>, l: LeafView, x: u64)
    requires
        l.names.len() > 0,
    ensures
        ascending(packet::reported_scales(queried, l)),
        lists(packet::reported_scales(queried, l), x) <==> asked(queried, l.names[0], x) || (
        reals::rank(x) == 0x3ff0_0000_0000_0000 && (l.names.len() > 1 || forall|y: u64|
            !(#[trigger] asked(queried, l.names[0], y)))),
{
    lemma_scales_of(queried, l.names[0]);
    let s = packet::scales_of(queried, l.names[0]);
    lemma_scale_inserted(s, reals::ONE);
    assert(lists(s, x) <==> asked(queried, l.names[0], x));
    if s.len() == 0 {
        assert forall|y: u64| !(#[trigger] asked(queried, l.names[0], y)) by {
            assert(lists(s, y) <==> asked(queried, l.names[0], y));
        }
    } else {
        assert(lists(s, s[0]));
        assert(asked(queried, l.names[0], s[0]));
    }
}

/// The posterior of a rate as it is reported: at 1 with its draws and as it
/// is, else alone and scaled.
pub proof fn lemma_rate_reported<V>(
    k: Field<V>,
    l: LeafView,
    s: u64,
    n: Names,
    spell: Spelling,
    f: Arithmetic,
)
    requires
        k.exact(f),
        l.numbers.len() == 2,
        (k.value)(s) != k.zero,
    ensures
        ({
            let e = packet::gamma_entry(l, s, n, spell, f);
            if s == 0x3ff0_0000_0000_0000u64 {
                &&& e.numbers == l.numbers
                &&& e.names.len() == l.names.len()
                &&& forall|i: int|
                    0 <= i < l.names.len() && n.vars.dom().contains(l.names[i])
                        ==> #[trigger] e.names[i] == n.vars[l.names[i]]
            } else {
                &&& e.names.len() == 1
                &&& e.numbers.len() == 2
                &&& e.numbers[0] == l.numbers[0]
                &&& if l.numbers[0] == 0x7ff0_0000_0000_0000u64 {
                    (k.value)(e.numbers[1]) == (k.times)((k.value)(l.numbers[1]), (k.value)(s))
                } else {
                    (k.times)((k.value)(e.numbers[1]), (k.value)(s)) == (k.value)(l.numbers[1])
                }
            }
        }),
{
    lemma_rate_scaled(k, l.numbers[0], l.numbers[1], s, f);
    assert(l.numbers =~= seq![l.numbers[0], l.numbers[1]]);
    assert(reals::equal(s, reals::ONE) ==> s == reals::ONE);
}

/// The entry of a variable under its name, if it has one.
pub open spec fn entry_of(l: LeafView, n: Names, e: Entry) -> bool {
    l.names.len() > 0 && n.vars.dom().contains(l.names[0]) && e.names == seq![n.vars[l.names[0]]]
        && e.numbers == l.numbers
}

/// The leaf has its entry in the list.
pub open spec fn entered(l: LeafView, n: Names, r: Seq<Entry>) -> bool {
    exists|j: int| 0 <= j < r.len() && entry_of(l, n, #[trigger] r[j])
}

/// The entry is that of a leaf of the family.
pub open spec fn stems_from(s: Seq<LeafView>, family: Family, n: Names, e: Entry) -> bool {
    exists|i: int| 0 <= i < s.len() && s[i].family == family && entry_of(#[trigger] s[i], n, e)
}

/// The first variable of the leaf has no name.
pub open spec fn nameless(l: LeafView, n: Names) -> bool {
    l.names.len() == 0 || !n.vars.dom().contains(l.names[0])
}

/// Some leaf of the family has no name.
pub open spec fn lacks_name(s: Seq<LeafView>, family: Family, n: Names) -> bool {
    exists|i: int| 0 <= i < s.len() && (#[trigger] s[i]).family == family && nameless(s[i], n)
}

proof fn lemma_lacks_name(s: Seq<LeafView>, family: Family, n: Names)
    requires
        s.len() > 0,
    ensures
        lacks_name(s, family, n) <==> lacks_name(s.drop_last(), family, n) || (s.last().family
            == family && nameless(s.last(), n)),
{
    let p = s.drop_last();
    if lacks_name(p, family, n) {
        let i = choose|i: int|
            0 <= i < p.len() && (#[trigger] p[i]).family == family && nameless(p[i], n);
        assert(s[i] == p[i]);
    }
    if lacks_name(s, family, n) {
        let i = choose|i: int|
            0 <= i < s.len() && (#[trigger] s[i]).family == family && nameless(s[i], n);
        if i < p.len() {
            assert(p[i] == s[i]);
        }
    }
    if s.last().family == family && nameless(s.last(), n) {
        assert(s[s.len() - 1] == s.last());
    }
}

/// Every leaf of a family has its entry, and every entry is that of a leaf,
/// unless a leaf has no name: there are no entries in that case.
pub proof fn lemma_entries_of_family(s: Seq<LeafView>, family: Family, n: Names)
    ensures
        match packet::named_entries(s, family, n) {
            None => lacks_name(s, family, n),
            Some(r) => {
                &&& !lacks_name(s, family, n)
                &&& forall|i: int|
                    0 <= i < s.len() && (#[trigger] s[i]).family == family ==> entered(s[i], n, r)
                &&& forall|j: int| 0 <= j < r.len() ==> stems_from(s, family, n, #[trigger] r[j])
                &&& r.len() <= s.len()
            },
        },
    decreases s.len(),
{
    if s.len() > 0 {
        let p = s.drop_last();
        let l = s.last();
        lemma_entries_of_family(p, family, n);
        lemma_lacks_name(s, family, n);
        if let Some(r) = packet::named_entries(s, family, n) {
            let t = packet::named_entries(p, family, n)->0;
            assert forall|i: int| 0 <= i < s.len() && (#[trigger] s[i]).family == family implies entered(
                s[i],
                n,
                r,
            ) by {
                if i < p.len() {
                    assert(p[i] == s[i]);
                    assert(entered(p[i], n, t));
                    let j = choose|j: int| 0 <= j < t.len() && entry_of(p[i], n, #[trigger] t[j]);
                    assert(r[j] == t[j]);
                } else {
                    assert(entry_of(s[i], n, r[t.len() as int]));
                }
            }
            assert forall|j: int| 0 <= j < r.len() implies stems_from(
                s,
                family,
                n,
                #[trigger] r[j],
            ) by {
                if j < t.len() {
                    assert(r[j] == t[j]);
                    assert(stems_from(p, family, n, t[j]));
                    let i = choose|i: int|
                        0 <= i < p.len() && p[i].family == family && entry_of(
                            #[trigger] p[i],
                            n,
                            t[j],
                        );
                    assert(s[i] == p[i]);
                    assert(entry_of(s[i], n, r[j]));
                } else {
                    assert(entry_of(s[s.len() - 1], n, r[j]));
                }
            }
        }
    }
}

/// Sorting entries keeps each, and puts none before one whose first name
/// comes earlier.
pub proof fn lemma_entries_sorted(s: Seq<Entry>)
    ensures
        packet::entries_sorted(s).len() == s.len(),
        packet::entries_sorted(s).to_multiset() == s.to_multiset(),
        forall|i: int, j: int|
            0 <= i < j < s.len() ==> !text::text_before(
                packet::title(#[trigger] packet::entries_sorted(s)[j]),
                packet::title(#[trigger] packet::entries_sorted(s)[i]),
            ),
    decreases s.len(),
{
    if s.len() > 0 {
        let p = s.drop_last();
        lemma_entries_sorted(p);
        lemma_entry_placed(packet::entries_sorted(p), s.last());
        assert(s =~= p.push(s.last()));
        p.to_multiset_ensures();
    } else {
        assert(s =~= Seq::empty());
    }
}

proof fn lemma_entry_placed(q: Seq<Entry>, x: Entry)
    requires
        forall|i: int, j: int|
            0 <= i < j < q.len() ==> !text::text_before(
                packet::title(#[trigger] q[j]),
                packet::title(#[trigger] q[i]),
            ),
    ensures
        ({
            let r = packet::entry_placed(q, x);
            &&& r.len() == q.len() + 1
            &&& r.to_multiset() == q.to_multiset().insert(x)
            &&& forall|i: int| 0 <= i < r.len() ==> (#[trigger] r[i]) == x || q.contains(r[i])
            &&& forall|i: int, j: int|
                0 <= i < j < r.len() ==> !text::text_before(
                    packet::title(#[trigger] r[j]),
                    packet::title(#[trigger] r[i]),
                )
        }),
    decreases q.len(),
{
    let r = packet::entry_placed(q, x);
    q.to_multiset_ensures();
    if q.len() == 0 || !text::text_before(packet::title(x), packet::title(q.last())) {
        assert forall|i: int| 0 <= i < r.len() implies (#[trigger] r[i]) == x || q.contains(
            r[i],
        ) by {
            if i < q.len() {
                assert(r[i] == q[i]);
            }
        }
        assert forall|i: int, j: int| 0 <= i < j < r.len() implies !text::text_before(
            packet::title(#[trigger] r[j]),
            packet::title(#[trigger] r[i]),
        ) by {
            assert(r[i] == q[i]);
            let l = q[q.len() - 1];
            if j < q.len() {
                assert(r[j] == q[j]);
            } else if i < q.len() - 1 {
                assert(!text::text_before(packet::title(l), packet::title(q[i])));
                if text::text_before(packet::title(x), packet::title(q[i])) {
                    text::lemma_text_between(
                        packet::title(x),
                        packet::title(q[i]),
                        packet::title(l),
                    );
                }
            }
        }
    } else {
        let p = q.drop_last();
        let l = q.last();
        lemma_entry_placed(p, x);
        let t = packet::entry_placed(p, x);
        assert(q =~= p.push(l));
        p.to_multiset_ensures();
        t.to_multiset_ensures();
        assert(r == t.push(l));
        assert(p.to_multiset().insert(x).insert(l) =~= p.to_multiset().insert(l).insert(x));
        assert forall|i: int| 0 <= i < r.len() implies (#[trigger] r[i]) == x || q.contains(
            r[i],
        ) by {
            if i < t.len() {
                assert(r[i] == t[i]);
                if t[i] != x {
                    let c = p.index_of(t[i]);
                    assert(q[c] == t[i]);
                }
            } else {
                assert(r[i] == q[q.len() - 1]);
            }
        }
        assert forall|i: int, j: int| 0 <= i < j < r.len() implies !text::text_before(
            packet::title(#[trigger] r[j]),
            packet::title(#[trigger] r[i]),
        ) by {
            assert(r[i] == t[i]);
            if j < t.len() {
                assert(r[j] == t[j]);
            } else if t[i] != x {
                let c = p.index_of(t[i]);
                assert(q[c] == t[i]);
                assert(q[q.len() - 1] == l);
            } else {
                text::lemma_text_order(packet::title(x), packet::title(l));
            }
        }
    }
}

/// The leaf of a prior has its family and its parameters; a Gaussian one has
/// the square of the deviation, and one that is known an infinite shape.
/// Draws, and correlated variables but the first, have none.
pub proof fn lemma_prior_as_leaf<V>(k: Field<V>, priors: Seq<Prior>, v: u64, f: Arithmetic)
    requires
        k.exact(f),
        v < priors.len(),
    ensures
        ({
            let r = registry::prior_leaf(priors, v, f);
            match priors[v as int] {
                Prior::Beta { a, b } => r matches Some(l) && l.family == Family::Beta && l.names
                    == seq![v] && l.numbers == seq![a, b],
                Prior::Gamma { shape, rate } => r matches Some(l) && l.family == Family::Gamma
                    && l.names == seq![v] && l.numbers == seq![shape, rate],
                Prior::Pinned { value } => r matches Some(l) && l.family == Family::Gamma
                    && l.names == seq![v] && l.numbers == seq![0x7ff0_0000_0000_0000u64, value],
                Prior::Dirichlet { alphas } => r matches Some(l) && l.family == Family::Dirichlet
                    && l.names == seq![v] && l.numbers == alphas@,
                Prior::Gaussian { mu, sigma } => r matches Some(l) && l.family == Family::Gaussian
                    && l.names == seq![v] && l.numbers.len() == 2 && l.numbers[0] == mu && (
                k.value)(l.numbers[1]) == (k.times)((k.value)(sigma), (k.value)(sigma)),
                Prior::Correlated { first, mu_and_cov } => if first == v {
                    r matches Some(l) && l.family == Family::Gaussian && l.numbers == mu_and_cov@
                        && l.names.len() > 0 && forall|i: int|
                        0 <= i < l.names.len() && v + i <= u64::MAX ==> #[trigger] l.names[i] == v
                            + i && registry::in_block(priors[v + i], v)
                } else {
                    r is None
                },
                Prior::Draw { .. } => r is None,
            }
        }),
{
    if let Prior::Gaussian { mu, sigma } = priors[v as int] {
        exact::exact_product(k, sigma, sigma, f);
    }
    if let Prior::Correlated { first, .. } = priors[v as int] {
        if first == v {
            lemma_run(priors, v, v as int);
        }
    }
}

/// The priors of variables as leaves are those of each variable, in order.
pub proof fn lemma_priors_as_leaves(priors: Seq<Prior>, f: Arithmetic, k: nat, v: u64, l: LeafView)
    requires
        k <= priors.len(),
        k <= 0xffff_ffff_ffff_ffff,
    ensures
        v < k && registry::prior_leaf(priors, v, f) == Some(l) ==> registry::prior_leaves(
            priors,
            f,
            k,
        ).contains(l),
        registry::prior_leaves(priors, f, k).contains(l) ==> exists|u: u64|
            u < k && #[trigger] registry::prior_leaf(priors, u, f) == Some(l),
    decreases k,
{
    if k > 0 {
        let p = (k - 1) as nat;
        lemma_priors_as_leaves(priors, f, p, v, l);
        let (t, r) = (registry::prior_leaves(priors, f, p), registry::prior_leaves(priors, f, k));
        if t.contains(l) {
            let i = t.index_of(l);
            assert(r[i] == l);
        }
        if registry::prior_leaf(priors, p as u64, f) == Some(l) {
            assert(r[t.len() as int] == l);
        }
        if r.contains(l) {
            let i = r.index_of(l);
            if i < t.len() {
                assert(t[i] == l);
                assert(t.contains(l));
                let u = choose|u: u64|
                    u < p && #[trigger] registry::prior_leaf(priors, u, f) == Some(l);
                assert(u < k);
            } else {
                assert(registry::prior_leaf(priors, p as u64, f) == Some(l));
            }
        }
    }
}

proof fn lemma_run(priors: Seq<Prior>, first: u64, from: int)
    requires
        0 <= from <= priors.len(),
    ensures
        from + registry::run_length(priors, first, from) <= priors.len(),
        forall|i: int|
            from <= i < from + registry::run_length(priors, first, from) ==> registry::in_block(
                #[trigger] priors[i],
                first,
            ),
        from + registry::run_length(priors, first, from) < priors.len() ==> !registry::in_block(
            priors[from + registry::run_length(priors, first, from)],
            first,
        ),
    decreases priors.len() - from,
{
    if from < priors.len() && registry::in_block(priors[from], first) {
        lemma_run(priors, first, from + 1);
    }
}

/// A prior that is not Gaussian is kept whole if its first variable is
/// wanted, and else not at all.
pub proof fn lemma_prior_kept_whole(l: LeafView, wanted: Set<u64>)
    requires
        l.family != Family::Gaussian,
        l.names.len() > 0,
    ensures
        registry::restricted(l, wanted) == (if wanted.contains(l.names[0]) {
            Some(l)
        } else {
            None
        }),
{
}

/// Every rate of a posterior has an entry at each scale at which it is
/// reported.
pub proof fn lemma_rates_entered(
    s: Seq<LeafView>,
    queried: Seq<(u64, u64)>,
    n: Names,
    spell: Spelling,
    f: Arithmetic,
    i: int,
    j: int,
)
    requires
        0 <= i < s.len(),
        s[i].family == Family::Gamma,
        0 <= j < packet::reported_scales(queried, s[i]).len(),
    ensures
        packet::gamma_entries(s, queried, n, spell, f).contains(
            packet::gamma_entry(s[i], packet::reported_scales(queried, s[i])[j], n, spell, f),
        ),
    decreases s.len(),
{
    let p = s.drop_last();
    let t = packet::gamma_entries(p, queried, n, spell, f);
    let r = packet::gamma_entries(s, queried, n, spell, f);
    let e = packet::gamma_entry(s[i], packet::reported_scales(queried, s[i])[j], n, spell, f);
    if i < p.len() {
        assert(p[i] == s[i]);
        lemma_rates_entered(p, queried, n, spell, f, i, j);
        let k = t.index_of(e);
        assert(r[k] == e);
    } else {
        assert(r[t.len() + j] == e);
    }
}

proof fn lemma_covered(s: Seq<LeafView>, v: u64)
    ensures
        registry::covered(s).contains(v) <==> exists|i: int|
            0 <= i < s.len() && (#[trigger] s[i]).names.contains(v),
    decreases s.len(),
{
    if s.len() > 0 {
        let p = s.drop_last();
        lemma_covered(p, v);
        if registry::covered(p).contains(v) {
            let i = choose|i: int| 0 <= i < p.len() && (#[trigger] p[i]).names.contains(v);
            assert(s[i] == p[i]);
        }
        if s.last().names.contains(v) {
            assert(s[s.len() - 1].names.contains(v));
            assert(s.last().names.to_set().contains(v));
        }
        if exists|i: int| 0 <= i < s.len() && (#[trigger] s[i]).names.contains(v) {
            let i = choose|i: int| 0 <= i < s.len() && (#[trigger] s[i]).names.contains(v);
            if i < p.len() {
                assert(p[i] == s[i]);
            } else {
                assert(s.last().names.to_set().contains(v));
            }
        }
        if registry::covered(s).contains(v) && !registry::covered(p).contains(v) {
            assert(s.last().names.to_set().contains(v));
            assert(s[s.len() - 1].names.contains(v));
        }
    }
}

proof fn lemma_sliced(priors: Seq<LeafView>, wanted: Set<u64>)
    ensures
        forall|i: int|
            0 <= i < priors.len() ==> (registry::restricted(#[trigger] priors[i], wanted) matches Some(
                l,
            ) ==> registry::sliced(priors, wanted).contains(l)),
        forall|l: LeafView| #[trigger]
            registry::sliced(priors, wanted).contains(l) ==> exists|i: int|
                0 <= i < priors.len() && registry::restricted(#[trigger] priors[i], wanted) == Some(
                    l,
                ),
    decreases priors.len(),
{
    let r = registry::sliced(priors, wanted);
    if priors.len() > 0 {
        let p = priors.drop_last();
        lemma_sliced(p, wanted);
        let t = registry::sliced(p, wanted);
        assert forall|i: int| 0 <= i < priors.len() implies (registry::restricted(
            #[trigger] priors[i],
            wanted,
        ) matches Some(l) ==> r.contains(l)) by {
            if let Some(l) = registry::restricted(priors[i], wanted) {
                if i < p.len() {
                    assert(p[i] == priors[i]);
                    assert(t.contains(l));
                    let c = t.index_of(l);
                    assert(r[c] == l);
                } else {
                    assert(r[t.len() as int] == l);
                }
            }
        }
        assert forall|l: LeafView| #[trigger] r.contains(l) implies exists|i: int|
            0 <= i < priors.len() && registry::restricted(#[trigger] priors[i], wanted) == Some(
                l,
            ) by {
            let c = r.index_of(l);
            if c < t.len() {
                assert(t[c] == l);
                assert(t.contains(l));
                let i = choose|i: int|
                    0 <= i < p.len() && registry::restricted(#[trigger] p[i], wanted) == Some(l);
                assert(priors[i] == p[i]);
            } else {
                assert(registry::restricted(priors[priors.len() - 1], wanted) == Some(l));
            }
        }
    }
}

/// A posterior that is filled in has all that was there, and the priors of
/// the variables of the scope that were left out; nothing else is in it.
pub proof fn lemma_filled_in(
    priors: Seq<LeafView>,
    partial: Seq<LeafView>,
    scope: Set<u64>,
    l: LeafView,
)
    ensures
        ({
            let missing = |v: u64|
                scope.contains(v) && forall|i: int|
                    0 <= i < partial.len() ==> !(#[trigger] partial[i]).names.contains(v);
            let wanted = Set::new(missing);
            registry::filled_in(priors, partial, scope).contains(l) <==> partial.contains(l)
                || exists|i: int|
                0 <= i < priors.len() && registry::restricted(#[trigger] priors[i], wanted) == Some(
                    l,
                )
        }),
{
    let missing = |v: u64|
        scope.contains(v) && forall|i: int|
            0 <= i < partial.len() ==> !(#[trigger] partial[i]).names.contains(v);
    let wanted = Set::new(missing);
    let left = scope.difference(registry::covered(partial));
    assert(left =~= wanted) by {
        assert forall|v: u64| left.contains(v) <==> wanted.contains(v) by {
            lemma_covered(partial, v);
        }
    }
    let more = registry::sliced(priors, left);
    lemma_sliced(priors, left);
    registry::lemma_leaves_sorted(partial + more);
    let r = partial + more;
    if partial.contains(l) {
        let i = partial.index_of(l);
        assert(r[i] == l);
    }
    if more.contains(l) {
        let i = more.index_of(l);
        assert(r[partial.len() + i] == l);
    }
    if r.contains(l) {
        let i = r.index_of(l);
        if i < partial.len() {
            assert(partial[i] == l);
        } else {
            assert(more[i - partial.len()] == l);
        }
    }
}

} // verus!
