//! What summaries of mixtures are for: groups have the probabilities of their
//! items, and what is shown and what is hidden make up the whole.

use vstd::prelude::*;

use super::mixture::Item;
use super::summary;
use super::summary::Bundle;
use crate::inference::spn::meaning;
use crate::inference::spn::meaning::Meaning;
use crate::utils::reals;
use crate::utils::reals::{Arithmetic, RealOp};
use crate::utils::text;

verus! {

/// The probabilities of the items at some places, added up.
pub open spec fn listed<V>(m: Meaning<V>, s: Seq<Item>, at: Seq<usize>) -> V
    decreases at.len(),
{
    if at.len() == 0 {
        m.zero
    } else {
        (m.plus)(
            listed(m, s, at.drop_last()),
            (m.number)(s[at.last() as int].log_probability),
        )
    }
}

/// The places are those of the first `n` items with a text, in order.
pub open spec fn gathers(s: Seq<Item>, n: nat, d: Seq<char>, at: Seq<usize>) -> bool {
    &&& forall|i: int| 0 <= i < at.len() ==> #[trigger] at[i] < n && s[at[i] as int].display == d
    &&& forall|i: int, j: int| 0 <= i < j < at.len() ==> #[trigger] at[i] < #[trigger] at[j]
    &&& forall|i: usize| i < n && s[i as int].display == d ==> #[trigger] at.contains(i)
}

/// The texts of the groups ascend.
pub open spec fn ascending(g: Seq<Bundle>) -> bool {
    forall|i: int, j: int|
        0 <= i < j < g.len() ==> text::text_before(
            (#[trigger] g[i]).display,
            (#[trigger] g[j]).display,
        )
}

proof fn lemma_slot(g: Seq<Bundle>, d: Seq<char>, from: int)
    requires
        0 <= from <= g.len(),
        forall|i: int| 0 <= i < from ==> text::text_before((#[trigger] g[i]).display, d),
    ensures
        from <= summary::slot(g, d, from) <= g.len(),
        forall|i: int|
            0 <= i < summary::slot(g, d, from) ==> text::text_before((#[trigger] g[i]).display, d),
        summary::slot(g, d, from) < g.len() ==> !text::text_before(
            g[summary::slot(g, d, from)].display,
            d,
        ),
    decreases g.len() - from,
{
    if from < g.len() && text::text_before(g[from].display, d) {
        lemma_slot(g, d, from + 1);
    }
}

/// One group for each text among the first `n` items, in the order of the
/// texts, with the items that have it and the sum of their probabilities.
pub open spec fn grouped<V>(m: Meaning<V>, s: Seq<Item>, n: nat, g: Seq<Bundle>) -> bool {
    &&& ascending(g)
    &&& forall|j: int| 0 <= j < g.len() ==> grouped_at(m, s, n, #[trigger] g[j])
    &&& forall|i: int| 0 <= i < n ==> has_group(g, (#[trigger] s[i]).display)
}

pub open spec fn grouped_at<V>(m: Meaning<V>, s: Seq<Item>, n: nat, e: Bundle) -> bool {
    &&& e.items.len() > 0
    &&& gathers(s, n, e.display, e.items)
    &&& (m.number)(e.log_probability) == listed(m, s, e.items)
}

pub open spec fn has_group(g: Seq<Bundle>, d: Seq<char>) -> bool {
    exists|j: int| 0 <= j < g.len() && (#[trigger] g[j]).display == d
}

/// The groups of the first `n` items are as they should be.
pub proof fn lemma_groups<V>(m: Meaning<V>, s: Seq<Item>, f: Arithmetic, n: nat)
    requires
        m.exact(f),
        n <= s.len(),
        n <= usize::MAX,
    ensures
        grouped(m, s, n, summary::by_display(s, f, n)),
    decreases n,
{
    meaning::exact_ring(m, f);
    if n > 0 {
        let p = (n - 1) as nat;
        lemma_groups(m, s, f, p);
        let h = summary::by_display(s, f, p);
        let x = s[n - 1];
        let j = summary::slot(h, x.display, 0);
        lemma_slot(h, x.display, 0);
        if j < h.len() && h[j].display == x.display {
            lemma_joined(m, s, f, p, h, j);
        } else {
            assert forall|i: int| j <= i < h.len() implies text::text_before(
                x.display,
                (#[trigger] h[i]).display,
            ) by {
                text::lemma_text_order(h[j].display, x.display);
                if i > j {
                    assert(text::text_before(h[j].display, h[i].display));
                    text::lemma_text_order(h[j].display, h[i].display);
                    text::lemma_text_between(x.display, h[j].display, h[i].display);
                }
            }
            lemma_inserted(m, s, f, p, h, j);
        }
    }
}

proof fn lemma_joined<V>(m: Meaning<V>, s: Seq<Item>, f: Arithmetic, p: nat, h: Seq<Bundle>, j: int)
    requires
        m.exact(f),
        p < s.len(),
        p < usize::MAX,
        grouped(m, s, p, h),
        0 <= j < h.len(),
        h[j].display == s[p as int].display,
    ensures
        grouped(
            m,
            s,
            p + 1,
            h.update(
                j,
                Bundle {
                    display: s[p as int].display,
                    log_probability: f(
                        RealOp::LogSum,
                        h[j].log_probability,
                        s[p as int].log_probability,
                    ),
                    items: h[j].items.push(p as usize),
                },
            ),
        ),
{
    let x = s[p as int];
    let e = Bundle {
        display: x.display,
        log_probability: f(RealOp::LogSum, h[j].log_probability, x.log_probability),
        items: h[j].items.push(p as usize),
    };
    let g = h.update(j, e);
    assert(e.items.drop_last() =~= h[j].items);
    meaning::number_plus(m, h[j].log_probability, x.log_probability, f);
    assert forall|i: int| 0 <= i < g.len() implies grouped_at(m, s, p + 1, #[trigger] g[i]) by {
        assert(grouped_at(m, s, p, h[i]));
        lemma_gathers_on(s, p, h[i].display, h[i].items);
        if i != j {
            text::lemma_text_self(x.display);
            assert(h[i].display != h[j].display) by {
                if i < j {
                    assert(text::text_before(h[i].display, h[j].display));
                } else {
                    assert(text::text_before(h[j].display, h[i].display));
                }
            }
        }
    }
    assert forall|i: int| 0 <= i < p + 1 implies has_group(g, (#[trigger] s[i]).display) by {
        if i < p {
            assert(has_group(h, s[i].display));
            let c = choose|c: int| 0 <= c < h.len() && (#[trigger] h[c]).display == s[i].display;
            assert(g[c].display == s[i].display);
        } else {
            assert(g[j].display == s[i].display);
        }
    }
    assert forall|a: int, b: int| 0 <= a < b < g.len() implies text::text_before(
        (#[trigger] g[a]).display,
        (#[trigger] g[b]).display,
    ) by {
        assert(g[a].display == h[a].display && g[b].display == h[b].display);
    }
}

proof fn lemma_inserted<V>(
    m: Meaning<V>,
    s: Seq<Item>,
    f: Arithmetic,
    p: nat,
    h: Seq<Bundle>,
    j: int,
)
    requires
        m.exact(f),
        p < s.len(),
        p < usize::MAX,
        grouped(m, s, p, h),
        0 <= j <= h.len(),
        forall|i: int|
            0 <= i < j ==> text::text_before((#[trigger] h[i]).display, s[p as int].display),
        forall|i: int|
            j <= i < h.len() ==> text::text_before(s[p as int].display, (#[trigger] h[i]).display),
    ensures
        grouped(
            m,
            s,
            p + 1,
            h.insert(
                j,
                Bundle {
                    display: s[p as int].display,
                    log_probability: f(
                        RealOp::LogSum,
                        reals::NEG_INFINITY,
                        s[p as int].log_probability,
                    ),
                    items: seq![p as usize],
                },
            ),
        ),
{
    meaning::exact_ring(m, f);
    let x = s[p as int];
    let k = p as usize;
    let lone = f(RealOp::LogSum, reals::NEG_INFINITY, x.log_probability);
    let e = Bundle { display: x.display, log_probability: lone, items: seq![k] };
    let g = h.insert(j, e);
    meaning::number_plus(m, reals::NEG_INFINITY, x.log_probability, f);
    meaning::plus_zero(m, (m.number)(x.log_probability));
    assert(seq![k].drop_last() =~= Seq::<usize>::empty());
    assert(listed(m, s, seq![k].drop_last()) == m.zero);
    assert forall|i: int| 0 <= i < h.len() implies (#[trigger] h[i]).display != x.display by {
        text::lemma_text_self(x.display);
    }
    assert forall|i: int| 0 <= i < g.len() implies grouped_at(m, s, p + 1, #[trigger] g[i]) by {
        if i == j {
            assert forall|q: usize| q < p + 1 && s[q as int].display == e.display implies
                #[trigger] e.items.contains(q) by {
                if q < p {
                    assert(has_group(h, s[q as int].display));
                    let c = choose|c: int|
                        0 <= c < h.len() && (#[trigger] h[c]).display == s[q as int].display;
                    assert(h[c].display != x.display);
                }
                assert(e.items[0] == k);
            }
        } else {
            let b = if i < j {
                i
            } else {
                i - 1
            };
            assert(g[i] == h[b]);
            assert(grouped_at(m, s, p, h[b]));
            lemma_gathers_on(s, p, h[b].display, h[b].items);
        }
    }
    assert forall|i: int| 0 <= i < p + 1 implies has_group(g, (#[trigger] s[i]).display) by {
        if i < p {
            assert(has_group(h, s[i].display));
            let c = choose|c: int| 0 <= c < h.len() && (#[trigger] h[c]).display == s[i].display;
            if c < j {
                assert(g[c] == h[c]);
            } else {
                assert(g[c + 1] == h[c]);
            }
        } else {
            assert(g[j] == e);
        }
    }
    assert forall|a: int, b: int| 0 <= a < b < g.len() implies text::text_before(
        (#[trigger] g[a]).display,
        (#[trigger] g[b]).display,
    ) by {
        let (c, d) = (
            if a < j {
                a
            } else {
                a - 1
            },
            if b < j {
                b
            } else {
                b - 1
            },
        );
        assert(a != j ==> g[a] == h[c]);
        assert(b != j ==> g[b] == h[d]);
    }
}

proof fn lemma_gathers_on(s: Seq<Item>, p: nat, d: Seq<char>, at: Seq<usize>)
    requires
        p < s.len(),
        p < usize::MAX,
        gathers(s, p, d, at),
    ensures
        s[p as int].display != d ==> gathers(s, p + 1, d, at),
        s[p as int].display == d ==> gathers(s, p + 1, d, at.push(p as usize)),
{
    let t = at.push(p as usize);
    if s[p as int].display == d {
        assert forall|i: usize| i < p + 1 && s[i as int].display == d implies #[trigger]
            t.contains(i) by {
            if i < p {
                let j = at.index_of(i);
                assert(at.contains(i));
                assert(t[j] == i);
            } else {
                assert(t[at.len() as int] == i);
            }
        }
    } else {
        assert forall|i: usize| i < p + 1 && s[i as int].display == d implies #[trigger]
            at.contains(i) by {}
    }
}

/// Sorting groups by probability keeps each, and no group comes before a more
/// probable one.
pub proof fn lemma_most_probable_first(g: Seq<Bundle>)
    requires
        forall|i: int| 0 <= i < g.len() ==> !reals::nan((#[trigger] g[i]).log_probability),
    ensures
        summary::by_probability(g).to_multiset() == g.to_multiset(),
        forall|i: int, j: int|
            0 <= i < j < g.len() ==> reals::at_most(
                (#[trigger] summary::by_probability(g)[j]).log_probability,
                (#[trigger] summary::by_probability(g)[i]).log_probability,
            ),
        summary::by_probability(g).len() == g.len(),
    decreases g.len(),
{
    if g.len() > 0 {
        let p = g.drop_last();
        let x = g.last();
        assert(!reals::nan(g[g.len() - 1].log_probability));
        assert forall|i: int| 0 <= i < p.len() implies !reals::nan(
            (#[trigger] p[i]).log_probability,
        ) by {
            assert(p[i] == g[i]);
        }
        lemma_most_probable_first(p);
        let q = summary::by_probability(p);
        assert forall|i: int| 0 <= i < q.len() implies !reals::nan(
            (#[trigger] q[i]).log_probability,
        ) by {
            q.to_multiset_ensures();
            p.to_multiset_ensures();
            assert(q.contains(q[i]));
            assert(q.to_multiset().count(q[i]) > 0);
            assert(p.to_multiset().count(q[i]) > 0);
            assert(p.contains(q[i]));
        }
        lemma_group_placed(q, x);
        assert(g =~= p.push(x));
        p.to_multiset_ensures();
    } else {
        assert(g =~= Seq::empty());
    }
}

proof fn lemma_group_placed(q: Seq<Bundle>, x: Bundle)
    requires
        !reals::nan(x.log_probability),
        forall|i: int| 0 <= i < q.len() ==> !reals::nan((#[trigger] q[i]).log_probability),
        forall|i: int, j: int|
            0 <= i < j < q.len() ==> reals::at_most(
                (#[trigger] q[j]).log_probability,
                (#[trigger] q[i]).log_probability,
            ),
    ensures
        ({
            let r = summary::group_placed(q, x);
            &&& r.len() == q.len() + 1
            &&& r.to_multiset() == q.to_multiset().insert(x)
            &&& forall|i: int, j: int|
                0 <= i < j < r.len() ==> reals::at_most(
                    (#[trigger] r[j]).log_probability,
                    (#[trigger] r[i]).log_probability,
                )
            &&& forall|i: int| 0 <= i < r.len() ==> (#[trigger] r[i]) == x || q.contains(r[i])
        }),
    decreases q.len(),
{
    let r = summary::group_placed(q, x);
    q.to_multiset_ensures();
    if q.len() == 0 || !reals::below(q.last().log_probability, x.log_probability) {
        assert forall|i: int| 0 <= i < r.len() implies (#[trigger] r[i]) == x || q.contains(
            r[i],
        ) by {
            if i < q.len() {
                assert(r[i] == q[i]);
            }
        }
        assert forall|i: int, j: int| 0 <= i < j < r.len() implies reals::at_most(
            (#[trigger] r[j]).log_probability,
            (#[trigger] r[i]).log_probability,
        ) by {
            assert(r[i] == q[i]);
            let l = q[q.len() - 1];
            if i < q.len() - 1 {
                assert(reals::at_most(l.log_probability, q[i].log_probability));
            }
            if j < q.len() {
                assert(r[j] == q[j]);
            }
        }
    } else {
        let p = q.drop_last();
        lemma_group_placed(p, x);
        let t = summary::group_placed(p, x);
        assert(q =~= p.push(q.last()));
        p.to_multiset_ensures();
        t.to_multiset_ensures();
        assert(r == t.push(q.last()));
        assert(p.to_multiset().insert(x).insert(q.last()) =~= p.to_multiset().insert(
            q.last(),
        ).insert(x));
        assert forall|i: int| 0 <= i < r.len() implies (#[trigger] r[i]) == x || q.contains(
            r[i],
        ) by {
            if i < t.len() {
                assert(r[i] == t[i]);
                if t[i] != x {
                    let c = p.index_of(t[i]);
                    assert(q[c] == t[i]);
                }
            } else {
                assert(r[i] == q[q.len() - 1]);
            }
        }
        assert forall|i: int, j: int| 0 <= i < j < r.len() implies reals::at_most(
            (#[trigger] r[j]).log_probability,
            (#[trigger] r[i]).log_probability,
        ) by {
            assert(r[i] == t[i]);
            if j < t.len() {
                assert(r[j] == t[j]);
            } else if t[i] != x {
                let c = p.index_of(t[i]);
                assert(q[c] == t[i]);
                assert(reals::at_most(q[q.len() - 1].log_probability, q[c].log_probability));
            }
        }
    }
}

/// The probabilities of groups, added up.
pub open spec fn total<V>(m: Meaning<V>, g: Seq<Bundle>, n: nat) -> V
    decreases n,
{
    if n == 0 {
        m.zero
    } else {
        (m.plus)(total(m, g, (n - 1) as nat), (m.number)(g[n - 1].log_probability))
    }
}

/// The probabilities of the groups at some places, added up.
pub open spec fn total_at<V>(m: Meaning<V>, g: Seq<Bundle>, at: Seq<usize>) -> V
    decreases at.len(),
{
    if at.len() == 0 {
        m.zero
    } else {
        (m.plus)(
            total_at(m, g, at.drop_last()),
            (m.number)(g[at.last() as int].log_probability),
        )
    }
}

/// How many of the first `n` groups have probability 0.
pub open spec fn impossible(g: Seq<Bundle>, n: nat) -> nat
    decreases n,
{
    if n == 0 {
        0
    } else {
        impossible(g, (n - 1) as nat) + (if reals::equal(
            g[n - 1].log_probability,
            0xfff0_0000_0000_0000u64,
        ) {
            1nat
        } else {
            0
        })
    }
}

/// What is shown of groups: in their order, none of probability 0, and behind
/// the first ten none whose probability is below 10⁻⁶. A group of which there
/// is nothing to see is counted as hidden, unless its probability is 0, and
/// what is shown and what is hidden has the probability of all groups.
pub proof fn lemma_shown_and_hidden<V>(m: Meaning<V>, g: Seq<Bundle>, f: Arithmetic, n: nat)
    requires
        m.exact(f),
        n <= g.len(),
        n <= usize::MAX,
    ensures
        ({
            let r = summary::shown_of(g, f, n);
            &&& forall|i: int|
                0 <= i < r.shown.len() ==> #[trigger] r.shown[i] < n && !reals::equal(
                    g[r.shown[i] as int].log_probability,
                    0xfff0_0000_0000_0000u64,
                ) && (i >= 10 ==> !reals::below(
                    g[r.shown[i] as int].log_probability,
                    0xc02b_a18a_998f_ffa0u64,
                ))
            &&& forall|i: int, j: int|
                0 <= i < j < r.shown.len() ==> #[trigger] r.shown[i] < #[trigger] r.shown[j]
            &&& forall|i: usize|
                i < n && !reals::equal(g[i as int].log_probability, 0xfff0_0000_0000_0000u64)
                    && !(#[trigger] r.shown.contains(i)) ==> r.shown.len() >= 10
                    && r.shown[9] < i && reals::below(
                    g[i as int].log_probability,
                    0xc02b_a18a_998f_ffa0u64,
                )
            &&& r.shown.len() + r.hidden + impossible(g, n) == n
            &&& (m.plus)(total_at(m, g, r.shown), (m.number)(r.hidden_log_total)) == total(m, g, n)
        }),
    decreases n,
{
    meaning::exact_ring(m, f);
    let r = summary::shown_of(g, f, n);
    if n == 0 {
        meaning::plus_zero(m, m.zero);
    } else {
        let p = (n - 1) as nat;
        lemma_shown_and_hidden(m, g, f, p);
        let q = summary::shown_of(g, f, p);
        let lp = g[n - 1].log_probability;
        let (a, b, c) = (
            total_at(m, g, q.shown),
            (m.number)(q.hidden_log_total),
            (m.number)(lp),
        );
        if reals::equal(lp, reals::NEG_INFINITY) {
            meaning::number_none(m, lp, f);
            meaning::plus_zero(m, total(m, g, p));
        } else if r.hidden == q.hidden + 1 {
            meaning::number_plus(m, q.hidden_log_total, lp, f);
            meaning::plus_assoc(m, a, b, c);
        } else {
            assert(r.shown.drop_last() =~= q.shown);
            meaning::plus_assoc(m, a, c, b);
            meaning::plus_comm(m, b, c);
            meaning::plus_assoc(m, a, b, c);
        }
        assert forall|i: usize|
            i < n && !reals::equal(g[i as int].log_probability, 0xfff0_0000_0000_0000u64) && !(
            #[trigger] r.shown.contains(i)) implies r.shown.len() >= 10 && r.shown[9] < i
            && reals::below(g[i as int].log_probability, 0xc02b_a18a_998f_ffa0u64) by {
            if i < p {
                if q.shown.contains(i) {
                    let j = q.shown.index_of(i);
                    assert(r.shown[j] == i);
                }
            } else {
                if r.shown.len() > q.shown.len() {
                    assert(r.shown[q.shown.len() as int] == i);
                }
            }
        }
    }
}

} // verus!
