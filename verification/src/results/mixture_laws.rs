//! What mixtures are for: every component has its share of the weight of all,
//! and the weights of components that are displayed alike are added up.

use vstd::prelude::*;

use super::mixture;
use super::mixture::{Item, Key, Model};
use crate::inference::spn::meaning;
use crate::inference::spn::meaning::Meaning;
use crate::utils::epsilon::RealEps;
use crate::utils::reals;
use crate::utils::reals::{Arithmetic, Spelling};
use crate::utils::text;

verus! {

/// Sums, products and quotients of weights are those of their numbers: of
/// weights with different powers the sum is the one with the lesser, powers
/// add up in a product, and a quotient of a greater power by a lesser is 0.
pub proof fn lemma_weights_computed<V>(m: Meaning<V>, a: RealEps, b: RealEps, f: Arithmetic)
    requires
        m.exact(f),
        !a.none(),
        !b.none(),
    ensures
        a.power == b.power ==> (m.number)(a.plus(b, f).log_coeff) == (m.plus)(
            (m.number)(a.log_coeff),
            (m.number)(b.log_coeff),
        ) && a.plus(b, f).power == a.power,
        a.power < b.power ==> a.plus(b, f) == a && b.plus(a, f) == a,
        (m.number)(a.times(b, f).log_coeff) == (m.times)(
            (m.number)(a.log_coeff),
            (m.number)(b.log_coeff),
        ),
        a.power + b.power <= u32::MAX ==> a.times(b, f).power == a.power + b.power,
        a.power > b.power ==> a.over(b, f).none(),
        a.power <= b.power ==> (m.times)(
            (m.number)(b.log_coeff),
            (m.number)(a.over(b, f).log_coeff),
        ) == (m.number)(a.log_coeff),
        a.over(b, f).power == 0,
{
    meaning::number_plus(m, a.log_coeff, b.log_coeff, f);
    meaning::number_times(m, a.log_coeff, b.log_coeff, f);
    meaning::number_over(m, a.log_coeff, b.log_coeff, f);
}

proof fn lemma_key_at(t: Seq<(Key, RealEps)>, k: Key, from: int)
    requires
        0 <= from <= t.len(),
    ensures
        from <= mixture::key_at(t, k, from) <= t.len(),
        forall|i: int| from <= i < mixture::key_at(t, k, from) ==> (#[trigger] t[i]).0 != k,
        mixture::key_at(t, k, from) < t.len() ==> t[mixture::key_at(t, k, from)].0 == k,
    decreases t.len() - from,
{
    if from < t.len() && t[from].0 != k {
        lemma_key_at(t, k, from + 1);
    }
}

/// The key stands at one place, with the weight.
pub open spec fn weighs(t: Seq<(Key, RealEps)>, k: Key, w: RealEps) -> bool {
    t.contains((k, w))
}

/// Adding a weight to the tally: it is added to what its key has, and other
/// keys keep theirs.
pub proof fn lemma_tallied(t: Seq<(Key, RealEps)>, k: Key, w: RealEps, f: Arithmetic, l: Key, v: RealEps)
    requires
        mixture::keys_distinct(t),
    ensures
        mixture::keys_distinct(mixture::tallied(t, k, w, f)),
        l != k ==> (weighs(mixture::tallied(t, k, w, f), l, v) <==> weighs(t, l, v)),
        weighs(t, k, v) ==> weighs(mixture::tallied(t, k, w, f), k, v.plus(w, f)),
        (forall|u: RealEps| !(#[trigger] weighs(t, k, u))) ==> weighs(
            mixture::tallied(t, k, w, f),
            k,
            w,
        ),
{
    lemma_key_at(t, k, 0);
    let i = mixture::key_at(t, k, 0);
    let r = mixture::tallied(t, k, w, f);
    if weighs(t, k, v) {
        let j = t.index_of((k, v));
        assert(t[j].0 == k);
        assert(i == j) by {
            if i < j {
                assert(t[i].0 != t[j].0);
            }
        }
        assert(r[i] == (k, v.plus(w, f)));
    }
    if i < t.len() {
        assert(weighs(t, k, t[i].1)) by {
            assert(t[i] == (k, t[i].1));
        }
    } else {
        assert(r[i] == (k, w));
    }
    if l != k {
        if weighs(t, l, v) {
            let j = t.index_of((l, v));
            assert(r[j] == t[j]);
        }
        if weighs(r, l, v) {
            let j = r.index_of((l, v));
            assert(j != i);
            assert(r[j] == t[j]);
        }
    }
    assert forall|a: int, b: int| 0 <= a < b < r.len() implies (#[trigger] r[a]).0
        != (#[trigger] r[b]).0 by {
        if b < t.len() {
            assert(r[a].0 == t[a].0 && r[b].0 == t[b].0);
        } else {
            assert(r[a] == t[a]);
            assert(t[a].0 != k);
        }
    }
}

/// The item is the component of the tally with this key and weight, and its
/// probability times the weight of all is its weight.
pub open spec fn is_share<V>(
    m: Meaning<V>,
    x: Item,
    k: Key,
    w: RealEps,
    z: RealEps,
) -> bool {
    &&& x.display == k.display
    &&& x.posteriors == k.packet
    &&& w.power <= z.power
    &&& (m.times)((m.number)(z.log_coeff), (m.number)(x.log_probability)) == (m.number)(w.log_coeff)
}

proof fn lemma_shares<V>(m: Meaning<V>, t: Seq<(Key, RealEps)>, z: RealEps, f: Arithmetic, x: Item)
    requires
        m.exact(f),
        !z.none(),
        mixture::shares(t, z, f).contains(x),
    ensures
        exists|i: int| 0 <= i < t.len() && is_share(m, x, (#[trigger] t[i]).0, t[i].1, z),
    decreases t.len(),
{
    let s = mixture::shares(t, z, f);
    let p = t.drop_last();
    let (k, w) = t.last();
    let q = mixture::shares(p, z, f);
    let j = s.index_of(x);
    if j < q.len() {
        assert(q[j] == x);
        lemma_shares(m, p, z, f, x);
        let i = choose|i: int| 0 <= i < p.len() && is_share(m, x, (#[trigger] p[i]).0, p[i].1, z);
        assert(t[i] == p[i]);
    } else {
        meaning::number_over(m, w.log_coeff, z.log_coeff, f);
        assert(is_share(m, x, t[t.len() - 1].0, t[t.len() - 1].1, z));
    }
}

proof fn lemma_shared<V>(m: Meaning<V>, t: Seq<(Key, RealEps)>, z: RealEps, f: Arithmetic, i: int)
    requires
        m.exact(f),
        0 <= i < t.len(),
        !t[i].1.over(z, f).none(),
    ensures
        exists|x: Item| #[trigger]
            mixture::shares(t, z, f).contains(x) && x.display == t[i].0.display && x.posteriors
                == t[i].0.packet,
    decreases t.len(),
{
    let s = mixture::shares(t, z, f);
    let p = t.drop_last();
    let q = mixture::shares(p, z, f);
    if i < p.len() {
        assert(p[i] == t[i]);
        lemma_shared(m, p, z, f, i);
        let x = choose|x: Item| #[trigger]
            q.contains(x) && x.display == p[i].0.display && x.posteriors == p[i].0.packet;
        let j = q.index_of(x);
        assert(s[j] == x);
        assert(s.contains(x));
    } else {
        assert(t.last() == t[i]);
        assert(s.contains(s[q.len() as int]));
    }
}

proof fn lemma_placed(s: Seq<Item>, x: Item, params: Spelling)
    ensures
        mixture::item_placed(s, x, params).to_multiset() == s.to_multiset().insert(x),
    decreases s.len(),
{
    let r = mixture::item_placed(s, x, params);
    s.to_multiset_ensures();
    if !(s.len() == 0 || !mixture::item_before(x, s.last(), params)) {
        let p = s.drop_last();
        lemma_placed(p, x, params);
        let t = mixture::item_placed(p, x, params);
        assert(s =~= p.push(s.last()));
        p.to_multiset_ensures();
        t.to_multiset_ensures();
        assert(r == t.push(s.last()));
        assert(p.to_multiset().insert(x).insert(s.last()) =~= p.to_multiset().insert(
            s.last(),
        ).insert(x));
    }
}

proof fn lemma_sorted(s: Seq<Item>, params: Spelling)
    ensures
        mixture::items_sorted(s, params).to_multiset() == s.to_multiset(),
    decreases s.len(),
{
    if s.len() > 0 {
        let p = s.drop_last();
        lemma_sorted(p, params);
        lemma_placed(mixture::items_sorted(p, params), s.last(), params);
        assert(s =~= p.push(s.last()));
        p.to_multiset_ensures();
    } else {
        assert(s =~= Seq::empty());
    }
}

/// Every item of a mixture is a component with its share of the weight of
/// all, and every component whose share is not 0 is an item.
pub proof fn lemma_items<V>(m: Meaning<V>, t: Seq<(Key, RealEps)>, md: Model, x: Item, i: int)
    requires
        m.exact(md.f),
        !mixture::total(t, md.f).none(),
    ensures
        mixture::items_of(t, md).contains(x) ==> exists|j: int|
            0 <= j < t.len() && is_share(
                m,
                x,
                (#[trigger] t[j]).0,
                t[j].1,
                mixture::total(t, md.f),
            ),
        0 <= i < t.len() && !t[i].1.over(mixture::total(t, md.f), md.f).none() ==> exists|y: Item|
            #[trigger]
            mixture::items_of(t, md).contains(y) && y.display == t[i].0.display && y.posteriors
                == t[i].0.packet,
{
    let z = mixture::total(t, md.f);
    let s = mixture::shares(t, z, md.f);
    let r = mixture::items_of(t, md);
    lemma_sorted(s, md.params);
    s.to_multiset_ensures();
    r.to_multiset_ensures();
    if r.contains(x) {
        assert(r.to_multiset().count(x) > 0);
        assert(s.to_multiset().count(x) > 0);
        lemma_shares(m, t, z, md.f, x);
    }
    if 0 <= i < t.len() && !t[i].1.over(z, md.f).none() {
        lemma_shared(m, t, z, md.f, i);
        let y = choose|y: Item| #[trigger]
            s.contains(y) && y.display == t[i].0.display && y.posteriors == t[i].0.packet;
        assert(s.to_multiset().count(y) > 0);
        assert(r.to_multiset().count(y) > 0);
        assert(r.contains(y));
    }
}

/// Items of one probability stand in the order of their texts.
pub proof fn lemma_ties_by_text(s: Seq<Item>, params: Spelling, i: int, j: int)
    requires
        mixture::all_numbers(s),
        0 <= i < j < mixture::items_sorted(s, params).len(),
    ensures
        ({
            let r = mixture::items_sorted(s, params);
            &&& reals::at_most(r[j].log_probability, r[i].log_probability)
            &&& reals::equal(r[i].log_probability, r[j].log_probability) ==> r[i].display
                == r[j].display || text::text_before(r[i].display, r[j].display)
        }),
{
    let r = mixture::items_sorted(s, params);
    mixture::lemma_items_in_order(s, params);
    assert(!mixture::item_before(r[j], r[i], params));
    assert(!reals::nan(r[i].log_probability) && !reals::nan(r[j].log_probability));
    text::lemma_text_order(r[i].display, r[j].display);
}

} // verus!
