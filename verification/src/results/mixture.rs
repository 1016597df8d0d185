//! Worlds as mixture items: every value that a query can have, with its
//! probability and the posteriors of its continuous variables.

use std::collections::BTreeSet;

use vstd::prelude::*;

use super::naming;
use super::naming::{text_views, NamingScheme};
use super::packet;
use super::packet::{
    rename_to_affine_posterior_packet, Entry, Packet, PacketEntry, PosteriorPacket,
};
use super::positions;
use super::positions::{
    collect_variable_positions, gamma_draw_refs, scope_of, ResultPositions,
};
use super::registry;
use super::registry::fill_in_missing_variables_with_prior;
use super::rendering;
use super::rendering::{format_value, join_texts, Wording};
use crate::discrete_factorizations::BooleanFunction;
use crate::inference::sampling::GammaDraw;
use crate::inference::spn::evidence;
use crate::inference::spn::evidence::Updating;
use crate::inference::spn::meaning;
use crate::inference::spn::meaning::Meaning;
use crate::inference::spn::node::{same_numbers, Leaf, LeafView, Node, Shape, Spn};
use crate::inference::spn::posterior;
use crate::inference::spn::posterior::{Component, ComponentView};
use crate::inference::spn::powers;
use crate::inference::spn::product;
use crate::inference::spn::product::{spn_mul, Merging, MulCache};
use crate::inference::spn::wmc;
use crate::inference::spn::wmc::{wmc_spn, EdgeWeights};
use crate::language::types::{Registered, StringInterner, TypeRegistry};
use crate::language::values::{PluckVal, PluckValue};
use crate::utils::epsilon::RealEps;
use crate::utils::reals;
use crate::utils::reals::{real_below, spell, Arithmetic, RealOp, Spelling};
use crate::utils::stats::{count_nodes, KcStats, StageTimes};
use crate::utils::text;
use crate::utils::text::{is_text_before, push_text, same_text};

verus! {

/// One mixture component. Two items can share the same `display`
/// when the discrete value is reachable in different ways whose
/// posteriors over continuous variables differ.
#[derive(Debug)]
pub struct MixtureItem {
    pub display: String,
    /// The logarithm of the probability.
    pub log_probability: u64,
    pub posteriors: PosteriorPacket,
}

/// What an item is.
pub struct Item {
    pub display: Seq<char>,
    pub log_probability: u64,
    pub posteriors: Packet,
}

impl View for MixtureItem {
    type V = Item;

    open spec fn view(&self) -> Item {
        Item {
            display: self.display@,
            log_probability: self.log_probability,
            posteriors: self.posteriors@,
        }
    }
}

pub open spec fn item_views(s: Seq<MixtureItem>) -> Seq<Item> {
    Seq::new(s.len(), |i: int| s[i]@)
}

/// What tells components apart: how the value is displayed, and the
/// posteriors of its variables.
pub struct Key {
    pub display: Seq<char>,
    pub packet: Packet,
}

/// The leaf for a draw that nothing was observed of.
pub type Vacating = spec_fn(GammaDraw) -> LeafView;

/// `v` can be called on all draws and answers equal calls alike.
pub open spec fn vacates<V: Fn(GammaDraw) -> Leaf>(v: V) -> bool {
    &&& forall|d: GammaDraw| #[trigger] call_requires(v, (d,))
    &&& forall|d: GammaDraw, r: Leaf, s: Leaf| #[trigger]
        call_ensures(v, (d,), r) && #[trigger] call_ensures(v, (d,), s) ==> r@ == s@
}

/// What `v` answers.
pub open spec fn vacating<V: Fn(GammaDraw) -> Leaf>(v: V) -> Vacating {
    |d: GammaDraw| (choose|r: Leaf| call_ensures(v, (d,), r))@
}

/// What a distribution is computed from besides its worlds: the weights of
/// the choices, the arithmetic of conjugate families and numbers, the priors,
/// and the names of symbols and fields.
pub struct Model {
    pub weights: EdgeWeights,
    pub depth: nat,
    pub merge: Merging,
    pub vacant: Vacating,
    pub up: spec_fn(Set<u64>) -> Updating,
    pub priors: Seq<LeafView>,
    pub table: Seq<Seq<char>>,
    pub reg: Registered,
    pub spell: Spelling,
    pub params: Spelling,
    pub f: Arithmetic,
}

/// The arithmetic that a distribution needs, from its caller.
pub struct Engine<'a, W, M, V, U, G, H, F> {
    /// The weights of the two branches at a choice.
    pub weights: &'a W,
    /// How deep products of networks may recur.
    pub depth: usize,
    /// The product of two leaves with a variable in common.
    pub merge: &'a M,
    /// The leaf for a draw that nothing was observed of.
    pub vacuous: &'a V,
    /// The posterior of a leaf for the variables that are asked for.
    pub up: &'a U,
    /// How numbers in values are written.
    pub spell: &'a G,
    /// How the parameters of posteriors are written.
    pub params: &'a H,
    /// Operations on numbers.
    pub reals: &'a F,
}

impl<
    'a,
    W: Fn(u64) -> (Spn, Spn),
    M: Fn(Leaf, Leaf) -> Option<(Leaf, u64)>,
    V: Fn(GammaDraw) -> Leaf,
    U: Fn(Leaf, &BTreeSet<u64>) -> (Option<Leaf>, RealEps),
    G: Fn(u64) -> String,
    H: Fn(u64) -> String,
    F: Fn(RealOp, u64, u64) -> u64,
> Engine<'a, W, M, V, U, G, H, F> {
    /// All functions can be called and answer equal calls alike.
    pub open spec fn sound(self) -> bool {
        &&& wmc::weighs(*self.weights)
        &&& product::merges(*self.merge)
        &&& vacates(*self.vacuous)
        &&& evidence::updates(*self.up)
        &&& reals::spells(*self.spell)
        &&& reals::spells(*self.params)
        &&& reals::settled(*self.reals)
    }

    pub open spec fn model(
        self,
        priors: Seq<LeafView>,
        table: Seq<Seq<char>>,
        reg: Registered,
    ) -> Model {
        Model {
            weights: wmc::edge_weights(*self.weights),
            depth: self.depth as nat,
            merge: product::merging(*self.merge),
            vacant: vacating(*self.vacuous),
            up: |query: Set<u64>| evidence::updating(*self.up, query),
            priors,
            table,
            reg,
            spell: reals::spelling(*self.spell),
            params: reals::spelling(*self.params),
            f: reals::operations(*self.reals),
        }
    }
}

/// A network with a leaf for each draw.
pub open spec fn with_draws(n: Node, d: Seq<GammaDraw>, m: Model) -> Option<Node>
    decreases d.len(),
{
    if d.len() == 0 {
        Some(n)
    } else {
        match with_draws(n, d.drop_last(), m) {
            Some(x) => product::mul_of(
                x,
                product::bare(Shape::Leaf((m.vacant)(d.last()))),
                m.depth,
                m.merge,
                m.f,
            ),
            None => None,
        }
    }
}

/// The evidence for a value: the weight of the worlds in which it is the
/// result, with a leaf for every draw that the value refers to.
pub open spec fn evidence_of(v: &PluckValue, bf: &BooleanFunction, m: Model) -> Option<Node> {
    match wmc::count_of(bf, m.weights, m.depth, m.merge, m.f) {
        Some(n) => with_draws(n, positions::draws_ordered(positions::draws_in(v)), m),
        None => None,
    }
}

/// The mixture components of a value.
pub open spec fn world_components(v: &PluckValue, bf: &BooleanFunction, m: Model) -> Option<
    Seq<ComponentView>,
> {
    match evidence_of(v, bf, m) {
        Some(n) => Some(
            posterior::components_of(
                evidence::posterior_of(n, (m.up)(positions::reach(v)), m.f),
                m.f,
            ),
        ),
        None => None,
    }
}

/// The names for the variables in a value.
pub open spec fn names_in(v: &PluckValue, m: Model) -> naming::Names {
    naming::names_for(positions::found(positions::spots(v, Seq::empty())), m.table, m.reg)
}

/// What a component of a value is told apart by.
pub open spec fn key_of(v: &PluckValue, leaves: Seq<LeafView>, m: Model) -> Option<Key> {
    let f = positions::found(positions::spots(v, Seq::empty()));
    let names = names_in(v, m);
    match packet::packet_of(
        registry::filled_in(m.priors, leaves, positions::reach(v)),
        names,
        naming::targets_of(f.gamma),
        m.spell,
        m.f,
    ) {
        Some(packet) => Some(
            Key {
                display: rendering::rendered(
                    v,
                    Wording { table: m.table, names: Some(names), spell: m.spell },
                ),
                packet,
            },
        ),
        None => None,
    }
}

/// The first place of a key from `from` on.
pub open spec fn key_at(t: Seq<(Key, RealEps)>, k: Key, from: int) -> int
    decreases t.len() - from,
{
    if from < 0 || from >= t.len() || t[from].0 == k {
        from
    } else {
        key_at(t, k, from + 1)
    }
}

/// The weights with one more.
pub open spec fn tallied(t: Seq<(Key, RealEps)>, k: Key, w: RealEps, f: Arithmetic) -> Seq<
    (Key, RealEps),
> {
    let i = key_at(t, k, 0);
    if i < t.len() {
        t.update(i, (k, t[i].1.plus(w, f)))
    } else {
        t.push((k, w))
    }
}

/// The weights with those of the first `n` components of a value.
pub open spec fn world_tallied(
    t: Seq<(Key, RealEps)>,
    v: &PluckValue,
    c: Seq<ComponentView>,
    m: Model,
    n: nat,
) -> Option<Seq<(Key, RealEps)>>
    decreases n,
{
    if n == 0 {
        Some(t)
    } else {
        let x = c[n - 1];
        match world_tallied(t, v, c, m, (n - 1) as nat) {
            Some(s) => if x.weight.none() {
                Some(s)
            } else {
                match key_of(v, x.leaves, m) {
                    Some(k) => Some(tallied(s, k, x.weight, m.f)),
                    None => None,
                }
            },
            None => None,
        }
    }
}

/// The weights of the components of the first `n` worlds.
pub open spec fn worlds_tallied(
    worlds: Seq<(PluckVal, BooleanFunction)>,
    m: Model,
    n: nat,
) -> Option<Seq<(Key, RealEps)>>
    decreases n,
{
    if n == 0 {
        Some(Seq::empty())
    } else {
        let v = &*worlds[n - 1].0;
        match worlds_tallied(worlds, m, (n - 1) as nat) {
            Some(t) => match world_components(v, &worlds[n - 1].1, m) {
                Some(c) => world_tallied(t, v, c, m, c.len()),
                None => None,
            },
            None => None,
        }
    }
}

/// The sum of all weights.
pub open spec fn total(t: Seq<(Key, RealEps)>, f: Arithmetic) -> RealEps
    decreases t.len(),
{
    if t.len() == 0 {
        RealEps { log_coeff: reals::NEG_INFINITY, power: 0 }
    } else {
        total(t.drop_last(), f).plus(t.last().1, f)
    }
}

/// The components whose share of the total is not 0.
pub open spec fn shares(t: Seq<(Key, RealEps)>, z: RealEps, f: Arithmetic) -> Seq<Item>
    decreases t.len(),
{
    if t.len() == 0 {
        Seq::empty()
    } else {
        let s = shares(t.drop_last(), z, f);
        let (k, w) = t.last();
        if w.over(z, f).none() {
            s
        } else {
            s.push(
                Item {
                    display: k.display,
                    log_probability: w.over(z, f).log_coeff,
                    posteriors: k.packet,
                },
            )
        }
    }
}

/// The text of some posteriors of one family.
pub open spec fn section_text(s: Seq<Entry>, family: Seq<char>, params: Spelling) -> Seq<char>
    decreases s.len(),
{
    if s.len() == 0 {
        Seq::empty()
    } else {
        section_text(s.drop_last(), family, params) + entry_text(s.last(), family, params)
    }
}

/// The text of a posterior: a line with the names of its variables, its
/// family and its parameters.
pub open spec fn entry_text(e: Entry, family: Seq<char>, params: Spelling) -> Seq<char> {
    rendering::join(e.names, ", "@) + " ~ "@ + family + "("@ + rendering::join(
        spelled(e.numbers, params),
        ", "@,
    ) + ")\n"@
}

pub open spec fn spelled(s: Seq<u64>, params: Spelling) -> Seq<Seq<char>> {
    Seq::new(s.len(), |i: int| params(s[i]))
}

/// The text of all posteriors of a component.
pub open spec fn packet_text(p: Packet, params: Spelling) -> Seq<char> {
    section_text(p.beta, "Beta"@, params) + section_text(p.dirichlet, "Dirichlet"@, params)
        + section_text(p.gamma, "Gamma"@, params) + section_text(p.gaussian, "Normal"@, params)
}

/// The order of items: the more probable first, and then by what is
/// displayed, and the text of the posteriors.
pub open spec fn item_before(a: Item, b: Item, params: Spelling) -> bool {
    if reals::below(b.log_probability, a.log_probability) {
        true
    } else if reals::below(a.log_probability, b.log_probability) {
        false
    } else if a.display != b.display {
        text::text_before(a.display, b.display)
    } else {
        text::text_before(packet_text(a.posteriors, params), packet_text(b.posteriors, params))
    }
}

/// An item put behind all that it does not come before.
pub open spec fn item_placed(s: Seq<Item>, x: Item, params: Spelling) -> Seq<Item>
    decreases s.len(),
{
    if s.len() == 0 || !item_before(x, s.last(), params) {
        s.push(x)
    } else {
        item_placed(s.drop_last(), x, params).push(s.last())
    }
}

/// Items in order.
pub open spec fn items_sorted(s: Seq<Item>, params: Spelling) -> Seq<Item>
    decreases s.len(),
{
    if s.len() == 0 {
        Seq::empty()
    } else {
        item_placed(items_sorted(s.drop_last(), params), s.last(), params)
    }
}

/// The mixture: the components with their shares, in order; none if all
/// weights are 0.
pub open spec fn items_of(t: Seq<(Key, RealEps)>, m: Model) -> Seq<Item> {
    if total(t, m.f).none() {
        Seq::empty()
    } else {
        items_sorted(shares(t, total(t, m.f), m.f), m.params)
    }
}

fn section_texts<H: Fn(u64) -> String>(
    out: &mut String,
    s: &Vec<PacketEntry>,
    family: &str,
    params: &H,
)
    requires
        reals::spells(*params),
    ensures
        final(out)@ == old(out)@ + section_text(
            packet::entry_views(s@),
            family@,
            reals::spelling(*params),
        ),
{
    let ghost sp = reals::spelling(*params);
    let ghost all = packet::entry_views(s@);
    let mut i: usize = 0;
    assert(out@ =~= old(out)@ + section_text(all.take(0), family@, sp));
    while i < s.len()
        invariant
            i <= s@.len(),
            reals::spells(*params),
            sp == reals::spelling(*params),
            all == packet::entry_views(s@),
            out@ == old(out)@ + section_text(all.take(i as int), family@, sp),
        decreases s@.len() - i,
    {
        let ghost before = out@;
        assert(all.take(i + 1).drop_last() =~= all.take(i as int));
        assert(all.take(i + 1).last() == s@[i as int]@);
        let names: String = join_texts(&s[i].names, ", ");
        let numbers: Vec<String> = spell_all(&s[i].numbers, params);
        let list: String = join_texts(&numbers, ", ");
        push_text(out, names.as_str());
        push_text(out, " ~ ");
        push_text(out, family);
        push_text(out, "(");
        push_text(out, list.as_str());
        push_text(out, ")\n");
        proof {
            let e = s@[i as int]@;
            assert(out@ =~= before + entry_text(e, family@, sp));
            assert(old(out)@ + section_text(all.take(i + 1), family@, sp) =~= before + entry_text(
                e,
                family@,
                sp,
            ));
        }
        i = i + 1;
    }
    assert(all.take(i as int) =~= all);
}

fn spell_all<H: Fn(u64) -> String>(s: &Vec<u64>, params: &H) -> (r: Vec<String>)
    requires
        reals::spells(*params),
    ensures
        text_views(r@) == spelled(s@, reals::spelling(*params)),
{
    let ghost want = spelled(s@, reals::spelling(*params));
    let mut out: Vec<String> = Vec::new();
    let mut i: usize = 0;
    assert(text_views(out@) =~= want.take(0));
    while i < s.len()
        invariant
            i <= s@.len(),
            reals::spells(*params),
            want == spelled(s@, reals::spelling(*params)),
            text_views(out@) == want.take(i as int),
        decreases s@.len() - i,
    {
        let ghost before = text_views(out@);
        let t: String = spell(params, s[i]);
        let ghost tv = t@;
        out.push(t);
        assert(text_views(out@) =~= before.push(tv));
        assert(want.take(i + 1) =~= want.take(i as int).push(want[i as int]));
        i = i + 1;
    }
    assert(want.take(i as int) =~= want);
    out
}

impl PosteriorPacket {
    /// The posteriors, one to a line.
    pub fn describe<H: Fn(u64) -> String>(&self, params: &H) -> (r: String)
        requires
            reals::spells(*params),
        ensures
            r@ == packet_text(self@, reals::spelling(*params)),
    {
        let mut out: String = String::new();
        section_texts(&mut out, &self.beta, "Beta", params);
        section_texts(&mut out, &self.dirichlet, "Dirichlet", params);
        section_texts(&mut out, &self.gamma, "Gamma", params);
        section_texts(&mut out, &self.gaussian, "Normal", params);
        assert(out@ =~= packet_text(self@, reals::spelling(*params)));
        out
    }
}

fn same_names(a: &Vec<String>, b: &Vec<String>) -> (r: bool)
    ensures
        r == (text_views(a@) == text_views(b@)),
{
    if a.len() != b.len() {
        assert(text_views(a@).len() == a@.len() && text_views(b@).len() == b@.len());
        return false;
    }
    let mut i: usize = 0;
    while i < a.len()
        invariant
            i <= a@.len(),
            a@.len() == b@.len(),
            forall|j: int| 0 <= j < i ==> (#[trigger] a@[j])@ == b@[j]@,
        decreases a@.len() - i,
    {
        if !same_text(a[i].as_str(), b[i].as_str()) {
            assert(text_views(a@)[i as int] != text_views(b@)[i as int]);
            return false;
        }
        i = i + 1;
    }
    assert(text_views(a@) =~= text_views(b@));
    true
}

fn same_entries(a: &Vec<PacketEntry>, b: &Vec<PacketEntry>) -> (r: bool)
    ensures
        r == (packet::entry_views(a@) == packet::entry_views(b@)),
{
    if a.len() != b.len() {
        assert(packet::entry_views(a@).len() != packet::entry_views(b@).len());
        return false;
    }
    let mut i: usize = 0;
    while i < a.len()
        invariant
            i <= a@.len(),
            a@.len() == b@.len(),
            forall|j: int| 0 <= j < i ==> (#[trigger] a@[j])@ == b@[j]@,
        decreases a@.len() - i,
    {
        if !same_names(&a[i].names, &b[i].names) || !same_numbers(&a[i].numbers, &b[i].numbers) {
            assert(a@[i as int]@ != b@[i as int]@);
            assert(packet::entry_views(a@)[i as int] != packet::entry_views(b@)[i as int]);
            return false;
        }
        i = i + 1;
    }
    assert(packet::entry_views(a@) =~= packet::entry_views(b@));
    true
}

impl PosteriorPacket {
    pub fn same(&self, other: &Self) -> (r: bool)
        ensures
            r == (self@ == other@),
    {
        same_entries(&self.beta, &other.beta) && same_entries(&self.dirichlet, &other.dirichlet)
            && same_entries(&self.gamma, &other.gamma) && same_entries(
            &self.gaussian,
            &other.gaussian,
        )
    }
}

/// A component with its weight so far.
struct Tallied {
    display: String,
    packet: PosteriorPacket,
    weight: RealEps,
}

spec fn tally_view(t: Tallied) -> (Key, RealEps) {
    (Key { display: t.display@, packet: t.packet@ }, t.weight)
}

spec fn tally_views(s: Seq<Tallied>) -> Seq<(Key, RealEps)> {
    Seq::new(s.len(), |i: int| tally_view(s[i]))
}

fn add_weight<F: Fn(RealOp, u64, u64) -> u64>(
    t: &mut Vec<Tallied>,
    display: String,
    packet: PosteriorPacket,
    weight: RealEps,
    reals: &F,
)
    requires
        reals::settled(*reals),
    ensures
        tally_views(final(t)@) == tallied(
            tally_views(old(t)@),
            Key { display: display@, packet: packet@ },
            weight,
            reals::operations(*reals),
        ),
{
    let ghost before = tally_views(t@);
    let ghost k = Key { display: display@, packet: packet@ };
    let ghost f = reals::operations(*reals);
    let mut i: usize = 0;
    while i < t.len()
        invariant
            i <= t@.len(),
            t@ == old(t)@,
            reals::settled(*reals),
            f == reals::operations(*reals),
            before == tally_views(old(t)@),
            k == (Key { display: display@, packet: packet@ }),
            key_at(before, k, 0) == key_at(before, k, i as int),
        decreases t@.len() - i,
    {
        assert(before[i as int] == tally_view(t@[i as int]));
        let same: bool = same_text(t[i].display.as_str(), display.as_str()) && t[i].packet.same(
            &packet,
        );
        if same {
            assert(before[i as int].0 == k);
            let sum: RealEps = t[i].weight.logsumexp(weight, reals);
            t.set(i, Tallied { display, packet, weight: sum });
            assert(tally_views(t@) =~= before.update(i as int, (k, sum)));
            return ;
        }
        assert(before[i as int].0 != k);
        i = i + 1;
    }
    t.push(Tallied { display, packet, weight });
    assert(tally_views(t@) =~= before.push((k, weight)));
}

impl<
    'a,
    W: Fn(u64) -> (Spn, Spn),
    M: Fn(Leaf, Leaf) -> Option<(Leaf, u64)>,
    V: Fn(GammaDraw) -> Leaf,
    U: Fn(Leaf, &BTreeSet<u64>) -> (Option<Leaf>, RealEps),
    G: Fn(u64) -> String,
    H: Fn(u64) -> String,
    F: Fn(RealOp, u64, u64) -> u64,
> Engine<'a, W, M, V, U, G, H, F> {
    /// The evidence for a value.
    fn evidence(
        &self,
        val: &PluckVal,
        bf: &BooleanFunction,
        cache: &mut MulCache,
        Ghost(m): Ghost<Model>,
    ) -> (r: Option<Spn>)
        requires
            self.sound(),
            m == self.model(m.priors, m.table, m.reg),
            old(cache).right(m.merge, m.f),
        ensures
            final(cache).right(m.merge, m.f),
            match r {
                Some(n) => n.wf() && evidence_of(&**val, bf, m) == Some(n.node()),
                None => evidence_of(&**val, bf, m) is None,
            },
    {
        let mut out: Spn = match wmc_spn(
            bf,
            self.weights,
            self.depth,
            self.merge,
            self.reals,
            cache,
        ) {
            Some(n) => n,
            None => {
                return None;
            },
        };
        let ghost start = out.node();
        let draws: Vec<GammaDraw> = gamma_draw_refs(val);
        let mut i: usize = 0;
        while i < draws.len()
            invariant
                i <= draws@.len(),
                self.sound(),
                m == self.model(m.priors, m.table, m.reg),
                cache.right(m.merge, m.f),
                out.wf(),
                draws@ == positions::draws_ordered(positions::draws_in(&**val)),
                wmc::count_of(bf, m.weights, m.depth, m.merge, m.f) == Some(start),
                with_draws(start, draws@.take(i as int), m) == Some(out.node()),
            decreases draws@.len() - i,
        {
            let d: GammaDraw = draws[i];
            assert(draws@.take(i + 1).drop_last() =~= draws@.take(i as int));
            let l: Leaf = (self.vacuous)(d);
            assert(call_ensures(*self.vacuous, (d,), l));
            assert((m.vacant)(d) == l@);
            let leaf: Spn = Spn::leaf(l);
            match spn_mul(&out, &leaf, self.depth, self.merge, self.reals, cache) {
                Some(n) => {
                    out = n;
                },
                None => {
                    proof {
                        lemma_no_draws(start, draws@, m, i + 1);
                    }
                    return None;
                },
            }
            i = i + 1;
        }
        assert(draws@.take(i as int) =~= draws@);
        Some(out)
    }

    /// Add the weights of the components of a value.
    #[verifier::rlimit(30)]
    fn tally(
        &self,
        t: &mut Vec<Tallied>,
        val: &PluckVal,
        comps: &Vec<Component>,
        found: &ResultPositions,
        priors: &Vec<Leaf>,
        interner: &StringInterner,
        types: &TypeRegistry,
        Ghost(m): Ghost<Model>,
    ) -> (r: bool)
        requires
            self.sound(),
            interner.wf(),
            rendering::readable(&**val, interner@.len()),
            m == self.model(posterior::leaf_views(priors@), interner@, types@),
            found@ == positions::found(positions::spots(&**val, Seq::empty())),
        ensures
            ({
                let c = posterior::component_views(comps@);
                let want = world_tallied(tally_views(old(t)@), &**val, c, m, c.len());
                if r {
                    want == Some(tally_views(final(t)@))
                } else {
                    want is None
                }
            }),
    {
        let ghost c = posterior::component_views(comps@);
        let ghost before = tally_views(t@);
        let names: NamingScheme = NamingScheme::derive(found, interner, types);
        let scope: BTreeSet<u64> = scope_of(val);
        let queried: Vec<(u64, u64)> = gamma_targets(found);
        let mut i: usize = 0;
        while i < comps.len()
            invariant
                i <= comps@.len(),
                self.sound(),
                interner.wf(),
                rendering::readable(&**val, interner@.len()),
                m == self.model(posterior::leaf_views(priors@), interner@, types@),
                c == posterior::component_views(comps@),
                before == tally_views(old(t)@),
                names@ == names_in(&**val, m),
                scope@ == positions::reach(&**val),
                queried@ == naming::targets_of(
                    positions::found(positions::spots(&**val, Seq::empty())).gamma,
                ),
                world_tallied(before, &**val, c, m, i as nat) == Some(tally_views(t@)),
            decreases comps@.len() - i,
        {
            assert(c[i as int] == comps@[i as int]@);
            let weight: RealEps = comps[i].weight;
            if !weight.is_zero() {
                let full: Vec<Leaf> = fill_in_missing_variables_with_prior(
                    priors,
                    &comps[i].leaves,
                    &scope,
                );
                match rename_to_affine_posterior_packet(
                    &full,
                    &names,
                    &queried,
                    self.spell,
                    self.reals,
                ) {
                    Some(packet) => {
                        let display: String = format_value(val, interner, Some(&names), self.spell);
                        proof {
                            let k = key_of(&**val, c[i as int].leaves, m);
                            assert(k == Some(Key { display: display@, packet: packet@ }));
                        }
                        add_weight(t, display, packet, weight, self.reals);
                    },
                    None => {
                        proof {
                            assert(key_of(&**val, c[i as int].leaves, m) is None);
                            lemma_not_tallied(before, &**val, c, m, i + 1);
                        }
                        return false;
                    },
                }
            }
            i = i + 1;
        }
        true
    }
}

proof fn lemma_no_draws(n: Node, d: Seq<GammaDraw>, m: Model, k: int)
    requires
        0 <= k <= d.len(),
        with_draws(n, d.take(k), m) is None,
    ensures
        with_draws(n, d, m) is None,
    decreases d.len() - k,
{
    if k < d.len() {
        assert(d.take(k + 1).drop_last() =~= d.take(k));
        lemma_no_draws(n, d, m, k + 1);
    } else {
        assert(d.take(k) =~= d);
    }
}

proof fn lemma_not_tallied(
    t: Seq<(Key, RealEps)>,
    v: &PluckValue,
    c: Seq<ComponentView>,
    m: Model,
    k: int,
)
    requires
        0 <= k <= c.len(),
        world_tallied(t, v, c, m, k as nat) is None,
    ensures
        world_tallied(t, v, c, m, c.len()) is None,
    decreases c.len() - k,
{
    if k < c.len() {
        lemma_not_tallied(t, v, c, m, k + 1);
    }
}

proof fn lemma_worlds_not_tallied(worlds: Seq<(PluckVal, BooleanFunction)>, m: Model, k: int)
    requires
        0 <= k <= worlds.len(),
        worlds_tallied(worlds, m, k as nat) is None,
    ensures
        worlds_tallied(worlds, m, worlds.len()) is None,
    decreases worlds.len() - k,
{
    if k < worlds.len() {
        lemma_worlds_not_tallied(worlds, m, k + 1);
    }
}

fn gamma_targets(found: &ResultPositions) -> (r: Vec<(u64, u64)>)
    ensures
        r@ == naming::targets_of(found@.gamma),
{
    let ghost want = naming::targets_of(found@.gamma);
    let mut out: Vec<(u64, u64)> = Vec::new();
    let mut i: usize = 0;
    while i < found.gamma_path_to_var.len()
        invariant
            i <= found.gamma_path_to_var@.len(),
            want == naming::targets_of(found@.gamma),
            out@ == want.take(i as int),
        decreases found.gamma_path_to_var@.len() - i,
    {
        assert(found@.gamma[i as int].1 == found.gamma_path_to_var@[i as int].1);
        out.push(found.gamma_path_to_var[i].1);
        assert(want.take(i + 1) =~= want.take(i as int).push(want[i as int]));
        i = i + 1;
    }
    assert(want.take(i as int) =~= want);
    out
}

/// An item with the text of its posteriors.
struct Ranked {
    item: MixtureItem,
    text: String,
}

spec fn ranked_views(s: Seq<Ranked>) -> Seq<Item> {
    Seq::new(s.len(), |i: int| s[i].item@)
}

/// The texts are those of the posteriors.
spec fn texts_right(s: Seq<Ranked>, params: Spelling) -> bool {
    forall|i: int|
        0 <= i < s.len() ==> (#[trigger] s[i]).text@ == packet_text(s[i].item.posteriors@, params)
}

fn is_item_before(a: &Ranked, b: &Ranked, Ghost(params): Ghost<Spelling>) -> (r: bool)
    requires
        a.text@ == packet_text(a.item.posteriors@, params),
        b.text@ == packet_text(b.item.posteriors@, params),
    ensures
        r == item_before(a.item@, b.item@, params),
{
    if real_below(b.item.log_probability, a.item.log_probability) {
        true
    } else if real_below(a.item.log_probability, b.item.log_probability) {
        false
    } else if !same_text(a.item.display.as_str(), b.item.display.as_str()) {
        is_text_before(a.item.display.as_str(), b.item.display.as_str())
    } else {
        is_text_before(a.text.as_str(), b.text.as_str())
    }
}

proof fn lemma_item_back(whole: Seq<Item>, x: Item, at: int, params: Spelling)
    requires
        0 < at <= whole.len(),
        item_before(x, whole[at - 1], params),
    ensures
        item_placed(whole.take(at), x, params) + whole.skip(at) == item_placed(
            whole.take(at - 1),
            x,
            params,
        ) + whole.skip(at - 1),
{
    let front = whole.take(at);
    assert(front.drop_last() =~= whole.take(at - 1));
    assert(front.last() == whole[at - 1]);
    let p = item_placed(whole.take(at - 1), x, params);
    assert(item_placed(front, x, params) == p.push(front.last()));
    assert(p.push(front.last()) + whole.skip(at) =~= p + whole.skip(at - 1));
}

proof fn lemma_item_here(whole: Seq<Item>, x: Item, at: int, params: Spelling)
    requires
        0 <= at <= whole.len(),
        at > 0 ==> !item_before(x, whole[at - 1], params),
    ensures
        item_placed(whole.take(at), x, params) + whole.skip(at) == whole.insert(at, x),
{
    let front = whole.take(at);
    if at > 0 {
        assert(front.last() == whole[at - 1]);
    }
    assert(item_placed(front, x, params) == front.push(x));
    assert(front.push(x) + whole.skip(at) =~= whole.insert(at, x));
}

fn place_item(s: &mut Vec<Ranked>, e: Ranked, Ghost(params): Ghost<Spelling>)
    requires
        texts_right(old(s)@, params),
        e.text@ == packet_text(e.item.posteriors@, params),
    ensures
        texts_right(final(s)@, params),
        ranked_views(final(s)@) == item_placed(ranked_views(old(s)@), e.item@, params),
{
    let ghost whole = ranked_views(s@);
    let ghost x = e.item@;
    let ghost ge = e;
    let mut at: usize = s.len();
    proof {
        assert(whole.take(at as int) =~= whole);
        assert(whole.skip(at as int) =~= Seq::empty());
        assert(item_placed(whole, x, params) + Seq::<Item>::empty() =~= item_placed(
            whole,
            x,
            params,
        ));
    }
    while at > 0 && is_item_before(&e, &s[at - 1], Ghost(params))
        invariant
            s@ == old(s)@,
            texts_right(s@, params),
            e.text@ == packet_text(e.item.posteriors@, params),
            whole == ranked_views(old(s)@),
            at <= whole.len(),
            x == e.item@,
            item_placed(whole.take(at as int), x, params) + whole.skip(at as int) == item_placed(
                whole,
                x,
                params,
            ),
        decreases at,
    {
        proof {
            assert(whole[at - 1] == s@[at - 1].item@);
            lemma_item_back(whole, x, at as int, params);
        }
        at = at - 1;
    }
    proof {
        if at > 0 {
            assert(whole[at - 1] == s@[at - 1].item@);
        }
        lemma_item_here(whole, x, at as int, params);
    }
    let ghost before = s@;
    s.insert(at, e);
    proof {
        assert(ranked_views(s@) =~= whole.insert(at as int, x));
        assert forall|i: int| 0 <= i < s@.len() implies (#[trigger] s@[i]).text@ == packet_text(
            s@[i].item.posteriors@,
            params,
        ) by {
            if i < at {
                assert(s@[i] == before[i]);
            } else if i > at {
                assert(s@[i] == before[i - 1]);
            }
        }
    }
}

/// The shares of the weights as items in order.
fn normalise<H: Fn(u64) -> String, F: Fn(RealOp, u64, u64) -> u64>(
    t: Vec<Tallied>,
    params: &H,
    reals: &F,
    Ghost(m): Ghost<Model>,
) -> (r: Vec<MixtureItem>)
    requires
        reals::spells(*params),
        reals::settled(*reals),
        m.params == reals::spelling(*params),
        m.f == reals::operations(*reals),
    ensures
        item_views(r@) == items_of(tally_views(t@), m),
{
    let ghost all = tally_views(t@);
    let n: usize = t.len();
    let mut z: RealEps = RealEps::zero();
    let mut i: usize = 0;
    while i < n
        invariant
            i <= n,
            n == t@.len(),
            reals::settled(*reals),
            m.f == reals::operations(*reals),
            all == tally_views(t@),
            z == total(all.take(i as int), m.f),
        decreases n - i,
    {
        assert(all.take(i + 1).drop_last() =~= all.take(i as int));
        assert(all.take(i + 1).last() == tally_view(t@[i as int]));
        z = z.logsumexp(t[i].weight, reals);
        i = i + 1;
    }
    assert(all.take(i as int) =~= all);
    let mut out: Vec<MixtureItem> = Vec::new();
    assert(item_views(out@) =~= Seq::empty());
    if z.is_zero() {
        return out;
    }
    let mut ranked: Vec<Ranked> = Vec::new();
    let mut rest: Vec<Tallied> = t;
    let mut taken: usize = 0;
    assert(ranked_views(ranked@) =~= items_sorted(shares(all.take(0), z, m.f), m.params));
    while taken < n
        invariant
            taken <= n,
            n == all.len(),
            rest@.len() == n - taken,
            forall|j: int| 0 <= j < rest@.len() ==> tally_view(#[trigger] rest@[j]) == all[taken + j],
            reals::spells(*params),
            reals::settled(*reals),
            m.params == reals::spelling(*params),
            m.f == reals::operations(*reals),
            texts_right(ranked@, m.params),
            ranked_views(ranked@) == items_sorted(
                shares(all.take(taken as int), z, m.f),
                m.params,
            ),
        decreases n - taken,
    {
        let ghost left = rest@;
        let x: Tallied = rest.remove(0);
        proof {
            assert(tally_view(left[0]) == all[taken as int]);
            assert(all.take(taken + 1).drop_last() =~= all.take(taken as int));
            assert forall|j: int| 0 <= j < rest@.len() implies tally_view(#[trigger] rest@[j])
                == all[taken + 1 + j] by {
                assert(rest@[j] == left[j + 1]);
            }
        }
        let share: RealEps = x.weight.divide(z, reals);
        if !share.is_zero() {
            let Tallied { display, packet, .. } = x;
            let text: String = packet.describe(params);
            let item = MixtureItem {
                display,
                log_probability: share.log_coeff,
                posteriors: packet,
            };
            proof {
                let s = shares(all.take(taken as int), z, m.f);
                let s2 = shares(all.take(taken + 1), z, m.f);
                assert(s2 == s.push(item@));
                assert(s2.drop_last() =~= s);
            }
            place_item(&mut ranked, Ranked { item, text }, Ghost(m.params));
        }
        taken = taken + 1;
    }
    assert(all.take(taken as int) =~= all);
    let ghost sorted = ranked_views(ranked@);
    let count: usize = ranked.len();
    let mut moved: usize = 0;
    assert(item_views(out@) =~= sorted.take(0));
    while moved < count
        invariant
            moved <= count,
            count == sorted.len(),
            ranked@.len() == count - moved,
            forall|j: int| 0 <= j < ranked@.len() ==> (#[trigger] ranked@[j]).item@ == sorted[moved + j],
            item_views(out@) == sorted.take(moved as int),
        decreases count - moved,
    {
        let ghost left = ranked@;
        let ghost before = item_views(out@);
        let x: Ranked = ranked.remove(0);
        proof {
            assert(left[0].item@ == sorted[moved as int]);
            assert forall|j: int| 0 <= j < ranked@.len() implies (#[trigger] ranked@[j]).item@
                == sorted[moved + 1 + j] by {
                assert(ranked@[j] == left[j + 1]);
            }
        }
        out.push(x.item);
        assert(item_views(out@) =~= before.push(sorted[moved as int]));
        assert(sorted.take(moved + 1) =~= sorted.take(moved as int).push(sorted[moved as int]));
        moved = moved + 1;
    }
    assert(sorted.take(moved as int) =~= sorted);
    out
}

/// How many of the first `n` components have a weight.
pub open spec fn nonzero(c: Seq<ComponentView>, n: nat) -> nat
    decreases n,
{
    if n == 0 {
        0
    } else {
        nonzero(c, (n - 1) as nat) + if c[n - 1].weight.none() {
            0nat
        } else {
            1
        }
    }
}

fn count_nonzero(comps: &Vec<Component>) -> (r: usize)
    ensures
        r == nonzero(posterior::component_views(comps@), comps@.len()),
{
    let ghost c = posterior::component_views(comps@);
    let mut n: usize = 0;
    let mut i: usize = 0;
    while i < comps.len()
        invariant
            i <= comps@.len(),
            n <= i,
            c == posterior::component_views(comps@),
            n == nonzero(c, i as nat),
        decreases comps@.len() - i,
    {
        assert(c[i as int].weight == comps@[i as int].weight);
        if !comps[i].weight.is_zero() {
            n = n + 1;
        }
        i = i + 1;
    }
    n
}

/// All values are readable.
pub open spec fn all_readable(worlds: Seq<(PluckVal, BooleanFunction)>, n: nat) -> bool {
    forall|i: int| 0 <= i < worlds.len() ==> rendering::readable(&*(#[trigger] worlds[i]).0, n)
}

/// The mixture items of a distribution: the components of all worlds, those
/// that are displayed alike and have equal posteriors taken together, with
/// their shares of the total weight. None if a product of networks recurs
/// too deep, or if a variable in a posterior has no name. Sizes and times go
/// into `stats` if it is enabled.
pub fn distribution_items<
    W: Fn(u64) -> (Spn, Spn),
    M: Fn(Leaf, Leaf) -> Option<(Leaf, u64)>,
    V: Fn(GammaDraw) -> Leaf,
    U: Fn(Leaf, &BTreeSet<u64>) -> (Option<Leaf>, RealEps),
    G: Fn(u64) -> String,
    H: Fn(u64) -> String,
    F: Fn(RealOp, u64, u64) -> u64,
    C: Fn() -> u64,
>(
    worlds: &Vec<(PluckVal, BooleanFunction)>,
    priors: &Vec<Leaf>,
    interner: &StringInterner,
    types: &TypeRegistry,
    engine: &Engine<W, M, V, U, G, H, F>,
    clock: &C,
    stats: &mut KcStats,
) -> (r: Option<Vec<MixtureItem>>)
    requires
        engine.sound(),
        interner.wf(),
        all_readable(worlds@, interner@.len()),
        call_requires(*clock, ()),
        old(stats).wf(),
    ensures
        final(stats).wf(),
        final(stats).enabled == old(stats).enabled,
        !old(stats).enabled ==> *final(stats) == *old(stats),
        ({
            let m = engine.model(posterior::leaf_views(priors@), interner@, types@);
            match (r, worlds_tallied(worlds@, m, worlds@.len())) {
                (Some(items), Some(t)) => item_views(items@) == items_of(t, m),
                (None, None) => true,
                _ => false,
            }
        }),
{
    let ghost m = engine.model(posterior::leaf_views(priors@), interner@, types@);
    let found: Vec<ResultPositions> = collect_variable_positions(worlds);
    let mut cache: MulCache = MulCache::new();
    assert(cache.right(m.merge, m.f));
    let mut t: Vec<Tallied> = Vec::new();
    let mut i: usize = 0;
    assert(tally_views(t@) =~= Seq::empty());
    while i < worlds.len()
        invariant
            i <= worlds@.len(),
            engine.sound(),
            interner.wf(),
            all_readable(worlds@, interner@.len()),
            m == engine.model(posterior::leaf_views(priors@), interner@, types@),
            call_requires(*clock, ()),
            stats.wf(),
            stats.enabled == old(stats).enabled,
            !old(stats).enabled ==> *stats == *old(stats),
            found@.len() == worlds@.len(),
            forall|j: int|
                0 <= j < found@.len() ==> (#[trigger] found@[j])@ == positions::found(
                    positions::spots(&*worlds@[j].0, Seq::empty()),
                ),
            cache.right(m.merge, m.f),
            worlds_tallied(worlds@, m, i as nat) == Some(tally_views(t@)),
        decreases worlds@.len() - i,
    {
        assert(rendering::readable(&*worlds@[i as int].0, interner@.len()));
        let begun: u64 = clock();
        let evidence: Spn = match engine.evidence(&worlds[i].0, &worlds[i].1, &mut cache, Ghost(m)) {
            Some(n) => n,
            None => {
                proof {
                    lemma_worlds_not_tallied(worlds@, m, i + 1);
                }
                return None;
            },
        };
        let counted: u64 = clock();
        let scope: BTreeSet<u64> = scope_of(&worlds[i].0);
        let post: Spn = evidence.posterior(&scope, engine.up, engine.reals);
        let updated: u64 = clock();
        let comps: Vec<Component> = post.components(engine.reals);
        let flattened: u64 = clock();
        proof {
            assert((m.up)(scope@) == evidence::updating(*engine.up, scope@));
            assert(world_components(&*worlds@[i as int].0, &worlds@[i as int].1, m) == Some(
                posterior::component_views(comps@),
            ));
        }
        let fits: bool = engine.tally(
            &mut t,
            &worlds[i].0,
            &comps,
            &found[i],
            priors,
            interner,
            types,
            Ghost(m),
        );
        if !fits {
            proof {
                lemma_worlds_not_tallied(worlds@, m, i + 1);
            }
            return None;
        }
        if stats.enabled {
            let displayed: u64 = clock();
            let times = StageTimes {
                wmc: counted.saturating_sub(begun),
                posterior: updated.saturating_sub(counted),
                flatten: flattened.saturating_sub(updated),
                display: displayed.saturating_sub(flattened),
            };
            stats.record_world(
                count_nodes(&worlds[i].1),
                &evidence,
                times,
                count_nonzero(&comps),
            );
        }
        i = i + 1;
    }
    Some(normalise(t, engine.params, engine.reals, Ghost(m)))
}

/// No key occurs twice.
pub open spec fn keys_distinct(t: Seq<(Key, RealEps)>) -> bool {
    forall|i: int, j: int| 0 <= i < j < t.len() ==> (#[trigger] t[i]).0 != (#[trigger] t[j]).0
}

proof fn lemma_key_at(t: Seq<(Key, RealEps)>, k: Key, from: int)
    requires
        0 <= from <= t.len(),
    ensures
        from <= key_at(t, k, from) <= t.len(),
        key_at(t, k, from) < t.len() ==> t[key_at(t, k, from)].0 == k,
        forall|j: int| from <= j < key_at(t, k, from) ==> (#[trigger] t[j]).0 != k,
    decreases t.len() - from,
{
    if from < t.len() && t[from].0 != k {
        lemma_key_at(t, k, from + 1);
    }
}

proof fn lemma_tallied_distinct(t: Seq<(Key, RealEps)>, k: Key, w: RealEps, f: Arithmetic)
    requires
        keys_distinct(t),
    ensures
        keys_distinct(tallied(t, k, w, f)),
{
    lemma_key_at(t, k, 0);
    let r = tallied(t, k, w, f);
    assert forall|i: int, j: int| 0 <= i < j < r.len() implies (#[trigger] r[i]).0 != (
    #[trigger] r[j]).0 by {
        if j < t.len() {
            assert(t[i].0 != t[j].0);
            assert(r[i].0 == t[i].0 && r[j].0 == t[j].0);
        } else {
            assert(r[i].0 == t[i].0);
        }
    }
}

proof fn lemma_world_distinct(
    t: Seq<(Key, RealEps)>,
    v: &PluckValue,
    c: Seq<ComponentView>,
    m: Model,
    n: nat,
)
    requires
        keys_distinct(t),
        n <= c.len(),
        world_tallied(t, v, c, m, n) is Some,
    ensures
        keys_distinct(world_tallied(t, v, c, m, n)->0),
    decreases n,
{
    if n > 0 {
        lemma_world_distinct(t, v, c, m, (n - 1) as nat);
        let s = world_tallied(t, v, c, m, (n - 1) as nat)->0;
        let x = c[n - 1];
        if !x.weight.none() {
            lemma_tallied_distinct(s, key_of(v, x.leaves, m)->0, x.weight, m.f);
        }
    }
}

/// Components that are displayed alike and have equal posteriors are taken
/// together: no two entries of the weights have the same key.
pub proof fn lemma_components_distinct(
    worlds: Seq<(PluckVal, BooleanFunction)>,
    m: Model,
    n: nat,
)
    requires
        n <= worlds.len(),
        worlds_tallied(worlds, m, n) is Some,
    ensures
        keys_distinct(worlds_tallied(worlds, m, n)->0),
    decreases n,
{
    if n > 0 {
        lemma_components_distinct(worlds, m, (n - 1) as nat);
        let t = worlds_tallied(worlds, m, (n - 1) as nat)->0;
        let v = &*worlds[n - 1].0;
        let c = world_components(v, &worlds[n - 1].1, m)->0;
        lemma_world_distinct(t, v, c, m, c.len());
    }
}

/// The probabilities do not increase.
pub open spec fn descending(s: Seq<Item>) -> bool {
    forall|i: int, j: int|
        0 <= i < j < s.len() ==> reals::rank((#[trigger] s[i]).log_probability) >= reals::rank(
            (#[trigger] s[j]).log_probability,
        )
}

pub open spec fn all_numbers(s: Seq<Item>) -> bool {
    forall|i: int| 0 <= i < s.len() ==> !reals::nan((#[trigger] s[i]).log_probability)
}

proof fn lemma_item_placed(s: Seq<Item>, x: Item, params: Spelling)
    requires
        descending(s),
        all_numbers(s),
        !reals::nan(x.log_probability),
    ensures
        descending(item_placed(s, x, params)),
        all_numbers(item_placed(s, x, params)),
        forall|i: int|
            0 <= i < item_placed(s, x, params).len() ==> #[trigger] item_placed(s, x, params)[i]
                == x || s.contains(item_placed(s, x, params)[i]),
    decreases s.len(),
{
    let r = item_placed(s, x, params);
    if s.len() == 0 || !item_before(x, s.last(), params) {
        assert forall|i: int, j: int| 0 <= i < j < r.len() implies reals::rank(
            (#[trigger] r[i]).log_probability,
        ) >= reals::rank((#[trigger] r[j]).log_probability) by {
            if j == s.len() {
                assert(reals::rank(s[s.len() - 1].log_probability) >= reals::rank(
                    x.log_probability,
                ));
                if i < s.len() - 1 {
                    assert(reals::rank(s[i].log_probability) >= reals::rank(
                        s[s.len() - 1].log_probability,
                    ));
                }
            } else {
                assert(r[i] == s[i] && r[j] == s[j]);
            }
        }
        assert forall|i: int| 0 <= i < r.len() implies #[trigger] r[i] == x || s.contains(r[i]) by {
            if i < s.len() {
                assert(s[i] == r[i]);
            }
        }
    } else {
        let p = s.drop_last();
        let q = item_placed(p, x, params);
        lemma_item_placed(p, x, params);
        assert(r == q.push(s.last()));
        assert forall|i: int| 0 <= i < r.len() implies #[trigger] r[i] == x || s.contains(r[i]) by {
            if i < q.len() {
                assert(r[i] == q[i]);
                if q[i] != x {
                    let k = choose|k: int| 0 <= k < p.len() && p[k] == q[i];
                    assert(s[k] == r[i]);
                }
            } else {
                assert(s[s.len() - 1] == r[i]);
            }
        }
        assert forall|i: int, j: int| 0 <= i < j < r.len() implies reals::rank(
            (#[trigger] r[i]).log_probability,
        ) >= reals::rank((#[trigger] r[j]).log_probability) by {
            if j < q.len() {
                assert(r[i] == q[i] && r[j] == q[j]);
            } else {
                assert(r[i] == q[i]);
                if q[i] != x {
                    let k = choose|k: int| 0 <= k < p.len() && p[k] == q[i];
                    assert(reals::rank(s[k].log_probability) >= reals::rank(
                        s[s.len() - 1].log_probability,
                    ));
                }
            }
        }
    }
}

/// Sorted items come in the order of their probabilities, the most probable
/// first.
pub proof fn lemma_items_descending(s: Seq<Item>, params: Spelling)
    requires
        all_numbers(s),
    ensures
        descending(items_sorted(s, params)),
        all_numbers(items_sorted(s, params)),
    decreases s.len(),
{
    if s.len() > 0 {
        lemma_items_descending(s.drop_last(), params);
        assert(!reals::nan(s[s.len() - 1].log_probability));
        lemma_item_placed(items_sorted(s.drop_last(), params), s.last(), params);
    }
}

/// No item comes before an earlier one.
pub open spec fn in_order(s: Seq<Item>, params: Spelling) -> bool {
    forall|i: int, j: int|
        0 <= i < j < s.len() ==> !item_before(#[trigger] s[j], #[trigger] s[i], params)
}

/// No two items are displayed alike and have the same posteriors.
pub open spec fn items_distinct(s: Seq<Item>) -> bool {
    forall|i: int, j: int|
        0 <= i < j < s.len() ==> (#[trigger] s[i]).display != (#[trigger] s[j]).display
            || s[i].posteriors != s[j].posteriors
}

proof fn lemma_item_between(a: Item, b: Item, c: Item, params: Spelling)
    requires
        !reals::nan(a.log_probability),
        !reals::nan(b.log_probability),
        !reals::nan(c.log_probability),
        item_before(a, b, params),
    ensures
        item_before(a, c, params) || item_before(c, b, params),
{
    let (p, q, r) = (
        packet_text(a.posteriors, params),
        packet_text(b.posteriors, params),
        packet_text(c.posteriors, params),
    );
    text::lemma_text_order(a.display, b.display);
    text::lemma_text_order(a.display, c.display);
    text::lemma_text_order(c.display, b.display);
    if text::text_before(a.display, b.display) {
        text::lemma_text_between(a.display, b.display, c.display);
    }
    if text::text_before(p, q) {
        text::lemma_text_between(p, q, r);
    }
}

proof fn lemma_placed_in_order(s: Seq<Item>, x: Item, params: Spelling)
    requires
        in_order(s, params),
        all_numbers(s),
        !reals::nan(x.log_probability),
    ensures
        in_order(item_placed(s, x, params), params),
        all_numbers(item_placed(s, x, params)),
        forall|i: int|
            0 <= i < item_placed(s, x, params).len() ==> #[trigger] item_placed(s, x, params)[i]
                == x || s.contains(item_placed(s, x, params)[i]),
    decreases s.len(),
{
    let r = item_placed(s, x, params);
    if s.len() == 0 || !item_before(x, s.last(), params) {
        assert forall|i: int, j: int| 0 <= i < j < r.len() implies !item_before(
            #[trigger] r[j],
            #[trigger] r[i],
            params,
        ) by {
            if j < s.len() {
                assert(r[i] == s[i] && r[j] == s[j]);
            } else {
                assert(r[i] == s[i]);
                if item_before(x, s[i], params) {
                    assert(!reals::nan(s[i].log_probability));
                    assert(!reals::nan(s[s.len() - 1].log_probability));
                    lemma_item_between(x, s[i], s.last(), params);
                    assert(i < s.len() - 1);
                    assert(!item_before(s[s.len() - 1], s[i], params));
                }
            }
        }
        assert forall|i: int| 0 <= i < r.len() implies #[trigger] r[i] == x || s.contains(r[i]) by {
            if i < s.len() {
                assert(r[i] == s[i]);
            }
        }
    } else {
        let p = s.drop_last();
        let q = item_placed(p, x, params);
        assert forall|i: int, j: int| 0 <= i < j < p.len() implies !item_before(
            #[trigger] p[j],
            #[trigger] p[i],
            params,
        ) by {
            assert(p[i] == s[i] && p[j] == s[j]);
        }
        assert forall|i: int| 0 <= i < p.len() implies !reals::nan(
            (#[trigger] p[i]).log_probability,
        ) by {
            assert(p[i] == s[i]);
        }
        lemma_placed_in_order(p, x, params);
        assert(!reals::nan(s[s.len() - 1].log_probability));
        assert forall|i: int| 0 <= i < r.len() implies #[trigger] r[i] == x || s.contains(r[i]) by {
            if i < q.len() {
                assert(r[i] == q[i]);
                if q[i] != x {
                    let k = choose|k: int| 0 <= k < p.len() && p[k] == q[i];
                    assert(s[k] == r[i]);
                }
            } else {
                assert(s[s.len() - 1] == r[i]);
            }
        }
        assert forall|i: int| 0 <= i < r.len() implies !reals::nan(
            (#[trigger] r[i]).log_probability,
        ) by {
            if i < q.len() {
                assert(r[i] == q[i]);
            }
        }
        assert forall|i: int, j: int| 0 <= i < j < r.len() implies !item_before(
            #[trigger] r[j],
            #[trigger] r[i],
            params,
        ) by {
            assert(r[i] == q[i]);
            if j < q.len() {
                assert(r[j] == q[j]);
            } else if q[i] == x {
                text::lemma_text_order(x.display, s.last().display);
                text::lemma_text_order(
                    packet_text(x.posteriors, params),
                    packet_text(s.last().posteriors, params),
                );
            } else {
                let k = choose|k: int| 0 <= k < p.len() && p[k] == q[i];
                assert(!item_before(s[s.len() - 1], s[k], params));
            }
        }
    }
}

/// Sorted items come in their order: the more probable first, and those of
/// one probability by what is displayed and by the text of their posteriors.
pub proof fn lemma_items_in_order(s: Seq<Item>, params: Spelling)
    requires
        all_numbers(s),
    ensures
        in_order(items_sorted(s, params), params),
        all_numbers(items_sorted(s, params)),
    decreases s.len(),
{
    if s.len() > 0 {
        lemma_items_in_order(s.drop_last(), params);
        assert(!reals::nan(s[s.len() - 1].log_probability));
        lemma_placed_in_order(items_sorted(s.drop_last(), params), s.last(), params);
    }
}

spec fn item_in(k: Key, s: Seq<Item>) -> bool {
    exists|i: int| 0 <= i < s.len() && (#[trigger] s[i]).display == k.display && s[i].posteriors == k.packet
}

spec fn key_in(k: Key, t: Seq<(Key, RealEps)>) -> bool {
    exists|i: int| 0 <= i < t.len() && (#[trigger] t[i]).0 == k
}

proof fn lemma_shares_distinct(t: Seq<(Key, RealEps)>, z: RealEps, f: Arithmetic)
    requires
        keys_distinct(t),
    ensures
        items_distinct(shares(t, z, f)),
        forall|k: Key| #[trigger] item_in(k, shares(t, z, f)) ==> key_in(k, t),
    decreases t.len(),
{
    if t.len() > 0 {
        let p = t.drop_last();
        assert forall|i: int, j: int| 0 <= i < j < p.len() implies (#[trigger] p[i]).0 != (
        #[trigger] p[j]).0 by {
            assert(t[i].0 != t[j].0);
        }
        lemma_shares_distinct(p, z, f);
        let (s, r) = (shares(p, z, f), shares(t, z, f));
        let last = t[t.len() - 1].0;
        assert(!item_in(last, s)) by {
            if item_in(last, s) {
                assert(key_in(last, p));
                let i = choose|i: int| 0 <= i < p.len() && (#[trigger] p[i]).0 == last;
                assert(t[i].0 == t[t.len() - 1].0);
            }
        }
        assert forall|k: Key| #[trigger] item_in(k, r) implies key_in(k, t) by {
            let i = choose|i: int|
                0 <= i < r.len() && (#[trigger] r[i]).display == k.display && r[i].posteriors == k.packet;
            if i < s.len() {
                assert(s[i] == r[i]);
                assert(item_in(k, s));
                let j = choose|j: int| 0 <= j < p.len() && (#[trigger] p[j]).0 == k;
                assert(t[j].0 == k);
            } else {
                assert(t[t.len() - 1].0 == k);
            }
        }
        assert forall|i: int, j: int| 0 <= i < j < r.len() implies (#[trigger] r[i]).display != (
        #[trigger] r[j]).display || r[i].posteriors != r[j].posteriors by {
            assert(r[i] == s[i]);
            if j < s.len() {
                assert(r[j] == s[j]);
            }
        }
    }
}

proof fn lemma_placed_distinct(s: Seq<Item>, x: Item, params: Spelling)
    requires
        items_distinct(s),
        !item_in(Key { display: x.display, packet: x.posteriors }, s),
    ensures
        items_distinct(item_placed(s, x, params)),
        forall|k: Key| #[trigger]
            item_in(k, item_placed(s, x, params)) ==> item_in(k, s) || (k.display == x.display
                && k.packet == x.posteriors),
    decreases s.len(),
{
    let own = Key { display: x.display, packet: x.posteriors };
    let r = item_placed(s, x, params);
    if s.len() == 0 || !item_before(x, s.last(), params) {
        assert forall|k: Key| #[trigger] item_in(k, r) implies item_in(k, s) || (k.display
            == x.display && k.packet == x.posteriors) by {
            let i = choose|i: int|
                0 <= i < r.len() && (#[trigger] r[i]).display == k.display && r[i].posteriors == k.packet;
            if i < s.len() {
                assert(s[i] == r[i]);
            }
        }
        assert forall|i: int, j: int| 0 <= i < j < r.len() implies (#[trigger] r[i]).display != (
        #[trigger] r[j]).display || r[i].posteriors != r[j].posteriors by {
            assert(r[i] == s[i]);
            if j < s.len() {
                assert(r[j] == s[j]);
            }
        }
    } else {
        let p = s.drop_last();
        let q = item_placed(p, x, params);
        let last = s[s.len() - 1];
        let behind = Key { display: last.display, packet: last.posteriors };
        assert forall|k: Key| #[trigger] item_in(k, p) implies item_in(k, s) by {
            let i = choose|i: int|
                0 <= i < p.len() && (#[trigger] p[i]).display == k.display && p[i].posteriors == k.packet;
            assert(s[i] == p[i]);
        }
        assert forall|i: int, j: int| 0 <= i < j < p.len() implies (#[trigger] p[i]).display != (
        #[trigger] p[j]).display || p[i].posteriors != p[j].posteriors by {
            assert(p[i] == s[i] && p[j] == s[j]);
        }
        lemma_placed_distinct(p, x, params);
        assert(!item_in(behind, p)) by {
            if item_in(behind, p) {
                let i = choose|i: int|
                    0 <= i < p.len() && (#[trigger] p[i]).display == behind.display
                        && p[i].posteriors == behind.packet;
                assert(p[i] == s[i]);
                assert(s[i].display != s[s.len() - 1].display || s[i].posteriors
                    != s[s.len() - 1].posteriors);
            }
        }
        assert(behind != own) by {
            if behind == own {
                assert(s[s.len() - 1].display == own.display);
                assert(item_in(own, s));
            }
        }
        assert(!item_in(behind, q));
        assert forall|k: Key| #[trigger] item_in(k, r) implies item_in(k, s) || (k.display
            == x.display && k.packet == x.posteriors) by {
            let i = choose|i: int|
                0 <= i < r.len() && (#[trigger] r[i]).display == k.display && r[i].posteriors == k.packet;
            if i < q.len() {
                assert(r[i] == q[i]);
                assert(item_in(k, q));
            } else {
                assert(s[s.len() - 1] == r[i]);
            }
        }
        assert forall|i: int, j: int| 0 <= i < j < r.len() implies (#[trigger] r[i]).display != (
        #[trigger] r[j]).display || r[i].posteriors != r[j].posteriors by {
            assert(r[i] == q[i]);
            if j < q.len() {
                assert(r[j] == q[j]);
            } else if r[i].display == last.display && r[i].posteriors == last.posteriors {
                assert(item_in(behind, q));
            }
        }
    }
}

proof fn lemma_sorted_distinct(s: Seq<Item>, params: Spelling)
    requires
        items_distinct(s),
    ensures
        items_distinct(items_sorted(s, params)),
        forall|k: Key| #[trigger] item_in(k, items_sorted(s, params)) ==> item_in(k, s),
    decreases s.len(),
{
    if s.len() > 0 {
        let p = s.drop_last();
        let x = s[s.len() - 1];
        let own = Key { display: x.display, packet: x.posteriors };
        assert forall|i: int, j: int| 0 <= i < j < p.len() implies (#[trigger] p[i]).display != (
        #[trigger] p[j]).display || p[i].posteriors != p[j].posteriors by {
            assert(p[i] == s[i] && p[j] == s[j]);
        }
        lemma_sorted_distinct(p, params);
        assert(!item_in(own, p)) by {
            if item_in(own, p) {
                let i = choose|i: int|
                    0 <= i < p.len() && (#[trigger] p[i]).display == own.display && p[i].posteriors
                        == own.packet;
                assert(p[i] == s[i]);
                assert(s[i].display != s[s.len() - 1].display || s[i].posteriors
                    != s[s.len() - 1].posteriors);
            }
        }
        lemma_placed_distinct(items_sorted(p, params), x, params);
        assert forall|k: Key| #[trigger] item_in(k, items_sorted(s, params)) implies item_in(k, s) by {
            if item_in(k, items_sorted(p, params)) {
                assert(item_in(k, p));
                let i = choose|i: int|
                    0 <= i < p.len() && (#[trigger] p[i]).display == k.display && p[i].posteriors
                        == k.packet;
                assert(s[i] == p[i]);
            } else {
                assert(s[s.len() - 1].display == k.display);
            }
        }
    }
}

/// No two items of a mixture are displayed alike and have the same
/// posteriors.
pub proof fn lemma_items_distinct(t: Seq<(Key, RealEps)>, m: Model)
    requires
        keys_distinct(t),
    ensures
        items_distinct(items_of(t, m)),
{
    if !total(t, m.f).none() {
        lemma_shares_distinct(t, total(t, m.f), m.f);
        lemma_sorted_distinct(shares(t, total(t, m.f), m.f), m.params);
    }
}

/// The probabilities of items, added up.
pub open spec fn probabilities<V>(g: Meaning<V>, s: Seq<Item>) -> V
    decreases s.len(),
{
    if s.len() == 0 {
        g.zero
    } else {
        (g.plus)(probabilities(g, s.drop_last()), (g.number)(s.last().log_probability))
    }
}

/// The weights of the components.
pub open spec fn weights_of(t: Seq<(Key, RealEps)>) -> Seq<RealEps> {
    Seq::new(t.len(), |i: int| t[i].1)
}

proof fn lemma_total_weights(t: Seq<(Key, RealEps)>, f: Arithmetic)
    ensures
        total(t, f) == powers::added(weights_of(t), f),
    decreases t.len(),
{
    if t.len() > 0 {
        lemma_total_weights(t.drop_last(), f);
        assert(weights_of(t).drop_last() =~= weights_of(t.drop_last()));
    }
}

proof fn lemma_shares_of<V>(g: Meaning<V>, t: Seq<(Key, RealEps)>, z: RealEps, f: Arithmetic)
    requires
        g.exact(f),
        !z.none(),
    ensures
        (g.times)((g.number)(z.log_coeff), probabilities(g, shares(t, z, f))) == powers::up_to(
            g,
            weights_of(t),
            z.power,
        ),
    decreases t.len(),
{
    let k = (g.number)(z.log_coeff);
    meaning::exact_ring(g, f);
    if t.len() == 0 {
        meaning::times_zero(g, k);
    } else {
        let p = t.drop_last();
        let w = t.last().1;
        let (s, r) = (shares(p, z, f), shares(t, z, f));
        let q = w.over(z, f);
        let a = (g.number)(q.log_coeff);
        lemma_shares_of(g, p, z, f);
        assert(weights_of(t).drop_last() =~= weights_of(p));
        meaning::times_plus(g, k, probabilities(g, s), a);
        if q.none() {
            meaning::number_none(g, q.log_coeff, f);
            meaning::plus_zero(g, probabilities(g, s));
        } else {
            assert(r.drop_last() =~= s);
        }
        if w.power > z.power {
            meaning::times_zero(g, k);
        } else {
            meaning::number_over(g, w.log_coeff, z.log_coeff, f);
        }
    }
}

proof fn lemma_placed_probabilities<V>(g: Meaning<V>, s: Seq<Item>, x: Item, params: Spelling)
    requires
        g.semiring(),
    ensures
        probabilities(g, item_placed(s, x, params)) == (g.plus)(
            probabilities(g, s),
            (g.number)(x.log_probability),
        ),
    decreases s.len(),
{
    let a = (g.number)(x.log_probability);
    let r = item_placed(s, x, params);
    if s.len() == 0 || !item_before(x, s.last(), params) {
        assert(r.drop_last() =~= s);
    } else {
        let p = s.drop_last();
        let b = (g.number)(s.last().log_probability);
        lemma_placed_probabilities(g, p, x, params);
        assert(r.drop_last() =~= item_placed(p, x, params));
        meaning::plus_assoc(g, probabilities(g, p), a, b);
        meaning::plus_comm(g, a, b);
        meaning::plus_assoc(g, probabilities(g, p), b, a);
    }
}

proof fn lemma_sorted_probabilities<V>(g: Meaning<V>, s: Seq<Item>, params: Spelling)
    requires
        g.semiring(),
    ensures
        probabilities(g, items_sorted(s, params)) == probabilities(g, s),
    decreases s.len(),
{
    if s.len() > 0 {
        lemma_sorted_probabilities(g, s.drop_last(), params);
        lemma_placed_probabilities(g, items_sorted(s.drop_last(), params), s.last(), params);
    }
}

/// The probabilities of the items of a mixture add up to one, unless all
/// weights are 0 and there are no items.
pub proof fn lemma_probabilities_add_up<V>(g: Meaning<V>, t: Seq<(Key, RealEps)>, m: Model)
    requires
        g.exact(m.f),
        powers::strict(g),
    ensures
        if total(t, m.f).none() {
            items_of(t, m).len() == 0
        } else {
            probabilities(g, items_of(t, m)) == g.one
        },
{
    let z = total(t, m.f);
    if !z.none() {
        let s = shares(t, z, m.f);
        meaning::exact_ring(g, m.f);
        lemma_total_weights(t, m.f);
        powers::lemma_added(g, weights_of(t), m.f);
        lemma_shares_of(g, t, z, m.f);
        meaning::lemma_cancel(g, z.log_coeff, probabilities(g, s), m.f);
        lemma_sorted_probabilities(g, s, m.params);
    }
}

} // verus!
