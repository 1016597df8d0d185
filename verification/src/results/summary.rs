//! Mixtures for display: items grouped by what is displayed, and the long
//! tail of improbable ones cut off.

use vstd::prelude::*;

use super::mixture;
use super::mixture::{Item, MixtureItem};
use crate::utils::reals;
use crate::utils::reals::{
    compute, real_below, real_equal, Arithmetic, RealOp, NEG_INFINITY,
};
use crate::utils::text;
use crate::utils::text::{is_text_before, same_text};

verus! {

/// How many groups are shown whatever their probability.
pub const SHOW_TOP: usize = 10;

/// The bits of the logarithm of 10⁻⁶: groups behind the first ones are left
/// out below this.
pub const TAIL_LOG_THRESHOLD: u64 = 0xc02b_a18a_998f_ffa0;

/// The items that are displayed alike, by their places in the mixture.
#[derive(Debug)]
pub struct Group {
    pub display: String,
    /// The logarithm of the sum of the items' probabilities.
    pub log_probability: u64,
    pub items: Vec<usize>,
}

/// What a group is.
pub struct Bundle {
    pub display: Seq<char>,
    pub log_probability: u64,
    pub items: Seq<usize>,
}

impl View for Group {
    type V = Bundle;

    open spec fn view(&self) -> Bundle {
        Bundle {
            display: self.display@,
            log_probability: self.log_probability,
            items: self.items@,
        }
    }
}

pub open spec fn group_views(s: Seq<Group>) -> Seq<Bundle> {
    Seq::new(s.len(), |i: int| s[i]@)
}

/// The first place from `from` on of a group that does not come before a
/// text.
pub open spec fn slot(g: Seq<Bundle>, d: Seq<char>, from: int) -> int
    decreases g.len() - from,
{
    if from < 0 || from >= g.len() || !text::text_before(g[from].display, d) {
        from
    } else {
        slot(g, d, from + 1)
    }
}

/// Groups in the order of their texts with one more item.
pub open spec fn bundled(g: Seq<Bundle>, x: Item, i: usize, f: Arithmetic) -> Seq<Bundle> {
    let j = slot(g, x.display, 0);
    if j < g.len() && g[j].display == x.display {
        g.update(
            j,
            Bundle {
                display: x.display,
                log_probability: f(RealOp::LogSum, g[j].log_probability, x.log_probability),
                items: g[j].items.push(i),
            },
        )
    } else {
        g.insert(
            j,
            Bundle {
                display: x.display,
                log_probability: f(RealOp::LogSum, NEG_INFINITY, x.log_probability),
                items: seq![i],
            },
        )
    }
}

/// The groups of the first `n` items, in the order of their texts.
pub open spec fn by_display(s: Seq<Item>, f: Arithmetic, n: nat) -> Seq<Bundle>
    decreases n,
{
    if n == 0 {
        Seq::empty()
    } else {
        bundled(by_display(s, f, (n - 1) as nat), s[n - 1], (n - 1) as usize, f)
    }
}

/// A group put behind all that are not less probable.
pub open spec fn group_placed(g: Seq<Bundle>, x: Bundle) -> Seq<Bundle>
    decreases g.len(),
{
    if g.len() == 0 || !reals::below(g.last().log_probability, x.log_probability) {
        g.push(x)
    } else {
        group_placed(g.drop_last(), x).push(g.last())
    }
}

/// Groups by probability, the most probable first.
pub open spec fn by_probability(g: Seq<Bundle>) -> Seq<Bundle>
    decreases g.len(),
{
    if g.len() == 0 {
        Seq::empty()
    } else {
        group_placed(by_probability(g.drop_last()), g.last())
    }
}

fn bundle<F: Fn(RealOp, u64, u64) -> u64>(
    groups: &mut Vec<Group>,
    item: &MixtureItem,
    i: usize,
    reals: &F,
)
    requires
        reals::settled(*reals),
    ensures
        group_views(final(groups)@) == bundled(
            group_views(old(groups)@),
            item@,
            i,
            reals::operations(*reals),
        ),
{
    let ghost g = group_views(groups@);
    let ghost f = reals::operations(*reals);
    let mut j: usize = 0;
    while j < groups.len() && is_text_before(groups[j].display.as_str(), item.display.as_str())
        invariant
            j <= groups@.len(),
            groups@ == old(groups)@,
            g == group_views(old(groups)@),
            slot(g, item.display@, 0) == slot(g, item.display@, j as int),
        decreases groups@.len() - j,
    {
        assert(g[j as int].display == groups@[j as int].display@);
        j = j + 1;
    }
    if j < groups.len() {
        assert(g[j as int] == groups@[j as int]@);
    }
    assert(slot(g, item.display@, 0) == j);
    if j < groups.len() && same_text(groups[j].display.as_str(), item.display.as_str()) {
        let sum: u64 = compute(
            reals,
            RealOp::LogSum,
            groups[j].log_probability,
            item.log_probability,
        );
        let mut items: Vec<usize> = Vec::new();
        let mut k: usize = 0;
        while k < groups[j].items.len()
            invariant
                j < groups@.len(),
                k <= groups@[j as int].items@.len(),
                items@ == groups@[j as int].items@.take(k as int),
            decreases groups@[j as int].items@.len() - k,
        {
            items.push(groups[j].items[k]);
            assert(groups@[j as int].items@.take(k + 1) =~= groups@[j as int].items@.take(
                k as int,
            ).push(groups@[j as int].items@[k as int]));
            k = k + 1;
        }
        assert(items@ =~= g[j as int].items);
        items.push(i);
        groups.set(j, Group { display: item.display.clone(), log_probability: sum, items });
        assert(group_views(groups@) =~= bundled(g, item@, i, f));
    } else {
        let first: u64 = compute(reals, RealOp::LogSum, NEG_INFINITY, item.log_probability);
        let mut items: Vec<usize> = Vec::new();
        items.push(i);
        assert(items@ =~= seq![i]);
        groups.insert(j, Group { display: item.display.clone(), log_probability: first, items });
        assert(group_views(groups@) =~= bundled(g, item@, i, f));
    }
}

proof fn lemma_group_back(whole: Seq<Bundle>, x: Bundle, at: int)
    requires
        0 < at <= whole.len(),
        reals::below(whole[at - 1].log_probability, x.log_probability),
    ensures
        group_placed(whole.take(at), x) + whole.skip(at) == group_placed(whole.take(at - 1), x)
            + whole.skip(at - 1),
{
    let front = whole.take(at);
    assert(front.drop_last() =~= whole.take(at - 1));
    assert(front.last() == whole[at - 1]);
    let p = group_placed(whole.take(at - 1), x);
    assert(group_placed(front, x) == p.push(front.last()));
    assert(p.push(front.last()) + whole.skip(at) =~= p + whole.skip(at - 1));
}

proof fn lemma_group_here(whole: Seq<Bundle>, x: Bundle, at: int)
    requires
        0 <= at <= whole.len(),
        at > 0 ==> !reals::below(whole[at - 1].log_probability, x.log_probability),
    ensures
        group_placed(whole.take(at), x) + whole.skip(at) == whole.insert(at, x),
{
    let front = whole.take(at);
    if at > 0 {
        assert(front.last() == whole[at - 1]);
    }
    assert(group_placed(front, x) == front.push(x));
    assert(front.push(x) + whole.skip(at) =~= whole.insert(at, x));
}

fn place_group(s: &mut Vec<Group>, e: Group)
    ensures
        group_views(final(s)@) == group_placed(group_views(old(s)@), e@),
{
    let ghost whole = group_views(s@);
    let ghost x = e@;
    let mut at: usize = s.len();
    proof {
        assert(whole.take(at as int) =~= whole);
        assert(whole.skip(at as int) =~= Seq::empty());
        assert(group_placed(whole, x) + Seq::<Bundle>::empty() =~= group_placed(whole, x));
    }
    while at > 0 && real_below(s[at - 1].log_probability, e.log_probability)
        invariant
            s@ == old(s)@,
            whole == group_views(old(s)@),
            at <= whole.len(),
            x == e@,
            group_placed(whole.take(at as int), x) + whole.skip(at as int) == group_placed(whole, x),
        decreases at,
    {
        proof {
            assert(whole[at - 1] == s@[at - 1]@);
            lemma_group_back(whole, x, at as int);
        }
        at = at - 1;
    }
    proof {
        if at > 0 {
            assert(whole[at - 1] == s@[at - 1]@);
        }
        lemma_group_here(whole, x, at as int);
    }
    s.insert(at, e);
    assert(group_views(s@) =~= whole.insert(at as int, x));
}

/// Bucket items by `display`, add up their probabilities, and sort the
/// groups by probability, the most probable first.
pub fn group_by_display<F: Fn(RealOp, u64, u64) -> u64>(items: &Vec<MixtureItem>, reals: &F) -> (r:
    Vec<Group>)
    requires
        reals::settled(*reals),
    ensures
        group_views(r@) == by_probability(
            by_display(mixture::item_views(items@), reals::operations(*reals), items@.len()),
        ),
{
    let ghost s = mixture::item_views(items@);
    let ghost f = reals::operations(*reals);
    let mut groups: Vec<Group> = Vec::new();
    let mut i: usize = 0;
    assert(group_views(groups@) =~= Seq::empty());
    while i < items.len()
        invariant
            i <= items@.len(),
            reals::settled(*reals),
            f == reals::operations(*reals),
            s == mixture::item_views(items@),
            group_views(groups@) == by_display(s, f, i as nat),
        decreases items@.len() - i,
    {
        assert(s[i as int] == items@[i as int]@);
        bundle(&mut groups, &items[i], i, reals);
        i = i + 1;
    }
    let ghost all = group_views(groups@);
    let n: usize = groups.len();
    let mut out: Vec<Group> = Vec::new();
    let mut taken: usize = 0;
    assert(group_views(out@) =~= by_probability(all.take(0)));
    while taken < n
        invariant
            taken <= n,
            n == all.len(),
            groups@.len() == n - taken,
            forall|j: int| 0 <= j < groups@.len() ==> (#[trigger] groups@[j])@ == all[taken + j],
            group_views(out@) == by_probability(all.take(taken as int)),
        decreases n - taken,
    {
        let ghost left = groups@;
        let x: Group = groups.remove(0);
        proof {
            assert(left[0]@ == all[taken as int]);
            assert(all.take(taken + 1).drop_last() =~= all.take(taken as int));
            assert forall|j: int| 0 <= j < groups@.len() implies (#[trigger] groups@[j])@
                == all[taken + 1 + j] by {
                assert(groups@[j] == left[j + 1]);
            }
        }
        place_group(&mut out, x);
        taken = taken + 1;
    }
    assert(all.take(taken as int) =~= all);
    out
}

/// What is shown of some groups: the places of those that are, how many are
/// left out, and the logarithm of their probability together.
pub struct Shown {
    pub shown: Seq<usize>,
    pub hidden: nat,
    pub hidden_log_total: u64,
}

/// What is shown of the first `n` groups: none of probability 0, and behind
/// the first ones none below the threshold.
pub open spec fn shown_of(g: Seq<Bundle>, f: Arithmetic, n: nat) -> Shown
    decreases n,
{
    if n == 0 {
        Shown { shown: Seq::empty(), hidden: 0, hidden_log_total: NEG_INFINITY }
    } else {
        let s = shown_of(g, f, (n - 1) as nat);
        let lp = g[n - 1].log_probability;
        if reals::equal(lp, NEG_INFINITY) {
            s
        } else if s.shown.len() >= SHOW_TOP && reals::below(lp, TAIL_LOG_THRESHOLD) {
            Shown {
                shown: s.shown,
                hidden: s.hidden + 1,
                hidden_log_total: f(RealOp::LogSum, s.hidden_log_total, lp),
            }
        } else {
            Shown { shown: s.shown.push((n - 1) as usize), ..s }
        }
    }
}

/// Which groups to show, how many others there are, and the logarithm of
/// their probability together.
pub fn select_groups<F: Fn(RealOp, u64, u64) -> u64>(groups: &Vec<Group>, reals: &F) -> (r: (
    Vec<usize>,
    usize,
    u64,
))
    requires
        reals::settled(*reals),
    ensures
        ({
            let s = shown_of(group_views(groups@), reals::operations(*reals), groups@.len());
            r.0@ == s.shown && r.1 == s.hidden && r.2 == s.hidden_log_total
        }),
{
    let ghost g = group_views(groups@);
    let ghost f = reals::operations(*reals);
    let mut shown: Vec<usize> = Vec::new();
    let mut hidden: usize = 0;
    let mut total: u64 = NEG_INFINITY;
    let mut i: usize = 0;
    while i < groups.len()
        invariant
            i <= groups@.len(),
            hidden <= i,
            reals::settled(*reals),
            f == reals::operations(*reals),
            g == group_views(groups@),
            ({
                let s = shown_of(g, f, i as nat);
                shown@ == s.shown && hidden == s.hidden && total == s.hidden_log_total
            }),
        decreases groups@.len() - i,
    {
        assert(g[i as int] == groups@[i as int]@);
        let lp: u64 = groups[i].log_probability;
        if !real_equal(lp, NEG_INFINITY) {
            if shown.len() >= SHOW_TOP && real_below(lp, TAIL_LOG_THRESHOLD) {
                hidden = hidden + 1;
                total = compute(reals, RealOp::LogSum, total, lp);
            } else {
                shown.push(i);
            }
        }
        i = i + 1;
    }
    (shown, hidden, total)
}

/// The first groups with a probability are all shown.
pub proof fn lemma_top_shown(g: Seq<Bundle>, f: Arithmetic, n: nat)
    requires
        n <= SHOW_TOP,
    ensures
        shown_of(g, f, n).hidden == 0,
        shown_of(g, f, n).shown.len() <= n,
    decreases n,
{
    if n > 0 {
        lemma_top_shown(g, f, (n - 1) as nat);
    }
}

} // verus!
