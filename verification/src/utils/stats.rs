//! Opt-in engine instrumentation.
//!
//! Sizes of the internal representations a distribution query
//! builds (the guards of worlds and the evidence networks, counted both as
//! an unshared tree and as distinct nodes) and times per stage. A disabled
//! collector records nothing.

use vstd::prelude::*;

use crate::discrete_factorizations::BooleanFunction;
use crate::inference::spn::node;
use crate::inference::spn::node::{Node, Shape, Spn, SpnKind};

verus! {

/// Per-stage wall-clock for processing one world, in nanoseconds.
#[derive(Debug, Clone, Copy, PartialEq, Eq, Structural)]
pub struct StageTimes {
    /// Building the evidence network from the guard.
    pub wmc: u64,
    /// Converting the evidence network to a posterior network.
    pub posterior: u64,
    /// Flattening the posterior network into an explicit mixture.
    pub flatten: u64,
    /// Naming and display.
    pub display: u64,
}

impl Default for StageTimes {
    fn default() -> (r: Self)
        ensures
            r == (StageTimes { wmc: 0, posterior: 0, flatten: 0, display: 0 }),
    {
        StageTimes { wmc: 0, posterior: 0, flatten: 0, display: 0 }
    }
}

/// Node tallies of a network walked as a tree.
#[derive(Debug, Clone, Copy, PartialEq, Eq, Structural)]
pub struct TreeSize {
    pub nodes: usize,
    pub leaves: usize,
    pub sums: usize,
    pub products: usize,
}

/// How many nodes a network has, as a tree: all, leaves, sums and products.
pub struct Tally {
    pub nodes: nat,
    pub leaves: nat,
    pub sums: nat,
    pub products: nat,
}

pub open spec fn added(a: Tally, b: Tally) -> Tally {
    Tally {
        nodes: a.nodes + b.nodes,
        leaves: a.leaves + b.leaves,
        sums: a.sums + b.sums,
        products: a.products + b.products,
    }
}

/// The tally of a network: shared parts count once per reference.
pub open spec fn tree_tally(n: Node) -> Tally
    decreases n,
{
    match n.shape {
        Shape::Scalar => Tally { nodes: 1, leaves: 0, sums: 0, products: 0 },
        Shape::Leaf(_) => Tally { nodes: 1, leaves: 1, sums: 0, products: 0 },
        Shape::Sum(c) => added(
            Tally { nodes: 1, leaves: 0, sums: 1, products: 0 },
            trees_tally(c),
        ),
        Shape::Product(c) => added(
            Tally { nodes: 1, leaves: 0, sums: 0, products: 1 },
            trees_tally(c),
        ),
    }
}

pub open spec fn trees_tally(s: Seq<Node>) -> Tally
    decreases s,
{
    if s.len() == 0 {
        Tally { nodes: 0, leaves: 0, sums: 0, products: 0 }
    } else {
        added(trees_tally(s.drop_last()), tree_tally(s.last()))
    }
}

/// A count, or the greatest number that can be held.
pub open spec fn capped(n: nat) -> usize {
    if n <= usize::MAX {
        n as usize
    } else {
        usize::MAX
    }
}

pub open spec fn held(t: Tally) -> TreeSize {
    TreeSize {
        nodes: capped(t.nodes),
        leaves: capped(t.leaves),
        sums: capped(t.sums),
        products: capped(t.products),
    }
}

fn plus(a: TreeSize, b: TreeSize) -> (r: TreeSize)
    ensures
        forall|s: Tally, t: Tally|
            a == held(s) && b == held(t) ==> r == held(#[trigger] added(s, t)),
{
    TreeSize {
        nodes: a.nodes.saturating_add(b.nodes),
        leaves: a.leaves.saturating_add(b.leaves),
        sums: a.sums.saturating_add(b.sums),
        products: a.products.saturating_add(b.products),
    }
}

/// Size a network as a tree; counts stop at the greatest number that can be
/// held.
pub fn spn_tree_size(spn: &Spn) -> (r: TreeSize)
    ensures
        r == held(tree_tally(spn.node())),
    decreases spn,
{
    match &spn.inner.kind {
        SpnKind::Scalar => TreeSize { nodes: 1, leaves: 0, sums: 0, products: 0 },
        SpnKind::Leaf(_) => TreeSize { nodes: 1, leaves: 1, sums: 0, products: 0 },
        SpnKind::Sum(c) => {
            let own = TreeSize { nodes: 1, leaves: 0, sums: 1, products: 0 };
            let rest: TreeSize = children_size(c);
            proof {
                let t = Tally { nodes: 1, leaves: 0, sums: 1, products: 0 };
                assert(own == held(t));
                assert(tree_tally(spn.node()) == added(t, trees_tally(node::nodes(c@))));
            }
            plus(own, rest)
        },
        SpnKind::Product(c) => {
            let own = TreeSize { nodes: 1, leaves: 0, sums: 0, products: 1 };
            let rest: TreeSize = children_size(c);
            proof {
                let t = Tally { nodes: 1, leaves: 0, sums: 0, products: 1 };
                assert(own == held(t));
                assert(tree_tally(spn.node()) == added(t, trees_tally(node::nodes(c@))));
            }
            plus(own, rest)
        },
    }
}

fn children_size(c: &Vec<Spn>) -> (r: TreeSize)
    ensures
        r == held(trees_tally(node::nodes(c@))),
    decreases c,
{
    let ghost all = node::nodes(c@);
    proof {
        node::lemma_nodes(c@);
    }
    let mut total = TreeSize { nodes: 0, leaves: 0, sums: 0, products: 0 };
    let mut i: usize = 0;
    while i < c.len()
        invariant
            i <= c@.len(),
            all.len() == c@.len(),
            forall|j: int| 0 <= j < c@.len() ==> #[trigger] all[j] == c@[j].node(),
            total == held(trees_tally(all.take(i as int))),
        decreases c@.len() - i,
    {
        let child: TreeSize = spn_tree_size(&c[i]);
        proof {
            assert(all.take(i + 1).drop_last() =~= all.take(i as int));
            assert(all.take(i + 1).last() == all[i as int]);
            let s = trees_tally(all.take(i as int));
            let t = tree_tally(all[i as int]);
            assert(trees_tally(all.take(i + 1)) == added(s, t));
        }
        total = plus(total, child);
        i = i + 1;
    }
    assert(all.take(i as int) =~= all);
    total
}

/// A node that is part of a network, whatever its coefficient.
pub open spec fn part_of(x: Shape, n: Node) -> bool
    decreases n,
{
    x == n.shape || match n.shape {
        Shape::Sum(c) => part_of_some(x, c),
        Shape::Product(c) => part_of_some(x, c),
        _ => false,
    }
}

pub open spec fn part_of_some(x: Shape, s: Seq<Node>) -> bool
    decreases s,
{
    s.len() > 0 && (part_of_some(x, s.drop_last()) || part_of(x, s.last()))
}

/// The shapes of some nodes.
pub open spec fn shapes(s: Seq<Spn>) -> Seq<Shape> {
    Seq::new(s.len(), |i: int| s[i].node().shape)
}

/// The parts of every node in the list are in the list.
pub open spec fn whole(s: Seq<Spn>) -> bool {
    forall|x: Shape, i: int|
        0 <= i < s.len() && #[trigger] part_of(x, (#[trigger] s[i]).node()) ==> shapes(s).contains(x)
}

fn is_seen(spn: &Spn, seen: &Vec<Spn>) -> (r: bool)
    ensures
        r == shapes(seen@).contains(spn.node().shape),
{
    let mut i: usize = 0;
    while i < seen.len()
        invariant
            i <= seen@.len(),
            forall|j: int| 0 <= j < i ==> (#[trigger] seen@[j]).node().shape != spn.node().shape,
        decreases seen@.len() - i,
    {
        if seen[i].same_shape(spn) {
            assert(shapes(seen@)[i as int] == spn.node().shape);
            return true;
        }
        i = i + 1;
    }
    proof {
        if shapes(seen@).contains(spn.node().shape) {
            let j = choose|j: int|
                0 <= j < shapes(seen@).len() && shapes(seen@)[j] == spn.node().shape;
            assert(seen@[j].node().shape == spn.node().shape);
        }
    }
    false
}

spec fn grown_by_some(before: Seq<Spn>, after: Seq<Spn>, s: Seq<Node>) -> bool {
    forall|x: Shape| #[trigger]
        shapes(after).contains(x) <==> (shapes(before).contains(x) || part_of_some(x, s))
}

/// Collect the distinct nodes of a network, each once.
#[verifier::rlimit(30)]
pub fn collect_dag_nodes(spn: &Spn, seen: &mut Vec<Spn>)
    requires
        shapes(old(seen)@).no_duplicates(),
        whole(old(seen)@),
    ensures
        shapes(final(seen)@).no_duplicates(),
        whole(final(seen)@),
        forall|x: Shape| #[trigger]
            shapes(final(seen)@).contains(x) <==> (shapes(old(seen)@).contains(x) || part_of(
                x,
                spn.node(),
            )),
    decreases spn,
{
    let ghost before = seen@;
    let ghost n = spn.node();
    if is_seen(spn, seen) {
        proof {
            let i = choose|i: int| 0 <= i < shapes(before).len() && shapes(before)[i] == n.shape;
            let m = before[i].node();
            assert(m.shape == n.shape);
            assert forall|x: Shape| part_of(x, n) implies #[trigger] shapes(before).contains(x) by {
                assert(part_of(x, m));
            }
        }
        return ;
    }
    match &spn.inner.kind {
        SpnKind::Sum(c) => {
            collect_all(c, seen);
        },
        SpnKind::Product(c) => {
            collect_all(c, seen);
        },
        _ => {},
    }
    let ghost mid = seen@;
    let known: bool = is_seen(spn, seen);
    if !known {
        seen.push(spn.share());
        proof {
            assert(shapes(seen@) =~= shapes(mid).push(n.shape));
            assert forall|x: Shape| #[trigger] shapes(seen@).contains(x) <==> (shapes(mid).contains(
                x,
            ) || x == n.shape) by {
                if shapes(mid).contains(x) {
                    let i = choose|i: int| 0 <= i < shapes(mid).len() && shapes(mid)[i] == x;
                    assert(shapes(seen@)[i] == x);
                }
                assert(shapes(seen@)[mid.len() as int] == n.shape);
                if shapes(seen@).contains(x) {
                    let i = choose|i: int| 0 <= i < shapes(seen@).len() && shapes(seen@)[i] == x;
                    if i < mid.len() {
                        assert(shapes(mid)[i] == x);
                    }
                }
            }
            assert forall|x: Shape, i: int|
                0 <= i < seen@.len() && #[trigger] part_of(
                    x,
                    (#[trigger] seen@[i]).node(),
                ) implies shapes(seen@).contains(x) by {
                if i < mid.len() {
                    assert(part_of(x, mid[i].node()));
                } else {
                    assert(part_of(x, n));
                }
            }
        }
    }
}

fn collect_all(c: &Vec<Spn>, seen: &mut Vec<Spn>)
    requires
        shapes(old(seen)@).no_duplicates(),
        whole(old(seen)@),
    ensures
        shapes(final(seen)@).no_duplicates(),
        whole(final(seen)@),
        grown_by_some(old(seen)@, final(seen)@, node::nodes(c@)),
    decreases c,
{
    let ghost all = node::nodes(c@);
    let ghost before = seen@;
    proof {
        node::lemma_nodes(c@);
    }
    let mut i: usize = 0;
    while i < c.len()
        invariant
            i <= c@.len(),
            all.len() == c@.len(),
            forall|j: int| 0 <= j < c@.len() ==> #[trigger] all[j] == c@[j].node(),
            shapes(seen@).no_duplicates(),
            whole(seen@),
            grown_by_some(before, seen@, all.take(i as int)),
        decreases c@.len() - i,
    {
        let ghost mid = seen@;
        collect_dag_nodes(&c[i], seen);
        proof {
            assert(all.take(i + 1).drop_last() =~= all.take(i as int));
            assert(all.take(i + 1).last() == all[i as int]);
            assert forall|x: Shape| #[trigger] shapes(seen@).contains(x) <==> (shapes(
                before,
            ).contains(x) || part_of_some(x, all.take(i + 1))) by {
                assert(shapes(mid).contains(x) <==> (shapes(before).contains(x) || part_of_some(
                    x,
                    all.take(i as int),
                )));
            }
        }
        i = i + 1;
    }
    assert(all.take(i as int) =~= all);
}

/// A decision that a diagram makes.
pub open spec fn decision_in(x: BooleanFunction, f: &BooleanFunction) -> bool
    decreases f,
{
    match f {
        BooleanFunction::Node { low, high, .. } => x == *f || decision_in(x, &**low) || decision_in(
            x,
            &**high,
        ),
        _ => false,
    }
}

/// The decisions below every diagram in the list are in the list.
pub open spec fn decisions_whole(s: Seq<BooleanFunction>) -> bool {
    forall|x: BooleanFunction, i: int|
        0 <= i < s.len() && #[trigger] decision_in(x, &(#[trigger] s[i])) ==> s.contains(x)
}

fn is_known(f: &BooleanFunction, seen: &Vec<BooleanFunction>) -> (r: bool)
    ensures
        r == seen@.contains(*f),
{
    let mut i: usize = 0;
    while i < seen.len()
        invariant
            i <= seen@.len(),
            forall|j: int| 0 <= j < i ==> #[trigger] seen@[j] != *f,
        decreases seen@.len() - i,
    {
        if seen[i].same(f) {
            assert(seen@[i as int] == *f);
            return true;
        }
        i = i + 1;
    }
    false
}

/// Collect the distinct decisions of a diagram, each once.
pub fn collect_decisions(f: &BooleanFunction, seen: &mut Vec<BooleanFunction>)
    requires
        old(seen)@.no_duplicates(),
        decisions_whole(old(seen)@),
    ensures
        final(seen)@.no_duplicates(),
        decisions_whole(final(seen)@),
        forall|x: BooleanFunction| #[trigger]
            final(seen)@.contains(x) <==> (old(seen)@.contains(x) || decision_in(x, f)),
    decreases f,
{
    if let BooleanFunction::Node { low, high, .. } = f {
        if is_known(f, seen) {
            proof {
                let i = choose|i: int| 0 <= i < seen@.len() && seen@[i] == *f;
                assert forall|x: BooleanFunction| decision_in(x, f) implies #[trigger] seen@.contains(
                    x,
                ) by {
                    assert(decision_in(x, &seen@[i]));
                }
            }
            return ;
        }
        collect_decisions(low, seen);
        collect_decisions(high, seen);
        let ghost mid = seen@;
        if !is_known(f, seen) {
            seen.push(f.clone());
            proof {
                assert(seen@ =~= mid.push(*f));
                assert forall|x: BooleanFunction| #[trigger] seen@.contains(x) <==> (mid.contains(x)
                    || x == *f) by {
                    if mid.contains(x) {
                        let i = choose|i: int| 0 <= i < mid.len() && mid[i] == x;
                        assert(seen@[i] == x);
                    }
                    assert(seen@[mid.len() as int] == *f);
                    if seen@.contains(x) {
                        let i = choose|i: int| 0 <= i < seen@.len() && seen@[i] == x;
                        if i < mid.len() {
                            assert(mid[i] == x);
                        }
                    }
                }
                assert forall|x: BooleanFunction, i: int|
                    0 <= i < seen@.len() && #[trigger] decision_in(
                        x,
                        &(#[trigger] seen@[i]),
                    ) implies seen@.contains(x) by {
                    if i < mid.len() {
                        assert(decision_in(x, &mid[i]));
                    }
                }
            }
        }
    }
}

/// How many distinct decisions a diagram makes.
pub fn count_nodes(f: &BooleanFunction) -> (r: usize)
    ensures
        exists|s: Seq<BooleanFunction>|
            s.no_duplicates() && #[trigger] s.len() == r && forall|x: BooleanFunction| #[trigger]
                s.contains(x) <==> decision_in(x, f),
{
    let mut seen: Vec<BooleanFunction> = Vec::new();
    collect_decisions(f, &mut seen);
    let n: usize = seen.len();
    proof {
        assert(seen@.len() == n);
        assert forall|x: BooleanFunction| #[trigger] seen@.contains(x) <==> decision_in(x, f) by {
            assert(!Seq::<BooleanFunction>::empty().contains(x));
        }
    }
    n
}

/// Accumulates guard and network sizes and times across the worlds of a
/// single distribution query. When disabled all methods leave it as it is.
#[derive(Debug)]
pub struct KcStats {
    pub enabled: bool,
    pub worlds: usize,
    pub bf_sum: usize,
    pub bf_max: usize,
    pub spn_tree_sum: usize,
    pub spn_tree_max: usize,
    pub spn_leaf_sum: usize,
    pub sum_arity_max: usize,
    pub prod_arity_max: usize,
    pub spn_dag_max: usize,
    /// The distinct nodes of all worlds.
    pub spn_dag_all: Vec<Spn>,
    pub components: usize,
    /// Times in nanoseconds.
    pub t_parse: u64,
    pub t_symbolic: u64,
    pub times: StageTimes,
}

/// The sum of two numbers, or the greatest that can be held.
pub open spec fn capped_sum(a: usize, b: usize) -> usize {
    if a + b <= usize::MAX {
        (a + b) as usize
    } else {
        usize::MAX
    }
}

pub open spec fn capped_time(a: u64, b: u64) -> u64 {
    if a + b <= u64::MAX {
        (a + b) as u64
    } else {
        u64::MAX
    }
}

pub open spec fn greater(a: usize, b: usize) -> usize {
    if a >= b {
        a
    } else {
        b
    }
}

fn larger(a: usize, b: usize) -> (r: usize)
    ensures
        r == greater(a, b),
{
    if a >= b {
        a
    } else {
        b
    }
}

/// What is reported of a query.
#[derive(Debug, Clone, Copy, PartialEq, Eq)]
pub struct Report {
    pub worlds: usize,
    /// Sum, maximum and mean over the worlds.
    pub guard_nodes: (usize, usize, usize),
    pub tree_nodes: (usize, usize, usize),
    /// The most distinct nodes of a world, and the distinct nodes of all.
    pub dag_nodes: (usize, usize),
    /// Leaves of all worlds, and the most sums and products of a world.
    pub leaves: (usize, usize, usize),
    pub components: usize,
    pub t_parse: u64,
    pub t_symbolic: u64,
    pub times: StageTimes,
    /// All stages together.
    pub total: u64,
}

impl KcStats {
    pub open spec fn wf(self) -> bool {
        shapes(self.spn_dag_all@).no_duplicates() && whole(self.spn_dag_all@)
    }

    pub fn new(enabled: bool) -> (r: Self)
        ensures
            r.wf(),
            r.enabled == enabled,
            r.worlds == 0 && r.components == 0 && r.t_parse == 0 && r.t_symbolic == 0,
            r.bf_sum == 0 && r.bf_max == 0,
            r.spn_tree_sum == 0 && r.spn_tree_max == 0 && r.spn_leaf_sum == 0 && r.spn_dag_max == 0,
            r.sum_arity_max == 0 && r.prod_arity_max == 0,
            r.spn_dag_all@.len() == 0,
            r.times == (StageTimes { wmc: 0, posterior: 0, flatten: 0, display: 0 }),
    {
        KcStats {
            enabled,
            worlds: 0,
            bf_sum: 0,
            bf_max: 0,
            spn_tree_sum: 0,
            spn_tree_max: 0,
            spn_leaf_sum: 0,
            sum_arity_max: 0,
            prod_arity_max: 0,
            spn_dag_max: 0,
            spn_dag_all: Vec::new(),
            components: 0,
            t_parse: 0,
            t_symbolic: 0,
            times: StageTimes { wmc: 0, posterior: 0, flatten: 0, display: 0 },
        }
    }

    /// Record the program-parsing time for this query.
    pub fn set_parse(&mut self, nanos: u64)
        ensures
            *final(self) == (KcStats {
                t_parse: if old(self).enabled {
                    capped_time(old(self).t_parse, nanos)
                } else {
                    old(self).t_parse
                },
                ..*old(self)
            }),
    {
        if self.enabled {
            self.t_parse = self.t_parse.saturating_add(nanos);
        }
    }

    /// Record the symbolic-execution time for this query.
    pub fn set_symbolic(&mut self, nanos: u64)
        ensures
            *final(self) == (KcStats {
                t_symbolic: if old(self).enabled {
                    capped_time(old(self).t_symbolic, nanos)
                } else {
                    old(self).t_symbolic
                },
                ..*old(self)
            }),
    {
        if self.enabled {
            self.t_symbolic = self.t_symbolic.saturating_add(nanos);
        }
    }

    /// Record one world: the number of nodes of its guard, its evidence
    /// network, the per-stage times, and how many mixture components it
    /// flattened to.
    pub fn record_world(
        &mut self,
        guard_nodes: usize,
        evidence: &Spn,
        times: StageTimes,
        components: usize,
    )
        requires
            old(self).wf(),
        ensures
            final(self).wf(),
            !old(self).enabled ==> *final(self) == *old(self),
            old(self).enabled ==> {
                let size = held(tree_tally(evidence.node()));
                let o = *old(self);
                let f = *final(self);
                &&& f.enabled && f.t_parse == o.t_parse && f.t_symbolic == o.t_symbolic
                &&& f.worlds == capped_sum(o.worlds, 1)
                &&& f.bf_sum == capped_sum(o.bf_sum, guard_nodes)
                &&& f.bf_max == greater(o.bf_max, guard_nodes)
                &&& f.spn_tree_sum == capped_sum(o.spn_tree_sum, size.nodes)
                &&& f.spn_tree_max == greater(o.spn_tree_max, size.nodes)
                &&& f.spn_leaf_sum == capped_sum(o.spn_leaf_sum, size.leaves)
                &&& f.sum_arity_max == greater(o.sum_arity_max, size.sums)
                &&& f.prod_arity_max == greater(o.prod_arity_max, size.products)
                &&& f.spn_dag_max >= o.spn_dag_max
                &&& f.components == capped_sum(o.components, components)
                &&& f.times == (StageTimes {
                    wmc: capped_time(o.times.wmc, times.wmc),
                    posterior: capped_time(o.times.posterior, times.posterior),
                    flatten: capped_time(o.times.flatten, times.flatten),
                    display: capped_time(o.times.display, times.display),
                })
                &&& forall|x: Shape| #[trigger]
                    shapes(f.spn_dag_all@).contains(x) <==> (shapes(o.spn_dag_all@).contains(x)
                        || part_of(x, evidence.node()))
                &&& exists|own: Seq<Spn>|
                    shapes(own).no_duplicates() && (forall|x: Shape| #[trigger]
                        shapes(own).contains(x) <==> part_of(x, evidence.node())) && f.spn_dag_max
                        == greater(o.spn_dag_max, #[trigger] own.len() as usize)
            },
    {
        if !self.enabled {
            return ;
        }
        self.worlds = self.worlds.saturating_add(1);
        self.bf_sum = self.bf_sum.saturating_add(guard_nodes);
        self.bf_max = larger(self.bf_max, guard_nodes);
        let size: TreeSize = spn_tree_size(evidence);
        self.spn_tree_sum = self.spn_tree_sum.saturating_add(size.nodes);
        self.spn_tree_max = larger(self.spn_tree_max, size.nodes);
        self.spn_leaf_sum = self.spn_leaf_sum.saturating_add(size.leaves);
        self.sum_arity_max = larger(self.sum_arity_max, size.sums);
        self.prod_arity_max = larger(self.prod_arity_max, size.products);
        let mut own: Vec<Spn> = Vec::new();
        proof {
            assert(shapes(own@) =~= Seq::empty());
        }
        collect_dag_nodes(evidence, &mut own);
        let mut all: Vec<Spn> = Vec::new();
        std::mem::swap(&mut all, &mut self.spn_dag_all);
        collect_dag_nodes(evidence, &mut all);
        self.spn_dag_all = all;
        let count: usize = own.len();
        self.spn_dag_max = larger(self.spn_dag_max, count);
        self.components = self.components.saturating_add(components);
        self.times = StageTimes {
            wmc: self.times.wmc.saturating_add(times.wmc),
            posterior: self.times.posterior.saturating_add(times.posterior),
            flatten: self.times.flatten.saturating_add(times.flatten),
            display: self.times.display.saturating_add(times.display),
        };
        proof {
            let s = own@;
            assert(s.len() as usize == count);
            assert forall|x: Shape| #[trigger] shapes(s).contains(x) <==> part_of(
                x,
                evidence.node(),
            ) by {
                assert(!Seq::<Shape>::empty().contains(x));
            }
        }
    }

    /// The time of all stages.
    pub open spec fn total_time(self) -> u64 {
        let first = capped_time(capped_time(self.t_parse, self.t_symbolic), self.times.wmc);
        capped_time(
            capped_time(capped_time(first, self.times.posterior), self.times.flatten),
            self.times.display,
        )
    }

    /// Report what was recorded: nothing, if the collector is disabled.
    pub fn report(&self) -> (r: Option<Report>)
        ensures
            (r is Some) == self.enabled,
            r matches Some(p) ==> p == (Report {
                worlds: self.worlds,
                guard_nodes: (
                    self.bf_sum,
                    self.bf_max,
                    (self.bf_sum / greater(self.worlds, 1)) as usize,
                ),
                tree_nodes: (
                    self.spn_tree_sum,
                    self.spn_tree_max,
                    (self.spn_tree_sum / greater(self.worlds, 1)) as usize,
                ),
                dag_nodes: (self.spn_dag_max, self.spn_dag_all@.len() as usize),
                leaves: (self.spn_leaf_sum, self.sum_arity_max, self.prod_arity_max),
                components: self.components,
                t_parse: self.t_parse,
                t_symbolic: self.t_symbolic,
                times: self.times,
                total: self.total_time(),
            }),
    {
        if !self.enabled {
            return None;
        }
        let t: StageTimes = self.times;
        let first: u64 = self.t_parse.saturating_add(self.t_symbolic).saturating_add(t.wmc);
        let total: u64 = first.saturating_add(t.posterior).saturating_add(t.flatten).saturating_add(
            t.display,
        );
        Some(
            Report {
                worlds: self.worlds,
                guard_nodes: (self.bf_sum, self.bf_max, self.mean(self.bf_sum)),
                tree_nodes: (self.spn_tree_sum, self.spn_tree_max, self.mean(self.spn_tree_sum)),
                dag_nodes: (self.spn_dag_max, self.spn_dag_all.len()),
                leaves: (self.spn_leaf_sum, self.sum_arity_max, self.prod_arity_max),
                components: self.components,
                t_parse: self.t_parse,
                t_symbolic: self.t_symbolic,
                times: t,
                total,
            },
        )
    }

    /// A sum divided by the number of worlds.
    pub fn mean(&self, sum: usize) -> (r: usize)
        ensures
            r == sum / greater(self.worlds, 1),
    {
        sum / larger(self.worlds, 1)
    }
}

/// The total is the time of all six stages, as far as it can be held.
pub proof fn lemma_total_time(s: KcStats)
    ensures
        ({
            let t = s.t_parse + s.t_symbolic + s.times.wmc + s.times.posterior + s.times.flatten
                + s.times.display;
            s.total_time() == (if t <= 0xffff_ffff_ffff_ffff {
                t
            } else {
                0xffff_ffff_ffff_ffff
            })
        }),
{
}

} // verus!
