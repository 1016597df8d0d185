//! Posterior networks: their mixture components.

use vstd::prelude::*;

use super::meaning;
use super::meaning::Meaning;
use super::node;
use super::node::{Leaf, LeafView, Node, Shape, Spn, SpnKind};
use super::normal;
use super::product;
use crate::utils::epsilon::RealEps;
use crate::utils::reals;
use crate::utils::reals::{Arithmetic, RealOp};

verus! {

/// A network of conjugate posteriors. Its outer coefficient is the marginal
/// likelihood of the evidence.
pub type PosteriorSpn = Spn;

/// Wrap a conjugate-posterior leaf carrying coefficient `coeff`.
pub fn posterior_leaf<F: Fn(RealOp, u64, u64) -> u64>(coeff: RealEps, l: Leaf, reals: &F) -> (r: PosteriorSpn)
    requires
        reals::settled(*reals),
    ensures
        r.wf(),
        r.node() == node::scaled(
            product::bare(Shape::Leaf(l@)),
            coeff,
            reals::operations(*reals),
        ),
{
    Spn::leaf(l).coeff_mul(coeff, reals)
}

/// A mixture component: its unnormalised weight, and the leaves on its path.
pub struct Component {
    pub weight: RealEps,
    pub leaves: Vec<Leaf>,
}

pub struct ComponentView {
    pub weight: RealEps,
    pub leaves: Seq<LeafView>,
}

impl View for Component {
    type V = ComponentView;

    open spec fn view(&self) -> ComponentView {
        ComponentView { weight: self.weight, leaves: leaf_views(self.leaves@) }
    }
}

pub open spec fn leaf_views(s: Seq<Leaf>) -> Seq<LeafView> {
    Seq::new(s.len(), |i: int| s[i]@)
}

pub open spec fn component_views(s: Seq<Component>) -> Seq<ComponentView> {
    Seq::new(s.len(), |i: int| s[i]@)
}

/// A component with more weight and more leaves.
pub open spec fn both(a: ComponentView, b: ComponentView, f: Arithmetic) -> ComponentView {
    ComponentView { weight: a.weight.times(b.weight, f), leaves: a.leaves + b.leaves }
}

/// A component with each of several others.
pub open spec fn with_each(a: ComponentView, s: Seq<ComponentView>, f: Arithmetic) -> Seq<ComponentView> {
    Seq::new(s.len(), |i: int| both(a, s[i], f))
}

/// Every component of the one list with every component of the other.
pub open spec fn crossed(s: Seq<ComponentView>, t: Seq<ComponentView>, f: Arithmetic) -> Seq<ComponentView>
    decreases s.len(),
{
    if s.len() == 0 {
        Seq::empty()
    } else {
        crossed(s.drop_last(), t, f) + with_each(s.last(), t, f)
    }
}

/// The mixture components of a node: every sum in it is distributed over the
/// products around it.
pub open spec fn components_of(n: Node, f: Arithmetic) -> Seq<ComponentView>
    decreases n,
{
    let alone = ComponentView { weight: n.coeff, leaves: Seq::empty() };
    match n.shape {
        Shape::Scalar => seq![alone],
        Shape::Leaf(l) => seq![ComponentView { weight: n.coeff, leaves: seq![l] }],
        Shape::Sum(c) => sum_components(alone, c, f),
        Shape::Product(c) => product_components(alone, c, f),
    }
}

pub open spec fn sum_components(a: ComponentView, s: Seq<Node>, f: Arithmetic) -> Seq<ComponentView>
    decreases s,
{
    if s.len() == 0 {
        Seq::empty()
    } else {
        sum_components(a, s.drop_last(), f) + with_each(a, components_of(s.last(), f), f)
    }
}

pub open spec fn product_components(a: ComponentView, s: Seq<Node>, f: Arithmetic) -> Seq<ComponentView>
    decreases s,
{
    if s.len() == 0 {
        seq![a]
    } else {
        crossed(product_components(a, s.drop_last(), f), components_of(s.last(), f), f)
    }
}

fn join_leaves(a: &Vec<Leaf>, b: &Vec<Leaf>) -> (r: Vec<Leaf>)
    ensures
        leaf_views(r@) == leaf_views(a@) + leaf_views(b@),
{
    let mut out: Vec<Leaf> = Vec::new();
    let mut i: usize = 0;
    while i < a.len()
        invariant
            i <= a@.len(),
            out@.len() == i,
            forall|j: int| 0 <= j < i ==> (#[trigger] out@[j])@ == a@[j]@,
        decreases a@.len() - i,
    {
        out.push(a[i].duplicate());
        i = i + 1;
    }
    let n: usize = out.len();
    let mut k: usize = 0;
    while k < b.len()
        invariant
            k <= b@.len(),
            n == a@.len(),
            out@.len() == n + k,
            forall|j: int| 0 <= j < n ==> (#[trigger] out@[j])@ == a@[j]@,
            forall|j: int| n <= j < n + k ==> (#[trigger] out@[j])@ == b@[j - n]@,
        decreases b@.len() - k,
    {
        out.push(b[k].duplicate());
        k = k + 1;
    }
    assert(leaf_views(out@) =~= leaf_views(a@) + leaf_views(b@));
    out
}

/// Add a component with each of several others to a list.
fn push_each<F: Fn(RealOp, u64, u64) -> u64>(out: &mut Vec<Component>, a: &Component, s: &Vec<Component>, reals: &F)
    requires
        reals::settled(*reals),
    ensures
        component_views(final(out)@) == component_views(old(out)@) + with_each(
            a@,
            component_views(s@),
            reals::operations(*reals),
        ),
{
    let ghost f = reals::operations(*reals);
    let ghost start = component_views(out@);
    let ghost want = with_each(a@, component_views(s@), f);
    let mut i: usize = 0;
    assert(start + want.take(0) =~= start);
    while i < s.len()
        invariant
            i <= s@.len(),
            reals::settled(*reals),
            f == reals::operations(*reals),
            want == with_each(a@, component_views(s@), f),
            component_views(out@) == start + want.take(i as int),
        decreases s@.len() - i,
    {
        let ghost had = component_views(out@);
        let weight: RealEps = a.weight.product(s[i].weight, reals);
        let leaves: Vec<Leaf> = join_leaves(&a.leaves, &s[i].leaves);
        let one: Component = Component { weight, leaves };
        let ghost v = one@;
        out.push(one);
        proof {
            assert(v == want[i as int]);
            assert(component_views(out@) =~= had.push(v));
            assert(start + want.take(i + 1) =~= (start + want.take(i as int)).push(v));
        }
        i = i + 1;
    }
    assert(want.take(want.len() as int) =~= want);
}

impl Spn {
    /// Enumerate the mixture components of this posterior by distributing
    /// every internal `Sum` over enclosing `Product`s.
    pub fn components<F: Fn(RealOp, u64, u64) -> u64>(&self, reals: &F) -> (r: Vec<Component>)
        requires
            reals::settled(*reals),
        ensures
            component_views(r@) == components_of(self.node(), reals::operations(*reals)),
        decreases self,
    {
        let ghost f = reals::operations(*reals);
        let none: Vec<Leaf> = Vec::new();
        let alone: Component = Component { weight: self.log_coeff, leaves: none };
        let ghost a = ComponentView { weight: self.log_coeff, leaves: Seq::empty() };
        assert(alone@.leaves =~= a.leaves);
        match &self.inner.kind {
            SpnKind::Scalar => {
                let mut out: Vec<Component> = Vec::new();
                out.push(alone);
                assert(component_views(out@) =~= seq![a]);
                out
            },
            SpnKind::Leaf(l) => {
                let mut leaves: Vec<Leaf> = Vec::new();
                leaves.push(l.duplicate());
                let one: Component = Component { weight: self.log_coeff, leaves };
                assert(one@.leaves =~= seq![l@]);
                let ghost v = one@;
                let mut out: Vec<Component> = Vec::new();
                out.push(one);
                assert(component_views(out@) =~= seq![v]);
                out
            },
            SpnKind::Sum(c) => sum_parts(&alone, c, reals),
            SpnKind::Product(c) => product_parts(alone, c, reals),
        }
    }
}

fn sum_parts<F: Fn(RealOp, u64, u64) -> u64>(alone: &Component, c: &Vec<Spn>, reals: &F) -> (r: Vec<Component>)
    requires
        reals::settled(*reals),
    ensures
        component_views(r@) == sum_components(
            alone@,
            node::nodes(c@),
            reals::operations(*reals),
        ),
    decreases c,
{
    let ghost f = reals::operations(*reals);
    let ghost cs = node::nodes(c@);
    let mut out: Vec<Component> = Vec::new();
    let mut i: usize = 0;
    proof {
        node::lemma_nodes(c@);
        assert(cs.take(0) =~= Seq::<Node>::empty());
        assert(component_views(out@) =~= Seq::<ComponentView>::empty());
    }
    while i < c.len()
        invariant
            i <= c@.len(),
            reals::settled(*reals),
            f == reals::operations(*reals),
            cs == node::nodes(c@),
            cs.len() == c@.len(),
            forall|j: int| 0 <= j < c@.len() ==> #[trigger] cs[j] == c@[j].node(),
            component_views(out@) == sum_components(alone@, cs.take(i as int), f),
        decreases c@.len() - i,
    {
        proof {
            assert(cs[i as int] == c@[i as int].node());
            assert(cs.take(i + 1).drop_last() =~= cs.take(i as int));
            assert(cs.take(i + 1).last() == cs[i as int]);
        }
        let kid: Vec<Component> = c[i].components(reals);
        push_each(&mut out, alone, &kid, reals);
        i = i + 1;
    }
    assert(cs.take(cs.len() as int) =~= cs);
    out
}

fn product_parts<F: Fn(RealOp, u64, u64) -> u64>(alone: Component, c: &Vec<Spn>, reals: &F) -> (r: Vec<Component>)
    requires
        reals::settled(*reals),
    ensures
        component_views(r@) == product_components(
            alone@,
            node::nodes(c@),
            reals::operations(*reals),
        ),
    decreases c,
{
    let ghost f = reals::operations(*reals);
    let ghost a = alone@;
    let ghost cs = node::nodes(c@);
    let mut acc: Vec<Component> = Vec::new();
    acc.push(alone);
    let mut i: usize = 0;
    proof {
        node::lemma_nodes(c@);
        assert(cs.take(0) =~= Seq::<Node>::empty());
        assert(component_views(acc@) =~= seq![a]);
    }
    while i < c.len()
        invariant
            i <= c@.len(),
            reals::settled(*reals),
            f == reals::operations(*reals),
            cs == node::nodes(c@),
            cs.len() == c@.len(),
            forall|j: int| 0 <= j < c@.len() ==> #[trigger] cs[j] == c@[j].node(),
            component_views(acc@) == product_components(a, cs.take(i as int), f),
        decreases c@.len() - i,
    {
        proof {
            assert(cs[i as int] == c@[i as int].node());
            assert(cs.take(i + 1).drop_last() =~= cs.take(i as int));
            assert(cs.take(i + 1).last() == cs[i as int]);
        }
        let kid: Vec<Component> = c[i].components(reals);
        acc = cross(&acc, &kid, reals);
        i = i + 1;
    }
    assert(cs.take(cs.len() as int) =~= cs);
    acc
}

fn cross<F: Fn(RealOp, u64, u64) -> u64>(s: &Vec<Component>, t: &Vec<Component>, reals: &F) -> (r: Vec<Component>)
    requires
        reals::settled(*reals),
    ensures
        component_views(r@) == crossed(
            component_views(s@),
            component_views(t@),
            reals::operations(*reals),
        ),
{
    let ghost f = reals::operations(*reals);
    let ghost ss = component_views(s@);
    let mut out: Vec<Component> = Vec::new();
    let mut i: usize = 0;
    assert(ss.take(0) =~= Seq::<ComponentView>::empty());
    assert(component_views(out@) =~= Seq::<ComponentView>::empty());
    while i < s.len()
        invariant
            i <= s@.len(),
            reals::settled(*reals),
            f == reals::operations(*reals),
            ss == component_views(s@),
            component_views(out@) == crossed(ss.take(i as int), component_views(t@), f),
        decreases s@.len() - i,
    {
        proof {
            assert(ss.take(i + 1).drop_last() =~= ss.take(i as int));
            assert(ss.take(i + 1).last() == s@[i as int]@);
        }
        push_each(&mut out, &s[i], t, reals);
        i = i + 1;
    }
    assert(ss.take(ss.len() as int) =~= ss);
    out
}

/// The value of a component: its weight times the values of its leaves.
pub open spec fn worth<V>(m: Meaning<V>, c: ComponentView) -> V {
    (m.times)((m.number)(c.weight.log_coeff), leaves_worth(m, c.leaves))
}

pub open spec fn leaves_worth<V>(m: Meaning<V>, s: Seq<LeafView>) -> V
    decreases s.len(),
{
    if s.len() == 0 {
        m.one
    } else {
        (m.times)(leaves_worth(m, s.drop_last()), (m.leaf)(s.last()))
    }
}

pub open spec fn all_worth<V>(m: Meaning<V>, s: Seq<ComponentView>) -> V
    decreases s.len(),
{
    if s.len() == 0 {
        m.zero
    } else {
        (m.plus)(all_worth(m, s.drop_last()), worth(m, s.last()))
    }
}

proof fn lemma_leaves_concat<V>(m: Meaning<V>, s: Seq<LeafView>, t: Seq<LeafView>)
    requires
        m.semiring(),
    ensures
        leaves_worth(m, s + t) == (m.times)(leaves_worth(m, s), leaves_worth(m, t)),
    decreases t.len(),
{
    if t.len() == 0 {
        assert(s + t =~= s);
        meaning::times_one(m, leaves_worth(m, s));
    } else {
        lemma_leaves_concat(m, s, t.drop_last());
        assert((s + t).drop_last() =~= s + t.drop_last());
        meaning::times_assoc(
            m,
            leaves_worth(m, s),
            leaves_worth(m, t.drop_last()),
            (m.leaf)(t.last()),
        );
    }
}

proof fn lemma_all_concat<V>(m: Meaning<V>, s: Seq<ComponentView>, t: Seq<ComponentView>)
    requires
        m.semiring(),
    ensures
        all_worth(m, s + t) == (m.plus)(all_worth(m, s), all_worth(m, t)),
    decreases t.len(),
{
    if t.len() == 0 {
        assert(s + t =~= s);
        meaning::plus_zero(m, all_worth(m, s));
    } else {
        lemma_all_concat(m, s, t.drop_last());
        assert((s + t).drop_last() =~= s + t.drop_last());
        meaning::plus_assoc(m, all_worth(m, s), all_worth(m, t.drop_last()), worth(m, t.last()));
    }
}

proof fn lemma_both<V>(m: Meaning<V>, a: ComponentView, b: ComponentView, f: Arithmetic)
    requires
        m.exact(f),
    ensures
        worth(m, both(a, b, f)) == (m.times)(worth(m, a), worth(m, b)),
{
    meaning::exact_ring(m, f);
    let (x, y) = ((m.number)(a.weight.log_coeff), (m.number)(b.weight.log_coeff));
    let (u, v) = (leaves_worth(m, a.leaves), leaves_worth(m, b.leaves));
    meaning::number_times(m, a.weight.log_coeff, b.weight.log_coeff, f);
    lemma_leaves_concat(m, a.leaves, b.leaves);
    meaning::times_assoc(m, (m.times)(x, y), u, v);
    meaning::times_swap(m, x, y, u);
    meaning::times_assoc(m, (m.times)(x, u), y, v);
}

proof fn lemma_with_each<V>(m: Meaning<V>, a: ComponentView, s: Seq<ComponentView>, f: Arithmetic)
    requires
        m.exact(f),
    ensures
        all_worth(m, with_each(a, s, f)) == (m.times)(worth(m, a), all_worth(m, s)),
    decreases s.len(),
{
    meaning::exact_ring(m, f);
    let t = with_each(a, s, f);
    if s.len() == 0 {
        meaning::times_zero(m, worth(m, a));
    } else {
        lemma_with_each(m, a, s.drop_last(), f);
        assert(t.drop_last() =~= with_each(a, s.drop_last(), f));
        lemma_both(m, a, s.last(), f);
        meaning::times_plus(m, worth(m, a), all_worth(m, s.drop_last()), worth(m, s.last()));
    }
}

proof fn lemma_crossed<V>(m: Meaning<V>, s: Seq<ComponentView>, t: Seq<ComponentView>, f: Arithmetic)
    requires
        m.exact(f),
    ensures
        all_worth(m, crossed(s, t, f)) == (m.times)(all_worth(m, s), all_worth(m, t)),
    decreases s.len(),
{
    meaning::exact_ring(m, f);
    if s.len() == 0 {
        meaning::times_zero(m, all_worth(m, t));
    } else {
        let p = s.drop_last();
        lemma_crossed(m, p, t, f);
        lemma_with_each(m, s.last(), t, f);
        lemma_all_concat(m, crossed(p, t, f), with_each(s.last(), t, f));
        let (x, y, z) = (all_worth(m, p), worth(m, s.last()), all_worth(m, t));
        meaning::times_comm(m, (m.plus)(x, y), z);
        meaning::times_plus(m, z, x, y);
        meaning::times_comm(m, z, x);
        meaning::times_comm(m, z, y);
    }
}

proof fn lemma_single<V>(m: Meaning<V>, c: ComponentView)
    requires
        m.semiring(),
    ensures
        all_worth(m, seq![c]) == worth(m, c),
{
    let s = seq![c];
    assert(s.drop_last() =~= Seq::<ComponentView>::empty());
    assert(all_worth(m, s.drop_last()) == m.zero);
    meaning::plus_zero(m, worth(m, c));
}

/// The components of a network add up to its value.
pub proof fn lemma_components_value<V>(m: Meaning<V>, n: Node, f: Arithmetic)
    requires
        m.exact(f),
    ensures
        all_worth(m, components_of(n, f)) == m.value(n),
    decreases n,
{
    meaning::exact_ring(m, f);
    meaning::value_def(m, n);
    meaning::inner_def(m, n.shape);
    let alone = ComponentView { weight: n.coeff, leaves: Seq::empty() };
    let k = (m.number)(n.coeff.log_coeff);
    assert(leaves_worth(m, alone.leaves) == m.one);
    meaning::times_one(m, k);
    match n.shape {
        Shape::Scalar => lemma_single(m, alone),
        Shape::Leaf(l) => {
            let c = ComponentView { weight: n.coeff, leaves: seq![l] };
            lemma_single(m, c);
            assert(c.leaves.drop_last() =~= Seq::<LeafView>::empty());
            assert(leaves_worth(m, c.leaves.drop_last()) == m.one);
            meaning::times_one(m, (m.leaf)(l));
        },
        Shape::Sum(c) => lemma_sum_components(m, alone, c, f),
        Shape::Product(c) => lemma_product_components(m, alone, c, f),
    }
}

proof fn lemma_sum_components<V>(m: Meaning<V>, a: ComponentView, s: Seq<Node>, f: Arithmetic)
    requires
        m.exact(f),
    ensures
        all_worth(m, sum_components(a, s, f)) == (m.times)(worth(m, a), m.sum(s)),
    decreases s,
{
    meaning::exact_ring(m, f);
    meaning::sum_def(m, s);
    if s.len() == 0 {
        meaning::times_zero(m, worth(m, a));
    } else {
        let p = s.drop_last();
        let last = components_of(s.last(), f);
        lemma_sum_components(m, a, p, f);
        lemma_components_value(m, s.last(), f);
        lemma_with_each(m, a, last, f);
        lemma_all_concat(m, sum_components(a, p, f), with_each(a, last, f));
        meaning::times_plus(m, worth(m, a), m.sum(p), m.value(s.last()));
    }
}

proof fn lemma_product_components<V>(m: Meaning<V>, a: ComponentView, s: Seq<Node>, f: Arithmetic)
    requires
        m.exact(f),
    ensures
        all_worth(m, product_components(a, s, f)) == (m.times)(worth(m, a), m.product(s)),
    decreases s,
{
    meaning::exact_ring(m, f);
    meaning::product_def(m, s);
    if s.len() == 0 {
        lemma_single(m, a);
        meaning::times_one(m, worth(m, a));
    } else {
        let p = s.drop_last();
        lemma_product_components(m, a, p, f);
        lemma_components_value(m, s.last(), f);
        lemma_crossed(m, product_components(a, p, f), components_of(s.last(), f), f);
        meaning::times_assoc(m, worth(m, a), m.product(p), m.value(s.last()));
    }
}

/// `d` chooses one of the weights that it is given.
pub open spec fn chooses<D: Fn(Vec<u64>) -> usize>(d: D) -> bool {
    &&& forall|w: Vec<u64>| w@.len() > 0 ==> #[trigger] call_requires(d, (w,))
    &&& forall|w: Vec<u64>, i: usize|
        w@.len() > 0 && #[trigger] call_ensures(d, (w,), i) ==> i < w@.len()
}

/// The weights are those of the nodes, as logarithms.
pub open spec fn weighed(w: Seq<u64>, s: Seq<Node>) -> bool {
    w.len() == s.len() && forall|i: int| 0 <= i < s.len() ==> #[trigger] w[i] == s[i].coeff.log_coeff
}

/// The leaves are those that `d` leads to: at a sum those below the child
/// that it chooses by the weights of the children, at a product those below
/// each child in turn.
pub open spec fn led_to<D: Fn(Vec<u64>) -> usize>(n: Node, d: D, s: Seq<LeafView>) -> bool
    decreases n,
{
    match n.shape {
        Shape::Scalar => s.len() == 0,
        Shape::Leaf(l) => s == seq![l],
        Shape::Sum(c) => exists|w: Vec<u64>, k: usize|
            #![trigger call_ensures(d, (w,), k)]
            weighed(w@, c) && call_ensures(d, (w,), k) && k < c.len() && led_to(c[k as int], d, s),
        Shape::Product(c) => led_through(c, d, s),
    }
}

/// The leaves below each of the nodes in turn.
pub open spec fn led_through<D: Fn(Vec<u64>) -> usize>(c: Seq<Node>, d: D, s: Seq<LeafView>) -> bool
    decreases c,
{
    if c.len() == 0 {
        s.len() == 0
    } else {
        exists|m: int|
            0 <= m <= s.len() && led_through(c.drop_last(), d, s.take(m)) && led_to(
                c.last(),
                d,
                #[trigger] s.skip(m),
            )
    }
}

proof fn lemma_led_on<D: Fn(Vec<u64>) -> usize>(c: Seq<Node>, d: D, s: Seq<LeafView>, m: int)
    requires
        c.len() > 0,
        0 <= m <= s.len(),
        led_through(c.drop_last(), d, s.take(m)),
        led_to(c.last(), d, s.skip(m)),
    ensures
        led_through(c, d, s),
{
}

/// The leaves are those of one of the components.
pub open spec fn of_component(s: Seq<LeafView>, c: Seq<ComponentView>) -> bool {
    exists|k: int| 0 <= k < c.len() && (#[trigger] c[k]).leaves == s
}

proof fn lemma_of_each(a: ComponentView, s: Seq<LeafView>, c: Seq<ComponentView>, before: Seq<ComponentView>, f: Arithmetic)
    requires
        of_component(s, c),
    ensures
        of_component(a.leaves + s, before + with_each(a, c, f)),
{
    let k = choose|k: int| 0 <= k < c.len() && (#[trigger] c[k]).leaves == s;
    let t = before + with_each(a, c, f);
    assert(t[before.len() + k] == with_each(a, c, f)[k]);
    assert(t[before.len() + k].leaves == a.leaves + s);
}

proof fn lemma_of_sum(a: ComponentView, s: Seq<Node>, i: int, l: Seq<LeafView>, f: Arithmetic)
    requires
        0 <= i < s.len(),
        of_component(l, components_of(s[i], f)),
    ensures
        of_component(a.leaves + l, sum_components(a, s, f)),
    decreases s.len(),
{
    let p = s.drop_last();
    if i == s.len() - 1 {
        lemma_of_each(a, l, components_of(s.last(), f), sum_components(a, p, f), f);
    } else {
        lemma_of_sum(a, p, i, l, f);
        let c = sum_components(a, p, f);
        let k = choose|k: int| 0 <= k < c.len() && (#[trigger] c[k]).leaves == a.leaves + l;
        assert(sum_components(a, s, f)[k] == c[k]);
    }
}

proof fn lemma_of_cross(s: Seq<ComponentView>, t: Seq<ComponentView>, x: Seq<LeafView>, y: Seq<LeafView>, f: Arithmetic)
    requires
        of_component(x, s),
        of_component(y, t),
    ensures
        of_component(x + y, crossed(s, t, f)),
    decreases s.len(),
{
    let k = choose|k: int| 0 <= k < s.len() && (#[trigger] s[k]).leaves == x;
    let p = s.drop_last();
    if k == s.len() - 1 {
        lemma_of_each(s.last(), y, t, crossed(p, t, f), f);
    } else {
        assert(p[k].leaves == x);
        lemma_of_cross(p, t, x, y, f);
        let c = crossed(p, t, f);
        let j = choose|j: int| 0 <= j < c.len() && (#[trigger] c[j]).leaves == x + y;
        assert(crossed(s, t, f)[j] == c[j]);
    }
}

impl Spn {
    /// The leaves that a top-down sample visits: at each sum `pick` chooses a
    /// child by its log-weight, and of a product every child is visited.
    /// These are the leaves of one mixture component.
    pub fn sample_leaves<D: Fn(Vec<u64>) -> usize>(&self, pick: &D) -> (r: Vec<Leaf>)
        requires
            self.wf(),
            chooses(*pick),
        ensures
            led_to(self.node(), *pick, leaf_views(r@)),
            forall|f: Arithmetic|
                of_component(leaf_views(r@), #[trigger] components_of(self.node(), f)),
        decreases self,
    {
        match &self.inner.kind {
            SpnKind::Scalar => {
                let r: Vec<Leaf> = Vec::new();
                proof {
                    assert forall|f: Arithmetic| of_component(
                        leaf_views(r@),
                        #[trigger] components_of(self.node(), f),
                    ) by {
                        assert(components_of(self.node(), f)[0].leaves =~= leaf_views(r@));
                    }
                }
                r
            },
            SpnKind::Leaf(l) => {
                let mut r: Vec<Leaf> = Vec::new();
                r.push(l.duplicate());
                proof {
                    assert(leaf_views(r@) =~= seq![l@]);
                    assert(led_to(self.node(), *pick, leaf_views(r@)));
                    assert forall|f: Arithmetic| of_component(
                        leaf_views(r@),
                        #[trigger] components_of(self.node(), f),
                    ) by {
                        assert(components_of(self.node(), f)[0].leaves =~= leaf_views(r@));
                    }
                }
                r
            },
            SpnKind::Sum(c) => {
                let mut weights: Vec<u64> = Vec::new();
                let mut i: usize = 0;
                while i < c.len()
                    invariant
                        i <= c@.len(),
                        weights@.len() == i,
                        forall|j: int|
                            0 <= j < i ==> #[trigger] weights@[j] == c@[j].node().coeff.log_coeff,
                    decreases c@.len() - i,
                {
                    weights.push(c[i].log_coeff.log_coeff);
                    i = i + 1;
                }
                proof {
                    node::lemma_nodes(c@);
                    assert(weighed(weights@, node::nodes(c@)));
                }
                let ghost w = weights;
                let k: usize = pick(weights);
                proof {
                    normal::lemma_child_wf(self, c@, k as int);
                }
                let r: Vec<Leaf> = c[k].sample_leaves(pick);
                proof {
                    assert(call_ensures(*pick, (w,), k));
                    assert(led_to(node::nodes(c@)[k as int], *pick, leaf_views(r@)));
                    assert(self.node().shape == Shape::Sum(node::nodes(c@)));
                    assert(led_to(self.node(), *pick, leaf_views(r@)));
                    let a = ComponentView { weight: self.node().coeff, leaves: Seq::empty() };
                    assert(a.leaves + leaf_views(r@) =~= leaf_views(r@));
                    assert forall|f: Arithmetic| of_component(
                        leaf_views(r@),
                        #[trigger] components_of(self.node(), f),
                    ) by {
                        assert(of_component(leaf_views(r@), components_of(c@[k as int].node(), f)));
                        lemma_of_sum(a, node::nodes(c@), k as int, leaf_views(r@), f);
                    }
                }
                r
            },
            SpnKind::Product(c) => {
                proof {
                    assert forall|i: int| 0 <= i < c@.len() implies (#[trigger] c@[i]).wf() by {
                        normal::lemma_child_wf(self, c@, i);
                    }
                }
                let r: Vec<Leaf> = sample_each(c, pick);
                proof {
                    let a = ComponentView { weight: self.node().coeff, leaves: Seq::empty() };
                    assert forall|f: Arithmetic| of_component(
                        leaf_views(r@),
                        #[trigger] components_of(self.node(), f),
                    ) by {
                        assert(of_component(
                            leaf_views(r@),
                            product_components(a, node::nodes(c@), f),
                        ));
                    }
                }
                r
            },
        }
    }
}

fn sample_each<D: Fn(Vec<u64>) -> usize>(c: &Vec<Spn>, pick: &D) -> (r: Vec<Leaf>)
    requires
        normal::all_wf(c@),
        chooses(*pick),
    ensures
        led_through(node::nodes(c@), *pick, leaf_views(r@)),
        forall|a: ComponentView, f: Arithmetic|
            a.leaves.len() == 0 ==> of_component(
                leaf_views(r@),
                #[trigger] product_components(a, node::nodes(c@), f),
            ),
    decreases c,
{
    let ghost cs = node::nodes(c@);
    let mut out: Vec<Leaf> = Vec::new();
    let mut i: usize = 0;
    proof {
        node::lemma_nodes(c@);
        assert(cs.take(0) =~= Seq::<Node>::empty());
        assert forall|a: ComponentView, f: Arithmetic| a.leaves.len() == 0 implies of_component(
            leaf_views(out@),
            #[trigger] product_components(a, cs.take(0), f),
        ) by {
            assert(seq![a][0].leaves =~= leaf_views(out@));
        }
    }
    while i < c.len()
        invariant
            i <= c@.len(),
            normal::all_wf(c@),
            chooses(*pick),
            led_through(cs.take(i as int), *pick, leaf_views(out@)),
            cs == node::nodes(c@),
            cs.len() == c@.len(),
            forall|j: int| 0 <= j < c@.len() ==> #[trigger] cs[j] == c@[j].node(),
            forall|a: ComponentView, f: Arithmetic|
                a.leaves.len() == 0 ==> of_component(
                    leaf_views(out@),
                    #[trigger] product_components(a, cs.take(i as int), f),
                ),
        decreases c@.len() - i,
    {
        proof {
            assert(c@[i as int].wf());
            assert(cs[i as int] == c@[i as int].node());
            assert(cs.take(i + 1).drop_last() =~= cs.take(i as int));
            assert(cs.take(i + 1).last() == cs[i as int]);
        }
        let one: Vec<Leaf> = c[i].sample_leaves(pick);
        let ghost had = leaf_views(out@);
        out = join_leaves(&out, &one);
        proof {
            let now = leaf_views(out@);
            assert(now.take(had.len() as int) =~= had);
            assert(now.skip(had.len() as int) =~= leaf_views(one@));
            lemma_led_on(cs.take(i + 1), *pick, now, had.len() as int);
            assert forall|a: ComponentView, f: Arithmetic| a.leaves.len() == 0 implies of_component(
                leaf_views(out@),
                #[trigger] product_components(a, cs.take(i + 1), f),
            ) by {
                assert(of_component(had, product_components(a, cs.take(i as int), f)));
                assert(of_component(leaf_views(one@), components_of(c@[i as int].node(), f)));
                lemma_of_cross(
                    product_components(a, cs.take(i as int), f),
                    components_of(cs[i as int], f),
                    had,
                    leaf_views(one@),
                    f,
                );
            }
        }
        i = i + 1;
    }
    assert(cs.take(cs.len() as int) =~= cs);
    out
}

} // verus!
