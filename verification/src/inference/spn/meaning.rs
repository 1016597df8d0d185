//! What networks stand for: under exact arithmetic, sums and products of
//! networks have the sum and the product of their values.

use vstd::prelude::*;

use super::evidence;
use super::evidence::{Reading, Updating};
use super::node;
use super::node::{LeafView, Node, Shape};
use super::normal;
use super::normal::Pulled;
use super::product;
use super::product::Merging;
use super::scope;
use crate::utils::epsilon::RealEps;
use crate::utils::reals;
use crate::utils::reals::{Arithmetic, RealOp, NEG_INFINITY, TINY, ZERO};

verus! {

/// Values that networks take: how they are added and multiplied, and which
/// ones coefficients and leaves stand for.
#[verifier::reject_recursive_types(V)]
pub struct Meaning<V> {
    pub zero: V,
    pub one: V,
    pub plus: spec_fn(V, V) -> V,
    pub times: spec_fn(V, V) -> V,
    /// The number with this logarithm.
    pub number: spec_fn(u64) -> V,
    pub leaf: spec_fn(LeafView) -> V,
}

impl<V> Meaning<V> {
    /// The values form a commutative semiring in which no two values other
    /// than zero add up to zero.
    #[verifier::opaque]
    pub open spec fn semiring(self) -> bool {
        &&& forall|a: V, b: V| #[trigger] (self.plus)(a, b) == (self.plus)(b, a)
        &&& forall|a: V, b: V, c: V|
            #[trigger] (self.plus)((self.plus)(a, b), c) == (self.plus)(a, (self.plus)(b, c))
        &&& forall|a: V| #[trigger] (self.plus)(self.zero, a) == a
        &&& forall|a: V, b: V| #[trigger] (self.times)(a, b) == (self.times)(b, a)
        &&& forall|a: V, b: V, c: V|
            #[trigger] (self.times)((self.times)(a, b), c) == (self.times)(a, (self.times)(b, c))
        &&& forall|a: V| #[trigger] (self.times)(self.one, a) == a
        &&& forall|a: V| #[trigger] (self.times)(self.zero, a) == self.zero
        &&& forall|a: V, b: V, c: V|
            #[trigger] (self.times)(a, (self.plus)(b, c)) == (self.plus)(
                (self.times)(a, b),
                (self.times)(a, c),
            )
        &&& forall|a: V, b: V| #[trigger] (self.plus)(a, b) == self.zero ==> a == self.zero && b == self.zero
    }

    /// The arithmetic is exact for the values of the coefficients.
    #[verifier::opaque]
    pub open spec fn exact(self, f: Arithmetic) -> bool {
        &&& self.semiring()
        &&& forall|a: u64| #[trigger] reals::equal(a, NEG_INFINITY) ==> (self.number)(a) == self.zero
        &&& (self.number)(NEG_INFINITY) == self.zero
        &&& (self.number)(ZERO) == self.one
        &&& forall|a: u64| #[trigger] reals::smaller(a, TINY) ==> (self.number)(a) == self.one
        &&& forall|a: u64, b: u64|
            (self.number)(#[trigger] f(RealOp::LogSum, a, b)) == (self.plus)(
                (self.number)(a),
                (self.number)(b),
            )
        &&& forall|a: u64, b: u64|
            (self.number)(#[trigger] f(RealOp::Sum, a, b)) == (self.times)(
                (self.number)(a),
                (self.number)(b),
            )
        &&& forall|a: u64, b: u64|
            !reals::equal(b, NEG_INFINITY) ==> (self.times)(
                (self.number)(b),
                (self.number)(#[trigger] f(RealOp::Difference, a, b)),
            ) == (self.number)(a)
    }

    /// The value of a node.
    pub open spec fn value(self, n: Node) -> V
        decreases n,
    {
        (self.times)((self.number)(n.coeff.log_coeff), self.inner(n.shape))
    }

    /// The value of a node but for its coefficient.
    pub open spec fn inner(self, shape: Shape) -> V
        decreases shape,
    {
        match shape {
            Shape::Scalar => self.one,
            Shape::Leaf(l) => (self.leaf)(l),
            Shape::Sum(c) => self.sum(c),
            Shape::Product(c) => self.product(c),
        }
    }

    pub open spec fn sum(self, s: Seq<Node>) -> V
        decreases s,
    {
        if s.len() == 0 {
            self.zero
        } else {
            (self.plus)(self.sum(s.drop_last()), self.value(s.last()))
        }
    }

    pub open spec fn product(self, s: Seq<Node>) -> V
        decreases s,
    {
        if s.len() == 0 {
            self.one
        } else {
            (self.times)(self.product(s.drop_last()), self.value(s.last()))
        }
    }
}

pub proof fn plus_comm<V>(m: Meaning<V>, a: V, b: V)
    requires
        m.semiring(),
    ensures
        (m.plus)(a, b) == (m.plus)(b, a),
{
    reveal(Meaning::semiring);
}

pub proof fn plus_assoc<V>(m: Meaning<V>, a: V, b: V, c: V)
    requires
        m.semiring(),
    ensures
        (m.plus)((m.plus)(a, b), c) == (m.plus)(a, (m.plus)(b, c)),
{
    reveal(Meaning::semiring);
}

pub proof fn plus_zero<V>(m: Meaning<V>, a: V)
    requires
        m.semiring(),
    ensures
        (m.plus)(m.zero, a) == a,
        (m.plus)(a, m.zero) == a,
{
    reveal(Meaning::semiring);
    assert((m.plus)(a, m.zero) == (m.plus)(m.zero, a));
}

pub proof fn times_comm<V>(m: Meaning<V>, a: V, b: V)
    requires
        m.semiring(),
    ensures
        (m.times)(a, b) == (m.times)(b, a),
{
    reveal(Meaning::semiring);
}

pub proof fn times_assoc<V>(m: Meaning<V>, a: V, b: V, c: V)
    requires
        m.semiring(),
    ensures
        (m.times)((m.times)(a, b), c) == (m.times)(a, (m.times)(b, c)),
{
    reveal(Meaning::semiring);
}

pub proof fn times_one<V>(m: Meaning<V>, a: V)
    requires
        m.semiring(),
    ensures
        (m.times)(m.one, a) == a,
        (m.times)(a, m.one) == a,
{
    reveal(Meaning::semiring);
    assert((m.times)(a, m.one) == (m.times)(m.one, a));
}

pub proof fn times_zero<V>(m: Meaning<V>, a: V)
    requires
        m.semiring(),
    ensures
        (m.times)(m.zero, a) == m.zero,
        (m.times)(a, m.zero) == m.zero,
{
    reveal(Meaning::semiring);
    assert((m.times)(a, m.zero) == (m.times)(m.zero, a));
}

pub proof fn times_plus<V>(m: Meaning<V>, a: V, b: V, c: V)
    requires
        m.semiring(),
    ensures
        (m.times)(a, (m.plus)(b, c)) == (m.plus)((m.times)(a, b), (m.times)(a, c)),
{
    reveal(Meaning::semiring);
}

pub proof fn plus_free<V>(m: Meaning<V>, a: V, b: V)
    requires
        m.semiring(),
        (m.plus)(a, b) == m.zero,
    ensures
        a == m.zero,
        b == m.zero,
{
    reveal(Meaning::semiring);
}

/// Factors of a product in another order.
pub proof fn times_swap<V>(m: Meaning<V>, a: V, b: V, x: V)
    requires
        m.semiring(),
    ensures
        (m.times)((m.times)(a, b), x) == (m.times)((m.times)(a, x), b),
        (m.times)((m.times)(a, b), x) == (m.times)(b, (m.times)(a, x)),
{
    times_assoc(m, a, b, x);
    times_comm(m, b, x);
    times_assoc(m, a, x, b);
    times_comm(m, (m.times)(a, x), b);
}

pub proof fn exact_ring<V>(m: Meaning<V>, f: Arithmetic)
    requires
        m.exact(f),
    ensures
        m.semiring(),
        (m.number)(NEG_INFINITY) == m.zero,
        (m.number)(ZERO) == m.one,
{
    reveal(Meaning::exact);
}

pub proof fn number_none<V>(m: Meaning<V>, a: u64, f: Arithmetic)
    requires
        m.exact(f),
        reals::equal(a, NEG_INFINITY),
    ensures
        (m.number)(a) == m.zero,
{
    reveal(Meaning::exact);
}

proof fn number_unit<V>(m: Meaning<V>, a: u64, f: Arithmetic)
    requires
        m.exact(f),
        reals::smaller(a, TINY),
    ensures
        (m.number)(a) == m.one,
{
    reveal(Meaning::exact);
}

pub proof fn number_plus<V>(m: Meaning<V>, a: u64, b: u64, f: Arithmetic)
    requires
        m.exact(f),
    ensures
        (m.number)(f(RealOp::LogSum, a, b)) == (m.plus)((m.number)(a), (m.number)(b)),
{
    reveal(Meaning::exact);
}

pub proof fn number_times<V>(m: Meaning<V>, a: u64, b: u64, f: Arithmetic)
    requires
        m.exact(f),
    ensures
        (m.number)(f(RealOp::Sum, a, b)) == (m.times)((m.number)(a), (m.number)(b)),
{
    reveal(Meaning::exact);
}

pub proof fn number_over<V>(m: Meaning<V>, a: u64, b: u64, f: Arithmetic)
    requires
        m.exact(f),
        !reals::equal(b, NEG_INFINITY),
    ensures
        (m.times)((m.number)(b), (m.number)(f(RealOp::Difference, a, b))) == (m.number)(a),
{
    reveal(Meaning::exact);
}

/// No coefficient in the node carries an epsilon power.
pub open spec fn plain(n: Node) -> bool
    decreases n,
{
    n.coeff.power == 0 && match n.shape {
        Shape::Sum(c) => all_plain(c),
        Shape::Product(c) => all_plain(c),
        _ => true,
    }
}

pub open spec fn all_plain(s: Seq<Node>) -> bool
    decreases s,
{
    s.len() == 0 || (all_plain(s.drop_last()) && plain(s.last()))
}

pub proof fn lemma_all_plain(s: Seq<Node>)
    ensures
        all_plain(s) <==> forall|i: int| 0 <= i < s.len() ==> plain(#[trigger] s[i]),
    decreases s.len(),
{
    if s.len() > 0 {
        let p = s.drop_last();
        lemma_all_plain(p);
        if all_plain(s) {
            assert forall|i: int| 0 <= i < s.len() implies plain(#[trigger] s[i]) by {
                if i < s.len() - 1 {
                    assert(plain(p[i]));
                }
            }
        }
        if forall|i: int| 0 <= i < s.len() ==> plain(#[trigger] s[i]) {
            assert forall|i: int| 0 <= i < p.len() implies plain(#[trigger] p[i]) by {
                assert(plain(s[i]));
            }
            assert(plain(s[s.len() - 1]));
        }
    }
}

proof fn plain_last(s: Seq<Node>)
    requires
        all_plain(s),
        s.len() > 0,
    ensures
        plain(s.last()),
        s.last().coeff.power == 0,
        all_plain(s.drop_last()),
{
    assert(plain(s.last()));
}

proof fn plain_push(s: Seq<Node>)
    requires
        s.len() > 0,
        all_plain(s.drop_last()),
        plain(s.last()),
    ensures
        all_plain(s),
{
}

proof fn plain_children(n: Node)
    requires
        plain(n),
    ensures
        n.shape matches Shape::Sum(c) ==> all_plain(c),
        n.shape matches Shape::Product(c) ==> all_plain(c),
{
}

/// Only the coefficient decides, if the shape is plain.
proof fn plain_with(n: Node, c: RealEps)
    requires
        plain(n),
        c.power == 0,
    ensures
        plain(Node { coeff: c, shape: n.shape }),
{
}

pub proof fn value_def<V>(m: Meaning<V>, n: Node)
    ensures
        m.value(n) == (m.times)((m.number)(n.coeff.log_coeff), m.inner(n.shape)),
{
}

pub proof fn inner_def<V>(m: Meaning<V>, shape: Shape)
    ensures
        shape matches Shape::Sum(c) ==> m.inner(shape) == m.sum(c),
        shape matches Shape::Product(c) ==> m.inner(shape) == m.product(c),
        shape is Scalar ==> m.inner(shape) == m.one,
{
}

pub proof fn sum_def<V>(m: Meaning<V>, s: Seq<Node>)
    ensures
        s.len() == 0 ==> m.sum(s) == m.zero,
        s.len() > 0 ==> m.sum(s) == (m.plus)(m.sum(s.drop_last()), m.value(s.last())),
{
}

pub proof fn product_def<V>(m: Meaning<V>, s: Seq<Node>)
    ensures
        s.len() == 0 ==> m.product(s) == m.one,
        s.len() > 0 ==> m.product(s) == (m.times)(m.product(s.drop_last()), m.value(s.last())),
{
}

/// The value of a sum of coefficients.
pub proof fn lemma_plus<V>(m: Meaning<V>, a: RealEps, b: RealEps, f: Arithmetic)
    requires
        m.exact(f),
        a.power == 0,
        b.power == 0,
    ensures
        a.plus(b, f).power == 0,
        (m.number)(a.plus(b, f).log_coeff) == (m.plus)(
            (m.number)(a.log_coeff),
            (m.number)(b.log_coeff),
        ),
{
    exact_ring(m, f);
    let (x, y) = ((m.number)(a.log_coeff), (m.number)(b.log_coeff));
    if a.none() {
        number_none(m, a.log_coeff, f);
        plus_zero(m, y);
    } else if b.none() {
        number_none(m, b.log_coeff, f);
        plus_zero(m, x);
    } else {
        number_plus(m, a.log_coeff, b.log_coeff, f);
    }
}

/// A scaled node has the scaled value.
pub proof fn lemma_scaled<V>(m: Meaning<V>, n: Node, c: RealEps, f: Arithmetic)
    requires
        m.exact(f),
    ensures
        m.value(node::scaled(n, c, f)) == (m.times)((m.number)(c.log_coeff), m.value(n)),
{
    exact_ring(m, f);
    let (a, b, v) = ((m.number)(n.coeff.log_coeff), (m.number)(c.log_coeff), m.inner(n.shape));
    number_times(m, n.coeff.log_coeff, c.log_coeff, f);
    times_swap(m, a, b, v);
}

/// A network scaled by a plain number has the scaled value.
pub proof fn lemma_rescaled<V>(m: Meaning<V>, n: Node, log_s: u64, f: Arithmetic)
    requires
        m.exact(f),
    ensures
        m.value(node::rescaled(n, log_s, f)) == (m.times)((m.number)(log_s), m.value(n)),
{
    exact_ring(m, f);
    let (a, b, v) = ((m.number)(n.coeff.log_coeff), (m.number)(log_s), m.inner(n.shape));
    number_times(m, n.coeff.log_coeff, log_s, f);
    times_swap(m, a, b, v);
}

/// A zero coefficient makes a zero value.
pub proof fn lemma_none<V>(m: Meaning<V>, n: Node, f: Arithmetic)
    requires
        m.exact(f),
        n.coeff.none(),
    ensures
        m.value(n) == m.zero,
{
    exact_ring(m, f);
    number_none(m, n.coeff.log_coeff, f);
    times_zero(m, m.inner(n.shape));
}

/// The value of the zero node is zero.
pub proof fn lemma_zero_node<V>(m: Meaning<V>, f: Arithmetic)
    requires
        m.exact(f),
    ensures
        m.value(node::zero_node()) == m.zero,
{
    exact_ring(m, f);
    times_zero(m, m.inner(Shape::Scalar));
}

/// Zeros add nothing.
proof fn lemma_live<V>(m: Meaning<V>, s: Seq<Node>, f: Arithmetic)
    requires
        m.exact(f),
    ensures
        m.sum(normal::live(s)) == m.sum(s),
        all_plain(s) ==> all_plain(normal::live(s)),
    decreases s.len(),
{
    if s.len() > 0 {
        let p = s.drop_last();
        lemma_live(m, p, f);
        if s.last().coeff.none() {
            exact_ring(m, f);
            lemma_none(m, s.last(), f);
            plus_zero(m, m.sum(p));
        } else {
            assert(normal::live(s).drop_last() =~= normal::live(p));
        }
    }
}

/// The sum of scaled nodes.
proof fn lemma_scaled_all<V>(m: Meaning<V>, s: Seq<Node>, c: RealEps, f: Arithmetic)
    requires
        m.exact(f),
    ensures
        m.sum(normal::scaled_all(s, c, f)) == (m.times)((m.number)(c.log_coeff), m.sum(s)),
        all_plain(s) && c.power == 0 ==> all_plain(normal::scaled_all(s, c, f)),
    decreases s.len(),
{
    let t = normal::scaled_all(s, c, f);
    let k = (m.number)(c.log_coeff);
    exact_ring(m, f);
    if s.len() > 0 {
        let p = s.drop_last();
        lemma_scaled_all(m, p, c, f);
        assert(t.drop_last() =~= normal::scaled_all(p, c, f));
        assert(t.last() == node::scaled(s.last(), c, f));
        lemma_scaled(m, s.last(), c, f);
        times_plus(m, k, m.sum(p), m.value(s.last()));
        sum_def(m, t);
        if all_plain(s) && c.power == 0 {
            plain_last(s);
            plain_with(s.last(), t.last().coeff);
            plain_push(t);
        }
    } else {
        times_zero(m, k);
    }
}

proof fn lemma_concat<V>(m: Meaning<V>, s: Seq<Node>, t: Seq<Node>)
    requires
        m.semiring(),
    ensures
        m.sum(s + t) == (m.plus)(m.sum(s), m.sum(t)),
        all_plain(s) && all_plain(t) ==> all_plain(s + t),
    decreases t.len(),
{
    if t.len() == 0 {
        assert(s + t =~= s);
        plus_zero(m, m.sum(s));
    } else {
        let p = t.drop_last();
        lemma_concat(m, s, p);
        assert((s + t).drop_last() =~= s + p);
        assert((s + t).last() == t.last());
        plus_assoc(m, m.sum(s), m.sum(p), m.value(t.last()));
    }
}

proof fn lemma_flat<V>(m: Meaning<V>, s: Seq<Node>, f: Arithmetic)
    requires
        m.exact(f),
        all_plain(s),
    ensures
        m.sum(normal::flat(s, f)) == m.sum(s),
        all_plain(normal::flat(s, f)),
    decreases s.len(),
{
    if s.len() > 0 {
        let n = s.last();
        let t = normal::spliced(n, f);
        exact_ring(m, f);
        plain_last(s);
        plain_children(n);
        value_def(m, n);
        inner_def(m, n.shape);
        sum_def(m, t);
        sum_def(m, t.drop_last());
        lemma_flat(m, s.drop_last(), f);
        lemma_concat(m, normal::flat(s.drop_last(), f), t);
        if n.coeff.none() {
            lemma_none(m, n, f);
        } else {
            match n.shape {
                Shape::Sum(c) => {
                    lemma_scaled_all(m, c, n.coeff, f);
                    lemma_live(m, normal::scaled_all(c, n.coeff, f), f);
                },
                _ => {
                    assert(t.drop_last() =~= Seq::<Node>::empty());
                    assert(all_plain(t.drop_last()));
                    assert(t.last() == n);
                    plain_push(t);
                    plus_zero(m, m.value(n));
                },
            }
        }
    }
}

/// The sum with one node replaced.
proof fn lemma_update<V>(m: Meaning<V>, s: Seq<Node>, i: int, n: Node, extra: V)
    requires
        m.semiring(),
        0 <= i < s.len(),
        m.value(n) == (m.plus)(m.value(s[i]), extra),
    ensures
        m.sum(s.update(i, n)) == (m.plus)(m.sum(s), extra),
    decreases s.len(),
{
    let t = s.update(i, n);
    let p = s.drop_last();
    let v = m.value(s.last());
    if i == s.len() - 1 {
        assert(t.drop_last() =~= p);
        plus_assoc(m, m.sum(p), v, extra);
    } else {
        lemma_update(m, p, i, n, extra);
        assert(t.drop_last() =~= p.update(i, n));
        assert(t.last() == s.last());
        plus_assoc(m, m.sum(p), extra, v);
        plus_comm(m, extra, v);
        plus_assoc(m, m.sum(p), v, extra);
    }
}

proof fn lemma_place_shape(s: Seq<Node>, shape: Shape)
    ensures
        normal::place(s, shape) matches Some(i) ==> 0 <= i < s.len() && s[i].shape == shape,
    decreases s.len(),
{
    if s.len() > 0 {
        lemma_place_shape(s.drop_last(), shape);
        match normal::place(s.drop_last(), shape) {
            Some(i) => {
                assert(s[i] == s.drop_last()[i]);
            },
            None => {},
        }
    }
}

proof fn lemma_joined<V>(m: Meaning<V>, p: Seq<Node>, n: Node, f: Arithmetic)
    requires
        m.exact(f),
        all_plain(p),
        plain(n),
    ensures
        m.sum(normal::joined(p, n, f)) == (m.plus)(m.sum(p), m.value(n)),
        all_plain(normal::joined(p, n, f)),
{
    exact_ring(m, f);
    lemma_place_shape(p, n.shape);
    lemma_all_plain(p);
    match normal::place(p, n.shape) {
        Some(i) => {
            let c = p[i].coeff.plus(n.coeff, f);
            let new = Node { coeff: c, shape: n.shape };
            assert(plain(p[i]));
            lemma_plus(m, p[i].coeff, n.coeff, f);
            let (a, b, v) = (
                (m.number)(p[i].coeff.log_coeff),
                (m.number)(n.coeff.log_coeff),
                m.inner(n.shape),
            );
            times_comm(m, (m.plus)(a, b), v);
            times_plus(m, v, a, b);
            times_comm(m, v, a);
            times_comm(m, v, b);
            lemma_update(m, p, i, new, m.value(n));
            lemma_all_plain(p.update(i, new));
            assert forall|j: int| 0 <= j < p.len() implies plain(#[trigger] p.update(i, new)[j]) by {
                if j != i {
                    assert(plain(p[j]));
                }
            }
        },
        None => {
            assert(p.push(n).drop_last() =~= p);
        },
    }
}

proof fn lemma_merged<V>(m: Meaning<V>, s: Seq<Node>, f: Arithmetic)
    requires
        m.exact(f),
        all_plain(s),
    ensures
        m.sum(normal::merged(s, f)) == m.sum(s),
        all_plain(normal::merged(s, f)),
    decreases s.len(),
{
    if s.len() > 0 {
        lemma_merged(m, s.drop_last(), f);
        lemma_joined(m, normal::merged(s.drop_last(), f), s.last(), f);
    }
}

/// The sum of the coefficients, divided out, comes back.
proof fn lemma_weighted<V>(m: Meaning<V>, s: Seq<Node>, z: RealEps, f: Arithmetic)
    requires
        m.exact(f),
        all_plain(s),
        z.power == 0,
        !z.none(),
    ensures
        (m.times)((m.number)(z.log_coeff), m.sum(normal::weighted(s, z, f))) == m.sum(s),
        all_plain(normal::weighted(s, z, f)),
    decreases s.len(),
{
    let k = (m.number)(z.log_coeff);
    let w = normal::weighted(s, z, f);
    exact_ring(m, f);
    if s.len() > 0 {
        let p = s.drop_last();
        lemma_weighted(m, p, z, f);
        assert(w.drop_last() =~= normal::weighted(p, z, f));
        let n = s.last();
        let q = w.last();
        let (a, v) = ((m.number)(q.coeff.log_coeff), m.inner(n.shape));
        plain_last(s);
        plain_with(n, q.coeff);
        plain_push(w);
        value_def(m, n);
        value_def(m, q);
        sum_def(m, s);
        sum_def(m, w);
        times_assoc(m, k, a, v);
        number_over(m, n.coeff.log_coeff, z.log_coeff, f);
        times_plus(m, k, m.sum(w.drop_last()), m.value(q));
    } else {
        times_zero(m, k);
    }
}

/// Where the coefficients add up to zero, so do the nodes.
proof fn lemma_total<V>(m: Meaning<V>, s: Seq<Node>, f: Arithmetic)
    requires
        m.exact(f),
        all_plain(s),
    ensures
        normal::total(s, f).power == 0,
        (m.number)(normal::total(s, f).log_coeff) == m.zero ==> m.sum(s) == m.zero,
    decreases s.len(),
{
    if s.len() > 0 {
        let p = s.drop_last();
        lemma_total(m, p, f);
        exact_ring(m, f);
        let z = normal::total(p, f);
        plain_last(s);
        value_def(m, s.last());
        sum_def(m, s);
        lemma_plus(m, z, s.last().coeff, f);
        let (a, b) = ((m.number)(z.log_coeff), (m.number)(s.last().coeff.log_coeff));
        if (m.plus)(a, b) == m.zero {
            plus_free(m, a, b);
            times_zero(m, m.inner(s.last().shape));
            plus_zero(m, m.zero);
        }
    }
}

/// A sum of networks has the sum of their values.
pub proof fn lemma_sum_value<V>(m: Meaning<V>, s: Seq<Node>, f: Arithmetic)
    requires
        m.exact(f),
        all_plain(s),
    ensures
        m.value(normal::summed(s, f)) == m.sum(s),
        plain(normal::summed(s, f)),
{
    let g = normal::merged(normal::flat(s, f), f);
    let k = normal::live(g);
    let z = normal::total(k, f);
    let w = normal::live(normal::weighted(k, z, f));
    exact_ring(m, f);
    lemma_flat(m, s, f);
    lemma_merged(m, normal::flat(s, f), f);
    lemma_live(m, g, f);
    lemma_total(m, k, f);
    lemma_all_plain(k);
    lemma_zero_node(m, f);
    let r = normal::summed(s, f);
    value_def(m, r);
    inner_def(m, r.shape);
    sum_def(m, k);
    sum_def(m, w);
    sum_def(m, k.drop_last());
    sum_def(m, w.drop_last());
    if k.len() == 1 {
        assert(k.drop_last() =~= Seq::<Node>::empty());
        plus_zero(m, m.value(k[0]));
        assert(plain(k[0]));
    } else if k.len() > 1 {
        if z.none() {
            number_none(m, z.log_coeff, f);
        } else {
            lemma_weighted(m, k, z, f);
            lemma_live(m, normal::weighted(k, z, f), f);
            lemma_all_plain(w);
            let c = (m.number)(z.log_coeff);
            if w.len() == 0 {
                times_zero(m, c);
            } else if w.len() == 1 {
                assert(w.drop_last() =~= Seq::<Node>::empty());
                plus_zero(m, m.value(w[0]));
                assert(plain(w[0]));
                let (a, v) = ((m.number)(w[0].coeff.log_coeff), m.inner(w[0].shape));
                value_def(m, w[0]);
                plain_with(w[0], r.coeff);
                number_times(m, z.log_coeff, w[0].coeff.log_coeff, f);
                times_assoc(m, c, a, v);
            }
        }
    }
}

/// The nodes whose power is at most `p`.
pub open spec fn leading(s: Seq<Node>, p: u32) -> Seq<Node>
    decreases s.len(),
{
    if s.len() == 0 {
        Seq::empty()
    } else if s.last().coeff.power > p {
        leading(s.drop_last(), p)
    } else {
        leading(s.drop_last(), p).push(s.last())
    }
}

/// The sum of the coefficients, divided out, comes back for the nodes next to
/// which the others are infinitesimal.
proof fn lemma_weighted_leading<V>(m: Meaning<V>, s: Seq<Node>, z: RealEps, f: Arithmetic)
    requires
        m.exact(f),
        !z.none(),
    ensures
        (m.times)((m.number)(z.log_coeff), m.sum(normal::weighted(s, z, f))) == m.sum(
            leading(s, z.power),
        ),
    decreases s.len(),
{
    let k = (m.number)(z.log_coeff);
    let w = normal::weighted(s, z, f);
    exact_ring(m, f);
    sum_def(m, w);
    sum_def(m, leading(s, z.power));
    if s.len() > 0 {
        let p = s.drop_last();
        lemma_weighted_leading(m, p, z, f);
        assert(w.drop_last() =~= normal::weighted(p, z, f));
        let n = s.last();
        let q = w.last();
        let (a, v) = ((m.number)(q.coeff.log_coeff), m.inner(n.shape));
        value_def(m, n);
        value_def(m, q);
        times_plus(m, k, m.sum(w.drop_last()), m.value(q));
        if n.coeff.power > z.power {
            lemma_none(m, q, f);
            times_zero(m, k);
            plus_zero(m, m.sum(leading(p, z.power)));
        } else {
            times_assoc(m, k, a, v);
            number_over(m, n.coeff.log_coeff, z.log_coeff, f);
            assert(leading(s, z.power).drop_last() =~= leading(p, z.power));
        }
    } else {
        times_zero(m, k);
    }
}

/// The power of a sum of coefficients is the least of theirs, if none of the
/// partial sums is zero.
proof fn lemma_total_least(s: Seq<Node>, f: Arithmetic)
    requires
        forall|j: int| 0 < j <= s.len() ==> !(#[trigger] normal::total(s.take(j), f)).none(),
        forall|i: int| 0 <= i < s.len() ==> !(#[trigger] s[i]).coeff.none(),
    ensures
        forall|i: int| 0 <= i < s.len() ==> (#[trigger] s[i]).coeff.power >= normal::total(s, f).power,
    decreases s.len(),
{
    if s.len() > 0 {
        let p = s.drop_last();
        assert forall|j: int| 0 < j <= p.len() implies !(#[trigger] normal::total(p.take(j), f)).none() by {
            assert(p.take(j) =~= s.take(j));
        }
        assert forall|i: int| 0 <= i < p.len() implies !(#[trigger] p[i]).coeff.none() by {
            assert(p[i] == s[i]);
        }
        lemma_total_least(p, f);
        if p.len() > 0 {
            assert(s.take(p.len() as int) =~= p);
            assert(!normal::total(s.take(p.len() as int), f).none());
        }
        assert(!s[s.len() - 1].coeff.none());
        assert forall|i: int| 0 <= i < s.len() implies (#[trigger] s[i]).coeff.power >= normal::total(
            s,
            f,
        ).power by {
            if i < p.len() {
                assert(p[i] == s[i]);
            }
        }
    }
}

/// The value of a sum whose summands may be infinitesimal: flattened and
/// with equal shapes merged, it is that of the summands of the least power.
pub proof fn lemma_sum_leading<V>(m: Meaning<V>, s: Seq<Node>, f: Arithmetic)
    requires
        m.exact(f),
        forall|j: int|
            0 < j <= normal::live(normal::merged(normal::flat(s, f), f)).len() ==> !(
            #[trigger] normal::total(
                normal::live(normal::merged(normal::flat(s, f), f)).take(j),
                f,
            )).none(),
    ensures
        ({
            let k = normal::live(normal::merged(normal::flat(s, f), f));
            let z = normal::total(k, f);
            &&& m.value(normal::summed(s, f)) == m.sum(leading(k, z.power))
            &&& forall|i: int| 0 <= i < k.len() ==> (#[trigger] k[i]).coeff.power >= z.power
        }),
{
    let k = normal::live(normal::merged(normal::flat(s, f), f));
    let z = normal::total(k, f);
    let w = normal::live(normal::weighted(k, z, f));
    let r = normal::summed(s, f);
    exact_ring(m, f);
    lemma_all_live(normal::merged(normal::flat(s, f), f));
    lemma_total_least(k, f);
    lemma_zero_node(m, f);
    value_def(m, r);
    inner_def(m, r.shape);
    let l = leading(k, z.power);
    sum_def(m, l);
    sum_def(m, w);
    sum_def(m, w.drop_last());
    if k.len() > 0 {
        assert(k.take(k.len() as int) =~= k);
        assert(!normal::total(k.take(k.len() as int), f).none());
        if k.len() == 1 {
            let p = k.drop_last();
            assert(p =~= Seq::<Node>::empty());
            assert(node::zero_node().coeff.none());
            assert(normal::total(p, f) == node::zero_node().coeff);
            assert(z == normal::total(p, f).plus(k.last().coeff, f));
            assert(z == k[0].coeff);
            assert(leading(p, z.power) =~= Seq::<Node>::empty());
            assert(l =~= k);
            sum_def(m, l.drop_last());
            plus_zero(m, m.value(k[0]));
        } else {
            lemma_weighted_leading(m, k, z, f);
            lemma_live(m, normal::weighted(k, z, f), f);
            let c = (m.number)(z.log_coeff);
            if w.len() == 0 {
                times_zero(m, c);
            } else if w.len() == 1 {
                assert(w.drop_last() =~= Seq::<Node>::empty());
                plus_zero(m, m.value(w[0]));
                let (a, v) = ((m.number)(w[0].coeff.log_coeff), m.inner(w[0].shape));
                value_def(m, w[0]);
                number_times(m, z.log_coeff, w[0].coeff.log_coeff, f);
                times_assoc(m, c, a, v);
            }
        }
    }
}

proof fn lemma_all_live(s: Seq<Node>)
    ensures
        forall|i: int|
            0 <= i < normal::live(s).len() ==> !(#[trigger] normal::live(s)[i]).coeff.none(),
    decreases s.len(),
{
    if s.len() > 0 {
        lemma_all_live(s.drop_last());
        let (t, r) = (normal::live(s.drop_last()), normal::live(s));
        assert forall|i: int| 0 <= i < r.len() implies !(#[trigger] r[i]).coeff.none() by {
            if i < t.len() {
                assert(r[i] == t[i]);
            }
        }
    }
}

/// What is factored out and what stays make up the product.
proof fn lemma_pulled_one<V>(m: Meaning<V>, p: Pulled, n: Node, f: Arithmetic)
    requires
        m.exact(f),
        p.coeff.power == 0,
        all_plain(p.factors),
        plain(n),
    ensures
        ({
            let q = normal::pulled_one(p, n, f);
            &&& (m.times)((m.number)(q.coeff.log_coeff), m.product(q.factors)) == (m.times)(
                (m.times)((m.number)(p.coeff.log_coeff), m.product(p.factors)),
                m.value(n),
            )
            &&& q.coeff.power == 0
            &&& all_plain(q.factors)
        }),
{
    exact_ring(m, f);
    let (a, b) = ((m.number)(p.coeff.log_coeff), (m.number)(n.coeff.log_coeff));
    let (x, v) = (m.product(p.factors), m.inner(n.shape));
    number_times(m, p.coeff.log_coeff, n.coeff.log_coeff, f);
    times_swap(m, a, b, x);
    value_def(m, n);
    inner_def(m, n.shape);
    if n.shape is Scalar {
        times_one(m, b);
    } else {
        let one = Node { coeff: node::one_coeff(), shape: n.shape };
        assert(p.factors.push(one).drop_last() =~= p.factors);
        plain_with(n, node::one_coeff());
        plain_push(p.factors.push(one));
        value_def(m, one);
        product_def(m, p.factors.push(one));
        times_one(m, v);
        assert(m.value(one) == v);
        times_assoc(m, (m.times)(a, b), x, v);
        times_assoc(m, (m.times)(a, x), b, v);
    }
}

proof fn lemma_pulled_all<V>(m: Meaning<V>, p: Pulled, s: Seq<Node>, f: Arithmetic)
    requires
        m.exact(f),
        p.coeff.power == 0,
        all_plain(p.factors),
        all_plain(s),
    ensures
        ({
            let q = normal::pulled_all(p, s, f);
            &&& (m.times)((m.number)(q.coeff.log_coeff), m.product(q.factors)) == (m.times)(
                (m.times)((m.number)(p.coeff.log_coeff), m.product(p.factors)),
                m.product(s),
            )
            &&& q.coeff.power == 0
            &&& all_plain(q.factors)
        }),
    decreases s.len(),
{
    exact_ring(m, f);
    let x = (m.times)((m.number)(p.coeff.log_coeff), m.product(p.factors));
    if s.len() == 0 {
        times_one(m, x);
    } else {
        let q = normal::pulled_all(p, s.drop_last(), f);
        plain_last(s);
        product_def(m, s);
        lemma_pulled_all(m, p, s.drop_last(), f);
        lemma_pulled_one(m, q, s.last(), f);
        times_assoc(m, x, m.product(s.drop_last()), m.value(s.last()));
    }
}

proof fn lemma_factored<V>(m: Meaning<V>, s: Seq<Node>, f: Arithmetic)
    requires
        m.exact(f),
        all_plain(s),
    ensures
        ({
            let q = normal::factored(s, f);
            &&& (m.times)((m.number)(q.coeff.log_coeff), m.product(q.factors)) == m.product(s)
            &&& q.coeff.power == 0
            &&& all_plain(q.factors)
        }),
    decreases s.len(),
{
    exact_ring(m, f);
    if s.len() == 0 {
        times_one(m, m.one);
    } else {
        let q = normal::factored(s.drop_last(), f);
        let n = s.last();
        plain_last(s);
        plain_children(n);
        value_def(m, n);
        inner_def(m, n.shape);
        product_def(m, s);
        lemma_factored(m, s.drop_last(), f);
        match n.shape {
            Shape::Product(c) => {
                let base = Pulled { coeff: q.coeff.times(n.coeff, f), factors: q.factors };
                lemma_pulled_all(m, base, c, f);
                let (a, b) = ((m.number)(q.coeff.log_coeff), (m.number)(n.coeff.log_coeff));
                let (x, y) = (m.product(q.factors), m.product(c));
                number_times(m, q.coeff.log_coeff, n.coeff.log_coeff, f);
                times_swap(m, a, b, x);
                times_assoc(m, (m.times)(a, x), b, y);
            },
            _ => lemma_pulled_one(m, q, n, f),
        }
    }
}

proof fn lemma_any_zero<V>(m: Meaning<V>, s: Seq<Node>, i: int, f: Arithmetic)
    requires
        m.exact(f),
        0 <= i < s.len(),
        s[i].coeff.none(),
    ensures
        m.product(s) == m.zero,
    decreases s.len(),
{
    exact_ring(m, f);
    product_def(m, s);
    if i == s.len() - 1 {
        lemma_none(m, s[i], f);
        times_zero(m, m.product(s.drop_last()));
    } else {
        lemma_any_zero(m, s.drop_last(), i, f);
        times_zero(m, m.value(s.last()));
    }
}

/// A product of networks has the product of their values.
pub proof fn lemma_product_value<V>(m: Meaning<V>, s: Seq<Node>, f: Arithmetic)
    requires
        m.exact(f),
        all_plain(s),
    ensures
        m.value(normal::multiplied(s, f)) == m.product(s),
        plain(normal::multiplied(s, f)),
{
    let q = normal::factored(s, f);
    exact_ring(m, f);
    lemma_factored(m, s, f);
    lemma_all_plain(q.factors);
    lemma_zero_node(m, f);
    let r = normal::multiplied(s, f);
    value_def(m, r);
    inner_def(m, r.shape);
    product_def(m, q.factors);
    product_def(m, q.factors.drop_last());
    if normal::any_zero(s) {
        let i = choose|i: int| 0 <= i < s.len() && (#[trigger] s[i]).coeff.none();
        lemma_any_zero(m, s, i, f);
    } else if q.factors.len() == 1 {
        assert(q.factors.drop_last() =~= Seq::<Node>::empty());
        let n = q.factors[0];
        lemma_scaled(m, n, q.coeff, f);
        times_one(m, m.value(n));
        assert(m.product(q.factors.drop_last()) == m.one);
        assert(m.product(q.factors) == m.value(n));
        assert(plain(n));
        plain_with(n, r.coeff);
    }
}

impl<V> Meaning<V> {
    /// Merged leaves have the product of the values of the two leaves.
    #[verifier::opaque]
    pub open spec fn merges(self, g: Merging) -> bool {
        forall|x: LeafView, y: LeafView|
            (#[trigger] g(x, y)) matches Some((l, w)) ==> (self.times)(
                (self.number)(w),
                (self.leaf)(l),
            ) == (self.times)((self.leaf)(x), (self.leaf)(y))
    }
}

proof fn merged_leaves<V>(m: Meaning<V>, g: Merging, x: LeafView, y: LeafView)
    requires
        m.merges(g),
        g(x, y) is Some,
    ensures
        (m.times)((m.number)((g(x, y)->0).1), (m.leaf)((g(x, y)->0).0)) == (m.times)(
            (m.leaf)(x),
            (m.leaf)(y),
        ),
{
    reveal(Meaning::merges);
}

pub proof fn bare_def<V>(m: Meaning<V>, shape: Shape, f: Arithmetic)
    requires
        m.exact(f),
    ensures
        m.value(product::bare(shape)) == m.inner(shape),
{
    exact_ring(m, f);
    value_def(m, product::bare(shape));
    times_one(m, m.inner(shape));
}

proof fn pair_def<V>(m: Meaning<V>, a: Node, b: Node)
    requires
        m.semiring(),
    ensures
        m.product(seq![a, b]) == (m.times)(m.value(a), m.value(b)),
        plain(a) && plain(b) ==> all_plain(seq![a, b]),
{
    let s = seq![a, b];
    let p = s.drop_last();
    assert(p =~= seq![a]);
    assert(p.drop_last() =~= Seq::<Node>::empty());
    product_def(m, s);
    product_def(m, p);
    product_def(m, p.drop_last());
    times_one(m, m.value(a));
    if plain(a) && plain(b) {
        assert(all_plain(p.drop_last()));
        assert(p.last() == a && s.last() == b);
        plain_push(p);
        plain_push(s);
    }
}

/// The product of two networks has the product of their values.
pub proof fn lemma_mul_value<V>(m: Meaning<V>, a: Node, b: Node, d: nat, g: Merging, f: Arithmetic)
    requires
        m.exact(f),
        m.merges(g),
        plain(a),
        plain(b),
        product::mul_of(a, b, d, g, f) is Some,
    ensures
        m.value(product::mul_of(a, b, d, g, f)->0) == (m.times)(m.value(a), m.value(b)),
        plain(product::mul_of(a, b, d, g, f)->0),
    decreases d, 0nat, 0nat,
{
    exact_ring(m, f);
    value_def(m, a);
    value_def(m, b);
    inner_def(m, a.shape);
    inner_def(m, b.shape);
    let (x, y) = ((m.number)(a.coeff.log_coeff), (m.number)(b.coeff.log_coeff));
    if a.coeff.none() || b.coeff.none() {
        lemma_zero_node(m, f);
        if a.coeff.none() {
            lemma_none(m, a, f);
            times_zero(m, m.value(b));
        } else {
            lemma_none(m, b, f);
            times_zero(m, m.value(a));
        }
    } else if a.coeff.unit() && a.shape is Scalar {
        number_unit(m, a.coeff.log_coeff, f);
        times_one(m, m.one);
        times_one(m, m.value(b));
    } else if b.coeff.unit() && b.shape is Scalar {
        number_unit(m, b.coeff.log_coeff, f);
        times_one(m, m.one);
        times_one(m, m.value(a));
    } else if a.shape is Scalar {
        lemma_rescaled(m, b, a.coeff.log_coeff, f);
        times_one(m, x);
        plain_with(b, node::rescaled(b, a.coeff.log_coeff, f).coeff);
    } else if b.shape is Scalar {
        lemma_rescaled(m, a, b.coeff.log_coeff, f);
        times_one(m, y);
        times_comm(m, y, m.value(a));
        plain_with(a, node::rescaled(a, b.coeff.log_coeff, f).coeff);
    } else if scope::apart(node::vars(a.shape), node::vars(b.shape)) {
        pair_def(m, a, b);
        lemma_product_value(m, seq![a, b], f);
    } else {
        let e = (d - 1) as nat;
        let n = product::over_of(a.shape, b.shape, e, g, f)->0;
        let c = f(RealOp::Sum, a.coeff.log_coeff, b.coeff.log_coeff);
        lemma_over_value(m, a, b, e, g, f);
        lemma_rescaled(m, n, c, f);
        number_times(m, a.coeff.log_coeff, b.coeff.log_coeff, f);
        plain_with(n, node::rescaled(n, c, f).coeff);
        let (u, v) = (m.inner(a.shape), m.inner(b.shape));
        times_assoc(m, (m.times)(x, y), u, v);
        times_swap(m, x, y, u);
        times_assoc(m, (m.times)(x, u), y, v);
    }
}

proof fn lemma_over_value<V>(m: Meaning<V>, a: Node, b: Node, d: nat, g: Merging, f: Arithmetic)
    requires
        m.exact(f),
        m.merges(g),
        plain(a),
        plain(b),
        product::over_of(a.shape, b.shape, d, g, f) is Some,
    ensures
        m.value(product::over_of(a.shape, b.shape, d, g, f)->0) == (m.times)(
            m.inner(a.shape),
            m.inner(b.shape),
        ),
        plain(product::over_of(a.shape, b.shape, d, g, f)->0),
    decreases d, 2nat, 0nat,
{
    exact_ring(m, f);
    inner_def(m, a.shape);
    inner_def(m, b.shape);
    plain_children(a);
    plain_children(b);
    plain_with(a, node::one_coeff());
    plain_with(b, node::one_coeff());
    bare_def(m, a.shape, f);
    bare_def(m, b.shape, f);
    let (u, v) = (m.inner(a.shape), m.inner(b.shape));
    match (a.shape, b.shape) {
        (Shape::Leaf(x), Shape::Leaf(y)) => {
            let (l, w) = g(x, y)->0;
            merged_leaves(m, g, x, y);
            if reals::equal(w, NEG_INFINITY) {
                number_none(m, w, f);
                times_zero(m, (m.leaf)(l));
                lemma_zero_node(m, f);
            } else {
                let n = product::bare(Shape::Leaf(l));
                bare_def(m, Shape::Leaf(l), f);
                lemma_rescaled(m, n, w, f);
            }
        },
        (Shape::Sum(c), _) => {
            let t = product::each_left(c, product::bare(b.shape), d, g, f)->0;
            lemma_left_value(m, c, product::bare(b.shape), d, g, f);
            lemma_sum_value(m, t, f);
        },
        (_, Shape::Sum(c)) => {
            let t = product::each_right(product::bare(a.shape), c, d, g, f)->0;
            lemma_right_value(m, product::bare(a.shape), c, d, g, f);
            lemma_sum_value(m, t, f);
        },
        (Shape::Product(_), Shape::Product(c)) => {
            lemma_folded_value(m, product::bare(a.shape), c, d, g, f);
        },
        (Shape::Product(c), Shape::Leaf(_)) => {
            lemma_into_value(m, c, product::bare(b.shape), d, g, f);
            times_comm(m, v, u);
        },
        (Shape::Leaf(_), Shape::Product(c)) => {
            lemma_into_value(m, c, product::bare(a.shape), d, g, f);
        },
        _ => {},
    }
}

proof fn lemma_left_value<V>(m: Meaning<V>, s: Seq<Node>, b: Node, d: nat, g: Merging, f: Arithmetic)
    requires
        m.exact(f),
        m.merges(g),
        all_plain(s),
        plain(b),
        product::each_left(s, b, d, g, f) is Some,
    ensures
        m.sum(product::each_left(s, b, d, g, f)->0) == (m.times)(m.sum(s), m.value(b)),
        all_plain(product::each_left(s, b, d, g, f)->0),
    decreases d, 0nat, s.len() + 1,
{
    exact_ring(m, f);
    let t = product::each_left(s, b, d, g, f)->0;
    sum_def(m, s);
    sum_def(m, t);
    if s.len() == 0 {
        times_zero(m, m.value(b));
    } else {
        let p = s.drop_last();
        plain_last(s);
        lemma_left_value(m, p, b, d, g, f);
        lemma_mul_value(m, s.last(), b, d, g, f);
        assert(t.drop_last() =~= product::each_left(p, b, d, g, f)->0);
        plain_push(t);
        let (x, y, z) = (m.sum(p), m.value(s.last()), m.value(b));
        times_comm(m, (m.plus)(x, y), z);
        times_plus(m, z, x, y);
        times_comm(m, z, x);
        times_comm(m, z, y);
    }
}

proof fn lemma_right_value<V>(m: Meaning<V>, a: Node, s: Seq<Node>, d: nat, g: Merging, f: Arithmetic)
    requires
        m.exact(f),
        m.merges(g),
        all_plain(s),
        plain(a),
        product::each_right(a, s, d, g, f) is Some,
    ensures
        m.sum(product::each_right(a, s, d, g, f)->0) == (m.times)(m.value(a), m.sum(s)),
        all_plain(product::each_right(a, s, d, g, f)->0),
    decreases d, 0nat, s.len() + 1,
{
    exact_ring(m, f);
    let t = product::each_right(a, s, d, g, f)->0;
    sum_def(m, s);
    sum_def(m, t);
    if s.len() == 0 {
        times_zero(m, m.value(a));
    } else {
        let p = s.drop_last();
        plain_last(s);
        lemma_right_value(m, a, p, d, g, f);
        lemma_mul_value(m, a, s.last(), d, g, f);
        assert(t.drop_last() =~= product::each_right(a, p, d, g, f)->0);
        plain_push(t);
        times_plus(m, m.value(a), m.sum(p), m.value(s.last()));
    }
}

proof fn lemma_folded_value<V>(m: Meaning<V>, a: Node, s: Seq<Node>, d: nat, g: Merging, f: Arithmetic)
    requires
        m.exact(f),
        m.merges(g),
        plain(a),
        all_plain(s),
        product::folded(a, s, d, g, f) is Some,
    ensures
        m.value(product::folded(a, s, d, g, f)->0) == (m.times)(m.value(a), m.product(s)),
        plain(product::folded(a, s, d, g, f)->0),
    decreases d, 0nat, s.len() + 1,
{
    exact_ring(m, f);
    product_def(m, s);
    if s.len() == 0 {
        times_one(m, m.value(a));
    } else {
        let p = s.drop_last();
        let n = product::folded(a, p, d, g, f)->0;
        plain_last(s);
        lemma_folded_value(m, a, p, d, g, f);
        lemma_mul_value(m, n, s.last(), d, g, f);
        times_assoc(m, m.value(a), m.product(p), m.value(s.last()));
    }
}

/// The factors that touch a leaf and those that do not make up the product.
proof fn lemma_touching_value<V>(m: Meaning<V>, s: Seq<Node>, leaf: Shape)
    requires
        m.semiring(),
        all_plain(s),
    ensures
        m.product(s) == (m.times)(
            m.product(product::touching(s, leaf, true)),
            m.product(product::touching(s, leaf, false)),
        ),
        all_plain(product::touching(s, leaf, true)),
        all_plain(product::touching(s, leaf, false)),
    decreases s.len(),
{
    product_def(m, s);
    let t = product::touching(s, leaf, true);
    let k = product::touching(s, leaf, false);
    product_def(m, t);
    product_def(m, k);
    if s.len() == 0 {
        times_one(m, m.one);
    } else {
        let p = s.drop_last();
        plain_last(s);
        lemma_touching_value(m, p, leaf);
        let tp = product::touching(p, leaf, true);
        let kp = product::touching(p, leaf, false);
        let (x, y, v) = (m.product(tp), m.product(kp), m.value(s.last()));
        if scope::apart(node::vars(s.last().shape), node::vars(leaf)) {
            assert(k.drop_last() =~= kp);
            assert(k.last() == s.last());
            plain_push(k);
            times_assoc(m, x, y, v);
        } else {
            assert(t.drop_last() =~= tp);
            assert(t.last() == s.last());
            plain_push(t);
            times_swap(m, x, y, v);
        }
    }
}

proof fn lemma_into_value<V>(m: Meaning<V>, s: Seq<Node>, leaf: Node, d: nat, g: Merging, f: Arithmetic)
    requires
        m.exact(f),
        m.merges(g),
        plain(leaf),
        all_plain(s),
        product::into_product(s, leaf, d, g, f) is Some,
    ensures
        m.value(product::into_product(s, leaf, d, g, f)->0) == (m.times)(
            m.value(leaf),
            m.product(s),
        ),
        plain(product::into_product(s, leaf, d, g, f)->0),
    decreases d, 1nat, 0nat,
{
    exact_ring(m, f);
    let t = product::touching(s, leaf.shape, true);
    let k = product::touching(s, leaf.shape, false);
    let n = product::folded(leaf, t, d, g, f)->0;
    lemma_touching_value(m, s, leaf.shape);
    lemma_folded_value(m, leaf, t, d, g, f);
    let all = k.push(n);
    assert(all.drop_last() =~= k);
    assert(all.last() == n);
    plain_push(all);
    product_def(m, all);
    lemma_product_value(m, all, f);
    times_comm(m, m.product(k), m.value(n));
    times_assoc(m, m.value(leaf), m.product(t), m.product(k));
}

impl<V> Meaning<V> {
    /// Leaves have the value of the number that is read from them.
    #[verifier::opaque]
    pub open spec fn reads(self, rd: Reading) -> bool {
        forall|l: LeafView| (self.number)(#[trigger] rd(l)) == (self.leaf)(l)
    }
}

proof fn read_leaf<V>(m: Meaning<V>, rd: Reading, l: LeafView)
    requires
        m.reads(rd),
    ensures
        (m.number)(rd(l)) == (m.leaf)(l),
{
    reveal(Meaning::reads);
}

/// The likelihood of a network is its value.
pub proof fn lemma_likelihood_value<V>(m: Meaning<V>, n: Node, rd: Reading, f: Arithmetic)
    requires
        m.exact(f),
        m.reads(rd),
    ensures
        (m.number)(evidence::likelihood(n, rd, f)) == m.value(n),
    decreases n, 1nat,
{
    exact_ring(m, f);
    value_def(m, n);
    if n.coeff.none() {
        lemma_none(m, n, f);
    } else {
        let v = evidence::inner_likelihood(n.shape, rd, f);
        lemma_inner_likelihood(m, n.shape, rd, f);
        number_times(m, v, n.coeff.log_coeff, f);
        times_comm(m, (m.number)(v), (m.number)(n.coeff.log_coeff));
    }
}

proof fn lemma_inner_likelihood<V>(m: Meaning<V>, shape: Shape, rd: Reading, f: Arithmetic)
    requires
        m.exact(f),
        m.reads(rd),
    ensures
        (m.number)(evidence::inner_likelihood(shape, rd, f)) == m.inner(shape),
    decreases shape, 0nat,
{
    exact_ring(m, f);
    inner_def(m, shape);
    match shape {
        Shape::Scalar => {},
        Shape::Leaf(l) => read_leaf(m, rd, l),
        Shape::Product(c) => lemma_product_likelihood(m, c, rd, f),
        Shape::Sum(c) => lemma_sum_likelihood(m, c, rd, f),
    }
}

proof fn lemma_product_likelihood<V>(m: Meaning<V>, s: Seq<Node>, rd: Reading, f: Arithmetic)
    requires
        m.exact(f),
        m.reads(rd),
    ensures
        match evidence::product_likelihood(s, rd, f) {
            Some(v) => (m.number)(v) == m.product(s),
            None => m.product(s) == m.zero,
        },
    decreases s, 0nat,
{
    exact_ring(m, f);
    product_def(m, s);
    if s.len() > 0 {
        let p = s.drop_last();
        lemma_product_likelihood(m, p, rd, f);
        lemma_likelihood_value(m, s.last(), rd, f);
        let c = evidence::likelihood(s.last(), rd, f);
        match evidence::product_likelihood(p, rd, f) {
            Some(t) => {
                if reals::equal(c, NEG_INFINITY) {
                    number_none(m, c, f);
                    times_zero(m, m.product(p));
                } else {
                    number_times(m, t, c, f);
                }
            },
            None => times_zero(m, m.value(s.last())),
        }
    }
}

proof fn lemma_sum_likelihood<V>(m: Meaning<V>, s: Seq<Node>, rd: Reading, f: Arithmetic)
    requires
        m.exact(f),
        m.reads(rd),
    ensures
        (m.number)(evidence::sum_likelihood(s, rd, f)) == m.sum(s),
    decreases s, 0nat,
{
    exact_ring(m, f);
    sum_def(m, s);
    if s.len() > 0 {
        let p = s.drop_last();
        lemma_sum_likelihood(m, p, rd, f);
        lemma_likelihood_value(m, s.last(), rd, f);
        number_plus(
            m,
            evidence::sum_likelihood(p, rd, f),
            evidence::likelihood(s.last(), rd, f),
            f,
        );
    }
}

impl<V> Meaning<V> {
    /// What the evidence at the leaves is worth: the marginal likelihood,
    /// times the value of the posterior leaf.
    pub open spec fn evidence(self, up: Updating) -> Meaning<V> {
        Meaning {
            leaf: |l: LeafView|
                match up(l).0 {
                    Some(p) => (self.times)((self.number)(up(l).1.log_coeff), (self.leaf)(p)),
                    None => (self.number)(up(l).1.log_coeff),
                },
            ..self
        }
    }
}

/// No event of probability zero is observed.
pub open spec fn regular(up: Updating) -> bool {
    forall|l: LeafView| (#[trigger] up(l)).1.power == 0
}

proof fn lemma_evidence_exact<V>(m: Meaning<V>, up: Updating, f: Arithmetic)
    requires
        m.exact(f),
    ensures
        m.evidence(up).exact(f),
{
    reveal(Meaning::exact);
    reveal(Meaning::semiring);
}

/// The value of the posterior network is that of the evidence network, where
/// every leaf is worth its marginal likelihood times its posterior.
pub proof fn lemma_posterior_value<V>(m: Meaning<V>, n: Node, up: Updating, f: Arithmetic)
    requires
        m.exact(f),
        plain(n),
        regular(up),
    ensures
        m.value(evidence::posterior_of(n, up, f)) == m.evidence(up).value(n),
        plain(evidence::posterior_of(n, up, f)),
    decreases n, 1nat,
{
    let e = m.evidence(up);
    lemma_evidence_exact(m, up, f);
    exact_ring(m, f);
    value_def(e, n);
    inner_def(e, n.shape);
    let r = evidence::posterior_of(n, up, f);
    if n.coeff.none() {
        lemma_none(e, n, f);
        lemma_zero_node(m, f);
    } else if n.shape is Scalar {
        value_def(m, r);
        inner_def(m, r.shape);
    } else {
        let i = evidence::inner_posterior(n.shape, up, f);
        lemma_inner_posterior(m, n, up, f);
        lemma_rescaled(m, i, n.coeff.log_coeff, f);
        plain_with(i, r.coeff);
    }
}

proof fn lemma_inner_posterior<V>(m: Meaning<V>, n: Node, up: Updating, f: Arithmetic)
    requires
        m.exact(f),
        plain(n),
        regular(up),
    ensures
        m.value(evidence::inner_posterior(n.shape, up, f)) == m.evidence(up).inner(n.shape),
        plain(evidence::inner_posterior(n.shape, up, f)),
    decreases n.shape, 0nat,
{
    let e = m.evidence(up);
    lemma_evidence_exact(m, up, f);
    exact_ring(m, f);
    inner_def(e, n.shape);
    plain_children(n);
    match n.shape {
        Shape::Scalar => {
            bare_def(m, Shape::Scalar, f);
            inner_def(m, Shape::Scalar);
        },
        Shape::Leaf(l) => {
            let u = up(l);
            match u.0 {
                Some(p) => {
                    let b = product::bare(Shape::Leaf(p));
                    bare_def(m, Shape::Leaf(p), f);
                    lemma_scaled(m, b, u.1, f);
                },
                None => {
                    let r = Node { coeff: u.1, shape: Shape::Scalar };
                    value_def(m, r);
                    inner_def(m, r.shape);
                    times_one(m, (m.number)(u.1.log_coeff));
                },
            }
        },
        Shape::Product(c) => {
            lemma_posteriors(m, c, up, f);
            lemma_product_value(m, evidence::posteriors(c, up, f), f);
        },
        Shape::Sum(c) => {
            lemma_posteriors(m, c, up, f);
            lemma_sum_value(m, evidence::posteriors(c, up, f), f);
        },
    }
}

proof fn lemma_posteriors<V>(m: Meaning<V>, s: Seq<Node>, up: Updating, f: Arithmetic)
    requires
        m.exact(f),
        all_plain(s),
        regular(up),
    ensures
        m.sum(evidence::posteriors(s, up, f)) == m.evidence(up).sum(s),
        m.product(evidence::posteriors(s, up, f)) == m.evidence(up).product(s),
        all_plain(evidence::posteriors(s, up, f)),
    decreases s, 0nat,
{
    let e = m.evidence(up);
    let t = evidence::posteriors(s, up, f);
    sum_def(m, t);
    sum_def(e, s);
    product_def(m, t);
    product_def(e, s);
    if s.len() > 0 {
        plain_last(s);
        lemma_posteriors(m, s.drop_last(), up, f);
        lemma_posterior_value(m, s.last(), up, f);
        assert(t.drop_last() =~= evidence::posteriors(s.drop_last(), up, f));
        plain_push(t);
    }
}

/// The coefficients of nodes, added up.
pub open spec fn weights<V>(m: Meaning<V>, s: Seq<Node>) -> V
    decreases s.len(),
{
    if s.len() == 0 {
        m.zero
    } else {
        (m.plus)(weights(m, s.drop_last()), (m.number)(s.last().coeff.log_coeff))
    }
}

/// The coefficients of the children of a sum add up to one.
pub open spec fn balanced<V>(m: Meaning<V>, n: Node) -> bool {
    n.shape matches Shape::Sum(c) ==> weights(m, c) == m.one
}

pub proof fn lemma_weights_live<V>(m: Meaning<V>, s: Seq<Node>, f: Arithmetic)
    requires
        m.exact(f),
    ensures
        weights(m, normal::live(s)) == weights(m, s),
    decreases s.len(),
{
    if s.len() > 0 {
        let p = s.drop_last();
        lemma_weights_live(m, p, f);
        if s.last().coeff.none() {
            exact_ring(m, f);
            number_none(m, s.last().coeff.log_coeff, f);
            plus_zero(m, weights(m, p));
        } else {
            assert(normal::live(s).drop_last() =~= normal::live(p));
        }
    }
}

proof fn lemma_weights_scaled<V>(m: Meaning<V>, s: Seq<Node>, c: RealEps, f: Arithmetic)
    requires
        m.exact(f),
    ensures
        weights(m, normal::scaled_all(s, c, f)) == (m.times)(
            (m.number)(c.log_coeff),
            weights(m, s),
        ),
    decreases s.len(),
{
    let t = normal::scaled_all(s, c, f);
    let k = (m.number)(c.log_coeff);
    exact_ring(m, f);
    if s.len() > 0 {
        let p = s.drop_last();
        let a = (m.number)(s.last().coeff.log_coeff);
        lemma_weights_scaled(m, p, c, f);
        assert(t.drop_last() =~= normal::scaled_all(p, c, f));
        number_times(m, s.last().coeff.log_coeff, c.log_coeff, f);
        times_comm(m, a, k);
        times_plus(m, k, weights(m, p), a);
    } else {
        times_zero(m, k);
    }
}

proof fn lemma_weights_concat<V>(m: Meaning<V>, s: Seq<Node>, t: Seq<Node>)
    requires
        m.semiring(),
    ensures
        weights(m, s + t) == (m.plus)(weights(m, s), weights(m, t)),
    decreases t.len(),
{
    if t.len() == 0 {
        assert(s + t =~= s);
        plus_zero(m, weights(m, s));
    } else {
        let p = t.drop_last();
        lemma_weights_concat(m, s, p);
        assert((s + t).drop_last() =~= s + p);
        plus_assoc(m, weights(m, s), weights(m, p), (m.number)(t.last().coeff.log_coeff));
    }
}

proof fn lemma_weights_flat<V>(m: Meaning<V>, s: Seq<Node>, f: Arithmetic)
    requires
        m.exact(f),
        forall|i: int| 0 <= i < s.len() ==> balanced(m, #[trigger] s[i]),
    ensures
        weights(m, normal::flat(s, f)) == weights(m, s),
    decreases s.len(),
{
    if s.len() > 0 {
        let p = s.drop_last();
        let n = s[s.len() - 1];
        let t = normal::spliced(n, f);
        let a = (m.number)(n.coeff.log_coeff);
        exact_ring(m, f);
        assert forall|i: int| 0 <= i < p.len() implies balanced(m, #[trigger] p[i]) by {
            assert(balanced(m, s[i]));
        }
        lemma_weights_flat(m, p, f);
        lemma_weights_concat(m, normal::flat(p, f), t);
        assert(balanced(m, n));
        if n.coeff.none() {
            number_none(m, n.coeff.log_coeff, f);
        } else {
            match n.shape {
                Shape::Sum(c) => {
                    lemma_weights_scaled(m, c, n.coeff, f);
                    lemma_weights_live(m, normal::scaled_all(c, n.coeff, f), f);
                    times_one(m, a);
                },
                _ => {
                    assert(t.drop_last() =~= Seq::<Node>::empty());
                    assert(weights(m, t.drop_last()) == m.zero);
                    assert(weights(m, t) == (m.plus)(m.zero, a));
                    plus_zero(m, a);
                },
            }
        }
    }
}

proof fn lemma_weights_update<V>(m: Meaning<V>, s: Seq<Node>, i: int, n: Node, extra: V)
    requires
        m.semiring(),
        0 <= i < s.len(),
        (m.number)(n.coeff.log_coeff) == (m.plus)((m.number)(s[i].coeff.log_coeff), extra),
    ensures
        weights(m, s.update(i, n)) == (m.plus)(weights(m, s), extra),
    decreases s.len(),
{
    let t = s.update(i, n);
    let p = s.drop_last();
    let v = (m.number)(s.last().coeff.log_coeff);
    if i == s.len() - 1 {
        assert(t.drop_last() =~= p);
        plus_assoc(m, weights(m, p), v, extra);
    } else {
        lemma_weights_update(m, p, i, n, extra);
        assert(t.drop_last() =~= p.update(i, n));
        plus_assoc(m, weights(m, p), extra, v);
        plus_comm(m, extra, v);
        plus_assoc(m, weights(m, p), v, extra);
    }
}

proof fn lemma_weights_merged<V>(m: Meaning<V>, s: Seq<Node>, f: Arithmetic)
    requires
        m.exact(f),
        all_plain(s),
    ensures
        weights(m, normal::merged(s, f)) == weights(m, s),
        all_plain(normal::merged(s, f)),
    decreases s.len(),
{
    if s.len() > 0 {
        let n = s.last();
        let p = normal::merged(s.drop_last(), f);
        exact_ring(m, f);
        plain_last(s);
        lemma_weights_merged(m, s.drop_last(), f);
        lemma_merged(m, s, f);
        lemma_place_shape(p, n.shape);
        lemma_all_plain(p);
        match normal::place(p, n.shape) {
            Some(i) => {
                assert(plain(p[i]));
                lemma_plus(m, p[i].coeff, n.coeff, f);
                let new = Node { coeff: p[i].coeff.plus(n.coeff, f), shape: n.shape };
                lemma_weights_update(m, p, i, new, (m.number)(n.coeff.log_coeff));
            },
            None => {
                assert(p.push(n).drop_last() =~= p);
            },
        }
    }
}

proof fn lemma_weights_total<V>(m: Meaning<V>, s: Seq<Node>, f: Arithmetic)
    requires
        m.exact(f),
        all_plain(s),
    ensures
        normal::total(s, f).power == 0,
        (m.number)(normal::total(s, f).log_coeff) == weights(m, s),
    decreases s.len(),
{
    exact_ring(m, f);
    if s.len() > 0 {
        lemma_weights_total(m, s.drop_last(), f);
        plain_last(s);
        lemma_plus(m, normal::total(s.drop_last(), f), s.last().coeff, f);
    }
}

proof fn lemma_weights_divided<V>(m: Meaning<V>, s: Seq<Node>, z: RealEps, f: Arithmetic)
    requires
        m.exact(f),
        all_plain(s),
        z.power == 0,
        !z.none(),
    ensures
        (m.times)((m.number)(z.log_coeff), weights(m, normal::weighted(s, z, f))) == weights(m, s),
    decreases s.len(),
{
    let k = (m.number)(z.log_coeff);
    let w = normal::weighted(s, z, f);
    exact_ring(m, f);
    if s.len() > 0 {
        let p = s.drop_last();
        lemma_weights_divided(m, p, z, f);
        assert(w.drop_last() =~= normal::weighted(p, z, f));
        plain_last(s);
        number_over(m, s.last().coeff.log_coeff, z.log_coeff, f);
        times_plus(m, k, weights(m, w.drop_last()), (m.number)(w.last().coeff.log_coeff));
    } else {
        times_zero(m, k);
    }
}

/// A number that is not zero can be divided out.
pub proof fn lemma_cancel<V>(m: Meaning<V>, z: u64, v: V, f: Arithmetic)
    requires
        m.exact(f),
        !reals::equal(z, NEG_INFINITY),
        (m.times)((m.number)(z), v) == (m.number)(z),
    ensures
        v == m.one,
{
    exact_ring(m, f);
    let (k, i) = ((m.number)(z), (m.number)(f(RealOp::Difference, ZERO, z)));
    number_over(m, ZERO, z, f);
    times_comm(m, k, i);
    times_assoc(m, i, k, v);
    times_one(m, v);
}

/// The shapes of merged nodes are distinct, and those of nodes.
pub proof fn lemma_merged_shapes(s: Seq<Node>, f: Arithmetic)
    ensures
        node::distinct_shapes(normal::merged(s, f)),
        forall|i: int|
            0 <= i < normal::merged(s, f).len() ==> among(#[trigger] normal::merged(s, f)[i], s),
    decreases s.len(),
{
    if s.len() > 0 {
        let q = s.drop_last();
        let n = s[s.len() - 1];
        let (p, r) = (normal::merged(q, f), normal::merged(s, f));
        lemma_merged_shapes(q, f);
        normal::lemma_place(p, n.shape);
        assert forall|i: int, j: int| 0 <= i < j < r.len() implies (#[trigger] r[i]).shape != (
        #[trigger] r[j]).shape by {
            if j < p.len() {
                assert(p[i].shape != p[j].shape);
            }
        }
        assert forall|i: int| 0 <= i < r.len() implies among(#[trigger] r[i], s) by {
            if i < p.len() {
                assert(among(p[i], q));
                let k = choose|k: int| 0 <= k < q.len() && (#[trigger] q[k]).shape == p[i].shape;
                assert(s[k].shape == r[i].shape);
            } else {
                assert(s[s.len() - 1].shape == r[i].shape);
            }
        }
    }
}

/// One of the nodes has the shape.
pub open spec fn among(n: Node, s: Seq<Node>) -> bool {
    exists|i: int| 0 <= i < s.len() && (#[trigger] s[i]).shape == n.shape
}

pub proof fn lemma_flat_unnested(s: Seq<Node>, f: Arithmetic)
    requires
        forall|i: int| 0 <= i < s.len() ==> node::normal(#[trigger] s[i]),
    ensures
        forall|i: int|
            0 <= i < normal::flat(s, f).len() ==> !((#[trigger] normal::flat(s, f)[i]).shape is Sum),
    decreases s.len(),
{
    if s.len() > 0 {
        let p = s.drop_last();
        let n = s[s.len() - 1];
        assert forall|i: int| 0 <= i < p.len() implies node::normal(#[trigger] p[i]) by {
            assert(node::normal(s[i]));
        }
        lemma_flat_unnested(p, f);
        assert(node::normal(n));
        let (q, t, r) = (normal::flat(p, f), normal::spliced(n, f), normal::flat(s, f));
        assert forall|i: int| 0 <= i < t.len() implies !((#[trigger] t[i]).shape is Sum) by {
            if let Shape::Sum(c) = n.shape {
                let all = normal::scaled_all(c, n.coeff, f);
                normal::lemma_live(all);
                let k = choose|k: int| 0 <= k < all.len() && all[k] == t[i];
                assert(node::summand(c[k]));
            }
        }
        assert forall|i: int| 0 <= i < r.len() implies !((#[trigger] r[i]).shape is Sum) by {
            if i < q.len() {
                assert(r[i] == q[i]);
            } else {
                assert(r[i] == t[i - q.len()]);
            }
        }
    }
}

/// What a sum of networks is. If no summand is left, it is zero; if one is
/// left, it is that one with the total coefficient. Otherwise it is a sum
/// with two children or more, which are not zero, are no sums and have
/// different shapes, and whose coefficients add up to one. In each case its
/// own coefficient is the sum of those of the summands.
pub proof fn lemma_sum_normalized<V>(m: Meaning<V>, s: Seq<Node>, f: Arithmetic)
    requires
        m.exact(f),
        all_plain(s),
        forall|i: int| 0 <= i < s.len() ==> node::normal(#[trigger] s[i]) && balanced(m, s[i]),
    ensures
        ({
            let r = normal::summed(s, f);
            let k = normal::live(normal::merged(normal::flat(s, f), f));
            &&& (m.number)(r.coeff.log_coeff) == weights(m, s)
            &&& balanced(m, r)
            &&& k.len() == 0 ==> r == node::zero_node()
            &&& k.len() == 1 ==> r == k[0]
            &&& r.shape matches Shape::Sum(c) ==> {
                &&& c.len() >= 2
                &&& node::distinct_shapes(c)
                &&& forall|i: int| 0 <= i < c.len() ==> node::summand(#[trigger] c[i])
            }
            &&& !(r.shape is Sum) ==> r == node::zero_node() || exists|i: int|
                0 <= i < k.len() && (#[trigger] k[i]).shape == r.shape
        }),
{
    let flat = normal::flat(s, f);
    let g = normal::merged(flat, f);
    let k = normal::live(g);
    let z = normal::total(k, f);
    let ws = normal::weighted(k, z, f);
    let w = normal::live(ws);
    let r = normal::summed(s, f);
    exact_ring(m, f);
    assert forall|i: int| 0 <= i < s.len() implies balanced(m, #[trigger] s[i]) by {
        assert(node::normal(s[i]));
    }
    lemma_weights_flat(m, s, f);
    lemma_flat(m, s, f);
    lemma_weights_merged(m, flat, f);
    lemma_weights_live(m, g, f);
    lemma_live(m, g, f);
    lemma_weights_total(m, k, f);
    lemma_merged_shapes(flat, f);
    lemma_flat_unnested(s, f);
    normal::lemma_live(g);
    normal::lemma_live_distinct(g);
    normal::lemma_live(ws);
    assert forall|i: int| 0 <= i < k.len() implies !((#[trigger] k[i]).shape is Sum) by {
        let j = choose|j: int| 0 <= j < g.len() && g[j] == k[i];
        assert(among(g[j], flat));
    }
    assert(node::distinct_shapes(ws)) by {
        assert forall|i: int, j: int| 0 <= i < j < ws.len() implies (#[trigger] ws[i]).shape != (
        #[trigger] ws[j]).shape by {
            assert(k[i].shape != k[j].shape);
        }
    }
    normal::lemma_live_distinct(ws);
    assert forall|i: int| 0 <= i < w.len() implies node::summand(#[trigger] w[i]) && among(w[i], k) by {
        let j = choose|j: int| 0 <= j < ws.len() && ws[j] == w[i];
        assert(k[j].shape == w[i].shape);
    }
    if k.len() == 1 {
        assert(k.drop_last() =~= Seq::<Node>::empty());
        assert(weights(m, k.drop_last()) == m.zero);
        plus_zero(m, (m.number)(k[0].coeff.log_coeff));
        assert(k[0].shape == r.shape);
    } else if k.len() > 1 {
        if z.none() {
            number_none(m, z.log_coeff, f);
        } else {
            let c = (m.number)(z.log_coeff);
            lemma_weights_divided(m, k, z, f);
            lemma_weights_live(m, ws, f);
            lemma_cancel(m, z.log_coeff, weights(m, w), f);
            if w.len() == 0 {
                times_zero(m, c);
            } else if w.len() == 1 {
                assert(w.drop_last() =~= Seq::<Node>::empty());
                assert(weights(m, w.drop_last()) == m.zero);
                plus_zero(m, (m.number)(w[0].coeff.log_coeff));
                number_times(m, z.log_coeff, w[0].coeff.log_coeff, f);
                assert(among(w[0], k));
                let j = choose|j: int| 0 <= j < k.len() && (#[trigger] k[j]).shape == w[0].shape;
                assert(k[j].shape == r.shape);
            }
        }
    }
}

/// The likelihood of a sum of networks is the sum of their likelihoods.
pub proof fn lemma_summed_likelihood<V>(m: Meaning<V>, s: Seq<Node>, rd: Reading, f: Arithmetic)
    requires
        m.exact(f),
        m.reads(rd),
        all_plain(s),
    ensures
        (m.number)(evidence::likelihood(normal::summed(s, f), rd, f)) == (m.number)(
            evidence::sum_likelihood(s, rd, f),
        ),
{
    lemma_sum_value(m, s, f);
    lemma_likelihood_value(m, normal::summed(s, f), rd, f);
    lemma_sum_likelihood(m, s, rd, f);
}

} // verus!
