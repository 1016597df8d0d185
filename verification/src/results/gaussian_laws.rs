//! What the joint distributions of Gaussian expressions are for: means are
//! linear, covariances bilinear, and leaving variables out changes nothing
//! about the others.

use vstd::arithmetic::div_mod;
use vstd::prelude::*;

use super::packet;
use super::positions::Affine;
use super::registry;
use crate::inference::lazy_kc::affine_laws;
use crate::inference::lazy_kc::affine_laws::Drawn;
use crate::inference::spn::node::{Family, LeafView};
use crate::utils::exact;
use crate::utils::exact::Field;
use crate::utils::reals::{Arithmetic, RealOp};

verus! {

/// A variable stands at one place of one block only, and every block has a
/// mean for each of its variables and a covariance for each two of them.
pub open spec fn apart(blocks: Seq<LeafView>) -> bool {
    &&& forall|b: int, c: int, i: int, j: int|
        #![trigger blocks[b].names[i], blocks[c].names[j]]
        0 <= b < blocks.len() && 0 <= c < blocks.len() && 0 <= i < blocks[b].names.len() && 0 <= j
            < blocks[c].names.len() && blocks[b].names[i] == blocks[c].names[j] ==> b == c && i == j
    &&& forall|b: int|
        #![trigger blocks[b]]
        0 <= b < blocks.len() ==> blocks[b].numbers.len() == blocks[b].names.len()
            + blocks[b].names.len() * blocks[b].names.len()
}

proof fn lemma_block(blocks: Seq<LeafView>, b: int, i: int, from: int)
    requires
        apart(blocks),
        0 <= from <= b < blocks.len(),
        0 <= i < blocks[b].names.len(),
    ensures
        packet::block_with(blocks, blocks[b].names[i], from) == b,
    decreases b - from,
{
    let v = blocks[b].names[i];
    if from < b {
        if blocks[from].names.contains(v) {
            let j = blocks[from].names.index_of(v);
            assert(blocks[from].names[j] == blocks[b].names[i]);
        }
        lemma_block(blocks, b, i, from + 1);
    } else {
        assert(blocks[b].names.contains(v));
    }
}

proof fn lemma_place(blocks: Seq<LeafView>, b: int, i: int, from: int)
    requires
        apart(blocks),
        0 <= b < blocks.len(),
        0 <= from <= i < blocks[b].names.len(),
    ensures
        packet::place_in(blocks[b].names, blocks[b].names[i], from) == i,
    decreases i - from,
{
    if from < i {
        assert(blocks[b].names[from] != blocks[b].names[i]);
        lemma_place(blocks, b, i, from + 1);
    }
}

proof fn lemma_within(n: int, i: int, j: int)
    requires
        0 <= i < n,
        0 <= j < n,
    ensures
        0 <= i * n + j < n * n,
        (i * n + j) / n == i,
        (i * n + j) % n == j,
{
    div_mod::lemma_fundamental_div_mod_converse(i * n + j, n, i, j);
    assert(0 <= i * n + j < n * n) by (nonlinear_arith)
        requires
            0 <= i < n,
            0 <= j < n,
    ;
}

/// The mean of a variable and its covariances are those of its block: means
/// come first, covariances behind them row by row. Variables of different
/// blocks have none.
pub proof fn lemma_variable(blocks: Seq<LeafView>, b: int, i: int, c: int, j: int)
    requires
        apart(blocks),
        0 <= b < blocks.len(),
        0 <= c < blocks.len(),
        0 <= i < blocks[b].names.len(),
        0 <= j < blocks[c].names.len(),
    ensures
        packet::mean_of(blocks[b].names[i], blocks) == blocks[b].numbers[i],
        packet::covariance_of(blocks[b].names[i], blocks[c].names[j], blocks) == (if b == c {
            blocks[b].numbers[blocks[b].names.len() + (i * blocks[b].names.len() + j)]
        } else {
            0u64
        }),
{
    lemma_block(blocks, b, i, 0);
    lemma_block(blocks, c, j, 0);
    lemma_place(blocks, b, i, 0);
    lemma_place(blocks, c, j, 0);
    let n = blocks[b].names.len();
    assert(blocks[b].numbers.len() == n + n * n);
    assert(0 <= n * n) by (nonlinear_arith)
        requires
            0 <= n,
    ;
    if b == c {
        lemma_within(n as int, i, j);
    }
}

/// The means of the variables.
pub open spec fn means<V>(k: Field<V>, blocks: Seq<LeafView>) -> Drawn<V> {
    |v: u64| (k.value)(packet::mean_of(v, blocks))
}

/// The mean of an expression is its value at the means of its variables.
pub proof fn lemma_mean<V>(k: Field<V>, e: Affine, blocks: Seq<LeafView>, f: Arithmetic)
    requires
        k.exact(f),
    ensures
        (k.value)(packet::affine_mean(e, blocks, f)) == affine_laws::worth(
            k,
            (e.constant, e.coefficients),
            means(k, blocks),
        ),
{
    lemma_mean_upto(k, e, blocks, f, e.coefficients.len());
    assert(e.coefficients.take(e.coefficients.len() as int) =~= e.coefficients);
}

proof fn lemma_mean_upto<V>(k: Field<V>, e: Affine, blocks: Seq<LeafView>, f: Arithmetic, n: nat)
    requires
        k.exact(f),
        n <= e.coefficients.len(),
    ensures
        (k.value)(packet::mean_upto(e, blocks, f, n)) == (k.plus)(
            (k.value)(e.constant),
            affine_laws::dot(k, e.coefficients.take(n as int), means(k, blocks)),
        ),
    decreases n,
{
    exact::exact_laws(k, f);
    let s = e.coefficients.take(n as int);
    if n == 0 {
        exact::plus_zero(k, (k.value)(e.constant));
    } else {
        lemma_mean_upto(k, e, blocks, f, (n - 1) as nat);
        let c = e.coefficients[n - 1];
        let m = packet::mean_of(c.0, blocks);
        assert(s.drop_last() =~= e.coefficients.take(n - 1));
        assert(s.last() == c);
        exact::exact_product(k, c.1, m, f);
        exact::exact_sum(
            k,
            packet::mean_upto(e, blocks, f, (n - 1) as nat),
            f(RealOp::Product, c.1, m),
            f,
        );
        exact::plus_assoc(
            k,
            (k.value)(e.constant),
            affine_laws::dot(k, s.drop_last(), means(k, blocks)),
            (k.times)((k.value)(c.1), (k.value)(m)),
        );
    }
}

/// The covariances of a variable with the others.
pub open spec fn covariances<V>(k: Field<V>, u: u64, blocks: Seq<LeafView>) -> Drawn<V> {
    |v: u64| (k.value)(packet::covariance_of(u, v, blocks))
}

/// The covariances of the variables with an expression.
pub open spec fn covariances_with<V>(k: Field<V>, e: Affine, blocks: Seq<LeafView>) -> Drawn<V> {
    |u: u64| affine_laws::dot(k, e.coefficients, covariances(k, u, blocks))
}

proof fn lemma_term_upto<V>(
    k: Field<V>,
    c: (u64, u64),
    e: Affine,
    blocks: Seq<LeafView>,
    f: Arithmetic,
    acc: u64,
    n: nat,
)
    requires
        k.exact(f),
        n <= e.coefficients.len(),
    ensures
        (k.value)(packet::covariances_upto(c, e, blocks, f, acc, n)) == (k.plus)(
            (k.value)(acc),
            (k.times)(
                (k.value)(c.1),
                affine_laws::dot(k, e.coefficients.take(n as int), covariances(k, c.0, blocks)),
            ),
        ),
    decreases n,
{
    exact::exact_laws(k, f);
    let s = e.coefficients.take(n as int);
    let x = (k.value)(c.1);
    if n == 0 {
        exact::times_zero(k, x);
        exact::plus_zero(k, (k.value)(acc));
    } else {
        lemma_term_upto(k, c, e, blocks, f, acc, (n - 1) as nat);
        let d = e.coefficients[n - 1];
        let g = packet::covariance_of(c.0, d.0, blocks);
        let (y, z) = ((k.value)(d.1), (k.value)(g));
        assert(s.drop_last() =~= e.coefficients.take(n - 1));
        assert(s.last() == d);
        let t = affine_laws::dot(k, s.drop_last(), covariances(k, c.0, blocks));
        exact::exact_product(k, c.1, d.1, f);
        exact::exact_product(k, f(RealOp::Product, c.1, d.1), g, f);
        exact::exact_sum(
            k,
            packet::covariances_upto(c, e, blocks, f, acc, (n - 1) as nat),
            f(RealOp::Product, f(RealOp::Product, c.1, d.1), g),
            f,
        );
        exact::times_assoc(k, x, y, z);
        exact::times_plus(k, t, (k.times)(y, z), x);
        exact::plus_assoc(k, (k.value)(acc), (k.times)(x, t), (k.times)(x, (k.times)(y, z)));
    }
}

proof fn lemma_covariance_upto<V>(
    k: Field<V>,
    a: Affine,
    b: Affine,
    blocks: Seq<LeafView>,
    f: Arithmetic,
    n: nat,
)
    requires
        k.exact(f),
        n <= a.coefficients.len(),
    ensures
        (k.value)(packet::covariance_upto(a, b, blocks, f, n)) == affine_laws::dot(
            k,
            a.coefficients.take(n as int),
            covariances_with(k, b, blocks),
        ),
    decreases n,
{
    exact::exact_laws(k, f);
    if n > 0 {
        lemma_covariance_upto(k, a, b, blocks, f, (n - 1) as nat);
        let s = a.coefficients.take(n as int);
        let c = a.coefficients[n - 1];
        let acc = packet::covariance_upto(a, b, blocks, f, (n - 1) as nat);
        assert(s.drop_last() =~= a.coefficients.take(n - 1));
        assert(s.last() == c);
        lemma_term_upto(k, c, b, blocks, f, acc, b.coefficients.len());
        assert(b.coefficients.take(b.coefficients.len() as int) =~= b.coefficients);
    }
}

/// The covariance of two expressions adds up those of their variables, each
/// times both coefficients; constants do not matter.
pub proof fn lemma_covariance<V>(
    k: Field<V>,
    a: Affine,
    b: Affine,
    blocks: Seq<LeafView>,
    f: Arithmetic,
)
    requires
        k.exact(f),
    ensures
        (k.value)(packet::affine_covariance(a, b, blocks, f)) == affine_laws::dot(
            k,
            a.coefficients,
            covariances_with(k, b, blocks),
        ),
{
    lemma_covariance_upto(k, a, b, blocks, f, a.coefficients.len());
    assert(a.coefficients.take(a.coefficients.len() as int) =~= a.coefficients);
}

proof fn lemma_dot_linear<V>(
    k: Field<V>,
    s: Seq<(u64, u64)>,
    g: Drawn<V>,
    h: Drawn<V>,
    x: V,
    r: Drawn<V>,
)
    requires
        k.laws(),
        forall|v: u64| #[trigger] r(v) == (k.plus)(g(v), (k.times)(x, h(v))),
    ensures
        affine_laws::dot(k, s, r) == (k.plus)(
            affine_laws::dot(k, s, g),
            (k.times)(x, affine_laws::dot(k, s, h)),
        ),
    decreases s.len(),
{
    if s.len() == 0 {
        exact::times_zero(k, x);
        exact::plus_zero(k, k.zero);
    } else {
        let p = s.drop_last();
        let (c, v) = ((k.value)(s.last().1), s.last().0);
        lemma_dot_linear(k, p, g, h, x, r);
        exact::times_plus(k, g(v), (k.times)(x, h(v)), c);
        exact::times_assoc(k, c, x, h(v));
        exact::times_comm(k, c, x);
        exact::times_assoc(k, x, c, h(v));
        exact::times_plus(k, affine_laws::dot(k, p, h), (k.times)(c, h(v)), x);
        exact::plus_swap(
            k,
            affine_laws::dot(k, p, g),
            (k.times)(x, affine_laws::dot(k, p, h)),
            (k.times)(c, g(v)),
            (k.times)(x, (k.times)(c, h(v))),
        );
    }
}

/// The covariance of two variables is the same either way.
pub open spec fn symmetric<V>(k: Field<V>, blocks: Seq<LeafView>) -> bool {
    forall|u: u64, v: u64| #[trigger]
        covariances(k, u, blocks)(v) == covariances(k, v, blocks)(u)
}

proof fn lemma_swapped<V>(
    k: Field<V>,
    s: Seq<(u64, u64)>,
    t: Seq<(u64, u64)>,
    blocks: Seq<LeafView>,
)
    requires
        k.laws(),
        symmetric(k, blocks),
    ensures
        affine_laws::dot(
            k,
            s,
            |u: u64| affine_laws::dot(k, t, covariances(k, u, blocks)),
        ) == affine_laws::dot(k, t, |v: u64| affine_laws::dot(k, s, covariances(k, v, blocks))),
    decreases s.len(),
{
    let l = |u: u64| affine_laws::dot(k, t, covariances(k, u, blocks));
    let r = |v: u64| affine_laws::dot(k, s, covariances(k, v, blocks));
    if s.len() == 0 {
        assert(forall|v: u64| #[trigger] r(v) == k.zero);
        lemma_dot_zero(k, t, r);
    } else {
        let p = s.drop_last();
        let g = |v: u64| affine_laws::dot(k, p, covariances(k, v, blocks));
        let (x, w) = ((k.value)(s.last().1), s.last().0);
        let h = covariances(k, w, blocks);
        lemma_swapped(k, p, t, blocks);
        assert forall|v: u64| #[trigger] r(v) == (k.plus)(g(v), (k.times)(x, h(v))) by {
            assert(covariances(k, v, blocks)(w) == covariances(k, w, blocks)(v));
        }
        lemma_dot_linear(k, t, g, h, x, r);
        assert(l(w) == affine_laws::dot(k, t, h));
    }
}

proof fn lemma_dot_zero<V>(k: Field<V>, s: Seq<(u64, u64)>, r: Drawn<V>)
    requires
        k.laws(),
        forall|v: u64| #[trigger] r(v) == k.zero,
    ensures
        affine_laws::dot(k, s, r) == k.zero,
    decreases s.len(),
{
    if s.len() > 0 {
        lemma_dot_zero(k, s.drop_last(), r);
        exact::times_zero(k, (k.value)(s.last().1));
        exact::plus_zero(k, k.zero);
    }
}

/// The covariance of two expressions is the same either way.
pub proof fn lemma_covariance_symmetric<V>(
    k: Field<V>,
    a: Affine,
    b: Affine,
    blocks: Seq<LeafView>,
    f: Arithmetic,
)
    requires
        k.exact(f),
        symmetric(k, blocks),
    ensures
        (k.value)(packet::affine_covariance(a, b, blocks, f)) == (k.value)(
            packet::affine_covariance(b, a, blocks, f),
        ),
{
    exact::exact_laws(k, f);
    lemma_covariance(k, a, b, blocks, f);
    lemma_covariance(k, b, a, blocks, f);
    lemma_swapped(k, a.coefficients, b.coefficients, blocks);
    assert(covariances_with(k, b, blocks) == (|u: u64|
        affine_laws::dot(k, b.coefficients, covariances(k, u, blocks))));
    assert(covariances_with(k, a, blocks) == (|u: u64|
        affine_laws::dot(k, a.coefficients, covariances(k, u, blocks))));
}

/// The joint distribution of some expressions has the mean of each, and
/// behind the means the covariance of each two, row by row.
pub proof fn lemma_joint<V>(
    k: Field<V>,
    c: Seq<int>,
    s: Seq<(Affine, Seq<char>)>,
    blocks: Seq<LeafView>,
    f: Arithmetic,
    i: int,
    j: int,
)
    requires
        k.exact(f),
        symmetric(k, blocks),
        0 <= i < c.len(),
        0 <= j < c.len(),
    ensures
        ({
            let n = c.len();
            let e = packet::joint_entry(c, s, blocks, f);
            let a = s[c[i]].0;
            let b = s[c[j]].0;
            &&& e.names.len() == n
            &&& e.numbers.len() == n + n * n
            &&& e.names[i] == s[c[i]].1
            &&& (k.value)(e.numbers[i]) == affine_laws::worth(
                k,
                (a.constant, a.coefficients),
                means(k, blocks),
            )
            &&& (k.value)(e.numbers[n + (i * n + j)]) == affine_laws::dot(
                k,
                a.coefficients,
                covariances_with(k, b, blocks),
            )
        }),
{
    let n = c.len();
    lemma_within(n as int, i, j);
    lemma_mean(k, s[c[i]].0, blocks, f);
    lemma_covariance(k, s[c[i]].0, s[c[j]].0, blocks, f);
    lemma_covariance_symmetric(k, s[c[i]].0, s[c[j]].0, blocks, f);
    let e = packet::joint_entry(c, s, blocks, f);
    assert(e.numbers.len() == n + n * n);
    let at = n + (i * n + j);
    assert(e.numbers[at] == packet::joint_covariance(c, s, blocks, f, i, j));
}

proof fn lemma_places(names: Seq<u64>, wanted: Set<u64>)
    ensures
        ({
            let p = registry::wanted_places(names, wanted);
            &&& forall|i: int|
                0 <= i < p.len() ==> 0 <= #[trigger] p[i] < names.len() && wanted.contains(names[p[i]])
            &&& forall|i: int, j: int| 0 <= i < j < p.len() ==> #[trigger] p[i] < #[trigger] p[j]
            &&& forall|i: int|
                0 <= i < names.len() && wanted.contains(#[trigger] names[i]) ==> p.contains(i)
        }),
    decreases names.len(),
{
    if names.len() > 0 {
        let t = names.drop_last();
        lemma_places(t, wanted);
        let (q, p) = (
            registry::wanted_places(t, wanted),
            registry::wanted_places(names, wanted),
        );
        assert forall|i: int| 0 <= i < p.len() implies 0 <= #[trigger] p[i] < names.len()
            && wanted.contains(names[p[i]]) by {
            if i < q.len() {
                assert(p[i] == q[i]);
                assert(names[p[i]] == t[q[i]]);
            }
        }
        assert forall|i: int, j: int| 0 <= i < j < p.len() implies #[trigger] p[i]
            < #[trigger] p[j] by {
            assert(p[i] == q[i]);
            if j < q.len() {
                assert(p[j] == q[j]);
            }
        }
        assert forall|i: int|
            0 <= i < names.len() && wanted.contains(#[trigger] names[i]) implies p.contains(i) by {
            if i < t.len() {
                assert(names[i] == t[i]);
                let j = q.index_of(i);
                assert(p[j] == i);
            } else {
                assert(p[p.len() - 1] == i);
            }
        }
    }
}

/// What a Gaussian leaf says of some of its variables is what it says of them
/// together with the others: the variables that are wanted stay, in their
/// order, with their means and covariances. Nothing is left only if none is
/// wanted.
pub proof fn lemma_restricted(l: LeafView, wanted: Set<u64>)
    requires
        l.family == Family::Gaussian,
        apart(seq![l]),
    ensures
        registry::restricted(l, wanted) is None <==> forall|i: int|
            0 <= i < l.names.len() ==> !wanted.contains(#[trigger] l.names[i]),
        registry::restricted(l, wanted) matches Some(r) ==> {
            &&& r.family == Family::Gaussian
            &&& apart(seq![r])
            &&& forall|v: u64| #[trigger]
                r.names.contains(v) <==> l.names.contains(v) && wanted.contains(v)
            &&& forall|v: u64| #[trigger]
                r.names.contains(v) ==> packet::mean_of(v, seq![r]) == packet::mean_of(v, seq![l])
            &&& forall|u: u64, v: u64| #[trigger]
                r.names.contains(u) && #[trigger] r.names.contains(v) ==> packet::covariance_of(
                    u,
                    v,
                    seq![r],
                ) == packet::covariance_of(u, v, seq![l])
        },
{
    lemma_places(l.names, wanted);
    let p = registry::wanted_places(l.names, wanted);
    let n = l.names.len() as int;
    let bl = seq![l];
    assert(bl[0] == l);
    assert(l.numbers.len() == n + n * n);
    if p.len() > 0 {
        assert(wanted.contains(l.names[p[0]]));
        let r = registry::restricted(l, wanted)->0;
        let br = seq![r];
        let k = p.len() as int;
        assert(br[0] == r);
        assert(r.numbers.len() == k + k * k);
        assert(apart(br)) by {
            assert forall|b: int, c: int, i: int, j: int|
                #![trigger br[b].names[i], br[c].names[j]]
                0 <= b < br.len() && 0 <= c < br.len() && 0 <= i < br[b].names.len() && 0 <= j
                    < br[c].names.len() && br[b].names[i] == br[c].names[j] implies b == c && i == j by {
                assert(bl[0].names[p[i]] == bl[0].names[p[j]]);
            }
        }
        assert forall|v: u64| #[trigger] r.names.contains(v) <==> l.names.contains(v)
            && wanted.contains(v) by {
            if r.names.contains(v) {
                let i = r.names.index_of(v);
                assert(l.names[p[i]] == v);
            }
            if l.names.contains(v) && wanted.contains(v) {
                let i = l.names.index_of(v);
                assert(wanted.contains(l.names[i]));
                let j = p.index_of(i);
                assert(r.names[j] == v);
            }
        }
        assert forall|v: u64| #[trigger] r.names.contains(v) implies packet::mean_of(v, br)
            == packet::mean_of(v, bl) by {
            let i = r.names.index_of(v);
            lemma_kept(l, r, p, i, i);
        }
        assert forall|u: u64, v: u64| #[trigger]
            r.names.contains(u) && #[trigger] r.names.contains(v) implies packet::covariance_of(
            u,
            v,
            br,
        ) == packet::covariance_of(u, v, bl) by {
            let (i, j) = (r.names.index_of(u), r.names.index_of(v));
            lemma_kept(l, r, p, i, j);
        }
    } else {
        assert forall|i: int| 0 <= i < l.names.len() implies !wanted.contains(
            #[trigger] l.names[i],
        ) by {
            if wanted.contains(l.names[i]) {
                assert(p.contains(i));
            }
        }
    }
}

proof fn lemma_kept(l: LeafView, r: LeafView, p: Seq<int>, i: int, j: int)
    requires
        apart(seq![l]),
        apart(seq![r]),
        r.names.len() == p.len(),
        r.names == Seq::new(p.len(), |i: int| l.names[p[i]]),
        r.numbers == registry::marginal(l.numbers, l.names.len() as int, p),
        forall|i: int| 0 <= i < p.len() ==> 0 <= #[trigger] p[i] < l.names.len(),
        0 <= i < p.len(),
        0 <= j < p.len(),
    ensures
        packet::mean_of(r.names[i], seq![r]) == packet::mean_of(r.names[i], seq![l]),
        packet::covariance_of(r.names[i], r.names[j], seq![r]) == packet::covariance_of(
            r.names[i],
            r.names[j],
            seq![l],
        ),
{
    let (bl, br) = (seq![l], seq![r]);
    let n = l.names.len() as int;
    let k = p.len() as int;
    assert(bl[0] == l && br[0] == r);
    assert(l.numbers.len() == n + n * n);
    assert(r.names[i] == l.names[p[i]] && r.names[j] == l.names[p[j]]);
    lemma_variable(br, 0, i, 0, j);
    lemma_variable(bl, 0, p[i], 0, p[j]);
    lemma_within(n, p[i], p[j]);
    lemma_within(k, i, j);
}

} // verus!
