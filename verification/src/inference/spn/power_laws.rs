//! What epsilon powers are for in products: those of the factors add up.

use vstd::prelude::*;

use super::evidence;
use super::evidence::Updating;
use super::node;
use super::node::{Node, Shape};
use super::normal;
use super::normal::Pulled;
use super::product;
use super::wmc;
use crate::utils::reals::Arithmetic;

verus! {

/// The powers of nodes, added up.
pub open spec fn powers(s: Seq<Node>) -> nat
    decreases s.len(),
{
    if s.len() == 0 {
        0
    } else {
        powers(s.drop_last()) + s.last().coeff.power as nat
    }
}

/// The factors of a product carry no coefficients.
pub open spec fn settled(n: Node) -> bool {
    match n.shape {
        Shape::Product(c) => forall|i: int|
            0 <= i < c.len() ==> (#[trigger] c[i]).coeff == node::one_coeff(),
        _ => true,
    }
}

proof fn lemma_pulled_all(p: Pulled, s: Seq<Node>, f: Arithmetic)
    requires
        forall|i: int| 0 <= i < s.len() ==> (#[trigger] s[i]).coeff == node::one_coeff(),
    ensures
        normal::pulled_all(p, s, f).coeff.power == p.coeff.power,
    decreases s.len(),
{
    if s.len() > 0 {
        let t = s.drop_last();
        assert forall|i: int| 0 <= i < t.len() implies (#[trigger] t[i]).coeff
            == node::one_coeff() by {
            assert(t[i] == s[i]);
        }
        lemma_pulled_all(p, t, f);
        assert(s[s.len() - 1].coeff == node::one_coeff());
    }
}

proof fn lemma_factored(s: Seq<Node>, f: Arithmetic)
    requires
        forall|i: int| 0 <= i < s.len() ==> settled(#[trigger] s[i]),
        powers(s) <= u32::MAX,
    ensures
        normal::factored(s, f).coeff.power == powers(s),
        forall|i: int|
            0 <= i < normal::factored(s, f).factors.len() ==> (#[trigger] normal::factored(
                s,
                f,
            ).factors[i]).coeff == node::one_coeff(),
    decreases s.len(),
{
    if s.len() > 0 {
        let t = s.drop_last();
        let n = s.last();
        assert forall|i: int| 0 <= i < t.len() implies settled(#[trigger] t[i]) by {
            assert(t[i] == s[i]);
        }
        lemma_factored(t, f);
        let p = normal::factored(t, f);
        assert(settled(s[s.len() - 1]));
        match n.shape {
            Shape::Product(c) => {
                let q = Pulled { coeff: p.coeff.times(n.coeff, f), factors: p.factors };
                lemma_pulled_all(q, c, f);
                lemma_pulled_bare(q, c, f);
            },
            _ => {},
        }
    }
}

proof fn lemma_pulled_bare(p: Pulled, s: Seq<Node>, f: Arithmetic)
    requires
        forall|i: int| 0 <= i < p.factors.len() ==> (#[trigger] p.factors[i]).coeff
            == node::one_coeff(),
    ensures
        forall|i: int|
            0 <= i < normal::pulled_all(p, s, f).factors.len() ==> (#[trigger] normal::pulled_all(
                p,
                s,
                f,
            ).factors[i]).coeff == node::one_coeff(),
    decreases s.len(),
{
    if s.len() > 0 {
        lemma_pulled_bare(p, s.drop_last(), f);
    }
}

/// The power of a product is the sum of the powers of its factors, unless one
/// of them is zero.
pub proof fn lemma_product_power(s: Seq<Node>, f: Arithmetic)
    requires
        forall|i: int| 0 <= i < s.len() ==> settled(#[trigger] s[i]),
        forall|i: int| 0 <= i < s.len() ==> !(#[trigger] s[i]).coeff.none(),
        powers(s) <= u32::MAX,
    ensures
        normal::multiplied(s, f).coeff.power == powers(s),
{
    lemma_factored(s, f);
    let p = normal::factored(s, f);
    if p.factors.len() == 1 {
        assert(p.factors[0].coeff == node::one_coeff());
    }
}

/// The posterior of a leaf has the power of its marginal likelihood.
pub proof fn lemma_leaf_power(n: Node, up: Updating, f: Arithmetic)
    requires
        n.shape is Leaf,
        !n.coeff.none(),
    ensures
        evidence::posterior_of(n, up, f).coeff.power == up(n.shape->Leaf_0).1.power,
{
}

/// The sum of two scalars is taken by its powers: the lesser one counts alone.
pub proof fn lemma_scalars_added(a: Node, b: Node, f: Arithmetic)
    requires
        a.shape is Scalar,
        b.shape is Scalar,
        !a.coeff.none(),
        !b.coeff.none(),
    ensures
        a.coeff.power < b.coeff.power ==> wmc::add_of(a, b, f) == a && wmc::add_of(b, a, f) == a,
        a.coeff.power == b.coeff.power ==> wmc::add_of(a, b, f).coeff.power == a.coeff.power,
        product::bare(Shape::Scalar).coeff.power == 0,
{
}

} // verus!
