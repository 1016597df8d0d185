//! What weighted counts and the draws that go by them are for: the weight of
//! a function is that of all assignments under which it holds.

use vstd::prelude::*;

use super::lazy_kc::semantics::Event;
use super::sampling;
use super::sampling::Weights;
use super::spn::evidence::Reading;
use super::spn::meaning;
use super::spn::meaning::Meaning;
use super::spn::product::Merging;
use super::spn::wmc;
use super::spn::wmc::EdgeWeights;
use crate::discrete_factorizations;
use crate::discrete_factorizations::{BooleanFunction, Worlds};
use crate::utils::reals;
use crate::utils::reals::Arithmetic;

verus! {

/// The weights of a variable that does not hold and of one that does.
pub type Odds<V> = spec_fn(u64) -> (V, V);

/// The weight of all assignments to some variables under which a function
/// holds: that of an assignment is the product of those of its variables.
pub open spec fn weight_of<V>(
    m: Meaning<V>,
    vars: Seq<u64>,
    p: Odds<V>,
    f: &BooleanFunction,
    a: Worlds,
) -> V
    decreases vars.len(),
{
    if vars.len() == 0 {
        if f.eval(a) {
            m.one
        } else {
            m.zero
        }
    } else {
        let (v, rest) = (vars[0], vars.drop_first());
        (m.plus)(
            (m.times)(
                p(v).0,
                weight_of(m, rest, p, f, discrete_factorizations::set_var(a, v, false)),
            ),
            (m.times)(
                p(v).1,
                weight_of(m, rest, p, f, discrete_factorizations::set_var(a, v, true)),
            ),
        )
    }
}

/// The weights of a variable add up to one.
pub open spec fn shared_out<V>(m: Meaning<V>, p: Odds<V>) -> bool {
    forall|v: u64| (m.plus)((#[trigger] p(v)).0, p(v).1) == m.one
}

proof fn lemma_branch<V>(
    m: Meaning<V>,
    vars: Seq<u64>,
    p: Odds<V>,
    f: &BooleanFunction,
    g: &BooleanFunction,
    v: u64,
    b: bool,
    a: Worlds,
)
    requires
        !vars.contains(v),
        a(v) == b,
        f matches BooleanFunction::Node { var, low, high } && var.0 == v && *g == (if b {
            **high
        } else {
            **low
        }),
    ensures
        weight_of(m, vars, p, f, a) == weight_of(m, vars, p, g, a),
    decreases vars.len(),
{
    if vars.len() > 0 {
        let rest = vars.drop_first();
        assert(vars.contains(vars[0]));
        assert forall|x: u64| rest.contains(x) implies vars.contains(x) by {
            let i = rest.index_of(x);
            assert(vars[i + 1] == x);
        }
        lemma_branch(m, rest, p, f, g, v, b, discrete_factorizations::set_var(a, vars[0], false));
        lemma_branch(m, rest, p, f, g, v, b, discrete_factorizations::set_var(a, vars[0], true));
    }
}

/// A weight that is that of the branches at every variable.
pub open spec fn folds<V>(m: Meaning<V>, p: Odds<V>, c: spec_fn(BooleanFunction) -> V) -> bool {
    forall|g: BooleanFunction| #[trigger] c(g) == (match g {
        BooleanFunction::True => m.one,
        BooleanFunction::False => m.zero,
        BooleanFunction::Node { var, low, high } => (m.plus)(
            (m.times)(p(var.0).0, c(*low)),
            (m.times)(p(var.0).1, c(*high)),
        ),
    })
}

proof fn lemma_fold<V>(
    m: Meaning<V>,
    order: Seq<u64>,
    i: int,
    p: Odds<V>,
    c: spec_fn(BooleanFunction) -> V,
    f: &BooleanFunction,
    a: Worlds,
)
    requires
        m.semiring(),
        shared_out(m, p),
        folds(m, p, c),
        order.no_duplicates(),
        f.wf(order),
        0 <= i <= order.len(),
        f.top(order) >= i,
    ensures
        c(*f) == weight_of(m, order.skip(i), p, f, a),
    decreases order.len() - i,
{
    let vars = order.skip(i);
    if i == order.len() {
        if let BooleanFunction::Node { var, .. } = f {
            assert(order.contains(var.0));
        }
        assert(c(*f) == weight_of(m, vars, p, f, a));
    } else {
        let v = order[i];
        let rest = order.skip(i + 1);
        let (x, y) = (
            discrete_factorizations::set_var(a, v, false),
            discrete_factorizations::set_var(a, v, true),
        );
        assert(vars[0] == v);
        assert(vars.drop_first() =~= rest);
        if f.top(order) == i {
            if let BooleanFunction::Node { var, low, high } = f {
                assert(order.contains(var.0));
                assert(var.0 == v);
                assert(!rest.contains(v));
                lemma_fold(m, order, i + 1, p, c, &**low, x);
                lemma_fold(m, order, i + 1, p, c, &**high, y);
                lemma_branch(m, rest, p, f, &**low, v, false, x);
                lemma_branch(m, rest, p, f, &**high, v, true, y);
                assert(c(*f) == weight_of(m, vars, p, f, a));
            }
        } else {
            lemma_fold(m, order, i + 1, p, c, f, x);
            lemma_fold(m, order, i + 1, p, c, f, y);
            let (q, r, z) = (p(v).0, p(v).1, c(*f));
            meaning::times_comm(m, q, z);
            meaning::times_comm(m, r, z);
            meaning::times_plus(m, z, q, r);
            meaning::times_one(m, z);
            assert((m.plus)(q, r) == m.one);
        }
    }
}

/// What the weights of a network's branches stand for.
pub open spec fn branch_values<V>(m: Meaning<V>, w: EdgeWeights) -> Odds<V> {
    |v: u64| (m.value(w(v).0), m.value(w(v).1))
}

/// The weighted count of a function as a network stands for the weight of all
/// assignments under which the function holds.
pub proof fn lemma_count_of_assignments<V>(
    m: Meaning<V>,
    bf: &BooleanFunction,
    order: Seq<u64>,
    w: EdgeWeights,
    depth: nat,
    g: Merging,
    f: Arithmetic,
    a: Worlds,
)
    requires
        m.exact(f),
        m.merges(g),
        wmc::plain_weights(w),
        wmc::count_of(bf, w, depth, g, f) is Some,
        bf.wf(order),
        order.no_duplicates(),
        shared_out(m, branch_values(m, w)),
    ensures
        m.value(wmc::count_of(bf, w, depth, g, f)->0) == weight_of(
            m,
            order,
            branch_values(m, w),
            bf,
            a,
        ),
{
    meaning::exact_ring(m, f);
    wmc::lemma_count_value(m, bf, w, depth, g, f);
    let c = |h: BooleanFunction| wmc::count_value(m, &h, w);
    let p = branch_values(m, w);
    assert(folds(m, p, c)) by {
        assert forall|h: BooleanFunction| #[trigger] c(h) == (match h {
            BooleanFunction::True => m.one,
            BooleanFunction::False => m.zero,
            BooleanFunction::Node { var, low, high } => (m.plus)(
                (m.times)(p(var.0).0, c(*low)),
                (m.times)(p(var.0).1, c(*high)),
            ),
        }) by {}
    }
    assert(order.skip(0) =~= order);
    lemma_top(bf, order);
    lemma_fold(m, order, 0, p, c, bf, a);
}

proof fn lemma_top(f: &BooleanFunction, order: Seq<u64>)
    requires
        f.wf(order),
    ensures
        f.top(order) >= 0,
{
    if let BooleanFunction::Node { var, .. } = f {
        assert(order.contains(var.0));
    }
}

/// What logarithms of weights stand for; a variable without any is even.
pub open spec fn log_odds<V>(m: Meaning<V>, ws: Weights) -> Odds<V> {
    |v: u64|
        if ws.dom().contains(v) {
            ((m.number)(ws[v].0), (m.number)(ws[v].1))
        } else {
            ((m.number)(0xbfe6_2e42_fefa_39efu64), (m.number)(0xbfe6_2e42_fefa_39efu64))
        }
}

/// The logarithm of a function's weight stands for the weight of all
/// assignments under which the function holds.
pub proof fn lemma_marginal_of_assignments<V>(
    m: Meaning<V>,
    bf: &BooleanFunction,
    order: Seq<u64>,
    ws: Weights,
    f: Arithmetic,
    a: Worlds,
)
    requires
        m.exact(f),
        bf.wf(order),
        order.no_duplicates(),
        shared_out(m, log_odds(m, ws)),
    ensures
        (m.number)(sampling::log_marginal(bf, ws, f)) == weight_of(
            m,
            order,
            log_odds(m, ws),
            bf,
            a,
        ),
{
    meaning::exact_ring(m, f);
    let c = |h: BooleanFunction| (m.number)(sampling::log_marginal(&h, ws, f));
    let p = log_odds(m, ws);
    assert(folds(m, p, c)) by {
        assert forall|h: BooleanFunction| #[trigger] c(h) == (match h {
            BooleanFunction::True => m.one,
            BooleanFunction::False => m.zero,
            BooleanFunction::Node { var, low, high } => (m.plus)(
                (m.times)(p(var.0).0, c(*low)),
                (m.times)(p(var.0).1, c(*high)),
            ),
        }) by {
            if let BooleanFunction::Node { var, low, high } = h {
                let w = sampling::weight_at(ws, var.0);
                let (x, y) = (
                    sampling::log_marginal(&*low, ws, f),
                    sampling::log_marginal(&*high, ws, f),
                );
                meaning::number_times(m, w.0, x, f);
                meaning::number_times(m, w.1, y, f);
                meaning::number_plus(
                    m,
                    f(reals::RealOp::Sum, w.0, x),
                    f(reals::RealOp::Sum, w.1, y),
                    f,
                );
            }
        }
    }
    assert(order.skip(0) =~= order);
    lemma_top(bf, order);
    lemma_fold(m, order, 0, p, c, bf, a);
}

/// The share of the weight of a node's assignments that its variable has
/// when it holds is `t`, and a draw below it goes there.
pub open spec fn goes_by<V>(
    m: Meaning<V>,
    low: &BooleanFunction,
    high: &BooleanFunction,
    w: (u64, u64),
    ws: Weights,
    f: Arithmetic,
    left: V,
    right: V,
    t: u64,
) -> bool {
    &&& (m.times)((m.plus)(left, right), (m.number)(t)) == right
    &&& forall|u: u64| #[trigger]
        sampling::branch_taken(low, high, w, ws, u, f) == Some(reals::below(u, t))
}

/// A draw takes a branch that can hold, and where both can, each by its share
/// of the weight of the assignments: below the share of the one at which the
/// variable holds that one, and else the other. There is none only if the
/// weights of both are zero.
pub proof fn lemma_branch_by_weight<V>(
    m: Meaning<V>,
    low: &BooleanFunction,
    high: &BooleanFunction,
    v: u64,
    order: Seq<u64>,
    ws: Weights,
    f: Arithmetic,
    a: Worlds,
)
    requires
        m.exact(f),
        low.wf(order),
        high.wf(order),
        order.no_duplicates(),
        shared_out(m, log_odds(m, ws)),
    ensures
        ({
            let w = sampling::weight_at(ws, v);
            let left = (m.times)(
                log_odds(m, ws)(v).0,
                weight_of(m, order, log_odds(m, ws), low, a),
            );
            let right = (m.times)(
                log_odds(m, ws)(v).1,
                weight_of(m, order, log_odds(m, ws), high, a),
            );
            if forall|b: Worlds| !#[trigger] low.eval(b) {
                forall|u: u64| #[trigger]
                    sampling::branch_taken(low, high, w, ws, u, f) == Some(true)
            } else if forall|b: Worlds| !#[trigger] high.eval(b) {
                forall|u: u64| #[trigger]
                    sampling::branch_taken(low, high, w, ws, u, f) == Some(false)
            } else {
                ||| (m.plus)(left, right) == m.zero && forall|u: u64| #[trigger]
                    sampling::branch_taken(low, high, w, ws, u, f) is None
                ||| exists|t: u64| #[trigger] goes_by(m, low, high, w, ws, f, left, right, t)
            }
        }),
{
    meaning::exact_ring(m, f);
    discrete_factorizations::lemma_is_false(low, order);
    discrete_factorizations::lemma_is_false(high, order);
    lemma_marginal_of_assignments(m, low, order, ws, f, a);
    lemma_marginal_of_assignments(m, high, order, ws, f, a);
    let w = sampling::weight_at(ws, v);
    let (x, y) = (sampling::log_marginal(low, ws, f), sampling::log_marginal(high, ws, f));
    let l = f(reals::RealOp::Sum, w.0, x);
    let r = f(reals::RealOp::Sum, w.1, y);
    let all = f(reals::RealOp::LogSum, l, r);
    meaning::number_times(m, w.0, x, f);
    meaning::number_times(m, w.1, y, f);
    meaning::number_plus(m, l, r, f);
    let t = f(reals::RealOp::Difference, r, all);
    if *low != BooleanFunction::False && *high != BooleanFunction::False {
        if reals::equal(all, reals::NEG_INFINITY) {
            meaning::number_none(m, all, f);
        } else {
            meaning::number_over(m, r, all, f);
            assert(goes_by(m, low, high, w, ws, f, (m.number)(l), (m.number)(r), t));
        }
    }
}

/// The logarithms by which branches are drawn stand for the values of the
/// branches, that at which the variable does not hold first.
pub proof fn lemma_branches_weighed<V>(
    m: Meaning<V>,
    labels: Set<u64>,
    w: EdgeWeights,
    rd: Reading,
    f: Arithmetic,
    v: u64,
)
    requires
        m.exact(f),
        m.reads(rd),
        labels.contains(v),
    ensures
        log_odds(m, sampling::branch_likelihoods(labels, w, rd, f))(v) == branch_values(m, w)(v),
{
    meaning::lemma_likelihood_value(m, w(v).0, rd, f);
    meaning::lemma_likelihood_value(m, w(v).1, rd, f);
}

/// The weights of a variable are those that were entered last under its
/// label; the weights of a variable without any are even.
pub proof fn lemma_weights_looked_up(s: Seq<(u64, (u64, u64))>, v: u64, i: int)
    ensures
        0 <= i < s.len() && s[i].0 == v && (forall|j: int| i < j < s.len() ==> (#[trigger] s[j]).0 != v)
            ==> sampling::weight_at(sampling::table_of(s), v) == s[i].1,
        (forall|j: int| 0 <= j < s.len() ==> (#[trigger] s[j]).0 != v) ==> sampling::weight_at(
            sampling::table_of(s),
            v,
        ) == (0xbfe6_2e42_fefa_39efu64, 0xbfe6_2e42_fefa_39efu64),
    decreases s.len(),
{
    if s.len() > 0 {
        let p = s.drop_last();
        lemma_weights_looked_up(p, v, i);
        assert(s[s.len() - 1] == s.last());
        if 0 <= i < p.len() {
            assert(p[i] == s[i]);
        }
        if s.last().0 != v {
            assert forall|j: int| 0 <= j < p.len() implies p[j] == #[trigger] s[j] by {}
            assert(forall|j: int| 0 <= j < p.len() ==> (#[trigger] p[j]).0 == s[j].0);
        }
    }
}

/// The draw that an event is about: that with its name, of its kind, and with
/// its rate and scale.
pub proof fn lemma_draw_of_event(e: Event)
    ensures
        match e {
            Event::ExpEq { gamma, draw, scale, .. }
            | Event::ExpInterval { gamma, draw, scale, .. } => sampling::draw_of(e) matches Some(d)
                && d.draw == draw && !d.poisson && d.gamma == gamma && d.scale == scale,
            Event::PoissonEq { gamma, draw, scale, .. }
            | Event::PoissonInterval { gamma, draw, scale, .. } => sampling::draw_of(
                e,
            ) matches Some(d) && d.draw == draw && d.poisson && d.gamma == gamma && d.scale == scale,
            _ => sampling::draw_of(e) is None,
        },
{
}

} // verus!
