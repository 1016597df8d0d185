//! Priors and posteriors of the continuous variables in a result.

use std::collections::BTreeSet;

use vstd::prelude::*;

use crate::inference::lazy_kc::state::{clone_numbers, Prior};
use crate::inference::spn::node::{Family, Leaf, LeafView};
use crate::inference::spn::posterior;
use crate::utils::reals;
use crate::utils::reals::{compute, Arithmetic, RealOp, INFINITY, ZERO};

verus! {

broadcast use vstd::std_specs::btree::group_btree_axioms;

/// The first variable of a leaf.
pub open spec fn first_name(l: LeafView) -> u64 {
    if l.names.len() == 0 {
        0
    } else {
        l.names[0]
    }
}

/// A leaf put behind all whose first variables do not come after its own.
pub open spec fn leaf_placed(s: Seq<LeafView>, l: LeafView) -> Seq<LeafView>
    decreases s.len(),
{
    if s.len() == 0 || first_name(s.last()) <= first_name(l) {
        s.push(l)
    } else {
        leaf_placed(s.drop_last(), l).push(s.last())
    }
}

/// Leaves in the order of their first variables.
pub open spec fn leaves_sorted(s: Seq<LeafView>) -> Seq<LeafView>
    decreases s.len(),
{
    if s.len() == 0 {
        Seq::empty()
    } else {
        leaf_placed(leaves_sorted(s.drop_last()), s.last())
    }
}

fn leading_name(l: &Leaf) -> (r: u64)
    ensures
        r == first_name(l@),
{
    if l.names.len() == 0 {
        0
    } else {
        l.names[0]
    }
}

fn place_leaf(s: &mut Vec<Leaf>, l: Leaf)
    ensures
        posterior::leaf_views(final(s)@) == leaf_placed(posterior::leaf_views(old(s)@), l@),
{
    let ghost whole = posterior::leaf_views(s@);
    let ghost e = l@;
    let key: u64 = leading_name(&l);
    let mut at: usize = s.len();
    assert(whole.take(at as int) =~= whole);
    assert(leaf_placed(whole.take(at as int), e) + whole.skip(at as int) =~= leaf_placed(whole, e));
    while at > 0 && leading_name(&s[at - 1]) > key
        invariant
            s@ == old(s)@,
            whole == posterior::leaf_views(old(s)@),
            at <= whole.len(),
            key == first_name(e),
            leaf_placed(whole.take(at as int), e) + whole.skip(at as int) == leaf_placed(whole, e),
        decreases at,
    {
        proof {
            let front = whole.take(at as int);
            assert(front.drop_last() =~= whole.take(at - 1));
            assert(front.last() == s@[at - 1]@);
            assert(leaf_placed(front, e) == leaf_placed(front.drop_last(), e).push(front.last()));
            assert(leaf_placed(whole.take(at - 1), e) + whole.skip(at - 1) =~= leaf_placed(front, e)
                + whole.skip(at as int));
        }
        at = at - 1;
    }
    proof {
        if at > 0 {
            assert(whole.take(at as int).last() == s@[at - 1]@);
        }
        assert(leaf_placed(whole.take(at as int), e) == whole.take(at as int).push(e));
    }
    s.insert(at, l);
    assert(posterior::leaf_views(s@) =~= whole.take(at as int).push(e) + whole.skip(at as int));
}

/// The positions of the names that are wanted.
pub open spec fn wanted_places(names: Seq<u64>, wanted: Set<u64>) -> Seq<int>
    decreases names.len(),
{
    if names.len() == 0 {
        Seq::empty()
    } else {
        let s = wanted_places(names.drop_last(), wanted);
        if wanted.contains(names.last()) {
            s.push(names.len() - 1)
        } else {
            s
        }
    }
}

/// The number at a place; 0 where there is none.
pub open spec fn number_at(numbers: Seq<u64>, i: int) -> u64 {
    if 0 <= i < numbers.len() {
        numbers[i]
    } else {
        ZERO
    }
}

/// The joint distribution of some of `n` Gaussian variables: their means,
/// and their covariances row by row.
pub open spec fn marginal(numbers: Seq<u64>, n: int, places: Seq<int>) -> Seq<u64> {
    let k = places.len();
    Seq::new(
        k + k * k,
        |i: int|
            if i < k {
                number_at(numbers, places[i])
            } else {
                number_at(numbers, n + places[(i - k) / (k as int)] * n + places[(i - k) % (k as int)])
            },
    )
}

/// What a prior says of the variables that are wanted, if any of them are
/// its own. A Gaussian prior can be restricted to some of its variables; the
/// others belong to their first variable.
pub open spec fn restricted(l: LeafView, wanted: Set<u64>) -> Option<LeafView> {
    if l.family == Family::Gaussian {
        let places = wanted_places(l.names, wanted);
        if places.len() == 0 {
            None
        } else {
            Some(
                LeafView {
                    family: l.family,
                    names: Seq::new(places.len(), |i: int| l.names[places[i]]),
                    numbers: marginal(l.numbers, l.names.len() as int, places),
                },
            )
        }
    } else if l.names.len() > 0 && wanted.contains(l.names[0]) {
        Some(l)
    } else {
        None
    }
}

/// The priors of the variables that are wanted.
pub open spec fn sliced(priors: Seq<LeafView>, wanted: Set<u64>) -> Seq<LeafView>
    decreases priors.len(),
{
    if priors.len() == 0 {
        Seq::empty()
    } else {
        let s = sliced(priors.drop_last(), wanted);
        match restricted(priors.last(), wanted) {
            Some(l) => s.push(l),
            None => s,
        }
    }
}

/// The variables of some leaves.
pub open spec fn covered(s: Seq<LeafView>) -> Set<u64>
    decreases s.len(),
{
    if s.len() == 0 {
        Set::empty()
    } else {
        covered(s.drop_last()).union(s.last().names.to_set())
    }
}

/// The posterior with the priors of the variables of `scope` that it leaves
/// out, in the order of the variables.
pub open spec fn filled_in(
    priors: Seq<LeafView>,
    partial: Seq<LeafView>,
    scope: Set<u64>,
) -> Seq<LeafView> {
    leaves_sorted(partial + sliced(priors, scope.difference(covered(partial))))
}

fn find_places(names: &Vec<u64>, wanted: &BTreeSet<u64>) -> (r: Vec<usize>)
    ensures
        r@.len() == wanted_places(names@, wanted@).len(),
        forall|i: int|
            0 <= i < r@.len() ==> (#[trigger] r@[i]) == wanted_places(names@, wanted@)[i] && r@[i]
                < names@.len(),
{
    let mut out: Vec<usize> = Vec::new();
    let mut i: usize = 0;
    while i < names.len()
        invariant
            i <= names@.len(),
            out@.len() == wanted_places(names@.take(i as int), wanted@).len(),
            forall|j: int|
                0 <= j < out@.len() ==> (#[trigger] out@[j]) == wanted_places(
                    names@.take(i as int),
                    wanted@,
                )[j] && out@[j] < i,
        decreases names@.len() - i,
    {
        assert(names@.take(i + 1).drop_last() =~= names@.take(i as int));
        if wanted.contains(&names[i]) {
            out.push(i);
        }
        i = i + 1;
    }
    assert(names@.take(i as int) =~= names@);
    out
}

/// The number at a place, or 0 where there is none.
pub fn pick_number(numbers: &Vec<u64>, i: u128) -> (r: u64)
    ensures
        r == number_at(numbers@, i as int),
{
    if i < numbers.len() as u128 {
        numbers[i as usize]
    } else {
        ZERO
    }
}

fn pick_marginal(numbers: &Vec<u64>, n: usize, places: &Vec<usize>, Ghost(at): Ghost<Seq<int>>) -> (r: Vec<u64>)
    requires
        places@.len() == at.len(),
        forall|i: int| 0 <= i < at.len() ==> (#[trigger] places@[i]) == at[i] && places@[i] < n,
    ensures
        r@ == marginal(numbers@, n as int, at),
{
    let k: usize = places.len();
    let ghost want = marginal(numbers@, n as int, at);
    let mut out: Vec<u64> = Vec::new();
    let mut i: usize = 0;
    while i < k
        invariant
            i <= k,
            k == places@.len(),
            k == at.len(),
            forall|j: int| 0 <= j < at.len() ==> (#[trigger] places@[j]) == at[j] && places@[j] < n,
            want == marginal(numbers@, n as int, at),
            want.len() == k + k * k,
            out@ == want.take(i as int),
        decreases k - i,
    {
        assert(k + k * k >= k) by (nonlinear_arith);
        out.push(pick_number(numbers, places[i] as u128));
        assert(want.take(i + 1) =~= want.take(i as int).push(want[i as int]));
        i = i + 1;
    }
    let mut row: usize = 0;
    assert(out@ == want.take(k + 0 * k));
    while row < k
        invariant
            row <= k,
            k == places@.len(),
            k == at.len(),
            forall|j: int| 0 <= j < at.len() ==> (#[trigger] places@[j]) == at[j] && places@[j] < n,
            want == marginal(numbers@, n as int, at),
            want.len() == k + k * k,
            out@ == want.take(k + row * k),
        decreases k - row,
    {
        let mut col: usize = 0;
        while col < k
            invariant
                row < k,
                col <= k,
                k == places@.len(),
                k == at.len(),
                forall|j: int|
                    0 <= j < at.len() ==> (#[trigger] places@[j]) == at[j] && places@[j] < n,
                want == marginal(numbers@, n as int, at),
                want.len() == k + k * k,
                out@ == want.take(k + row * k + col),
            decreases k - col,
        {
            let a: usize = places[row];
            let b: usize = places[col];
            proof {
                assert(k + row * k + col < k + k * k && (row * k + col) / (k as int) == row && (row
                    * k + col) % (k as int) == col) by (nonlinear_arith)
                    requires
                        row < k,
                        col < k,
                        k > 0,
                ;
                assert(n + a * n + b <= u128::MAX) by (nonlinear_arith)
                    requires
                        a <= u64::MAX,
                        n <= u64::MAX,
                        b <= u64::MAX,
                ;
                assert(0 <= a * n <= u128::MAX) by (nonlinear_arith)
                    requires
                        a <= u64::MAX,
                        n <= u64::MAX,
                ;
            }
            out.push(pick_number(numbers, n as u128 + a as u128 * n as u128 + b as u128));
            assert(out@.last() == want[k + row * k + col]);
            assert(want.take(k + row * k + col + 1) =~= want.take(k + row * k + col).push(
                want[k + row * k + col],
            ));
            col = col + 1;
        }
        assert(k + row * k + k == k + (row + 1) * k) by (nonlinear_arith);
        row = row + 1;
    }
    assert(want.take(k + k * k) =~= want);
    out
}

/// What a prior says of the variables that are wanted.
fn restrict(l: &Leaf, wanted: &BTreeSet<u64>) -> (r: Option<Leaf>)
    ensures
        match r {
            Some(x) => restricted(l@, wanted@) == Some(x@),
            None => restricted(l@, wanted@) is None,
        },
{
    if l.family == Family::Gaussian {
        let places: Vec<usize> = find_places(&l.names, wanted);
        let ghost at = wanted_places(l.names@, wanted@);
        if places.len() == 0 {
            return None;
        }
        let mut names: Vec<u64> = Vec::new();
        let mut i: usize = 0;
        let ghost want = Seq::new(at.len(), |i: int| l.names@[at[i]]);
        while i < places.len()
            invariant
                i <= places@.len(),
                places@.len() == at.len(),
                forall|j: int|
                    0 <= j < places@.len() ==> (#[trigger] places@[j]) == at[j] && places@[j]
                        < l.names@.len(),
                want == Seq::new(at.len(), |i: int| l.names@[at[i]]),
                names@ == want.take(i as int),
            decreases places@.len() - i,
        {
            names.push(l.names[places[i]]);
            assert(want.take(i + 1) =~= want.take(i as int).push(want[i as int]));
            i = i + 1;
        }
        assert(want.take(i as int) =~= want);
        let numbers: Vec<u64> = pick_marginal(&l.numbers, l.names.len(), &places, Ghost(at));
        Some(Leaf { family: Family::Gaussian, names, numbers })
    } else if l.names.len() > 0 && wanted.contains(&l.names[0]) {
        Some(l.duplicate())
    } else {
        None
    }
}

/// Restore priors for any variable in `scope` that the partial
/// posterior didn't touch. Variables outside `scope` are *not*
/// re-introduced: the priors can hold variables that
/// were used during inference but never appear in the value, and
/// those have no place in the user-facing posterior.
pub fn fill_in_missing_variables_with_prior(
    priors: &Vec<Leaf>,
    partial_posterior: &Vec<Leaf>,
    scope: &BTreeSet<u64>,
) -> (r: Vec<Leaf>)
    ensures
        posterior::leaf_views(r@) == filled_in(
            posterior::leaf_views(priors@),
            posterior::leaf_views(partial_posterior@),
            scope@,
        ),
{
    let ghost part = posterior::leaf_views(partial_posterior@);
    let ghost prior = posterior::leaf_views(priors@);
    let mut out: Vec<Leaf> = Vec::new();
    let mut touched: BTreeSet<u64> = BTreeSet::new();
    let mut i: usize = 0;
    assert(posterior::leaf_views(out@) =~= leaves_sorted(part.take(0)));
    assert(touched@ =~= covered(part.take(0)));
    while i < partial_posterior.len()
        invariant
            i <= partial_posterior@.len(),
            part == posterior::leaf_views(partial_posterior@),
            posterior::leaf_views(out@) == leaves_sorted(part.take(i as int)),
            touched@ == covered(part.take(i as int)),
        decreases partial_posterior@.len() - i,
    {
        assert(part.take(i + 1).drop_last() =~= part.take(i as int));
        assert(part.take(i + 1).last() == partial_posterior@[i as int]@);
        place_leaf(&mut out, partial_posterior[i].duplicate());
        add_names(&mut touched, &partial_posterior[i].names);
        i = i + 1;
    }
    assert(part.take(i as int) =~= part);
    let missing: BTreeSet<u64> = unchanged(scope, &touched);
    let ghost wanted = scope@.difference(covered(part));
    let mut k: usize = 0;
    assert(part + sliced(prior.take(0), wanted) =~= part);
    while k < priors.len()
        invariant
            k <= priors@.len(),
            prior == posterior::leaf_views(priors@),
            missing@ == wanted,
            posterior::leaf_views(out@) == leaves_sorted(
                part + sliced(prior.take(k as int), wanted),
            ),
        decreases priors@.len() - k,
    {
        assert(prior.take(k + 1).drop_last() =~= prior.take(k as int));
        assert(prior.take(k + 1).last() == priors@[k as int]@);
        if let Some(l) = restrict(&priors[k], &missing) {
            let ghost e = l@;
            place_leaf(&mut out, l);
            proof {
                let s = part + sliced(prior.take(k as int), wanted);
                let t = part + sliced(prior.take(k + 1), wanted);
                assert(t =~= s.push(e));
                assert(t.drop_last() =~= s);
            }
        }
        k = k + 1;
    }
    assert(prior.take(k as int) =~= prior);
    out
}

fn add_names(set: &mut BTreeSet<u64>, names: &Vec<u64>)
    ensures
        final(set)@ == old(set)@.union(names@.to_set()),
{
    let mut i: usize = 0;
    assert(set@ =~= set@.union(names@.take(0).to_set()));
    while i < names.len()
        invariant
            i <= names@.len(),
            set@ == old(set)@.union(names@.take(i as int).to_set()),
        decreases names@.len() - i,
    {
        set.insert(names[i]);
        proof {
            let p = names@.take(i as int);
            let q = names@.take(i + 1);
            assert(q =~= p.push(names@[i as int]));
            assert forall|n: u64| q.to_set().contains(n) == p.to_set().insert(
                names@[i as int],
            ).contains(n) by {
                if p.contains(n) {
                    let j = choose|j: int| 0 <= j < p.len() && p[j] == n;
                    assert(q[j] == n);
                }
                if n == names@[i as int] {
                    assert(q[i as int] == n);
                }
            }
            assert(set@ =~= old(set)@.union(q.to_set()));
        }
        i = i + 1;
    }
    assert(names@.take(i as int) =~= names@);
}

fn unchanged(scope: &BTreeSet<u64>, touched: &BTreeSet<u64>) -> (r: BTreeSet<u64>)
    ensures
        r@ == scope@.difference(touched@),
{
    let mut out: BTreeSet<u64> = BTreeSet::new();
    for n in it: scope.iter()
        invariant
            forall|m: u64| out@.contains(m) ==> scope@.contains(m) && !touched@.contains(m),
            forall|j: int|
                0 <= j < it.index() && !touched@.contains(*it.seq()[j]) ==> out@.contains(
                    *(#[trigger] it.seq()[j]),
                ),
            it.seq().unref().to_set() == scope@,
    {
        if !touched.contains(n) {
            out.insert(*n);
        }
    }
    assert(out@ =~= scope@.difference(touched@));
    out
}

/// How many of the correlated variables from `first` on there are at `from`
/// and behind it.
pub open spec fn run_length(priors: Seq<Prior>, first: u64, from: int) -> nat
    decreases priors.len() - from,
{
    if 0 <= from < priors.len() && in_block(priors[from], first) {
        1 + run_length(priors, first, from + 1)
    } else {
        0
    }
}

pub open spec fn in_block(p: Prior, first: u64) -> bool {
    p matches Prior::Correlated { first: f, .. } && f == first
}

/// The prior of a variable as a leaf. A rate that is known has an infinite
/// shape, and stands in the place of the rate. Correlated variables have one
/// leaf together; draws have none.
pub open spec fn prior_leaf(priors: Seq<Prior>, v: u64, f: Arithmetic) -> Option<LeafView> {
    match priors[v as int] {
        Prior::Beta { a, b } => Some(
            LeafView { family: Family::Beta, names: seq![v], numbers: seq![a, b] },
        ),
        Prior::Gamma { shape, rate } => Some(
            LeafView { family: Family::Gamma, names: seq![v], numbers: seq![shape, rate] },
        ),
        Prior::Pinned { value } => Some(
            LeafView { family: Family::Gamma, names: seq![v], numbers: seq![INFINITY, value] },
        ),
        Prior::Dirichlet { alphas } => Some(
            LeafView { family: Family::Dirichlet, names: seq![v], numbers: alphas@ },
        ),
        Prior::Gaussian { mu, sigma } => Some(
            LeafView {
                family: Family::Gaussian,
                names: seq![v],
                numbers: seq![mu, f(RealOp::Product, sigma, sigma)],
            },
        ),
        Prior::Correlated { first, mu_and_cov } => if first == v {
            Some(
                LeafView {
                    family: Family::Gaussian,
                    names: Seq::new(run_length(priors, v, v as int), |i: int| (v + i) as u64),
                    numbers: mu_and_cov@,
                },
            )
        } else {
            None
        },
        Prior::Draw { .. } => None,
    }
}

/// The priors of the first `k` variables as leaves.
pub open spec fn prior_leaves(priors: Seq<Prior>, f: Arithmetic, k: nat) -> Seq<LeafView>
    decreases k,
{
    if k == 0 {
        Seq::empty()
    } else {
        let s = prior_leaves(priors, f, (k - 1) as nat);
        match prior_leaf(priors, (k - 1) as u64, f) {
            Some(l) => s.push(l),
            None => s,
        }
    }
}

fn block_names(priors: &Vec<Prior>, first: u64) -> (r: Vec<u64>)
    requires
        first < priors@.len(),
    ensures
        r@ == Seq::new(run_length(priors@, first, first as int), |i: int| (first + i) as u64),
{
    let mut names: Vec<u64> = Vec::new();
    let count: usize = priors.len();
    assert(first < count);
    let mut at: usize = first as usize;
    assert(names@ =~= Seq::new(0, |i: int| (first + i) as u64));
    while at < priors.len() && is_in_block(&priors[at], first)
        invariant
            first <= at <= priors@.len(),
            names@ == Seq::new((at - first) as nat, |i: int| (first + i) as u64),
            run_length(priors@, first, first as int) == (at - first) + run_length(
                priors@,
                first,
                at as int,
            ),
        decreases priors@.len() - at,
    {
        let ghost before = names@;
        names.push(at as u64);
        assert(names@ =~= Seq::new((at + 1 - first) as nat, |i: int| (first + i) as u64));
        at = at + 1;
    }
    names
}

fn is_in_block(p: &Prior, first: u64) -> (r: bool)
    ensures
        r == in_block(*p, first),
{
    match p {
        Prior::Correlated { first: f, .. } => *f == first,
        _ => false,
    }
}

fn leaf_of<F: Fn(RealOp, u64, u64) -> u64>(priors: &Vec<Prior>, v: u64, reals: &F) -> (r: Option<Leaf>)
    requires
        v < priors@.len(),
        reals::settled(*reals),
    ensures
        match r {
            Some(l) => prior_leaf(priors@, v, reals::operations(*reals)) == Some(l@),
            None => prior_leaf(priors@, v, reals::operations(*reals)) is None,
        },
{
    let mut names: Vec<u64> = Vec::new();
    names.push(v);
    assert(names@ =~= seq![v]);
    let mut numbers: Vec<u64> = Vec::new();
    let count: usize = priors.len();
    assert(v < count);
    let family: Family = match &priors[v as usize] {
        Prior::Beta { a, b } => {
            numbers.push(*a);
            numbers.push(*b);
            assert(numbers@ =~= seq![*a, *b]);
            Family::Beta
        },
        Prior::Gamma { shape, rate } => {
            numbers.push(*shape);
            numbers.push(*rate);
            assert(numbers@ =~= seq![*shape, *rate]);
            Family::Gamma
        },
        Prior::Pinned { value } => {
            numbers.push(INFINITY);
            numbers.push(*value);
            assert(numbers@ =~= seq![INFINITY, *value]);
            Family::Gamma
        },
        Prior::Dirichlet { alphas } => {
            numbers = clone_numbers(alphas);
            Family::Dirichlet
        },
        Prior::Gaussian { mu, sigma } => {
            let variance: u64 = compute(reals, RealOp::Product, *sigma, *sigma);
            numbers.push(*mu);
            numbers.push(variance);
            assert(numbers@ =~= seq![*mu, variance]);
            Family::Gaussian
        },
        Prior::Correlated { first, mu_and_cov } => {
            if *first != v {
                return None;
            }
            names = block_names(priors, v);
            numbers = clone_numbers(mu_and_cov);
            Family::Gaussian
        },
        Prior::Draw { .. } => {
            return None;
        },
    };
    Some(Leaf { family, names, numbers })
}

/// The priors as leaves.
pub fn prior_registry<F: Fn(RealOp, u64, u64) -> u64>(priors: &Vec<Prior>, reals: &F) -> (r: Vec<Leaf>)
    requires
        reals::settled(*reals),
    ensures
        posterior::leaf_views(r@) == prior_leaves(
            priors@,
            reals::operations(*reals),
            priors@.len(),
        ),
{
    let mut out: Vec<Leaf> = Vec::new();
    let mut i: usize = 0;
    let ghost f = reals::operations(*reals);
    assert(posterior::leaf_views(out@) =~= Seq::empty());
    while i < priors.len()
        invariant
            i <= priors@.len(),
            reals::settled(*reals),
            f == reals::operations(*reals),
            posterior::leaf_views(out@) == prior_leaves(priors@, f, i as nat),
        decreases priors@.len() - i,
    {
        let ghost before = posterior::leaf_views(out@);
        if let Some(l) = leaf_of(priors, i as u64, reals) {
            let ghost e = l@;
            out.push(l);
            assert(posterior::leaf_views(out@) =~= before.push(e));
        }
        i = i + 1;
    }
    out
}

/// Sorting puts leaves in the order of their first variables and loses none.
pub proof fn lemma_leaves_sorted(s: Seq<LeafView>)
    ensures
        leaves_sorted(s).len() == s.len(),
        forall|i: int, j: int|
            0 <= i < j < leaves_sorted(s).len() ==> first_name(#[trigger] leaves_sorted(s)[i])
                <= first_name(#[trigger] leaves_sorted(s)[j]),
        forall|l: LeafView| #[trigger] leaves_sorted(s).contains(l) <==> s.contains(l),
    decreases s.len(),
{
    if s.len() > 0 {
        let p = s.drop_last();
        lemma_leaves_sorted(p);
        lemma_leaf_placed(leaves_sorted(p), s.last());
        assert forall|l: LeafView| #[trigger] leaves_sorted(s).contains(l) <==> s.contains(l) by {
            if p.contains(l) {
                let i = choose|i: int| 0 <= i < p.len() && p[i] == l;
                assert(s[i] == l);
            }
            if s.contains(l) && l != s.last() {
                let i = choose|i: int| 0 <= i < s.len() && s[i] == l;
                assert(p[i] == l);
            }
            assert(s[s.len() - 1] == s.last());
        }
    }
}

proof fn lemma_leaf_placed(s: Seq<LeafView>, l: LeafView)
    requires
        forall|i: int, j: int|
            0 <= i < j < s.len() ==> first_name(#[trigger] s[i]) <= first_name(#[trigger] s[j]),
    ensures
        leaf_placed(s, l).len() == s.len() + 1,
        forall|i: int, j: int|
            0 <= i < j < leaf_placed(s, l).len() ==> first_name(#[trigger] leaf_placed(s, l)[i])
                <= first_name(#[trigger] leaf_placed(s, l)[j]),
        forall|x: LeafView| #[trigger] leaf_placed(s, l).contains(x) <==> (x == l || s.contains(x)),
    decreases s.len(),
{
    let r = leaf_placed(s, l);
    if s.len() == 0 || first_name(s.last()) <= first_name(l) {
        assert forall|i: int, j: int| 0 <= i < j < r.len() implies first_name(#[trigger] r[i])
            <= first_name(#[trigger] r[j]) by {
            if j == s.len() && i < s.len() - 1 {
                assert(first_name(s[i]) <= first_name(s[s.len() - 1]));
            }
        }
        assert forall|x: LeafView| #[trigger] r.contains(x) <==> (x == l || s.contains(x)) by {
            if s.contains(x) {
                let i = choose|i: int| 0 <= i < s.len() && s[i] == x;
                assert(r[i] == x);
            }
            assert(r[s.len() as int] == l);
        }
    } else {
        let p = s.drop_last();
        let q = leaf_placed(p, l);
        lemma_leaf_placed(p, l);
        assert(r == q.push(s.last()));
        assert forall|x: LeafView| #[trigger] r.contains(x) <==> (x == l || s.contains(x)) by {
            if q.contains(x) {
                let i = choose|i: int| 0 <= i < q.len() && q[i] == x;
                assert(r[i] == x);
            }
            if p.contains(x) {
                let i = choose|i: int| 0 <= i < p.len() && p[i] == x;
                assert(s[i] == x);
            }
            if s.contains(x) && x != s.last() {
                let i = choose|i: int| 0 <= i < s.len() && s[i] == x;
                assert(p[i] == x);
            }
            assert(s[s.len() - 1] == s.last());
            assert(r[q.len() as int] == s.last());
            if r.contains(x) {
                let i = choose|i: int| 0 <= i < r.len() && r[i] == x;
                if i < q.len() {
                    assert(q[i] == x);
                }
            }
        }
        assert forall|i: int, j: int| 0 <= i < j < r.len() implies first_name(#[trigger] r[i])
            <= first_name(#[trigger] r[j]) by {
            if j < q.len() {
                assert(first_name(q[i]) <= first_name(q[j]));
            } else {
                assert(q.contains(q[i]));
                if q[i] != l {
                    let k = choose|k: int| 0 <= k < p.len() && p[k] == q[i];
                    assert(first_name(s[k]) <= first_name(s[s.len() - 1]));
                }
            }
        }
    }
}

} // verus!
