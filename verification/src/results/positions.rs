//! Where the continuous variables stand in a result.

use std::collections::BTreeSet;

use vstd::prelude::*;

use super::naming::{Path, Steps};
use crate::discrete_factorizations::BooleanFunction;
use crate::inference::sampling::GammaDraw;
use crate::language::types::Symbol;
use crate::language::values;
use crate::language::values::{PluckVal, PluckValue, Position, SymbolicPositionKind};
use crate::utils::reals;
use crate::utils::reals::real_rank;

verus! {

broadcast use vstd::std_specs::btree::group_btree_axioms;

/// An affine combination of Gaussian variables, with the coefficients by
/// variable.
#[derive(Debug)]
pub struct GaussianAffineExpr {
    pub constant: u64,
    pub coefficients: Vec<(u64, u64)>,
}

/// What an affine combination is.
pub struct Affine {
    pub constant: u64,
    pub coefficients: Seq<(u64, u64)>,
}

impl View for GaussianAffineExpr {
    type V = Affine;

    open spec fn view(&self) -> Affine {
        Affine { constant: self.constant, coefficients: self.coefficients@ }
    }
}

impl GaussianAffineExpr {
    pub fn duplicate(&self) -> (r: Self)
        ensures
            r@ == self@,
    {
        GaussianAffineExpr {
            constant: self.constant,
            coefficients: values::clone_pairs(&self.coefficients),
        }
    }

    pub fn same(&self, other: &Self) -> (r: bool)
        ensures
            r == (self@ == other@),
    {
        self.constant == other.constant && values::same_pairs(
            &self.coefficients,
            &other.coefficients,
        )
    }
}

/// The positions of the continuous variables in a value, family by family,
/// in the order of their paths.
#[derive(Debug)]
pub struct ResultPositions {
    pub gauss_path_to_expr: Vec<(Path, GaussianAffineExpr)>,
    pub beta_path_to_var: Vec<(Path, u64)>,
    pub dir_path_to_var: Vec<(Path, u64)>,
    /// Each gamma-family query position → `(variable, scale)`. `scale` is the
    /// gamma scale factor (1 for an unscaled gamma or any draw); a queried
    /// scaled gamma `s·g` reports its *scaled* distribution.
    pub gamma_path_to_var: Vec<(Path, (u64, u64))>,
}

/// What positions there are.
pub struct Found {
    pub gauss: Seq<(Steps, Affine)>,
    pub beta: Seq<(Steps, u64)>,
    pub dirichlet: Seq<(Steps, u64)>,
    pub gamma: Seq<(Steps, (u64, u64))>,
}

impl View for ResultPositions {
    type V = Found;

    open spec fn view(&self) -> Found {
        Found {
            gauss: Seq::new(
                self.gauss_path_to_expr@.len(),
                |i: int| (self.gauss_path_to_expr@[i].0@, self.gauss_path_to_expr@[i].1@),
            ),
            beta: Seq::new(
                self.beta_path_to_var@.len(),
                |i: int| (self.beta_path_to_var@[i].0@, self.beta_path_to_var@[i].1),
            ),
            dirichlet: Seq::new(
                self.dir_path_to_var@.len(),
                |i: int| (self.dir_path_to_var@[i].0@, self.dir_path_to_var@[i].1),
            ),
            gamma: Seq::new(
                self.gamma_path_to_var@.len(),
                |i: int| (self.gamma_path_to_var@[i].0@, self.gamma_path_to_var@[i].1),
            ),
        }
    }
}

/// The continuous variables in a value, from left to right, each with the
/// path that leads to it from a value at `path`. The entries of a matrix are
/// like the arguments of a constructor with the greatest symbol.
pub open spec fn spots(v: &PluckValue, path: Steps) -> Seq<(Steps, Position)>
    decreases v,
{
    match values::position_of(*v) {
        Some(p) => seq![(path, p)],
        None => match v {
            PluckValue::Value { constructor, args } => spots_in(args@, path, *constructor),
            PluckValue::FloatMatrix { entries, .. } => spots_in(entries@, path, u32::MAX),
            _ => Seq::empty(),
        },
    }
}

pub open spec fn spots_in(s: Seq<PluckVal>, path: Steps, ctor: Symbol) -> Seq<(Steps, Position)>
    decreases s,
{
    if s.len() == 0 {
        Seq::empty()
    } else {
        spots_in(s.drop_last(), path, ctor) + spots(&*s.last(),
            path.push((ctor, (s.len() - 1) as usize)),
        )
    }
}

/// Positions by family.
pub open spec fn found(s: Seq<(Steps, Position)>) -> Found
    decreases s.len(),
{
    if s.len() == 0 {
        Found {
            gauss: Seq::empty(),
            beta: Seq::empty(),
            dirichlet: Seq::empty(),
            gamma: Seq::empty(),
        }
    } else {
        let f = found(s.drop_last());
        let path = s.last().0;
        match s.last().1 {
            Position::Beta(n) => Found { beta: f.beta.push((path, n)), ..f },
            Position::Dirichlet(n) => Found { dirichlet: f.dirichlet.push((path, n)), ..f },
            Position::Gamma { name, scale } => Found {
                gamma: f.gamma.push((path, (name, scale))),
                ..f
            },
            Position::Gaussian { constant, coefficients } => Found {
                gauss: f.gauss.push((path, Affine { constant, coefficients })),
                ..f
            },
        }
    }
}

/// The positions of two lists.
pub open spec fn joined(a: Found, b: Found) -> Found {
    Found {
        gauss: a.gauss + b.gauss,
        beta: a.beta + b.beta,
        dirichlet: a.dirichlet + b.dirichlet,
        gamma: a.gamma + b.gamma,
    }
}

spec fn same_found(a: Found, b: Found) -> bool {
    &&& a.gauss =~= b.gauss
    &&& a.beta =~= b.beta
    &&& a.dirichlet =~= b.dirichlet
    &&& a.gamma =~= b.gamma
}

proof fn lemma_found_joined(s: Seq<(Steps, Position)>, t: Seq<(Steps, Position)>)
    ensures
        found(s + t) == joined(found(s), found(t)),
    decreases t.len(),
{
    if t.len() == 0 {
        assert(s + t =~= s);
        assert(same_found(found(s), joined(found(s), found(t))));
    } else {
        assert((s + t).drop_last() =~= s + t.drop_last());
        assert((s + t).last() == t.last());
        lemma_found_joined(s, t.drop_last());
        assert(same_found(found(s + t), joined(found(s), found(t))));
    }
}

proof fn lemma_joined_assoc(a: Found, b: Found, c: Found)
    ensures
        joined(joined(a, b), c) == joined(a, joined(b, c)),
{
    assert(same_found(joined(joined(a, b), c), joined(a, joined(b, c))));
}

pub fn clone_path(path: &Path) -> (r: Path)
    ensures
        r@ == path@,
{
    let mut out: Path = Vec::new();
    let mut i: usize = 0;
    while i < path.len()
        invariant
            i <= path@.len(),
            out@ == path@.take(i as int),
        decreases path@.len() - i,
    {
        out.push(path[i]);
        assert(path@.take(i + 1) =~= path@.take(i as int).push(path@[i as int]));
        i = i + 1;
    }
    assert(path@.take(i as int) =~= path@);
    out
}

/// Add the positions in a value to those found so far.
pub fn collect_positions(val: &PluckVal, path: &mut Path, positions: &mut ResultPositions)
    ensures
        final(path)@ == old(path)@,
        final(positions)@ == joined(old(positions)@, found(spots(&**val, old(path)@))),
    decreases val,
{
    let ghost before = positions@;
    if let Some(kind) = val.position_kind() {
        let ghost s = spots(&**val, path@);
        assert(s =~= seq![(path@, kind@)]);
        assert(s.drop_last() =~= Seq::empty());
        proof {
            reveal_with_fuel(found, 2);
        }
        match kind {
            SymbolicPositionKind::Beta(name) => {
                positions.beta_path_to_var.push((clone_path(path), name));
            },
            SymbolicPositionKind::Dirichlet(name) => {
                positions.dir_path_to_var.push((clone_path(path), name));
            },
            SymbolicPositionKind::Gamma { name, scale } => {
                positions.gamma_path_to_var.push((clone_path(path), (name, scale)));
            },
            SymbolicPositionKind::Gaussian { constant, coefficients } => {
                positions.gauss_path_to_expr.push(
                    (clone_path(path), GaussianAffineExpr { constant, coefficients }),
                );
            },
        }
        assert(same_found(positions@, joined(before, found(s))));
        return ;
    }
    match &**val {
        PluckValue::Value { constructor, args } => {
            collect_arguments(args, *constructor, path, positions);
        },
        PluckValue::FloatMatrix { entries, .. } => {
            collect_arguments(entries, u32::MAX, path, positions);
        },
        _ => {
            assert(same_found(positions@, joined(before, found(spots(&**val, path@)))));
        },
    }
}

fn collect_arguments(
    args: &Vec<PluckVal>,
    ctor: Symbol,
    path: &mut Path,
    positions: &mut ResultPositions,
)
    ensures
        final(path)@ == old(path)@,
        final(positions)@ == joined(old(positions)@, found(spots_in(args@, old(path)@, ctor))),
    decreases args,
{
    let ghost before = positions@;
    let ghost here = path@;
    let mut i: usize = 0;
    assert(same_found(before, joined(before, found(spots_in(args@.take(0), here, ctor)))));
    while i < args.len()
        invariant
            i <= args@.len(),
            path@ == here,
            positions@ == joined(before, found(spots_in(args@.take(i as int), here, ctor))),
        decreases args@.len() - i,
    {
        let ghost so_far = positions@;
        path.push((ctor, i));
        collect_positions(&args[i], path, positions);
        path.pop();
        proof {
            let p = args@.take(i as int);
            let q = args@.take(i + 1);
            assert(q.drop_last() =~= p);
            let s = spots_in(p, here, ctor);
            let t = spots(&*q.last(), here.push((ctor, i)));
            assert(spots_in(q, here, ctor) == s + t);
            lemma_found_joined(s, t);
            lemma_joined_assoc(before, found(s), found(t));
            assert(path@ =~= here);
        }
        i = i + 1;
    }
    assert(args@.take(i as int) =~= args@);
}

/// The positions in each of several values.
pub fn collect_variable_positions(worlds: &Vec<(PluckVal, BooleanFunction)>) -> (r: Vec<
    ResultPositions,
>)
    ensures
        r@.len() == worlds@.len(),
        forall|i: int|
            0 <= i < r@.len() ==> (#[trigger] r@[i])@ == found(
                spots(&*worlds@[i].0, Seq::empty()),
            ),
{
    let mut out: Vec<ResultPositions> = Vec::new();
    let mut i: usize = 0;
    while i < worlds.len()
        invariant
            i <= worlds@.len(),
            out@.len() == i,
            forall|j: int|
                0 <= j < i ==> (#[trigger] out@[j])@ == found(spots(&*worlds@[j].0, Seq::empty())),
        decreases worlds@.len() - i,
    {
        let mut positions = ResultPositions {
            gauss_path_to_expr: Vec::new(),
            beta_path_to_var: Vec::new(),
            dir_path_to_var: Vec::new(),
            gamma_path_to_var: Vec::new(),
        };
        let mut path: Path = Vec::new();
        let ghost none = positions@;
        collect_positions(&worlds[i].0, &mut path, &mut positions);
        proof {
            let s = spots(&*worlds@[i as int].0, Seq::empty());
            assert(same_found(joined(none, found(s)), found(s)));
        }
        out.push(positions);
        i = i + 1;
    }
    out
}

/// One path comes before another: where they part, the step of the first is
/// less.
pub open spec fn comes_before(a: Steps, b: Steps) -> bool {
    exists|k: int| #[trigger] parts_at(a, b, k)
}

pub open spec fn parts_at(a: Steps, b: Steps, k: int) -> bool {
    &&& 0 <= k < a.len()
    &&& k < b.len()
    &&& a.take(k) == b.take(k)
    &&& a[k].0 < b[k].0 || (a[k].0 == b[k].0 && a[k].1 < b[k].1)
}

/// The path goes on from `from`.
pub open spec fn extends(a: Steps, from: Steps) -> bool {
    from.len() <= a.len() && a.take(from.len() as int) == from
}

spec fn is_spot(v: &PluckValue) -> bool {
    values::position_of(*v) is Some
}

/// Positions are found in the order of their paths, and each path once.
pub proof fn lemma_spots_in_order(v: &PluckValue, path: Steps)
    ensures
        forall|i: int, j: int|
            0 <= i < j < spots(v, path).len() ==> comes_before(
                (#[trigger] spots(v, path)[i]).0,
                (#[trigger] spots(v, path)[j]).0,
            ),
        forall|i: int|
            0 <= i < spots(v, path).len() ==> extends((#[trigger] spots(v, path)[i]).0, path),
    decreases v, 1int,
{
    if is_spot(v) {
        assert(path.take(path.len() as int) =~= path);
    } else {
        match v {
            PluckValue::Value { constructor, args } => {
                assert(args.len() <= usize::MAX);
                lemma_spots_in_in_order(args@, path, *constructor);
                assert(spots(v, path) == spots_in(args@, path, *constructor));
            },
            PluckValue::FloatMatrix { entries, .. } => {
                assert(entries.len() <= usize::MAX);
                lemma_spots_in_in_order(entries@, path, u32::MAX);
                assert(spots(v, path) == spots_in(entries@, path, u32::MAX));
            },
            _ => {
                assert(spots(v, path).len() == 0);
            },
        }
    }
}

/// Which argument a path leads through.
spec fn branch(a: Steps, path: Steps) -> usize {
    a[path.len() as int].1
}

proof fn lemma_spots_in_in_order(s: Seq<PluckVal>, path: Steps, ctor: Symbol)
    requires
        s.len() <= usize::MAX,
    ensures
        forall|i: int, j: int|
            0 <= i < j < spots_in(s, path, ctor).len() ==> comes_before(
                (#[trigger] spots_in(s, path, ctor)[i]).0,
                (#[trigger] spots_in(s, path, ctor)[j]).0,
            ),
        forall|i: int|
            0 <= i < spots_in(s, path, ctor).len() ==> {
                let a = (#[trigger] spots_in(s, path, ctor)[i]).0;
                &&& extends(a, path)
                &&& a.len() > path.len()
                &&& a[path.len() as int].0 == ctor
                &&& branch(a, path) < s.len()
            },
    decreases s, 0int,
{
    if s.len() > 0 {
        let p = s.drop_last();
        lemma_spots_in_in_order(p, path, ctor);
        let at = (s.len() - 1) as usize;
        let on = path.push((ctor, at));
        lemma_spots_in_order(&*s.last(), on);
        let x = spots_in(p, path, ctor);
        let y = spots(&*s.last(), on);
        let all = spots_in(s, path, ctor);
        assert(all == x + y);
        assert forall|i: int| 0 <= i < y.len() implies {
            let a = (#[trigger] y[i]).0;
            &&& extends(a, path)
            &&& a.len() > path.len()
            &&& a[path.len() as int] == (ctor, at)
        } by {
            let a = y[i].0;
            assert(extends(a, on));
            assert(a.take(on.len() as int)[path.len() as int] == on[path.len() as int]);
            assert(a.take(path.len() as int) =~= a.take(on.len() as int).take(path.len() as int));
            assert(on.take(path.len() as int) =~= path);
        }
        assert forall|i: int| 0 <= i < all.len() implies {
            let a = (#[trigger] all[i]).0;
            &&& extends(a, path)
            &&& a.len() > path.len()
            &&& a[path.len() as int].0 == ctor
            &&& branch(a, path) < s.len()
        } by {
            if i < x.len() {
                assert(all[i] == x[i]);
            } else {
                assert(all[i] == y[i - x.len()]);
            }
        }
        assert forall|i: int, j: int| 0 <= i < j < all.len() implies comes_before(
            (#[trigger] all[i]).0,
            (#[trigger] all[j]).0,
        ) by {
            if j < x.len() {
                assert(all[i] == x[i] && all[j] == x[j]);
            } else if i >= x.len() {
                assert(all[i] == y[i - x.len()] && all[j] == y[j - x.len()]);
            } else {
                assert(all[i] == x[i] && all[j] == y[j - x.len()]);
                assert(parts_at(all[i].0, all[j].0, path.len() as int));
            }
        }
    }
}

/// The continuous variables that a value refers to.
pub open spec fn reach(v: &PluckValue) -> Set<u64>
    decreases v,
{
    match v {
        PluckValue::Value { args, .. } => reach_all(args@),
        PluckValue::FloatMatrix { entries, .. } => reach_all(entries@),
        _ => values::variables_of(*v),
    }
}

pub open spec fn reach_all(s: Seq<PluckVal>) -> Set<u64>
    decreases s,
{
    if s.len() == 0 {
        Set::empty()
    } else {
        reach_all(s.drop_last()).union(reach(&*s.last()))
    }
}

/// The continuous variables that a value refers to.
pub fn scope_of(val: &PluckVal) -> (r: BTreeSet<u64>)
    ensures
        r@ == reach(&**val),
{
    let mut scope: BTreeSet<u64> = BTreeSet::new();
    collect_scope(val, &mut scope);
    assert(scope@ =~= reach(&**val));
    scope
}

fn collect_scope(val: &PluckVal, scope: &mut BTreeSet<u64>)
    ensures
        final(scope)@ == old(scope)@.union(reach(&**val)),
    decreases val,
{
    match &**val {
        PluckValue::Value { args, .. } => {
            collect_scopes(args, scope);
        },
        PluckValue::FloatMatrix { entries, .. } => {
            collect_scopes(entries, scope);
        },
        _ => {
            val.scope_into(scope);
        },
    }
}

fn collect_scopes(args: &Vec<PluckVal>, scope: &mut BTreeSet<u64>)
    ensures
        final(scope)@ == old(scope)@.union(reach_all(args@)),
    decreases args,
{
    let ghost before = scope@;
    let mut i: usize = 0;
    assert(before =~= before.union(reach_all(args@.take(0))));
    while i < args.len()
        invariant
            i <= args@.len(),
            scope@ == before.union(reach_all(args@.take(i as int))),
        decreases args@.len() - i,
    {
        collect_scope(&args[i], scope);
        proof {
            let p = args@.take(i as int);
            let q = args@.take(i + 1);
            assert(q.drop_last() =~= p);
            assert(before.union(reach_all(q)) =~= before.union(reach_all(p)).union(
                reach(&*q.last()),
            ));
        }
        i = i + 1;
    }
    assert(args@.take(i as int) =~= args@);
}

/// The Poisson and Exponential draws that a value refers to, from left to
/// right.
pub open spec fn draws_in(v: &PluckValue) -> Seq<GammaDraw>
    decreases v,
{
    match v {
        PluckValue::Poisson { name, gamma, scale } => seq![
            GammaDraw { draw: *name, poisson: true, gamma: *gamma, scale: *scale },
        ],
        PluckValue::Exponential { name, gamma, scale } => seq![
            GammaDraw { draw: *name, poisson: false, gamma: *gamma, scale: *scale },
        ],
        PluckValue::Value { args, .. } => draws_in_all(args@),
        PluckValue::FloatMatrix { entries, .. } => draws_in_all(entries@),
        _ => Seq::empty(),
    }
}

pub open spec fn draws_in_all(s: Seq<PluckVal>) -> Seq<GammaDraw>
    decreases s,
{
    if s.len() == 0 {
        Seq::empty()
    } else {
        draws_in_all(s.drop_last()) + draws_in(&*s.last())
    }
}

/// The order of draws: Poisson before Exponential, and then by rate, draw and
/// scale.
pub open spec fn draw_before(a: GammaDraw, b: GammaDraw) -> bool {
    if a.poisson != b.poisson {
        a.poisson
    } else if a.gamma != b.gamma {
        a.gamma < b.gamma
    } else if a.draw != b.draw {
        a.draw < b.draw
    } else {
        reals::rank(a.scale) < reals::rank(b.scale)
    }
}

/// Neither draw comes before the other.
pub open spec fn same_draw(a: GammaDraw, b: GammaDraw) -> bool {
    !draw_before(a, b) && !draw_before(b, a)
}

/// A list in order with one more draw, unless it is there.
pub open spec fn draw_inserted(s: Seq<GammaDraw>, d: GammaDraw) -> Seq<GammaDraw>
    decreases s.len(),
{
    if s.len() == 0 || draw_before(s.last(), d) {
        s.push(d)
    } else if same_draw(s.last(), d) {
        s
    } else {
        draw_inserted(s.drop_last(), d).push(s.last())
    }
}

/// Draws in order, each once.
pub open spec fn draws_ordered(s: Seq<GammaDraw>) -> Seq<GammaDraw>
    decreases s.len(),
{
    if s.len() == 0 {
        Seq::empty()
    } else {
        draw_inserted(draws_ordered(s.drop_last()), s.last())
    }
}

pub open spec fn draws_increase(s: Seq<GammaDraw>) -> bool {
    forall|i: int, j: int|
        0 <= i < j < s.len() ==> draw_before(#[trigger] s[i], #[trigger] s[j])
}

pub open spec fn holds_draw(s: Seq<GammaDraw>, d: GammaDraw) -> bool {
    exists|i: int| 0 <= i < s.len() && same_draw(#[trigger] s[i], d)
}

proof fn lemma_draw_inserted(s: Seq<GammaDraw>, d: GammaDraw)
    requires
        draws_increase(s),
    ensures
        draws_increase(draw_inserted(s, d)),
        forall|e: GammaDraw| #[trigger]
            holds_draw(draw_inserted(s, d), e) <==> (holds_draw(s, e) || same_draw(d, e)),
        forall|i: int|
            0 <= i < draw_inserted(s, d).len() ==> #[trigger] draw_inserted(s, d)[i] == d
                || s.contains(draw_inserted(s, d)[i]),
    decreases s.len(),
{
    let r = draw_inserted(s, d);
    if s.len() == 0 || draw_before(s.last(), d) {
        assert forall|i: int, j: int| 0 <= i < j < r.len() implies draw_before(
            #[trigger] r[i],
            #[trigger] r[j],
        ) by {
            if j == s.len() && i < s.len() - 1 {
                assert(draw_before(s[i], s[s.len() - 1]));
            }
        }
        assert forall|i: int| 0 <= i < r.len() implies #[trigger] r[i] == d || s.contains(r[i]) by {
            if i < s.len() {
                assert(s[i] == r[i]);
            }
        }
        assert forall|e: GammaDraw| #[trigger] holds_draw(r, e) <==> (holds_draw(s, e) || same_draw(
            d,
            e,
        )) by {
            if holds_draw(s, e) {
                let i = choose|i: int| 0 <= i < s.len() && same_draw(#[trigger] s[i], e);
                assert(same_draw(r[i], e));
            }
            if same_draw(d, e) {
                assert(same_draw(r[s.len() as int], e));
            }
            if holds_draw(r, e) {
                let i = choose|i: int| 0 <= i < r.len() && same_draw(#[trigger] r[i], e);
                if i < s.len() {
                    assert(same_draw(s[i], e));
                }
            }
        }
    } else if same_draw(s.last(), d) {
        assert forall|e: GammaDraw| #[trigger] holds_draw(r, e) <==> (holds_draw(s, e) || same_draw(
            d,
            e,
        )) by {
            if same_draw(d, e) {
                assert(same_draw(s[s.len() - 1], e));
            }
        }
        assert forall|i: int| 0 <= i < r.len() implies #[trigger] r[i] == d || s.contains(r[i]) by {
            assert(s[i] == r[i]);
        }
    } else {
        let p = s.drop_last();
        let q = draw_inserted(p, d);
        lemma_draw_inserted(p, d);
        assert(r == q.push(s.last()));
        assert forall|i: int| 0 <= i < r.len() implies #[trigger] r[i] == d || s.contains(r[i]) by {
            if i < q.len() {
                assert(r[i] == q[i]);
                if q[i] != d {
                    let k = choose|k: int| 0 <= k < p.len() && p[k] == q[i];
                    assert(s[k] == r[i]);
                }
            } else {
                assert(s[s.len() - 1] == r[i]);
            }
        }
        assert forall|i: int, j: int| 0 <= i < j < r.len() implies draw_before(
            #[trigger] r[i],
            #[trigger] r[j],
        ) by {
            if j < q.len() {
                assert(draw_before(q[i], q[j]));
            } else {
                assert(r[i] == q[i]);
                if q[i] != d {
                    let k = choose|k: int| 0 <= k < p.len() && p[k] == q[i];
                    assert(draw_before(s[k], s[s.len() - 1]));
                }
            }
        }
        assert forall|e: GammaDraw| #[trigger] holds_draw(r, e) <==> (holds_draw(s, e) || same_draw(
            d,
            e,
        )) by {
            if holds_draw(s, e) {
                let i = choose|i: int| 0 <= i < s.len() && same_draw(#[trigger] s[i], e);
                if i < p.len() {
                    assert(same_draw(p[i], e));
                    assert(holds_draw(q, e));
                } else {
                    assert(same_draw(r[q.len() as int], e));
                }
            }
            if same_draw(d, e) {
                assert(holds_draw(q, e));
            }
            if holds_draw(q, e) {
                let i = choose|i: int| 0 <= i < q.len() && same_draw(#[trigger] q[i], e);
                assert(same_draw(r[i], e));
            }
            if holds_draw(r, e) {
                let i = choose|i: int| 0 <= i < r.len() && same_draw(#[trigger] r[i], e);
                if i < q.len() {
                    assert(same_draw(q[i], e));
                    assert(holds_draw(q, e));
                    if holds_draw(p, e) {
                        let k = choose|k: int| 0 <= k < p.len() && same_draw(#[trigger] p[k], e);
                        assert(same_draw(s[k], e));
                    }
                } else {
                    assert(same_draw(s[s.len() - 1], e));
                }
            }
        }
    }
}

/// The ordered draws increase, and are those of the list.
pub proof fn lemma_draws_ordered(s: Seq<GammaDraw>, d: GammaDraw)
    ensures
        draws_increase(draws_ordered(s)),
        holds_draw(draws_ordered(s), d) <==> holds_draw(s, d),
    decreases s.len(),
{
    if s.len() > 0 {
        let p = s.drop_last();
        lemma_draws_ordered(p, d);
        lemma_draw_inserted(draws_ordered(p), s.last());
        if holds_draw(p, d) {
            let i = choose|i: int| 0 <= i < p.len() && same_draw(#[trigger] p[i], d);
            assert(same_draw(s[i], d));
        }
        if same_draw(s.last(), d) {
            assert(same_draw(s[s.len() - 1], d));
        }
        if holds_draw(s, d) {
            let i = choose|i: int| 0 <= i < s.len() && same_draw(#[trigger] s[i], d);
            if i < p.len() {
                assert(same_draw(p[i], d));
            }
        }
    }
}

fn comes_first(a: &GammaDraw, b: &GammaDraw) -> (r: bool)
    ensures
        r == draw_before(*a, *b),
{
    if a.poisson != b.poisson {
        a.poisson
    } else if a.gamma != b.gamma {
        a.gamma < b.gamma
    } else if a.draw != b.draw {
        a.draw < b.draw
    } else {
        real_rank(a.scale) < real_rank(b.scale)
    }
}

fn insert_draw(s: &mut Vec<GammaDraw>, d: GammaDraw)
    ensures
        final(s)@ == draw_inserted(old(s)@, d),
{
    let ghost whole = s@;
    let mut at: usize = s.len();
    assert(whole.take(at as int) =~= whole);
    assert(draw_inserted(whole.take(at as int), d) + whole.skip(at as int) =~= draw_inserted(
        whole,
        d,
    ));
    while at > 0 && comes_first(&d, &s[at - 1])
        invariant
            s@ == whole,
            at <= whole.len(),
            draw_inserted(whole.take(at as int), d) + whole.skip(at as int) == draw_inserted(
                whole,
                d,
            ),
        decreases at,
    {
        proof {
            let front = whole.take(at as int);
            assert(front.drop_last() =~= whole.take(at - 1));
            assert(front.last() == whole[at - 1]);
            assert(!same_draw(front.last(), d));
            assert(!draw_before(front.last(), d));
            assert(draw_inserted(whole.take(at - 1), d) + whole.skip(at - 1) =~= draw_inserted(
                front,
                d,
            ) + whole.skip(at as int));
        }
        at = at - 1;
    }
    if at > 0 && !comes_first(&s[at - 1], &d) {
        assert(draw_inserted(whole.take(at as int), d) == whole.take(at as int));
        assert(s@ =~= whole.take(at as int) + whole.skip(at as int));
    } else {
        s.insert(at, d);
        assert(draw_inserted(whole.take(at as int), d) == whole.take(at as int).push(d));
        assert(s@ =~= whole.take(at as int).push(d) + whole.skip(at as int));
    }
}

/// The draws that a value refers to, in order, each once.
pub fn gamma_draw_refs(val: &PluckVal) -> (r: Vec<GammaDraw>)
    ensures
        r@ == draws_ordered(draws_in(&**val)),
{
    let mut out: Vec<GammaDraw> = Vec::new();
    let ghost none = Seq::<GammaDraw>::empty();
    assert(out@ == draws_ordered(none));
    collect_gamma_draw_refs(val, &mut out, Ghost(none));
    assert(none + draws_in(&**val) =~= draws_in(&**val));
    out
}

proof fn lemma_draws_extended(s: Seq<GammaDraw>, d: GammaDraw)
    ensures
        draws_ordered(s + seq![d]) == draw_inserted(draws_ordered(s), d),
{
    assert((s + seq![d]).drop_last() =~= s);
}

fn collect_gamma_draw_refs(val: &PluckVal, out: &mut Vec<GammaDraw>, Ghost(so_far): Ghost<Seq<GammaDraw>>)
    requires
        old(out)@ == draws_ordered(so_far),
    ensures
        final(out)@ == draws_ordered(so_far + draws_in(&**val)),
    decreases val,
{
    match &**val {
        PluckValue::Poisson { name, gamma, scale } => {
            let d = GammaDraw { draw: *name, poisson: true, gamma: *gamma, scale: *scale };
            insert_draw(out, d);
            proof {
                lemma_draws_extended(so_far, d);
            }
        },
        PluckValue::Exponential { name, gamma, scale } => {
            let d = GammaDraw { draw: *name, poisson: false, gamma: *gamma, scale: *scale };
            insert_draw(out, d);
            proof {
                lemma_draws_extended(so_far, d);
            }
        },
        PluckValue::Value { args, .. } => {
            collect_all_draw_refs(args, out, Ghost(so_far));
        },
        PluckValue::FloatMatrix { entries, .. } => {
            collect_all_draw_refs(entries, out, Ghost(so_far));
        },
        _ => {
            assert(so_far + draws_in(&**val) =~= so_far);
        },
    }
}

fn collect_all_draw_refs(
    args: &Vec<PluckVal>,
    out: &mut Vec<GammaDraw>,
    Ghost(so_far): Ghost<Seq<GammaDraw>>,
)
    requires
        old(out)@ == draws_ordered(so_far),
    ensures
        final(out)@ == draws_ordered(so_far + draws_in_all(args@)),
    decreases args,
{
    let mut i: usize = 0;
    assert(so_far + draws_in_all(args@.take(0)) =~= so_far);
    while i < args.len()
        invariant
            i <= args@.len(),
            out@ == draws_ordered(so_far + draws_in_all(args@.take(i as int))),
        decreases args@.len() - i,
    {
        let ghost p = args@.take(i as int);
        collect_gamma_draw_refs(&args[i], out, Ghost(so_far + draws_in_all(p)));
        proof {
            let q = args@.take(i + 1);
            assert(q.drop_last() =~= p);
            assert(so_far + draws_in_all(p) + draws_in(&*q.last()) =~= so_far + draws_in_all(q));
        }
        i = i + 1;
    }
    assert(args@.take(i as int) =~= args@);
}

} // verus!
