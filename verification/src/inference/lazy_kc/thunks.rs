//! Delayed arguments, scopes and the parts of expressions.

use std::rc::Rc;

use vstd::prelude::*;

use super::callstack::Callstack;
use super::kont;
use super::semantics;
use super::semantics::Model;
use super::settle;
use crate::discrete_factorizations::Worlds;
use crate::language::pexpr;
use crate::language::pexpr::{CaseOfGuard, Head, NativeVal, PExpr, Tree, Weight};
use crate::language::primitives::Primitive;
use crate::language::types::Symbol;
use crate::language::values;
use crate::language::values::{
    env_cons, env_lookup, mk_native_float, mk_thunk, Env, Outcome, PluckVal, PluckValue,
};
use crate::utils::reals;
use crate::utils::reals::{compute, RealOp, ONE, ZERO};

verus! {

/// Create a thunk (lazy value) for an expression. A variable is what it is
/// bound to.
pub fn make_thunk(expr: &PExpr, env: &Env, strict_order_index: i32, callstack: &Callstack) -> (r: PluckVal)
    ensures
        forall|a: Worlds| #[trigger]
            env.at(a) is Some ==> r.at(a) == Some(
                semantics::delayed(expr.tree(), env.at(a)->0, strict_order_index, callstack@),
            ),
        forall|order: Seq<u64>| env.over(order) ==> #[trigger] r.over(order),
{
    match expr {
        PExpr::Var { name } => match env_lookup(env, *name) {
            Some(val) => {
                proof {
                    assert forall|a: Worlds| #[trigger] env.at(a) is Some implies val.at(a) == Some(
                        semantics::delayed(
                            expr.tree(),
                            env.at(a)->0,
                            strict_order_index,
                            callstack@,
                        ),
                    ) by {
                        values::lemma_find(&**env, *name, a);
                    }
                    assert forall|order: Seq<u64>| env.over(order) implies #[trigger] val.over(order) by {
                        values::lemma_find_over(&**env, *name, order);
                    }
                }
                return val;
            },
            None => {
                proof {
                    assert forall|a: Worlds| #[trigger] env.at(a) is Some implies values::lookup(
                        env.at(a)->0,
                        *name,
                    ) is None by {
                        values::lemma_find(&**env, *name, a);
                    }
                }
            },
        },
        _ => {},
    }
    mk_thunk(Rc::new(expr.clone()), env.clone(), strict_order_index, callstack.to_vec())
}

/// Thunks for the arguments of a constructor.
pub(crate) fn make_thunks(args: &Vec<PExpr>, env: &Env, callstack: &Callstack) -> (r: Vec<PluckVal>)
    ensures
        forall|a: Worlds| #[trigger]
            env.at(a) is Some ==> values::all_at(r@, a) == Some(
                semantics::all_delayed(pexpr::trees(args@), env.at(a)->0, callstack@),
            ),
        forall|order: Seq<u64>| env.over(order) ==> #[trigger] values::all_over(r@, order),
{
    let mut r: Vec<PluckVal> = Vec::new();
    let mut i: usize = 0;
    while i < args.len()
        invariant
            i <= args@.len(),
            r@.len() == i,
            forall|a: Worlds, j: int|
                0 <= j < i && env.at(a) is Some ==> #[trigger] r@[j].at(a) == Some(
                    semantics::delayed(args@[j].tree(), env.at(a)->0, j as i32, callstack@),
                ),
            forall|order: Seq<u64>, j: int|
                0 <= j < i && env.over(order) ==> #[trigger] r@[j].over(order),
        decreases args@.len() - i,
    {
        let ghost before = r@;
        let v: PluckVal = make_thunk(&args[i], env, i as i32, callstack);
        r.push(v);
        proof {
            assert forall|a: Worlds, j: int| 0 <= j < i + 1 && env.at(a) is Some implies #[trigger] r@[j].at(
                a,
            ) == Some(semantics::delayed(args@[j].tree(), env.at(a)->0, j as i32, callstack@)) by {
                if j < i {
                    assert(r@[j] == before[j]);
                    assert(before[j].at(a) == Some(
                        semantics::delayed(args@[j].tree(), env.at(a)->0, j as i32, callstack@),
                    ));
                }
            }
            assert forall|order: Seq<u64>, j: int| 0 <= j < i + 1 && env.over(order) implies #[trigger] r@[j].over(
                order,
            ) by {
                if j < i {
                    assert(r@[j] == before[j]);
                    assert(before[j].over(order));
                }
            }
        }
        i = i + 1;
    }
    proof {
        pexpr::lemma_trees(args@);
        assert forall|a: Worlds| #[trigger] env.at(a) is Some implies values::all_at(r@, a) == Some(
            semantics::all_delayed(pexpr::trees(args@), env.at(a)->0, callstack@),
        ) by {
            values::lemma_all_at(r@, a);
            let want = semantics::all_delayed(pexpr::trees(args@), env.at(a)->0, callstack@);
            assert forall|j: int| 0 <= j < r@.len() implies (#[trigger] r@[j]).at(a) == Some(want[j]) by {
                assert(pexpr::trees(args@)[j] == args@[j].tree());
            }
            assert(values::all_at(r@, a) is Some);
            let ds = values::all_at(r@, a)->0;
            assert forall|j: int| 0 <= j < ds.len() implies ds[j] == want[j] by {
                assert(r@[j].at(a) == Some(ds[j]));
            }
            assert(ds =~= want);
        }
        assert forall|order: Seq<u64>| env.over(order) implies #[trigger] values::all_over(r@, order) by {
            values::lemma_all_over(r@, order);
        }
    }
    r
}

/// The cells of rows, one after the other.
fn flat_cells<'k>(rows: &'k Vec<Vec<PExpr>>) -> (r: Vec<&'k PExpr>)
    ensures
        kont::kid_trees(r@) == semantics::cells(pexpr::rows(rows@)),
{
    let mut r: Vec<&'k PExpr> = Vec::new();
    let mut i: usize = 0;
    proof {
        pexpr::lemma_rows(rows@);
        assert(pexpr::rows(rows@).take(0) =~= Seq::<Tree>::empty());
        assert(kont::kid_trees(r@) =~= semantics::cells(pexpr::rows(rows@).take(0)));
    }
    while i < rows.len()
        invariant
            i <= rows@.len(),
            pexpr::rows(rows@).len() == rows@.len(),
            kont::kid_trees(r@) == semantics::cells(pexpr::rows(rows@).take(i as int)),
        decreases rows@.len() - i,
    {
        let row: &'k Vec<PExpr> = &rows[i];
        let ghost before = kont::kid_trees(r@);
        let mut j: usize = 0;
        proof {
            pexpr::lemma_trees(row@);
            assert(before + pexpr::trees(row@).take(0) =~= before);
        }
        while j < row.len()
            invariant
                j <= row@.len(),
                pexpr::trees(row@).len() == row@.len(),
                forall|m: int| 0 <= m < row@.len() ==> #[trigger] pexpr::trees(row@)[m] == row@[m].tree(),
                kont::kid_trees(r@) == before + pexpr::trees(row@).take(j as int),
            decreases row@.len() - j,
        {
            let ghost seen = r@;
            r.push(&row[j]);
            proof {
                let all = pexpr::trees(row@);
                assert(kont::kid_trees(r@) =~= kont::kid_trees(seen).push(all[j as int]));
                assert(before + all.take(j + 1) =~= (before + all.take(j as int)).push(all[j as int]));
            }
            j = j + 1;
        }
        proof {
            pexpr::lemma_rows(rows@);
            let all = pexpr::rows(rows@);
            let next = all.take(i + 1);
            assert(next.drop_last() =~= all.take(i as int));
            assert(next.last() == all[i as int]);
            assert(pexpr::trees(row@).take(row@.len() as int) =~= pexpr::trees(row@));
        }
        i = i + 1;
    }
    assert(pexpr::rows(rows@).take(rows@.len() as int) =~= pexpr::rows(rows@));
    r
}

/// An entry of a matrix: a number, or not evaluated yet.
fn make_entry<F: Fn(RealOp, u64, u64) -> u64>(
    expr: &PExpr,
    env: &Env,
    index: i32,
    callstack: &Callstack,
    f: &F,
) -> (r: PluckVal)
    requires
        reals::settled(*f),
    ensures
        !(*r is ThunkUnion),
        forall|a: Worlds, x: Model|
            #![trigger env.at(a), x.arith]
            env.at(a) is Some && x.arith == reals::operations(*f) ==> r.at(a) == Some(
                semantics::entry(x, expr.tree(), env.at(a)->0, index, callstack@),
            ),
        forall|order: Seq<u64>| env.over(order) ==> #[trigger] r.over(order),
{
    match expr {
        PExpr::ConstNative { val: NativeVal::Float(b) } => mk_native_float(*b),
        PExpr::ConstNative { val: NativeVal::Int(i) } => {
            mk_native_float(compute(f, RealOp::OfInt, *i as u64, 0))
        },
        _ => mk_thunk(Rc::new(expr.clone()), env.clone(), index, callstack.to_vec()),
    }
}

/// The entries of a matrix.
pub(crate) fn make_entries<F: Fn(RealOp, u64, u64) -> u64>(
    rows: &Vec<Vec<PExpr>>,
    env: &Env,
    callstack: &Callstack,
    f: &F,
) -> (r: Vec<PluckVal>)
    requires
        reals::settled(*f),
    ensures
        values::no_unions(r@),
        forall|a: Worlds, x: Model|
            #![trigger env.at(a), x.arith]
            env.at(a) is Some && x.arith == reals::operations(*f) ==> values::all_at(r@, a) == Some(
                Seq::new(
                    semantics::cells(pexpr::rows(rows@)).len(),
                    |i: int|
                        semantics::entry(
                            x,
                            semantics::cells(pexpr::rows(rows@))[i],
                            env.at(a)->0,
                            i as i32,
                            callstack@,
                        ),
                ),
            ),
        forall|order: Seq<u64>| env.over(order) ==> #[trigger] values::all_over(r@, order),
{
    let cells: Vec<&PExpr> = flat_cells(rows);
    let ghost all = semantics::cells(pexpr::rows(rows@));
    let mut r: Vec<PluckVal> = Vec::new();
    let mut i: usize = 0;
    while i < cells.len()
        invariant
            i <= cells@.len(),
            reals::settled(*f),
            all == kont::kid_trees(cells@),
            r@.len() == i,
            values::no_unions(r@),
            forall|a: Worlds, x: Model, j: int|
                #![trigger r@[j].at(a), x.arith]
                0 <= j < i && env.at(a) is Some && x.arith == reals::operations(*f) ==> r@[j].at(a)
                    == Some(semantics::entry(x, all[j], env.at(a)->0, j as i32, callstack@)),
            forall|order: Seq<u64>, j: int|
                0 <= j < i && env.over(order) ==> #[trigger] r@[j].over(order),
        decreases cells@.len() - i,
    {
        let ghost before = r@;
        let v: PluckVal = make_entry(cells[i], env, i as i32, callstack, f);
        r.push(v);
        proof {
            assert forall|a: Worlds, x: Model, j: int|
                #![trigger r@[j].at(a), x.arith]
                0 <= j < i + 1 && env.at(a) is Some && x.arith == reals::operations(*f) implies r@[j].at(a)
                == Some(semantics::entry(x, all[j], env.at(a)->0, j as i32, callstack@)) by {
                if j < i {
                    assert(r@[j] == before[j]);
                    assert(before[j].at(a) == r@[j].at(a));
                } else {
                    assert(env.at(a) is Some);
                }
            }
            assert forall|order: Seq<u64>, j: int| 0 <= j < i + 1 && env.over(order) implies #[trigger] r@[j].over(
                order,
            ) by {
                if j < i {
                    assert(r@[j] == before[j]);
                    assert(before[j].over(order));
                }
            }
        }
        i = i + 1;
    }
    proof {
        assert forall|a: Worlds, x: Model|
            #![trigger env.at(a), x.arith]
            env.at(a) is Some && x.arith == reals::operations(*f) implies values::all_at(r@, a) == Some(
            Seq::new(
                all.len(),
                |i: int| semantics::entry(x, all[i], env.at(a)->0, i as i32, callstack@),
            ),
        ) by {
            values::lemma_all_at(r@, a);
            let want = Seq::new(
                all.len(),
                |i: int| semantics::entry(x, all[i], env.at(a)->0, i as i32, callstack@),
            );
            assert forall|j: int| 0 <= j < r@.len() implies (#[trigger] r@[j]).at(a) == Some(want[j]) by {
                assert(x.arith == reals::operations(*f));
            }
            assert(values::all_at(r@, a) is Some);
            let ds = values::all_at(r@, a)->0;
            assert forall|j: int| 0 <= j < ds.len() implies ds[j] == want[j] by {
                assert(r@[j].at(a) == Some(ds[j]));
            }
            assert(ds =~= want);
        }
        assert forall|order: Seq<u64>| env.over(order) implies #[trigger] values::all_over(r@, order) by {
            values::lemma_all_over(r@, order);
        }
    }
    r
}

/// The scope with the names bound to the arguments, as far as there are
/// both.
pub(crate) fn bind_args(env: &Env, names: &Vec<Symbol>, args: &Vec<PluckVal>) -> (r: Env)
    ensures
        forall|a: Worlds| #[trigger]
            env.at(a) is Some && values::all_at(args@, a) is Some ==> r.at(a) == Some(
                semantics::bound_args(env.at(a)->0, names@, values::all_at(args@, a)->0),
            ),
        forall|order: Seq<u64>|
            env.over(order) && values::all_over(args@, order) ==> #[trigger] r.over(order),
{
    let mut r: Env = env.clone();
    let mut i: usize = 0;
    assert(names@.take(0) =~= Seq::<Symbol>::empty());
    while i < names.len()
        invariant
            i <= names@.len(),
            forall|a: Worlds| #[trigger]
                env.at(a) is Some && values::all_at(args@, a) is Some ==> r.at(a) == Some(
                    semantics::bound_args(
                        env.at(a)->0,
                        names@.take(i as int),
                        values::all_at(args@, a)->0,
                    ),
                ),
            forall|order: Seq<u64>|
                env.over(order) && values::all_over(args@, order) ==> #[trigger] r.over(order),
        decreases names@.len() - i,
    {
        let ghost before = r;
        if i < args.len() {
            r = env_cons(names[i], args[i].clone(), r);
        }
        proof {
            let next = names@.take(i + 1);
            assert(next.drop_last() =~= names@.take(i as int));
            assert(next.last() == names@[i as int]);
            assert forall|a: Worlds| #[trigger]
                env.at(a) is Some && values::all_at(args@, a) is Some implies r.at(a) == Some(
                semantics::bound_args(env.at(a)->0, next, values::all_at(args@, a)->0),
            ) by {
                values::lemma_all_at(args@, a);
                if i < args@.len() {
                    assert(args@[i as int].at(a) == Some(values::all_at(args@, a)->0[i as int]));
                }
            }
            assert forall|order: Seq<u64>| env.over(order) && values::all_over(args@, order) implies #[trigger] r.over(
                order,
            ) by {
                assert(before.over(order));
                values::lemma_all_over(args@, order);
                if i < args@.len() {
                    assert(args@[i as int].over(order));
                }
            }
        }
        i = i + 1;
    }
    assert(names@.take(names@.len() as int) =~= names@);
    r
}

/// The first guard of the constructor.
pub(crate) fn find_guard(guards: &Vec<CaseOfGuard>, c: Symbol) -> (r: Option<usize>)
    ensures
        match r {
            Some(i) => i < guards@.len() && semantics::guard_for(pexpr::guards_of(guards@), c, 0)
                == Some(i as int),
            None => semantics::guard_for(pexpr::guards_of(guards@), c, 0) is None,
        },
{
    let ghost all = pexpr::guards_of(guards@);
    let mut i: usize = 0;
    while i < guards.len()
        invariant
            i <= guards@.len(),
            all == pexpr::guards_of(guards@),
            semantics::guard_for(all, c, 0) == semantics::guard_for(all, c, i as int),
        decreases guards@.len() - i,
    {
        assert(all[i as int] == guards@[i as int].guard());
        if guards[i].constructor == c {
            return Some(i);
        }
        i = i + 1;
    }
    None
}

fn weight_of<F: Fn(RealOp, u64, u64) -> u64>(w: &Weight, f: &F) -> (r: u64)
    requires
        reals::settled(*f),
    ensures
        forall|x: Model| #[trigger]
            x.arith == reals::operations(*f) ==> r == semantics::weight(x, *w),
{
    match w {
        Weight::Real(b) => *b,
        Weight::OneIn(n) => {
            let d: u64 = compute(f, RealOp::OfInt, *n as u64, 0);
            compute(f, RealOp::Quotient, ONE, d)
        },
    }
}

fn total_weight<F: Fn(RealOp, u64, u64) -> u64>(ws: &Vec<Weight>, f: &F) -> (r: u64)
    requires
        reals::settled(*f),
    ensures
        forall|x: Model| #[trigger]
            x.arith == reals::operations(*f) ==> r == semantics::total(x, ws@),
{
    let mut sum: u64 = ZERO;
    let mut i: usize = 0;
    assert(ws@.take(0) =~= Seq::<Weight>::empty());
    while i < ws.len()
        invariant
            i <= ws@.len(),
            reals::settled(*f),
            forall|x: Model| #[trigger]
                x.arith == reals::operations(*f) ==> sum == semantics::total(x, ws@.take(i as int)),
        decreases ws@.len() - i,
    {
        assert(ws@.take(i + 1).drop_last() =~= ws@.take(i as int));
        let w: u64 = weight_of(&ws[i], f);
        sum = compute(f, RealOp::Sum, sum, w);
        i = i + 1;
    }
    assert(ws@.take(ws@.len() as int) =~= ws@);
    sum
}

/// A constant as a value; none if it has no meaning.
pub(crate) fn constant_value<F: Fn(RealOp, u64, u64) -> u64>(val: &NativeVal, f: &F) -> (r: Option<PluckVal>)
    requires
        reals::settled(*f),
    ensures
        match r {
            Some(v) => values::is_head(*v) && (forall|order: Seq<u64>| #[trigger] v.over(order)) && (forall|
                a: Worlds,
                x: Model,
            |
                #![trigger v.at(a), x.arith]
                x.arith == reals::operations(*f) ==> v.at(a) is Some && semantics::constant(x, val@)
                    == Outcome::Done(v.at(a)->0)),
            None => forall|x: Model| #[trigger]
                x.arith == reals::operations(*f) ==> semantics::constant(x, val@) == Outcome::Stuck,
        },
{
    match val {
        NativeVal::Share(ws) => {
            if ws.len() == 0 {
                return None;
            }
            let one: u64 = weight_of(&ws[0], f);
            let all: u64 = total_weight(ws, f);
            let v: PluckVal = mk_native_float(compute(f, RealOp::Quotient, one, all));
            proof {
                assert forall|a: Worlds, x: Model|
                    #![trigger v.at(a), x.arith]
                    x.arith == reals::operations(*f) implies v.at(a) is Some && semantics::constant(
                    x,
                    val@,
                ) == Outcome::Done(v.at(a)->0) by {
                    assert(one == semantics::weight(x, ws@[0]));
                    assert(all == semantics::total(x, ws@));
                }
            }
            Some(v)
        },
        _ => {
            let v: PluckVal = Rc::new(PluckValue::Native(val.clone()));
            Some(v)
        },
    }
}

fn one_part<'k>(a: &'k PExpr) -> (r: Vec<&'k PExpr>)
    ensures
        r@.len() == 1,
        kont::kid_trees(r@) == seq![a.tree()],
{
    let mut r: Vec<&'k PExpr> = Vec::new();
    r.push(a);
    assert(kont::kid_trees(r@) =~= seq![a.tree()]);
    r
}

fn two_parts<'k>(a: &'k PExpr, b: &'k PExpr) -> (r: Vec<&'k PExpr>)
    ensures
        r@.len() == 2,
        kont::kid_trees(r@) == seq![a.tree(), b.tree()],
{
    let mut r: Vec<&'k PExpr> = Vec::new();
    r.push(a);
    r.push(b);
    assert(kont::kid_trees(r@) =~= seq![a.tree(), b.tree()]);
    r
}

fn three_parts<'k>(a: &'k PExpr, b: &'k PExpr, c: &'k PExpr) -> (r: Vec<&'k PExpr>)
    ensures
        r@.len() == 3,
        kont::kid_trees(r@) == seq![a.tree(), b.tree(), c.tree()],
{
    let mut r: Vec<&'k PExpr> = Vec::new();
    r.push(a);
    r.push(b);
    r.push(c);
    assert(kont::kid_trees(r@) =~= seq![a.tree(), b.tree(), c.tree()]);
    r
}

fn many_parts<'k>(first: Option<&'k PExpr>, rest: &'k Vec<PExpr>) -> (r: Vec<&'k PExpr>)
    ensures
        kont::kid_trees(r@) == (match first {
            Some(e) => seq![e.tree()] + pexpr::trees(rest@),
            None => pexpr::trees(rest@),
        }),
{
    let mut r: Vec<&'k PExpr> = Vec::new();
    match first {
        Some(e) => {
            r.push(e);
        },
        None => {},
    }
    let ghost head = kont::kid_trees(r@);
    proof {
        pexpr::lemma_trees(rest@);
        assert(head + pexpr::trees(rest@).take(0) =~= head);
        if first is Some {
            assert(head =~= seq![first->0.tree()]);
        } else {
            assert(head =~= Seq::<Tree>::empty());
        }
    }
    let mut i: usize = 0;
    while i < rest.len()
        invariant
            i <= rest@.len(),
            pexpr::trees(rest@).len() == rest@.len(),
            forall|m: int| 0 <= m < rest@.len() ==> #[trigger] pexpr::trees(rest@)[m] == rest@[m].tree(),
            kont::kid_trees(r@) == head + pexpr::trees(rest@).take(i as int),
        decreases rest@.len() - i,
    {
        let ghost seen = r@;
        r.push(&rest[i]);
        proof {
            let all = pexpr::trees(rest@);
            assert(kont::kid_trees(r@) =~= kont::kid_trees(seen).push(all[i as int]));
            assert(head + all.take(i + 1) =~= (head + all.take(i as int)).push(all[i as int]));
        }
        i = i + 1;
    }
    proof {
        assert(pexpr::trees(rest@).take(rest@.len() as int) =~= pexpr::trees(rest@));
        if first is None {
            assert(head + pexpr::trees(rest@) =~= pexpr::trees(rest@));
        }
    }
    r
}

/// The primitive that an expression is, and its operands, all of which are
/// evaluated.
pub(crate) fn strict_parts<'k>(expr: &'k PExpr) -> (r: Option<(Primitive, Vec<&'k PExpr>)>)
    ensures
        match r {
            Some((p, kids)) => {
                &&& expr.tree().head == Head::Prim(p)
                &&& expr.tree().kids == kont::kid_trees(kids@)
                &&& settle::takes(p, kids@.len())
                &&& p != Primitive::Error
                &&& p != Primitive::Print
            },
            None => !(expr.tree().head is Prim) || expr is Error || expr is Print,
        },
{
    match expr {
        PExpr::Flip { prob } => Some((Primitive::Flip, one_part(prob))),
        PExpr::NativeEq { a, b } => Some((Primitive::NativeEq, two_parts(a, b))),
        PExpr::MkInt { bitwidth, value } => Some((Primitive::MkInt, two_parts(bitwidth, value))),
        PExpr::UniformInt { bitwidth } => Some((Primitive::UniformInt, one_part(bitwidth))),
        PExpr::UniformIntRange { bitwidth, lo, hi } => Some(
            (Primitive::UniformIntRange, three_parts(bitwidth, lo, hi)),
        ),
        PExpr::IntDistEq { a, b } => Some((Primitive::IntDistEq, two_parts(a, b))),
        PExpr::IntDistAdd { a, b } => Some((Primitive::IntAdd, two_parts(a, b))),
        PExpr::IntDistSub { a, b } => Some((Primitive::IntSub, two_parts(a, b))),
        PExpr::IntDistLt { a, b } => Some((Primitive::IntLt, two_parts(a, b))),
        PExpr::GetArgs { expr: inner } => Some((Primitive::GetArgs, one_part(inner))),
        PExpr::GetConstructor { expr: inner } => Some((Primitive::GetConstructor, one_part(inner))),
        PExpr::Index { v, idx } => {
            let kids: Vec<&'k PExpr> = many_parts(Some(&**v), idx);
            assert(kont::kid_trees(kids@).len() >= 1);
            Some((Primitive::Index, kids))
        },
        PExpr::FDiv { a, b } => Some((Primitive::FDiv, two_parts(a, b))),
        PExpr::FMul { a, b } => Some((Primitive::FMul, two_parts(a, b))),
        PExpr::FAdd { a, b } => Some((Primitive::FAdd, two_parts(a, b))),
        PExpr::FSub { a, b } => Some((Primitive::FSub, two_parts(a, b))),
        PExpr::Beta { a, b } => Some((Primitive::Beta, two_parts(a, b))),
        PExpr::ProbEq { prob, val } => Some((Primitive::ProbEq, two_parts(prob, val))),
        PExpr::Gaussian { mu, sigma } => Some((Primitive::Gaussian, two_parts(mu, sigma))),
        PExpr::RealEq { expr: inner, val } => Some((Primitive::RealEq, two_parts(inner, val))),
        PExpr::RealLt { expr: inner, val } => Some((Primitive::RealLt, two_parts(inner, val))),
        PExpr::RealGeq { expr: inner, val } => Some((Primitive::RealGeq, two_parts(inner, val))),
        PExpr::Dirichlet { alphas } => Some((Primitive::Dirichlet, many_parts(None, alphas))),
        PExpr::DirichletEq { expr: inner, val } => Some(
            (Primitive::DirichletEq, two_parts(inner, val)),
        ),
        PExpr::Categorical { probs } => Some((Primitive::Categorical, many_parts(None, probs))),
        PExpr::NativeLeq { a, b } => Some((Primitive::NativeLeq, two_parts(a, b))),
        PExpr::NativeGeq { a, b } => Some((Primitive::NativeGeq, two_parts(a, b))),
        PExpr::Poisson { rate } => Some((Primitive::Poisson, one_part(rate))),
        PExpr::Exponential { rate } => Some((Primitive::Exponential, one_part(rate))),
        PExpr::Gamma { shape, rate } => Some((Primitive::Gamma, two_parts(shape, rate))),
        PExpr::MatMul { a, b } => Some((Primitive::MatMul, two_parts(a, b))),
        PExpr::Sum { expr: inner } => Some((Primitive::Sum, one_part(inner))),
        _ => None,
    }
}

} // verus!
