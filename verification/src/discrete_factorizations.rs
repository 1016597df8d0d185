//! Boolean functions as reduced ordered decision diagrams.

use std::collections::BTreeSet;
use std::rc::Rc;

use vstd::prelude::*;

verus! {

/// A boolean variable, by its label.
#[derive(Debug, Clone, Copy, PartialEq, Eq, Structural)]
pub struct VarId(pub u64);

/// A truth assignment to the variables, by label.
pub type Worlds = spec_fn(u64) -> bool;

/// A boolean function: a decision diagram.
#[derive(Debug)]
pub enum BooleanFunction {
    True,
    False,
    /// `high` where the variable holds, else `low`.
    Node { var: VarId, low: Rc<BooleanFunction>, high: Rc<BooleanFunction> },
}

/// The assignment `a` with the variable `v` set to `b`.
pub open spec fn set_var(a: Worlds, v: u64, b: bool) -> Worlds {
    |w: u64|
        if w == v {
            b
        } else {
            a(w)
        }
}

impl BooleanFunction {
    /// The value of the function under an assignment.
    pub open spec fn eval(&self, a: Worlds) -> bool
        decreases self,
    {
        match self {
            BooleanFunction::True => true,
            BooleanFunction::False => false,
            BooleanFunction::Node { var, low, high } => if a(var.0) {
                high.eval(a)
            } else {
                low.eval(a)
            },
        }
    }

    /// How many nodes the diagram has as a tree.
    pub open spec fn size(&self) -> nat
        decreases self,
    {
        match self {
            BooleanFunction::Node { low, high, .. } => 1 + low.size() + high.size(),
            _ => 0,
        }
    }

    /// The position of the topmost variable in the order; that of a constant
    /// is behind all variables.
    pub open spec fn top(&self, order: Seq<u64>) -> int {
        match self {
            BooleanFunction::Node { var, .. } => order.index_of(var.0),
            _ => order.len() as int,
        }
    }

    /// The diagram is ordered (variables come in order on every path) and
    /// reduced (no node has two equal children).
    pub open spec fn wf(&self, order: Seq<u64>) -> bool
        decreases self,
    {
        match self {
            BooleanFunction::Node { var, low, high } => {
                &&& order.contains(var.0)
                &&& low.wf(order)
                &&& high.wf(order)
                &&& *low != *high
                &&& low.top(order) > order.index_of(var.0)
                &&& high.top(order) > order.index_of(var.0)
            },
            _ => true,
        }
    }

    /// The variables that occur in the diagram.
    pub open spec fn support(&self) -> Set<u64>
        decreases self,
    {
        match self {
            BooleanFunction::Node { var, low, high } => low.support().union(
                high.support(),
            ).insert(var.0),
            _ => Set::empty(),
        }
    }

    /// The negation, node by node.
    pub open spec fn negated(&self) -> BooleanFunction
        decreases self,
    {
        match self {
            BooleanFunction::True => BooleanFunction::False,
            BooleanFunction::False => BooleanFunction::True,
            BooleanFunction::Node { var, low, high } => BooleanFunction::Node {
                var: *var,
                low: Rc::new(low.negated()),
                high: Rc::new(high.negated()),
            },
        }
    }

    /// The constant `true`.
    pub fn true_ptr() -> (f: Self)
        ensures
            f == BooleanFunction::True,
    {
        BooleanFunction::True
    }

    /// The constant `false`.
    pub fn false_ptr() -> (f: Self)
        ensures
            f == BooleanFunction::False,
    {
        BooleanFunction::False
    }

    pub fn is_true(&self) -> (r: bool)
        ensures
            r == (*self == BooleanFunction::True),
    {
        match self {
            BooleanFunction::True => true,
            _ => false,
        }
    }

    pub fn is_false(&self) -> (r: bool)
        ensures
            r == (*self == BooleanFunction::False),
    {
        match self {
            BooleanFunction::False => true,
            _ => false,
        }
    }

    /// Are the two diagrams the same?
    pub fn same(&self, other: &Self) -> (r: bool)
        ensures
            r == (*self == *other),
        decreases self,
    {
        match (self, other) {
            (BooleanFunction::True, BooleanFunction::True) => true,
            (BooleanFunction::False, BooleanFunction::False) => true,
            (
                BooleanFunction::Node { var: v, low: l, high: h },
                BooleanFunction::Node { var: w, low: m, high: n },
            ) => *v == *w && l.same(m) && h.same(n),
            _ => false,
        }
    }
}

impl Clone for BooleanFunction {
    fn clone(&self) -> (r: Self)
        ensures
            r == *self,
    {
        match self {
            BooleanFunction::True => BooleanFunction::True,
            BooleanFunction::False => BooleanFunction::False,
            BooleanFunction::Node { var, low, high } => BooleanFunction::Node {
                var: *var,
                low: low.clone(),
                high: high.clone(),
            },
        }
    }
}

/// A diagram taken apart at its root.
#[derive(Debug)]
pub enum BddNode {
    True,
    False,
    Inner { var: VarId, low: BooleanFunction, high: BooleanFunction },
}

proof fn lemma_top_bounds(f: &BooleanFunction, order: Seq<u64>)
    requires
        f.wf(order),
    ensures
        0 <= f.top(order) <= order.len(),
        *f is Node <==> f.top(order) < order.len(),
        *f matches BooleanFunction::Node { var, .. } ==> order[f.top(order)] == var.0,
{
}

/// A diagram does not depend on variables above its root.
proof fn lemma_above(f: &BooleanFunction, order: Seq<u64>, a: Worlds, v: u64, b: bool)
    requires
        f.wf(order),
        order.contains(v),
        order.index_of(v) < f.top(order),
    ensures
        f.eval(set_var(a, v, b)) == f.eval(a),
    decreases f,
{
    if let BooleanFunction::Node { low, high, .. } = f {
        lemma_above(&**low, order, a, v, b);
        lemma_above(&**high, order, a, v, b);
    }
}

/// Two diagrams that agree under every assignment are the same: a boolean
/// function has one diagram.
pub proof fn lemma_canonical(f: &BooleanFunction, g: &BooleanFunction, order: Seq<u64>)
    requires
        f.wf(order),
        g.wf(order),
        forall|a: Worlds| #[trigger] f.eval(a) == g.eval(a),
    ensures
        f == g,
    decreases f.size() + g.size(), 1nat,
{
    let any: Worlds = |v: u64| false;
    assert(f.eval(any) == g.eval(any));
    let i = f.top(order);
    let j = g.top(order);
    lemma_top_bounds(f, order);
    lemma_top_bounds(g, order);
    if *f is Node && i <= j {
        lemma_cofactors(f, g, order);
    } else if *g is Node {
        assert forall|a: Worlds| #[trigger] g.eval(a) == f.eval(a) by {
            assert(f.eval(a) == g.eval(a));
        }
        lemma_cofactors(g, f, order);
    }
}

/// The step of `lemma_canonical` at the topmost variable.
proof fn lemma_cofactors(f: &BooleanFunction, g: &BooleanFunction, order: Seq<u64>)
    requires
        f.wf(order),
        g.wf(order),
        *f is Node,
        f.top(order) <= g.top(order),
        forall|a: Worlds| #[trigger] f.eval(a) == g.eval(a),
    ensures
        f == g,
    decreases f.size() + g.size(), 0nat,
{
    lemma_top_bounds(f, order);
    lemma_top_bounds(g, order);
    if let BooleanFunction::Node { var, low, high } = f {
        let v = var.0;
        let (g0, g1) = if g.top(order) == f.top(order) {
            (&*(*g)->low, &*(*g)->high)
        } else {
            (g, g)
        };
        assert forall|a: Worlds| #[trigger] low.eval(a) == g0.eval(a) by {
            let b = set_var(a, v, false);
            lemma_above(&**low, order, a, v, false);
            lemma_above(g0, order, a, v, false);
            assert(f.eval(b) == g.eval(b));
        }
        assert forall|a: Worlds| #[trigger] high.eval(a) == g1.eval(a) by {
            let b = set_var(a, v, true);
            lemma_above(&**high, order, a, v, true);
            lemma_above(g1, order, a, v, true);
            assert(f.eval(b) == g.eval(b));
        }
        lemma_canonical(&**low, g0, order);
        lemma_canonical(&**high, g1, order);
    }
}

/// A diagram is the constant `true` exactly if its function always holds.
pub proof fn lemma_is_true(f: &BooleanFunction, order: Seq<u64>)
    requires
        f.wf(order),
    ensures
        *f == BooleanFunction::True <==> (forall|a: Worlds| #[trigger] f.eval(a)),
{
    if forall|a: Worlds| #[trigger] f.eval(a) {
        assert forall|a: Worlds| #[trigger] f.eval(a) == BooleanFunction::True.eval(a) by {}
        lemma_canonical(f, &BooleanFunction::True, order);
    }
}

/// A diagram is the constant `false` exactly if its function never holds.
pub proof fn lemma_is_false(f: &BooleanFunction, order: Seq<u64>)
    requires
        f.wf(order),
    ensures
        *f == BooleanFunction::False <==> (forall|a: Worlds| !#[trigger] f.eval(a)),
{
    if forall|a: Worlds| !#[trigger] f.eval(a) {
        assert forall|a: Worlds| #[trigger] f.eval(a) == BooleanFunction::False.eval(a) by {}
        lemma_canonical(f, &BooleanFunction::False, order);
    }
}

/// Negation keeps the shape of the diagram, flips its values, and undoes
/// itself.
pub proof fn lemma_negated(f: &BooleanFunction, order: Seq<u64>)
    ensures
        f.negated().negated() == *f,
        f.negated().top(order) == f.top(order),
        f.wf(order) ==> f.negated().wf(order),
        forall|a: Worlds| #[trigger] f.negated().eval(a) == !f.eval(a),
        f.negated().support() == f.support(),
    decreases f,
{
    if let BooleanFunction::Node { var, low, high } = f {
        lemma_negated(&**low, order);
        lemma_negated(&**high, order);
        assert forall|a: Worlds| #[trigger] f.negated().eval(a) == !f.eval(a) by {
            assert(low.negated().eval(a) == !low.eval(a));
            assert(high.negated().eval(a) == !high.eval(a));
        }
    }
}

/// Only the variables of the support matter.
pub proof fn lemma_support_enough(f: &BooleanFunction, a: Worlds, b: Worlds)
    requires
        forall|v: u64| #[trigger] f.support().contains(v) ==> a(v) == b(v),
    ensures
        f.eval(a) == f.eval(b),
    decreases f,
{
    if let BooleanFunction::Node { var, low, high } = f {
        assert(f.support().contains(var.0));
        assert forall|v: u64| #[trigger] low.support().contains(v) implies a(v) == b(v) by {
            assert(f.support().contains(v));
        }
        assert forall|v: u64| #[trigger] high.support().contains(v) implies a(v) == b(v) by {
            assert(f.support().contains(v));
        }
        lemma_support_enough(&**low, a, b);
        lemma_support_enough(&**high, a, b);
    }
}

/// `f` depends on the variable `v`.
pub open spec fn depends(f: &BooleanFunction, v: u64) -> bool {
    exists|a: Worlds| #[trigger]
        f.eval(set_var(a, v, true)) != f.eval(set_var(a, v, false))
}

/// Every variable of the support matters.
pub proof fn lemma_support_needed(f: &BooleanFunction, order: Seq<u64>, v: u64)
    requires
        f.wf(order),
        f.support().contains(v),
    ensures
        depends(f, v),
    decreases f,
{
    if let BooleanFunction::Node { var, low, high } = f {
        if v == var.0 {
            if forall|a: Worlds| #[trigger] low.eval(a) == high.eval(a) {
                lemma_canonical(&**low, &**high, order);
            }
            let a = choose|a: Worlds| #[trigger] low.eval(a) != high.eval(a);
            lemma_above(&**low, order, a, v, false);
            lemma_above(&**high, order, a, v, true);
            assert(f.eval(set_var(a, v, true)) != f.eval(set_var(a, v, false)));
        } else {
            let (child, side) = if low.support().contains(v) {
                (&**low, false)
            } else {
                (&**high, true)
            };
            lemma_support_needed(child, order, v);
            lemma_below(child, order, v);
            let a = choose|a: Worlds| #[trigger]
                child.eval(set_var(a, v, true)) != child.eval(set_var(a, v, false));
            let b = set_var(a, var.0, side);
            lemma_above(child, order, set_var(a, v, true), var.0, side);
            lemma_above(child, order, set_var(a, v, false), var.0, side);
            assert(set_var(b, v, true) =~= set_var(set_var(a, v, true), var.0, side));
            assert(set_var(b, v, false) =~= set_var(set_var(a, v, false), var.0, side));
            assert(f.eval(set_var(b, v, true)) != f.eval(set_var(b, v, false)));
        }
    }
}

/// The variables of a diagram are in the order, from the root down.
pub proof fn lemma_below(f: &BooleanFunction, order: Seq<u64>, v: u64)
    requires
        f.wf(order),
        f.support().contains(v),
    ensures
        order.contains(v),
        f.top(order) <= order.index_of(v),
    decreases f,
{
    if let BooleanFunction::Node { var, low, high } = f {
        if low.support().contains(v) {
            lemma_below(&**low, order, v);
        } else if high.support().contains(v) {
            lemma_below(&**high, order, v);
        }
    }
}

/// A new variable in the order leaves every diagram well-formed.
pub proof fn lemma_order_grows(f: &BooleanFunction, order: Seq<u64>, pos: int, v: u64)
    requires
        f.wf(order),
        order.no_duplicates(),
        0 <= pos <= order.len(),
        !order.contains(v),
    ensures
        f.wf(order.insert(pos, v)),
        f.top(order.insert(pos, v)) == (if f.top(order) < pos {
            f.top(order)
        } else {
            f.top(order) + 1
        }),
    decreases f,
{
    let next = order.insert(pos, v);
    if let BooleanFunction::Node { var, low, high } = f {
        lemma_order_grows(&**low, order, pos, v);
        lemma_order_grows(&**high, order, pos, v);
        let i = order.index_of(var.0);
        let j = if i < pos {
            i
        } else {
            i + 1
        };
        lemma_inserted_distinct(order, pos, v);
        assert(next[j] == var.0);
        assert(next.contains(var.0));
        assert(next.index_of(var.0) == j);
    }
}

pub proof fn lemma_inserted_distinct(order: Seq<u64>, pos: int, v: u64)
    requires
        order.no_duplicates(),
        0 <= pos <= order.len(),
        !order.contains(v),
    ensures
        order.insert(pos, v).no_duplicates(),
{
    let next = order.insert(pos, v);
    assert forall|i: int, j: int| 0 <= i < next.len() && 0 <= j < next.len() && i != j implies
        next[i] != next[j] by {
        let i0 = if i < pos {
            i
        } else {
            i - 1
        };
        let j0 = if j < pos {
            j
        } else {
            j - 1
        };
        if i == pos {
            assert(order[j0] == next[j]);
            assert(order.contains(next[j]));
        } else if j == pos {
            assert(order[i0] == next[i]);
            assert(order.contains(next[i]));
        } else {
            assert(order[i0] == next[i] && order[j0] == next[j]);
        }
    }
}

/// Builds boolean functions over variables in a fixed order, in which new
/// variables can be placed anywhere.
pub struct Factorizer {
    order: Vec<u64>,
    next: u64,
}

impl Factorizer {
    /// The variables, by label, from the root of the diagrams down.
    pub closed spec fn vars(self) -> Seq<u64> {
        self.order@
    }

    /// The label of the next new variable.
    pub closed spec fn fresh(self) -> u64 {
        self.next
    }

    /// Every label below the next one stands in the order, once.
    pub open spec fn wf(self) -> bool {
        &&& self.vars().no_duplicates()
        &&& self.vars().len() == self.fresh()
        &&& forall|v: u64| #[trigger] self.vars().contains(v) <==> v < self.fresh()
    }

    /// A function over the variables of this factorizer.
    pub open spec fn owns(self, f: BooleanFunction) -> bool {
        f.wf(self.vars())
    }

    pub fn new() -> (r: Self)
        ensures
            r.wf(),
            r.vars() == Seq::<u64>::empty(),
    {
        let r = Factorizer { order: Vec::new(), next: 0 };
        assert(r.vars() =~= Seq::<u64>::empty());
        r
    }

    pub fn num_vars(&self) -> (r: usize)
        ensures
            r == self.vars().len(),
    {
        self.order.len()
    }

    /// A new variable at the position `pos` of the order, and its positive or
    /// negative literal.
    pub fn new_var_at_position(&mut self, pos: usize, polarity: bool) -> (r: (
        VarId,
        BooleanFunction,
    ))
        requires
            old(self).wf(),
            pos <= old(self).vars().len(),
        ensures
            final(self).wf(),
            r.0.0 == old(self).fresh(),
            final(self).fresh() == old(self).fresh() + 1,
            final(self).vars() == old(self).vars().insert(pos as int, r.0.0),
            final(self).owns(r.1),
            forall|a: Worlds| #[trigger] r.1.eval(a) == (a(r.0.0) == polarity),
            forall|f: BooleanFunction| #[trigger] old(self).owns(f) ==> final(self).owns(f),
    {
        let label: u64 = self.next;
        let ghost before = self.order@;
        self.order.insert(pos, label);
        let count: usize = self.order.len();
        self.next = count as u64;
        proof {
            let after = self.order@;
            assert(!before.contains(label));
            lemma_inserted_distinct(before, pos as int, label);
            assert(after[pos as int] == label);
            assert forall|v: u64| #[trigger] after.contains(v) <==> v < self.next by {
                if v != label {
                    if before.contains(v) {
                        let i = choose|i: int| 0 <= i < before.len() && before[i] == v;
                        let j = if i < pos {
                            i
                        } else {
                            i + 1
                        };
                        assert(after[j] == v);
                    }
                    if after.contains(v) {
                        let j = choose|j: int| 0 <= j < after.len() && after[j] == v;
                        let i = if j < pos {
                            j
                        } else {
                            j - 1
                        };
                        assert(before[i] == v);
                    }
                }
            }
            assert forall|f: BooleanFunction| #[trigger] old(self).owns(f) implies self.owns(
                f,
            ) by {
                lemma_order_grows(&f, before, pos as int, label);
            }
        }
        let lit: BooleanFunction = self.var(VarId(label), polarity);
        (VarId(label), lit)
    }

    /// The positive or negative literal of a variable.
    pub fn var(&self, v: VarId, polarity: bool) -> (f: BooleanFunction)
        requires
            self.wf(),
            v.0 < self.fresh(),
        ensures
            self.owns(f),
            forall|a: Worlds| #[trigger] f.eval(a) == (a(v.0) == polarity),
    {
        proof {
            assert(self.vars().contains(v.0));
            reveal_with_fuel(BooleanFunction::eval, 2);
            reveal_with_fuel(BooleanFunction::wf, 2);
        }
        let low: Rc<BooleanFunction> = Rc::new(BooleanFunction::False);
        let high: Rc<BooleanFunction> = Rc::new(BooleanFunction::True);
        if polarity {
            BooleanFunction::Node { var: v, low, high }
        } else {
            BooleanFunction::Node { var: v, low: high, high: low }
        }
    }

    /// The root of a diagram and its two children.
    pub fn node(&self, f: &BooleanFunction) -> (r: BddNode)
        ensures
            match r {
                BddNode::True => *f == BooleanFunction::True,
                BddNode::False => *f == BooleanFunction::False,
                BddNode::Inner { var, low, high } => *f == (BooleanFunction::Node {
                    var,
                    low: Rc::new(low),
                    high: Rc::new(high),
                }),
            },
    {
        match f {
            BooleanFunction::True => BddNode::True,
            BooleanFunction::False => BddNode::False,
            BooleanFunction::Node { var, low, high } => BddNode::Inner {
                var: *var,
                low: (**low).clone(),
                high: (**high).clone(),
            },
        }
    }

    /// The negation of a function.
    pub fn negate(&self, f: &BooleanFunction) -> (r: BooleanFunction)
        requires
            self.owns(*f),
        ensures
            self.owns(r),
            forall|a: Worlds| #[trigger] r.eval(a) == !f.eval(a),
    {
        let r: BooleanFunction = Self::flip(f);
        proof {
            lemma_negated(f, self.vars());
        }
        r
    }

    fn flip(f: &BooleanFunction) -> (r: BooleanFunction)
        ensures
            r == f.negated(),
        decreases f,
    {
        match f {
            BooleanFunction::True => BooleanFunction::False,
            BooleanFunction::False => BooleanFunction::True,
            BooleanFunction::Node { var, low, high } => BooleanFunction::Node {
                var: *var,
                low: Rc::new(Self::flip(low)),
                high: Rc::new(Self::flip(high)),
            },
        }
    }

    /// The position of a variable in the order.
    fn level(&self, v: VarId) -> (i: usize)
        requires
            self.wf(),
            self.vars().contains(v.0),
        ensures
            i == self.vars().index_of(v.0),
            i < self.vars().len(),
    {
        let mut i: usize = 0;
        while self.order[i] != v.0
            invariant
                self.wf(),
                self.vars().contains(v.0),
                i <= self.vars().index_of(v.0) < self.order.len(),
            decreases self.vars().len() - i,
        {
            i = i + 1;
        }
        i
    }

    /// The topmost position of a function; behind all variables for a
    /// constant.
    fn top_level(&self, f: &BooleanFunction) -> (i: usize)
        requires
            self.wf(),
            self.owns(*f),
        ensures
            i == f.top(self.vars()),
    {
        match f {
            BooleanFunction::Node { var, .. } => self.level(*var),
            _ => self.order.len(),
        }
    }

    /// `high` where the variable holds, else `low`.
    fn branch(&self, v: VarId, low: BooleanFunction, high: BooleanFunction) -> (r: BooleanFunction)
        requires
            self.wf(),
            self.vars().contains(v.0),
            self.owns(low),
            self.owns(high),
            low.top(self.vars()) > self.vars().index_of(v.0),
            high.top(self.vars()) > self.vars().index_of(v.0),
        ensures
            self.owns(r),
            r.top(self.vars()) >= self.vars().index_of(v.0),
            forall|a: Worlds| #[trigger]
                r.eval(a) == (if a(v.0) {
                    high.eval(a)
                } else {
                    low.eval(a)
                }),
    {
        if low.same(&high) {
            low
        } else {
            BooleanFunction::Node { var: v, low: Rc::new(low), high: Rc::new(high) }
        }
    }

    /// The children of `f` at the position `at`, which is not below its root.
    fn cofactors(&self, f: &BooleanFunction, at: usize) -> (r: (BooleanFunction, BooleanFunction))
        requires
            self.wf(),
            self.owns(*f),
            at < self.vars().len(),
            at <= f.top(self.vars()),
        ensures
            self.owns(r.0),
            self.owns(r.1),
            r.0.top(self.vars()) > at,
            r.1.top(self.vars()) > at,
            r.0.size() <= f.size(),
            r.1.size() <= f.size(),
            at == f.top(self.vars()) ==> r.0.size() < f.size() && r.1.size() < f.size(),
            forall|a: Worlds| #[trigger]
                f.eval(a) == (if a(self.vars()[at as int]) {
                    r.1.eval(a)
                } else {
                    r.0.eval(a)
                }),
    {
        proof {
            lemma_top_bounds(f, self.vars());
        }
        if self.top_level(f) == at {
            match f {
                BooleanFunction::Node { low, high, .. } => {
                    return ((**low).clone(), (**high).clone());
                },
                _ => {},
            }
        }
        (f.clone(), f.clone())
    }

    /// Where both functions hold.
    pub fn and(&self, f: &BooleanFunction, g: &BooleanFunction) -> (r: BooleanFunction)
        requires
            self.wf(),
            self.owns(*f),
            self.owns(*g),
        ensures
            self.owns(r),
            forall|a: Worlds| #[trigger] r.eval(a) == (f.eval(a) && g.eval(a)),
            r.top(self.vars()) >= f.top(self.vars()) || r.top(self.vars()) >= g.top(self.vars()),
        decreases f.size() + g.size(),
    {
        proof {
            lemma_top_bounds(f, self.vars());
            lemma_top_bounds(g, self.vars());
        }
        if f.is_false() || g.is_false() {
            return BooleanFunction::False;
        }
        if f.is_true() {
            return g.clone();
        }
        if g.is_true() {
            return f.clone();
        }
        let i: usize = self.top_level(f);
        let j: usize = self.top_level(g);
        let at: usize = if i <= j {
            i
        } else {
            j
        };
        let (f0, f1) = self.cofactors(f, at);
        let (g0, g1) = self.cofactors(g, at);
        let low: BooleanFunction = self.and(&f0, &g0);
        let high: BooleanFunction = self.and(&f1, &g1);
        let v: u64 = self.order[at];
        assert(self.vars().contains(v));
        self.branch(VarId(v), low, high)
    }

    /// Where at least one of the functions holds.
    pub fn or(&self, f: &BooleanFunction, g: &BooleanFunction) -> (r: BooleanFunction)
        requires
            self.wf(),
            self.owns(*f),
            self.owns(*g),
        ensures
            self.owns(r),
            forall|a: Worlds| #[trigger] r.eval(a) == (f.eval(a) || g.eval(a)),
            r.top(self.vars()) >= f.top(self.vars()) || r.top(self.vars()) >= g.top(self.vars()),
        decreases f.size() + g.size(),
    {
        proof {
            lemma_top_bounds(f, self.vars());
            lemma_top_bounds(g, self.vars());
        }
        if f.is_true() || g.is_true() {
            return BooleanFunction::True;
        }
        if f.is_false() {
            return g.clone();
        }
        if g.is_false() {
            return f.clone();
        }
        let i: usize = self.top_level(f);
        let j: usize = self.top_level(g);
        let at: usize = if i <= j {
            i
        } else {
            j
        };
        let (f0, f1) = self.cofactors(f, at);
        let (g0, g1) = self.cofactors(g, at);
        let low: BooleanFunction = self.or(&f0, &g0);
        let high: BooleanFunction = self.or(&f1, &g1);
        let v: u64 = self.order[at];
        assert(self.vars().contains(v));
        self.branch(VarId(v), low, high)
    }
}

/// Collect the support (variable labels) of `root` into `out`.
pub fn support_vars(root: &BooleanFunction, out: &mut BTreeSet<u64>)
    ensures
        final(out)@ == old(out)@.union(root.support()),
    decreases root,
{
    match root {
        BooleanFunction::Node { var, low, high } => {
            out.insert(var.0);
            support_vars(low, out);
            support_vars(high, out);
            assert(out@ =~= old(out)@.union(root.support()));
        },
        _ => {
            assert(out@ =~= old(out)@.union(root.support()));
        },
    }
}

} // verus!
