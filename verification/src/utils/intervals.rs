//! Constraints on a draw: half-open intervals and exact points.

use vstd::prelude::*;

use super::reals;
use super::reals::real_rank;

verus! {

/// Points on a half-line that starts at zero.
pub trait Point: Copy {
    /// Where the point lies among the others.
    spec fn place(self) -> int;

    fn origin() -> (r: Self)
        ensures
            r.place() == 0,
    ;

    fn at_most(self, other: Self) -> (r: bool)
        ensures
            r == (self.place() <= other.place()),
    ;
}

impl Point for i32 {
    open spec fn place(self) -> int {
        self as int
    }

    fn origin() -> (r: Self) {
        0
    }

    fn at_most(self, other: Self) -> (r: bool) {
        self <= other
    }
}

impl Point for u64 {
    open spec fn place(self) -> int {
        self as int
    }

    fn origin() -> (r: Self) {
        0
    }

    fn at_most(self, other: Self) -> (r: bool) {
        self <= other
    }
}

/// A double-precision number by its bits.
#[derive(Debug, Clone, Copy, PartialEq, Eq, Structural)]
pub struct Real(pub u64);

impl Point for Real {
    open spec fn place(self) -> int {
        reals::rank(self.0)
    }

    fn origin() -> (r: Self) {
        Real(0)
    }

    fn at_most(self, other: Self) -> (r: bool) {
        real_rank(self.0) <= real_rank(other.0)
    }
}

/// **Half-open** interval `[geq, lt)`; `lt = None` means `[geq, ∞)`. The
/// lower bound is inclusive, the upper bound exclusive.
///
/// Half-open intervals tile the half-line exactly, so an observation
/// event and its complement *partition* the support. Exact points are
/// deliberately not representable here: they live in [`IntervalOrEq::Eq`].
#[derive(Debug, Clone, Copy, PartialEq, Eq, Hash)]
pub struct Interval<T> {
    pub geq: T,
    pub lt: Option<T>,
}

impl<T: Point> Interval<T> {
    /// The places between the bounds.
    pub open spec fn covers(self, p: int) -> bool {
        self.geq.place() <= p && match self.lt {
            Some(lt) => p < lt.place(),
            None => true,
        }
    }

    /// There is no place between the bounds.
    pub open spec fn vacant(self) -> bool {
        self.lt matches Some(lt) && lt.place() <= self.geq.place()
    }

    /// `[0, b)`.
    pub fn lt(b: T) -> (r: Self)
        ensures
            r.lt == Some(b),
            r.geq.place() == 0,
            forall|p: int| #[trigger] r.covers(p) == (0 <= p < b.place()),
    {
        Interval { geq: T::origin(), lt: Some(b) }
    }

    /// `[b, ∞)`.
    pub fn geq(b: T) -> (r: Self)
        ensures
            r == (Interval { geq: b, lt: None::<T> }),
            forall|p: int| #[trigger] r.covers(p) == (p >= b.place()),
    {
        Interval { geq: b, lt: None }
    }

    /// Empty iff `lt ≤ geq` (the half-open `[a, a)` is empty).
    pub fn is_empty(&self) -> (r: bool)
        ensures
            r == self.vacant(),
            r == (forall|p: int| !#[trigger] self.covers(p)),
    {
        proof {
            lemma_vacant(*self);
        }
        match self.lt {
            Some(lt) => lt.at_most(self.geq),
            None => false,
        }
    }

    /// `v ∈ [geq, lt)`.
    pub fn contains(&self, v: T) -> (r: bool)
        ensures
            r == self.covers(v.place()),
    {
        if !self.geq.at_most(v) {
            return false;
        }
        match self.lt {
            Some(lt) => !lt.at_most(v),
            None => true,
        }
    }

    /// `[max(geq), min(lt))`, treating `None` as ∞.
    pub fn intersect(&self, other: &Self) -> (r: Interval<T>)
        ensures
            r == common(*self, *other),
            forall|p: int| #[trigger] r.covers(p) == (self.covers(p) && other.covers(p)),
    {
        let lt: Option<T> = match (self.lt, other.lt) {
            (Some(a), Some(b)) => Some(if a.at_most(b) {
                a
            } else {
                b
            }),
            (Some(a), None) => Some(a),
            (None, b) => b,
        };
        let geq: T = if self.geq.at_most(other.geq) {
            other.geq
        } else {
            self.geq
        };
        Interval { geq, lt }
    }
}

/// An interval is empty exactly if no place lies in it.
pub proof fn lemma_vacant<T: Point>(i: Interval<T>)
    ensures
        i.vacant() == (forall|p: int| !#[trigger] i.covers(p)),
{
    if !i.vacant() {
        assert(i.covers(i.geq.place()));
    }
}

/// What two intervals have in common: the greater of the lower bounds, the
/// lesser of the upper ones.
pub open spec fn common<T: Point>(a: Interval<T>, b: Interval<T>) -> Interval<T> {
    Interval {
        geq: if a.geq.place() <= b.geq.place() {
            b.geq
        } else {
            a.geq
        },
        lt: match (a.lt, b.lt) {
            (Some(x), Some(y)) => Some(if x.place() <= y.place() {
                x
            } else {
                y
            }),
            (Some(x), None) => Some(x),
            (None, y) => y,
        },
    }
}

/// A single constraint on a draw: a half-open interval or an exact
/// point. Shared by the Poisson (integer) and Exponential (real)
/// observation families.
#[derive(Debug, Clone, Copy, PartialEq, Eq, Hash)]
pub enum IntervalOrEq<T> {
    /// `x ∈ [geq, lt)`.
    Interval(Interval<T>),
    /// `x = v` exactly.
    Eq(T),
}

impl<T: Point> IntervalOrEq<T> {
    /// The places that satisfy the constraint.
    pub open spec fn covers(self, p: int) -> bool {
        match self {
            IntervalOrEq::Interval(i) => i.covers(p),
            IntervalOrEq::Eq(v) => p == v.place(),
        }
    }

    /// `x = v`.
    pub fn eq(v: T) -> (r: Self)
        ensures
            r == IntervalOrEq::Eq(v),
    {
        IntervalOrEq::Eq(v)
    }

    /// `x ∈ [0, b)`.
    pub fn lt(b: T) -> (r: Self)
        ensures
            r is Interval,
            r->Interval_0.lt == Some(b),
            r->Interval_0.geq.place() == 0,
            forall|p: int| #[trigger] r.covers(p) == (0 <= p < b.place()),
    {
        let i = Interval::lt(b);
        assert(forall|p: int| IntervalOrEq::Interval(i).covers(p) == #[trigger] i.covers(p));
        IntervalOrEq::Interval(i)
    }

    /// `x ∈ [b, ∞)`.
    pub fn geq(b: T) -> (r: Self)
        ensures
            r == IntervalOrEq::Interval((Interval { geq: b, lt: None::<T> })),
            forall|p: int| #[trigger] r.covers(p) == (p >= b.place()),
    {
        let i = Interval::geq(b);
        assert(forall|p: int| IntervalOrEq::Interval(i).covers(p) == #[trigger] i.covers(p));
        IntervalOrEq::Interval(i)
    }

    pub fn is_empty(&self) -> (r: bool)
        ensures
            r == (forall|p: int| !#[trigger] self.covers(p)),
    {
        match self {
            IntervalOrEq::Interval(interval) => {
                proof {
                    if interval.vacant() {
                        assert forall|p: int| !#[trigger] self.covers(p) by {}
                    } else {
                        assert(self.covers(interval.geq.place()));
                    }
                }
                interval.is_empty()
            },
            IntervalOrEq::Eq(v) => {
                assert(self.covers(v.place()));
                false
            },
        }
    }

    /// `v` satisfies the constraint.
    pub fn contains(&self, v: T) -> (r: bool)
        ensures
            r == self.covers(v.place()),
    {
        match self {
            IntervalOrEq::Interval(interval) => interval.contains(v),
            IntervalOrEq::Eq(e) => v.at_most(*e) && e.at_most(v),
        }
    }

    /// Conjunction of two constraints on the same draw, or `None` when
    /// they contradict (empty intersection, a point outside the
    /// interval, two distinct points)
    pub fn merge(&self, other: &Self) -> (r: Option<Self>)
        ensures
            r == conjunction(*self, *other),
            match r {
                Some(m) => {
                    &&& forall|p: int| #[trigger] m.covers(p) == (self.covers(p) && other.covers(p))
                    &&& exists|p: int| #[trigger] m.covers(p)
                },
                None => forall|p: int| !(#[trigger] self.covers(p) && other.covers(p)),
            },
    {
        proof {
            lemma_conjunction(*self, *other);
        }
        match (self, other) {
            (IntervalOrEq::Interval(i1), IntervalOrEq::Interval(i2)) => {
                let merged = i1.intersect(i2);
                if merged.is_empty() {
                    None
                } else {
                    Some(IntervalOrEq::Interval(merged))
                }
            },
            (IntervalOrEq::Eq(v), IntervalOrEq::Interval(i)) => {
                // The interval condition is implied by x = v when v lies
                // inside it, and contradicted otherwise.
                if i.contains(*v) {
                    Some(IntervalOrEq::Eq(*v))
                } else {
                    None
                }
            },
            (IntervalOrEq::Interval(i), IntervalOrEq::Eq(v)) => {
                if i.contains(*v) {
                    Some(IntervalOrEq::Eq(*v))
                } else {
                    None
                }
            },
            (IntervalOrEq::Eq(v1), IntervalOrEq::Eq(v2)) => {
                if v1.at_most(*v2) && v2.at_most(*v1) {
                    Some(IntervalOrEq::Eq(*v1))
                } else {
                    None
                }
            },
        }
    }
}

/// Both constraints in one, if they leave anything.
pub open spec fn conjunction<T: Point>(a: IntervalOrEq<T>, b: IntervalOrEq<T>) -> Option<
    IntervalOrEq<T>,
> {
    match (a, b) {
        (IntervalOrEq::Interval(i), IntervalOrEq::Interval(j)) => if common(i, j).vacant() {
            None
        } else {
            Some(IntervalOrEq::Interval(common(i, j)))
        },
        (IntervalOrEq::Eq(v), _) => if b.covers(v.place()) {
            Some(IntervalOrEq::Eq(v))
        } else {
            None
        },
        (_, IntervalOrEq::Eq(v)) => if a.covers(v.place()) {
            Some(IntervalOrEq::Eq(v))
        } else {
            None
        },
    }
}

/// The conjunction covers what both constraints cover, and is left out
/// exactly if they contradict each other.
pub proof fn lemma_conjunction<T: Point>(a: IntervalOrEq<T>, b: IntervalOrEq<T>)
    ensures
        match conjunction(a, b) {
            Some(m) => {
                &&& forall|p: int| #[trigger] m.covers(p) == (a.covers(p) && b.covers(p))
                &&& exists|p: int| #[trigger] m.covers(p)
            },
            None => forall|p: int| !(#[trigger] a.covers(p) && b.covers(p)),
        },
{
    match (a, b) {
        (IntervalOrEq::Interval(i), IntervalOrEq::Interval(j)) => {
            let c = common(i, j);
            lemma_vacant(c);
            assert forall|p: int| #[trigger] a.covers(p) && b.covers(p) implies c.covers(p) by {}
            if !c.vacant() {
                assert(IntervalOrEq::Interval(c).covers(c.geq.place()));
            }
        },
        (IntervalOrEq::Eq(v), _) => {
            assert(IntervalOrEq::Eq(v).covers(v.place()));
        },
        (_, IntervalOrEq::Eq(v)) => {
            assert(IntervalOrEq::Eq(v).covers(v.place()));
        },
    }
}

/// `[0, b)` and `[b, ∞)` part the half-line: every place from zero on lies
/// in exactly one of them.
pub proof fn lemma_parted<T: Point>(below: Interval<T>, above: Interval<T>, b: T, p: int)
    requires
        below.geq.place() == 0,
        below.lt == Some(b),
        above == (Interval { geq: b, lt: None::<T> }),
        b.place() >= 0,
        p >= 0,
    ensures
        below.covers(p) != above.covers(p),
{
}

/// The order of two constraints does not matter to what they leave.
pub proof fn lemma_conjunction_commutes<T: Point>(a: IntervalOrEq<T>, b: IntervalOrEq<T>, p: int)
    ensures
        conjunction(a, b) is Some == conjunction(b, a) is Some,
        match (conjunction(a, b), conjunction(b, a)) {
            (Some(m), Some(n)) => m.covers(p) == n.covers(p),
            _ => true,
        },
{
    lemma_conjunction(a, b);
    lemma_conjunction(b, a);
    if conjunction(a, b) is Some {
        let m = conjunction(a, b)->0;
        let q = choose|q: int| #[trigger] m.covers(q);
        assert(b.covers(q) && a.covers(q));
    }
    if conjunction(b, a) is Some {
        let m = conjunction(b, a)->0;
        let q = choose|q: int| #[trigger] m.covers(q);
        assert(b.covers(q) && a.covers(q));
    }
}

} // verus!
