use pluck::utils::intervals::{Interval, IntervalOrEq, Real};

#[test]
fn intersect_narrows_to_singleton() {
    // k < 3 AND k ≥ 2 ⇒ k ∈ [2, 3) = {2} over the integers.
    let r = Interval::lt(3).intersect(&Interval::geq(2));
    assert_eq!(
        r,
        Interval {
            geq: 2,
            lt: Some(3)
        }
    );
    assert!(!r.is_empty());
    assert!(r.contains(2));
    assert!(!r.contains(3));
}

#[test]
fn intersect_empty_detected() {
    // k < 3 AND k ≥ 3 is the empty [3, 3).
    let r = Interval::lt(3).intersect(&Interval::geq(3));
    assert!(r.is_empty());
}

#[test]
fn intersect_unbounded_pair_stays_unbounded() {
    let r = Interval::geq(2).intersect(&Interval::geq(5));
    assert_eq!(r, Interval::geq(5));
}

#[test]
fn boundary_belongs_to_exactly_one_side() {
    // [0, b) and [b, ∞) partition the support at b.
    let below = Interval::lt(3);
    let above = Interval::geq(3);
    assert!(!below.contains(3));
    assert!(above.contains(3));
}

#[test]
fn merge_eq_inside_and_outside_interval() {
    let m = IntervalOrEq::eq(2).merge(&IntervalOrEq::geq(1));
    assert_eq!(m, Some(IntervalOrEq::eq(2)));
    // The boundary of [0, 2) is outside it.
    assert_eq!(IntervalOrEq::eq(2).merge(&IntervalOrEq::lt(2)), None);
}

#[test]
fn merge_eq_eq_match_and_mismatch() {
    assert_eq!(
        IntervalOrEq::eq(5).merge(&IntervalOrEq::eq(5)),
        Some(IntervalOrEq::eq(5))
    );
    assert_eq!(IntervalOrEq::eq(5).merge(&IntervalOrEq::eq(6)), None);
}

#[test]
fn merge_empty_intersection_is_none() {
    assert_eq!(IntervalOrEq::lt(2).merge(&IntervalOrEq::geq(3)), None);
}

#[test]
fn real_points_are_ordered_as_numbers() {
    let half = Real(0.5f64.to_bits());
    let one = Real(1.0f64.to_bits());
    let below = Interval::lt(one);
    assert!(below.contains(half));
    assert!(!below.contains(one));
    assert!(!below.contains(Real((-0.5f64).to_bits())));
    assert!(below.contains(Real((-0.0f64).to_bits())));
    assert!(Interval::geq(one).contains(Real(f64::INFINITY.to_bits())));
}

#[test]
fn merged_constraint_covers_what_both_do() {
    let a = IntervalOrEq::lt(7u64);
    let b = IntervalOrEq::geq(3u64);
    let m = a.merge(&b).unwrap();
    for v in 0..10u64 {
        assert_eq!(m.contains(v), a.contains(v) && b.contains(v));
        assert_ne!(Interval::lt(3u64).contains(v), Interval::geq(3u64).contains(v));
    }
    assert!(!m.is_empty());
    assert!(IntervalOrEq::lt(0u64).is_empty());
    assert!(!IntervalOrEq::eq(0u64).is_empty());
}
