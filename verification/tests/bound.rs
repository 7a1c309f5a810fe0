use std::cmp::Ordering;

use flp_math::bound::Bound;

#[test]
fn wrapping_bound_examples() {
    let bound = Bound::new(3, 7, true);
    assert_eq!(bound.apply(10), 5);
    assert_eq!(bound.apply(12), 7);
    assert_eq!(bound.apply(13), 3);
    assert_eq!(bound.apply(0), 5);
    assert_eq!(bound.apply(-2), 3);
    assert_eq!(bound.apply(-3), 7);
}

#[test]
fn clipping_bound_stops_at_the_edges() {
    let bound = Bound::new(3, 7, false);
    assert_eq!(bound.apply(10), 7);
    assert_eq!(bound.apply(0), 3);
    assert_eq!(bound.apply(5), 5);
}

#[test]
fn values_inside_the_bound_pass_through() {
    let bound = Bound::new(3, 7, true);
    assert_eq!(bound.apply(3), 3);
    assert_eq!(bound.apply(7), 7);
    assert_eq!(bound.apply(4), 4);
}

#[test]
fn check_reports_the_side() {
    let bound = Bound::new(3, 7, false);
    assert_eq!(bound.check(2), Ordering::Less);
    assert_eq!(bound.check(8), Ordering::Greater);
    assert_eq!(bound.check(3), Ordering::Equal);
    assert_eq!(bound.check(7), Ordering::Equal);
}

#[test]
fn negative_bounds_wrap_too() {
    let bound = Bound::new(-5, -1, true);
    assert_eq!(bound.apply(0), -5);
    assert_eq!(bound.apply(-6), -1);
    assert_eq!(bound.apply(-3), -3);
}
