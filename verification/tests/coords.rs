use eyros::coord::{
    coord_cmp, coord_cmp_pivot, coord_max, coord_min, find_separation, intersect_coord,
    intersect_iv, intersect_pivot,
};
use eyros::Coord;
use std::cmp::Ordering;

#[test]
fn separation_of_disjoint_intervals_is_gap_midpoint() {
    // [0,0] and [10,10] do not overlap: the pivot is the gap midpoint.
    assert_eq!(find_separation(0, 0, 10, 10, false), 5);
    assert_eq!(find_separation(0, 0, 10, 10, true), 5);
}

#[test]
fn separation_of_overlapping_intervals_follows_bias() {
    // [0,5] and [3,8] overlap: lower-endpoint bias, then upper.
    assert_eq!(find_separation(0, 5, 3, 8, true), 1);
    assert_eq!(find_separation(0, 5, 3, 8, false), 6);
}

#[test]
fn separation_rounds_toward_negative_infinity() {
    // [0,0] and [-5,-5]: no overlap, midpoint of 0 and -5 rounds down.
    assert_eq!(find_separation(0, 0, -5, -5, false), -3);
    assert_eq!(find_separation(-3, -3, -3, -3, true), -3);
}

#[test]
fn interval_overlap_is_closed() {
    assert!(intersect_iv(0, 5, 5, 9));
    assert!(intersect_iv(5, 9, 0, 5));
    assert!(!intersect_iv(0, 4, 5, 9));
}

#[test]
fn pivot_touching() {
    assert!(intersect_pivot(&Coord::Scalar(3), 3));
    assert!(!intersect_pivot(&Coord::Scalar(3), 4));
    assert!(intersect_pivot(&Coord::Interval(0, 5), 5));
    assert!(intersect_pivot(&Coord::Interval(0, 5), 0));
    assert!(!intersect_pivot(&Coord::Interval(0, 5), 6));
}

#[test]
fn coord_box_intersection_includes_boundaries() {
    // An interval whose lower endpoint equals the box's upper bound is
    // still returned.
    assert!(intersect_coord(&Coord::Interval(10, 20), 0, 10));
    // An interval fully containing the box range intersects it.
    assert!(intersect_coord(&Coord::Interval(-10, 10), -1, 1));
    assert!(intersect_coord(&Coord::Scalar(7), 0, 10));
    assert!(!intersect_coord(&Coord::Scalar(11), 0, 10));
}

#[test]
fn comparisons_use_lower_endpoints() {
    assert_eq!(
        coord_cmp(&Coord::Scalar(1), &Coord::Interval(2, 9)),
        Some(Ordering::Less)
    );
    assert_eq!(
        coord_cmp(&Coord::Interval(3, 9), &Coord::Scalar(3)),
        Some(Ordering::Equal)
    );
    assert_eq!(coord_cmp_pivot(&Coord::Interval(4, 9), 3), Some(Ordering::Greater));
}

#[test]
fn envelope_folds_use_both_endpoints() {
    // The minimum tracks lower endpoints, the maximum upper endpoints.
    assert_eq!(coord_min(&Coord::Interval(-4, 9), 0), -4);
    assert_eq!(coord_min(&Coord::Scalar(3), -1), -1);
    assert_eq!(coord_max(&Coord::Interval(-4, 9), 0), 9);
    assert_eq!(coord_max(&Coord::Scalar(3), 7), 7);
}
