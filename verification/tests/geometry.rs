//! Unit tests for the integer geometry predicates.

use ltn_core::geometry::{orient, polygon_hits_path, polyline_first_cross, segments_cross, Pt};

fn pt(x: i64, y: i64) -> Pt {
    Pt { x, y }
}

#[test]
fn orientation_signs() {
    assert_eq!(orient(pt(0, 0), pt(10, 0), pt(5, 5)), 50);
    assert_eq!(orient(pt(0, 0), pt(10, 0), pt(5, -5)), -50);
    assert_eq!(orient(pt(0, 0), pt(10, 0), pt(20, 0)), 0);
}

#[test]
fn proper_crossing_detected() {
    assert!(segments_cross(pt(0, 0), pt(10, 10), pt(0, 10), pt(10, 0)));
    assert!(!segments_cross(pt(0, 0), pt(10, 10), pt(20, 0), pt(30, 10)));
    // touching at an endpoint is not a proper crossing
    assert!(!segments_cross(pt(0, 0), pt(10, 10), pt(10, 10), pt(20, 0)));
    // collinear overlap is not a proper crossing
    assert!(!segments_cross(pt(0, 0), pt(10, 0), pt(5, 0), pt(15, 0)));
}

#[test]
fn first_crossed_segment_found() {
    let center = vec![pt(0, 0), pt(10, 0), pt(20, 0), pt(30, 0)];
    let drawn = vec![pt(25, 5), pt(25, -5)];
    assert_eq!(polyline_first_cross(&center, &drawn), Some(2));
    let across_two = vec![pt(5, 5), pt(5, -5)];
    assert_eq!(polyline_first_cross(&center, &across_two), Some(0));
    let misses = vec![pt(50, 5), pt(50, -5)];
    assert_eq!(polyline_first_cross(&center, &misses), None);
}

#[test]
fn polygon_boundary_crossing() {
    let poly = vec![pt(0, 0), pt(10, 0), pt(10, 10), pt(0, 10)];
    let through = vec![pt(-5, 5), pt(5, 5)];
    assert!(polygon_hits_path(&poly, &through));
    let outside = vec![pt(20, 5), pt(30, 5)];
    assert!(!polygon_hits_path(&poly, &outside));
    // the wrapping edge from the last vertex back to the first counts
    let through_left = vec![pt(-5, 5), pt(3, 5)];
    assert!(polygon_hits_path(&poly, &through_left));
}
