//! End-to-end tests on a small map: a square perimeter of four one-way
//! roads, a central intersection joined to all four corners, and two
//! disjoint cheap interior routes that cut across the middle.

use ltn_core::filters::ModalFilters;
use ltn_core::geometry::Pt;
use ltn_core::neighborhood::{trace_neighborhood, Neighborhood};
use ltn_core::network::{Intersection, Lane, LaneType, Road, RoadNetwork, Turn};
use ltn_core::pathfind::{find_path, PathRequest, TravelProfile};
use ltn_core::session::EditSession;
use ltn_core::shortcuts::detect_shortcuts;
use ltn_core::EditError;

fn pt(x: i64, y: i64) -> Pt {
    Pt { x, y }
}

fn tri(x: i64, y: i64) -> Vec<Pt> {
    vec![pt(x - 2, y - 2), pt(x + 2, y - 2), pt(x, y + 2)]
}

fn road(src_i: usize, dst_i: usize, a: Pt, b: Pt, len: u64) -> Road {
    Road { src_i, dst_i, center: vec![a, b], cum_dist: vec![0, len] }
}

fn lane(road: usize, src_i: usize, dst_i: usize) -> Lane {
    Lane { road, src_i, dst_i, lane_type: LaneType::Driving }
}

/// Intersections: 0 = southwest corner, 1 = southeast, 2 = northeast,
/// 3 = northwest, 4 = center. Roads 0..=3 run one way clockwise around
/// the square; roads 4 and 5 carry an interior route southwest ->
/// center -> northeast, and roads 7 and 6 a second, disjoint interior
/// route northwest -> center -> southeast.
fn build_map() -> RoadNetwork {
    let a = pt(0, 0);
    let b = pt(100, 0);
    let c = pt(100, 100);
    let d = pt(0, 100);
    let e = pt(50, 50);
    let roads = vec![
        road(0, 1, a, b, 100),
        road(1, 2, b, c, 100),
        road(2, 3, c, d, 100),
        road(3, 0, d, a, 100),
        road(0, 4, a, e, 10),
        road(4, 2, e, c, 10),
        road(1, 4, b, e, 10),
        road(3, 4, d, e, 10),
    ];
    let intersections = vec![
        Intersection { polygon: tri(0, 0), roads: vec![0, 3, 4] },
        Intersection { polygon: tri(100, 0), roads: vec![0, 1, 6] },
        Intersection { polygon: tri(100, 100), roads: vec![1, 2, 5] },
        Intersection { polygon: tri(0, 100), roads: vec![2, 3, 7] },
        Intersection { polygon: tri(50, 50), roads: vec![4, 6, 5, 7] },
    ];
    let lanes = vec![
        lane(0, 0, 1),
        lane(1, 1, 2),
        lane(2, 2, 3),
        lane(3, 3, 0),
        lane(4, 0, 4),
        lane(5, 4, 2),
        lane(7, 3, 4),
        lane(6, 4, 1),
    ];
    let turns = vec![
        Turn { parent: 1, src_lane: 0, dst_lane: 1 },
        Turn { parent: 2, src_lane: 1, dst_lane: 2 },
        Turn { parent: 3, src_lane: 2, dst_lane: 3 },
        Turn { parent: 0, src_lane: 3, dst_lane: 0 },
        Turn { parent: 0, src_lane: 3, dst_lane: 4 },
        Turn { parent: 4, src_lane: 4, dst_lane: 5 },
        Turn { parent: 2, src_lane: 5, dst_lane: 2 },
        Turn { parent: 3, src_lane: 2, dst_lane: 6 },
        Turn { parent: 4, src_lane: 6, dst_lane: 7 },
        Turn { parent: 1, src_lane: 7, dst_lane: 1 },
    ];
    RoadNetwork { intersections, roads, lanes, turns }
}

fn driving() -> TravelProfile {
    TravelProfile { driving: true, biking: false, walking: false, bus: false }
}

fn traced(m: &RoadNetwork) -> Neighborhood {
    trace_neighborhood(m, &vec![0, 1, 2, 3], 4).unwrap()
}

#[test]
fn map_is_well_formed() {
    let m = build_map();
    assert!(m.check_valid());
}

#[test]
fn accessors_resolve_known_and_reject_unknown() {
    let m = build_map();
    assert!(m.get_road(0).is_some());
    assert!(m.get_road(8).is_none());
    assert!(m.get_intersection(4).is_some());
    assert!(m.get_intersection(5).is_none());
    assert!(m.get_lane(7).is_some());
    assert!(m.get_lane(8).is_none());
    assert!(m.get_turn(9).is_some());
    assert!(m.get_turn(10).is_none());
}

#[test]
fn trace_builds_square_neighborhood() {
    let m = build_map();
    let nb = traced(&m);
    assert_eq!(nb.perimeter.roads, vec![0, 1, 2, 3]);
    assert_eq!(nb.perimeter.corners, vec![0, 1, 2, 3]);
    assert_eq!(nb.interior_intersections, vec![4]);
    assert_eq!(nb.interior_roads, vec![4, 5, 6, 7]);
}

#[test]
fn trace_rejects_unknown_road() {
    let m = build_map();
    assert_eq!(trace_neighborhood(&m, &vec![0, 1, 2, 99], 4).unwrap_err(), EditError::NotFound);
}

#[test]
fn trace_rejects_open_boundary() {
    let m = build_map();
    assert_eq!(trace_neighborhood(&m, &vec![0, 1, 2], 4).unwrap_err(), EditError::Unenclosed);
}

#[test]
fn trace_rejects_seed_on_perimeter() {
    let m = build_map();
    assert_eq!(trace_neighborhood(&m, &vec![0, 1, 2, 3], 1).unwrap_err(), EditError::Unenclosed);
}

#[test]
fn trace_rejects_unknown_seed() {
    let m = build_map();
    assert_eq!(trace_neighborhood(&m, &vec![0, 1, 2, 3], 9).unwrap_err(), EditError::NotFound);
}

#[test]
fn place_filter_validates_bounds() {
    let m = build_map();
    let nb = traced(&m);
    let mut f = ModalFilters::new(&m);
    assert_eq!(f.place_filter(&m, &nb, 4, 5), Ok(()));
    assert_eq!(f.road_dists[4], Some(5));
    assert_eq!(f.place_filter(&m, &nb, 4, 0), Err(EditError::OutOfBounds));
    assert_eq!(f.place_filter(&m, &nb, 4, 10), Err(EditError::OutOfBounds));
    assert_eq!(f.place_filter(&m, &nb, 0, 50), Err(EditError::OutOfBounds));
    assert_eq!(f.place_filter(&m, &nb, 99, 5), Err(EditError::NotFound));
    assert_eq!(f.road_dists[4], Some(5));
}

#[test]
fn place_replaces_existing_filter() {
    let m = build_map();
    let nb = traced(&m);
    let mut f = ModalFilters::new(&m);
    assert_eq!(f.place_filter(&m, &nb, 4, 3), Ok(()));
    assert_eq!(f.place_filter(&m, &nb, 4, 7), Ok(()));
    assert_eq!(f.road_dists[4], Some(7));
}

#[test]
fn remove_then_place_equals_place() {
    let m = build_map();
    let nb = traced(&m);
    let mut f1 = ModalFilters::new(&m);
    assert_eq!(f1.place_filter(&m, &nb, 4, 3), Ok(()));
    assert_eq!(f1.remove_filter(&m, &nb, 4), Ok(()));
    assert_eq!(f1.place_filter(&m, &nb, 4, 7), Ok(()));
    let mut f2 = ModalFilters::new(&m);
    assert_eq!(f2.place_filter(&m, &nb, 4, 7), Ok(()));
    assert_eq!(f1.road_dists, f2.road_dists);
    assert_eq!(f1.diagonals, f2.diagonals);
}

#[test]
fn diagonal_cycle_closes_after_four_steps() {
    let m = build_map();
    let nb = traced(&m);
    let mut f = ModalFilters::new(&m);
    assert_eq!(f.cycle_diagonal_filter(&m, &nb, 4), Ok(true));
    assert_eq!(f.diagonals[4], Some(0));
    assert_eq!(f.cycle_diagonal_filter(&m, &nb, 4), Ok(true));
    assert_eq!(f.diagonals[4], Some(1));
    assert_eq!(f.cycle_diagonal_filter(&m, &nb, 4), Ok(true));
    assert_eq!(f.diagonals[4], Some(2));
    assert_eq!(f.cycle_diagonal_filter(&m, &nb, 4), Ok(true));
    assert_eq!(f.diagonals[4], None);
}

#[test]
fn diagonal_cycle_rejects_out_of_context() {
    let m = build_map();
    let nb = traced(&m);
    let mut f = ModalFilters::new(&m);
    assert_eq!(f.cycle_diagonal_filter(&m, &nb, 1), Err(EditError::OutOfBounds));
    assert_eq!(f.cycle_diagonal_filter(&m, &nb, 7), Err(EditError::NotFound));
    assert_eq!(f.remove_diagonal_filter(&m, &nb, 7), Err(EditError::NotFound));
    assert_eq!(f.remove_diagonal_filter(&m, &nb, 0), Err(EditError::OutOfBounds));
}

#[test]
fn pathfinding_prefers_cheap_interior_route() {
    let m = build_map();
    let f = ModalFilters::new(&m);
    let req = PathRequest { start: 3, goal: 2, profile: driving(), restrict: None };
    let p = find_path(&m, &f, &req).unwrap();
    assert_eq!(p, vec![4, 5, 6]);
}

#[test]
fn pathfinding_is_deterministic() {
    let m = build_map();
    let f = ModalFilters::new(&m);
    let nb = traced(&m);
    let req1 = PathRequest { start: 3, goal: 2, profile: driving(), restrict: Some(nb.duplicate()) };
    let req2 = PathRequest { start: 3, goal: 2, profile: driving(), restrict: Some(nb.duplicate()) };
    let p1 = find_path(&m, &f, &req1);
    let p2 = find_path(&m, &f, &req2);
    assert_eq!(p1, p2);
    assert_eq!(find_path(&m, &f, &req1), p1);
}

#[test]
fn filtered_road_diverts_pathfinding() {
    let m = build_map();
    let nb = traced(&m);
    let mut f = ModalFilters::new(&m);
    assert_eq!(f.place_filter(&m, &nb, 4, 5), Ok(()));
    let req = PathRequest { start: 3, goal: 2, profile: driving(), restrict: None };
    let p = find_path(&m, &f, &req).unwrap();
    assert_eq!(p, vec![3, 0, 1]);
}

#[test]
fn no_path_is_reported_as_none() {
    let m = build_map();
    let nb = traced(&m);
    let mut f = ModalFilters::new(&m);
    assert_eq!(f.place_filter(&m, &nb, 4, 5), Ok(()));
    // lane 5 leaves the center, which is unreachable once road 4 closes
    let req = PathRequest { start: 0, goal: 5, profile: driving(), restrict: None };
    assert!(find_path(&m, &f, &req).is_none());
}

#[test]
fn profile_gates_lane_types() {
    let m = build_map();
    let f = ModalFilters::new(&m);
    let walking = TravelProfile { driving: false, biking: false, walking: true, bus: false };
    let req = PathRequest { start: 3, goal: 2, profile: walking, restrict: None };
    assert!(find_path(&m, &f, &req).is_none());
}

#[test]
fn detector_reports_both_shortcuts_in_stable_order() {
    let m = build_map();
    let f = ModalFilters::new(&m);
    let nb = traced(&m);
    let sc = detect_shortcuts(&m, &f, &nb);
    assert_eq!(sc.len(), 2);
    assert_eq!(sc[0].entry, 2);
    assert_eq!(sc[0].exit, 1);
    assert_eq!(sc[0].path, vec![7, 8, 9]);
    assert_eq!(sc[1].entry, 3);
    assert_eq!(sc[1].exit, 2);
    assert_eq!(sc[1].path, vec![4, 5, 6]);
    // repeated detection on unchanged state browses identically
    let sc2 = detect_shortcuts(&m, &f, &nb);
    assert_eq!(sc2.len(), 2);
    assert_eq!(sc2[0].path, sc[0].path);
    assert_eq!(sc2[1].path, sc[1].path);
}

#[test]
fn filtering_the_shortcut_path_eliminates_only_it() {
    let m = build_map();
    let nb = traced(&m);
    let mut f = ModalFilters::new(&m);
    let sc = detect_shortcuts(&m, &f, &nb);
    assert_eq!(sc.len(), 2);
    // place a filter at half length on every interior road of the
    // southwest shortcut's path
    assert_eq!(f.place_filter(&m, &nb, 4, 5), Ok(()));
    assert_eq!(f.place_filter(&m, &nb, 5, 5), Ok(()));
    let sc2 = detect_shortcuts(&m, &f, &nb);
    // that shortcut is gone; the unrelated one survives untouched
    assert_eq!(sc2.len(), 1);
    assert_eq!(sc2[0].entry, 2);
    assert_eq!(sc2[0].exit, 1);
    assert_eq!(sc2[0].path, vec![7, 8, 9]);
    // the traced perimeter is untouched by filter placement
    let nb2 = traced(&m);
    assert_eq!(nb2.perimeter.roads, nb.perimeter.roads);
    assert_eq!(nb2.perimeter.corners, nb.perimeter.corners);
}

#[test]
fn diagonal_filter_blocks_crossing_turns() {
    let m = build_map();
    let nb = traced(&m);
    let mut f = ModalFilters::new(&m);
    assert_eq!(f.cycle_diagonal_filter(&m, &nb, 4), Ok(true));
    // alternative 0 cuts the southwest road off from the rest, which
    // removes the center turn of the southwest route but leaves the
    // northwest one crossing freely
    let sc = detect_shortcuts(&m, &f, &nb);
    assert_eq!(sc.len(), 1);
    assert_eq!(sc[0].entry, 2);
    // alternative 1 splits southwest+southeast from northeast+northwest,
    // cutting both routes at the center
    assert_eq!(f.cycle_diagonal_filter(&m, &nb, 4), Ok(true));
    let sc2 = detect_shortcuts(&m, &f, &nb);
    assert_eq!(sc2.len(), 0);
    assert_eq!(f.remove_diagonal_filter(&m, &nb, 4), Ok(()));
    let sc3 = detect_shortcuts(&m, &f, &nb);
    assert_eq!(sc3.len(), 2);
}

#[test]
fn saved_filters_reload_identically() {
    let m = build_map();
    let nb = traced(&m);
    let mut f = ModalFilters::new(&m);
    assert_eq!(f.place_filter(&m, &nb, 4, 5), Ok(()));
    assert_eq!(f.place_filter(&m, &nb, 6, 3), Ok(()));
    assert_eq!(f.cycle_diagonal_filter(&m, &nb, 4), Ok(true));
    let saved_roads = f.save_road_filters();
    let saved_diags = f.save_diagonal_filters();
    assert_eq!(saved_roads, vec![(4, 5), (6, 3)]);
    assert_eq!(saved_diags, vec![(4, 0)]);
    let f2 = ModalFilters::load_saved(&m, &saved_roads, &saved_diags).unwrap();
    assert_eq!(f2.road_dists, f.road_dists);
    assert_eq!(f2.diagonals, f.diagonals);
    // reloaded state reproduces pathfinder and detector outputs
    let req = PathRequest { start: 3, goal: 2, profile: driving(), restrict: None };
    assert_eq!(find_path(&m, &f, &req), find_path(&m, &f2, &req));
    let sc1 = detect_shortcuts(&m, &f, &nb);
    let sc2 = detect_shortcuts(&m, &f2, &nb);
    assert_eq!(sc1.len(), sc2.len());
}

#[test]
fn load_rejects_stale_identities() {
    let m = build_map();
    assert!(ModalFilters::load_saved(&m, &vec![(99, 5)], &vec![]).is_none());
    assert!(ModalFilters::load_saved(&m, &vec![(4, 0)], &vec![]).is_none());
    assert!(ModalFilters::load_saved(&m, &vec![], &vec![(1, 0)]).is_none());
    assert!(ModalFilters::load_saved(&m, &vec![], &vec![(4, 3)]).is_none());
    assert!(ModalFilters::load_saved(&m, &vec![(4, 5)], &vec![(4, 2)]).is_some());
}

#[test]
fn session_transaction_refreshes_cache_and_undoes() {
    let m = build_map();
    let nb = traced(&m);
    let mut s = EditSession::new(&m);
    s.set_neighborhood(&m, nb.duplicate());
    assert_eq!(s.cached_shortcuts.as_ref().unwrap().len(), 2);
    s.before_edit(&m);
    assert_eq!(s.filters.place_filter(&m, &nb, 4, 5), Ok(()));
    assert_eq!(s.filters.place_filter(&m, &nb, 5, 5), Ok(()));
    s.after_edit(&m);
    assert_eq!(s.cached_shortcuts.as_ref().unwrap().len(), 1);
    s.undo(&m);
    assert_eq!(s.filters.road_dists[4], None);
    assert_eq!(s.filters.road_dists[5], None);
    assert_eq!(s.cached_shortcuts.as_ref().unwrap().len(), 2);
}

#[test]
fn freehand_path_filters_crossed_road() {
    let m = build_map();
    let nb = traced(&m);
    let mut s = EditSession::new(&m);
    s.set_neighborhood(&m, nb.duplicate());
    let drawn = vec![pt(10, 0), pt(0, 10)];
    ltn_core::freehand::make_filters_along_path(&m, &nb, &drawn, &mut s);
    assert_eq!(s.filters.road_dists[4], Some(5));
    assert_eq!(s.filters.road_dists[5], None);
    assert_eq!(s.filters.diagonals[4], None);
    assert_eq!(s.cached_shortcuts.as_ref().unwrap().len(), 1);
    s.undo(&m);
    assert_eq!(s.filters.road_dists[4], None);
    assert_eq!(s.cached_shortcuts.as_ref().unwrap().len(), 2);
}

#[test]
fn freehand_path_cycles_crossed_intersection() {
    let m = build_map();
    let nb = traced(&m);
    let mut s = EditSession::new(&m);
    s.set_neighborhood(&m, nb.duplicate());
    let drawn = vec![pt(40, 50), pt(60, 50)];
    ltn_core::freehand::make_filters_along_path(&m, &nb, &drawn, &mut s);
    assert_eq!(s.filters.diagonals[4], Some(0));
    assert_eq!(s.filters.road_dists[4], None);
}

#[test]
fn freehand_skips_already_filtered_roads() {
    let m = build_map();
    let nb = traced(&m);
    let mut s = EditSession::new(&m);
    s.before_edit(&m);
    assert_eq!(s.filters.place_filter(&m, &nb, 4, 7), Ok(()));
    s.after_edit(&m);
    let drawn = vec![pt(10, 0), pt(0, 10)];
    ltn_core::freehand::make_filters_along_path(&m, &nb, &drawn, &mut s);
    assert_eq!(s.filters.road_dists[4], Some(7));
}
