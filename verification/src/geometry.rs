//! Pure integer geometry: points, segment crossing tests, and
//! polyline/polygon intersection queries used when a drawn shape is
//! matched against road centerlines and intersection footprints.
//! Coordinates are bounded so that every orientation test fits in `i64`.

use vstd::prelude::*;

verus! {

/// Largest magnitude a coordinate may have; keeps cross products in `i64`.
pub const COORD_LIMIT: i64 = 1_000_000;

/// A point in the map's plane, in fixed integer units.
#[derive(Clone, Copy, Debug, PartialEq, Eq, Structural)]
pub struct Pt {
    pub x: i64,
    pub y: i64,
}

/// The point's coordinates are within the supported range.
pub open spec fn pt_ok(p: Pt) -> bool {
    -COORD_LIMIT <= p.x && p.x <= COORD_LIMIT && -COORD_LIMIT <= p.y && p.y <= COORD_LIMIT
}

/// Every point of the sequence is within the supported range.
pub open spec fn pts_ok(s: Seq<Pt>) -> bool {
    forall|k: int| 0 <= k < s.len() ==> pt_ok(#[trigger] s[k])
}

/// Twice the signed area of the triangle `a`, `b`, `c`: positive when
/// `c` lies to the left of the directed line from `a` to `b`.
pub open spec fn sp_orient(a: Pt, b: Pt, c: Pt) -> int {
    (b.x - a.x) * (c.y - a.y) - (b.y - a.y) * (c.x - a.x)
}

/// Computes the orientation test exactly.
pub fn orient(a: Pt, b: Pt, c: Pt) -> (r: i64)
    requires
        pt_ok(a),
        pt_ok(b),
        pt_ok(c),
    ensures
        r as int == sp_orient(a, b, c),
{
    let ux: i64 = b.x - a.x;
    let uy: i64 = b.y - a.y;
    let vx: i64 = c.x - a.x;
    let vy: i64 = c.y - a.y;
    proof {
        assert(-2 * COORD_LIMIT <= ux as int <= 2 * COORD_LIMIT);
        assert(-2 * COORD_LIMIT <= uy as int <= 2 * COORD_LIMIT);
        assert(-2 * COORD_LIMIT <= vx as int <= 2 * COORD_LIMIT);
        assert(-2 * COORD_LIMIT <= vy as int <= 2 * COORD_LIMIT);
        assert(-4_000_000_000_000 <= ux as int * vy as int <= 4_000_000_000_000) by (nonlinear_arith)
            requires
                -2_000_000 <= ux as int <= 2_000_000,
                -2_000_000 <= vy as int <= 2_000_000,
        ;
        assert(-4_000_000_000_000 <= uy as int * vx as int <= 4_000_000_000_000) by (nonlinear_arith)
            requires
                -2_000_000 <= uy as int <= 2_000_000,
                -2_000_000 <= vx as int <= 2_000_000,
        ;
    }
    ux * vy - uy * vx
}

/// The open segments `a`-`b` and `c`-`d` cross properly: each segment's
/// endpoints lie strictly on opposite sides of the other's line.
/// Touching at an endpoint does not count as a crossing.
pub open spec fn sp_segments_cross(a: Pt, b: Pt, c: Pt, d: Pt) -> bool {
    ((sp_orient(a, b, c) > 0 && sp_orient(a, b, d) < 0)
        || (sp_orient(a, b, c) < 0 && sp_orient(a, b, d) > 0))
    && ((sp_orient(c, d, a) > 0 && sp_orient(c, d, b) < 0)
        || (sp_orient(c, d, a) < 0 && sp_orient(c, d, b) > 0))
}

/// Decides the proper-crossing test.
pub fn segments_cross(a: Pt, b: Pt, c: Pt, d: Pt) -> (r: bool)
    requires
        pt_ok(a),
        pt_ok(b),
        pt_ok(c),
        pt_ok(d),
    ensures
        r == sp_segments_cross(a, b, c, d),
{
    let o1 = orient(a, b, c);
    let o2 = orient(a, b, d);
    let o3 = orient(c, d, a);
    let o4 = orient(c, d, b);
    ((o1 > 0 && o2 < 0) || (o1 < 0 && o2 > 0)) && ((o3 > 0 && o4 < 0) || (o3 < 0 && o4 > 0))
}

/// The segment `c0`-`c1` crosses some segment of `path` at index `j` or later.
pub open spec fn sp_seg_hits_path(c0: Pt, c1: Pt, path: Seq<Pt>, j: int) -> bool
    decreases path.len() - j,
{
    if j < 0 || j + 1 >= path.len() {
        false
    } else {
        sp_segments_cross(c0, c1, path[j], path[j + 1]) || sp_seg_hits_path(c0, c1, path, j + 1)
    }
}

/// Decides whether the segment `c0`-`c1` crosses any segment of `path`.
pub fn seg_hits_path(c0: Pt, c1: Pt, path: &Vec<Pt>) -> (r: bool)
    requires
        pt_ok(c0),
        pt_ok(c1),
        pts_ok(path@),
    ensures
        r == sp_seg_hits_path(c0, c1, path@, 0),
{
    let n = path.len();
    if n < 2 {
        return false;
    }
    let mut j: usize = 0;
    while j + 1 < n
        invariant
            pt_ok(c0),
            pt_ok(c1),
            pts_ok(path@),
            n == path@.len(),
            2 <= n,
            j + 1 <= n,
            sp_seg_hits_path(c0, c1, path@, 0) == sp_seg_hits_path(c0, c1, path@, j as int),
        decreases n - j,
    {
        if segments_cross(c0, c1, path[j], path[j + 1]) {
            assert(sp_seg_hits_path(c0, c1, path@, j as int));
            return true;
        }
        j = j + 1;
    }
    false
}

/// The index of the first segment of `center` that properly crosses some
/// segment of `path`, scanning from index `k`; `-1` when none does.
pub open spec fn sp_first_cross(center: Seq<Pt>, path: Seq<Pt>, k: int) -> int
    decreases center.len() - k,
{
    if k < 0 || k + 1 >= center.len() {
        -1
    } else if sp_seg_hits_path(center[k], center[k + 1], path, 0) {
        k
    } else {
        sp_first_cross(center, path, k + 1)
    }
}

/// Finds the first segment of `center` crossed by the drawn `path`.
pub fn polyline_first_cross(center: &Vec<Pt>, path: &Vec<Pt>) -> (r: Option<usize>)
    requires
        pts_ok(center@),
        pts_ok(path@),
    ensures
        match r {
            Some(k) => k as int == sp_first_cross(center@, path@, 0) && k + 1 < center@.len(),
            None => sp_first_cross(center@, path@, 0) == -1,
        },
{
    let n = center.len();
    if n < 2 {
        return None;
    }
    let mut k: usize = 0;
    while k + 1 < n
        invariant
            pts_ok(center@),
            pts_ok(path@),
            n == center@.len(),
            2 <= n,
            k + 1 <= n,
            sp_first_cross(center@, path@, 0) == sp_first_cross(center@, path@, k as int),
        decreases n - k,
    {
        if seg_hits_path(center[k], center[k + 1], path) {
            return Some(k);
        }
        k = k + 1;
    }
    None
}

/// Some edge of the closed polygon `poly` (including the wrapping edge)
/// properly crosses some segment of `path`, scanning edges from `k`.
pub open spec fn sp_polygon_hits_path(poly: Seq<Pt>, path: Seq<Pt>, k: int) -> bool
    decreases poly.len() - k,
{
    if k < 0 || k >= poly.len() {
        false
    } else {
        let nxt = if k + 1 == poly.len() { 0 } else { k + 1 };
        sp_seg_hits_path(poly[k], poly[nxt], path, 0) || sp_polygon_hits_path(poly, path, k + 1)
    }
}

/// Decides whether the drawn `path` crosses the boundary of `poly`.
pub fn polygon_hits_path(poly: &Vec<Pt>, path: &Vec<Pt>) -> (r: bool)
    requires
        pts_ok(poly@),
        pts_ok(path@),
    ensures
        r == sp_polygon_hits_path(poly@, path@, 0),
{
    let n = poly.len();
    let mut k: usize = 0;
    while k < n
        invariant
            pts_ok(poly@),
            pts_ok(path@),
            n == poly@.len(),
            k <= n,
            sp_polygon_hits_path(poly@, path@, 0) == sp_polygon_hits_path(poly@, path@, k as int),
        decreases n - k,
    {
        let nxt: usize = if k + 1 == n { 0 } else { k + 1 };
        if seg_hits_path(poly[k], poly[nxt], path) {
            assert(sp_polygon_hits_path(poly@, path@, k as int));
            return true;
        }
        k = k + 1;
    }
    false
}

} // verus!
