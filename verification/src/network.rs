//! The road network graph: intersections, roads, lanes and turns,
//! loaded once and immutable thereafter. Identities are dense indices
//! into the owning vectors; every query resolves an identity to its
//! record or reports that it is unknown.

use vstd::prelude::*;

use crate::geometry::{pt_ok, pts_ok, Pt, COORD_LIMIT};

verus! {

/// Largest length (and so largest distance-along) a road may have.
pub const DIST_LIMIT: u64 = 1_000_000_000;

/// The travel mode a single lane serves.
#[derive(Clone, Copy, Debug, PartialEq, Eq, Structural)]
pub enum LaneType {
    Driving,
    Biking,
    Walking,
    Bus,
    Parking,
}

/// A single directed travel way within a road, from intersection
/// `src_i` to intersection `dst_i` (the road's endpoints, in the
/// direction this lane runs).
#[derive(Clone, Copy, Debug, PartialEq, Eq, Structural)]
pub struct Lane {
    pub road: usize,
    pub src_i: usize,
    pub dst_i: usize,
    pub lane_type: LaneType,
}

/// A road between two distinct intersections, with its centerline and
/// the cumulative distance along it at each centerline vertex.
#[derive(Clone, Debug)]
pub struct Road {
    pub src_i: usize,
    pub dst_i: usize,
    pub center: Vec<Pt>,
    pub cum_dist: Vec<u64>,
}

/// An intersection: its polygon footprint and its incident roads,
/// listed once each, in consistent angular order.
#[derive(Clone, Debug)]
pub struct Intersection {
    pub polygon: Vec<Pt>,
    pub roads: Vec<usize>,
}

/// An edge of the pathfinding graph: at intersection `parent`, the
/// movement from the end of `src_lane` onto the start of `dst_lane`.
#[derive(Clone, Copy, Debug, PartialEq, Eq, Structural)]
pub struct Turn {
    pub parent: usize,
    pub src_lane: usize,
    pub dst_lane: usize,
}

/// The whole graph. Topology is fixed per loaded map: edits affect
/// filters, never these records.
#[derive(Clone, Debug)]
pub struct RoadNetwork {
    pub intersections: Vec<Intersection>,
    pub roads: Vec<Road>,
    pub lanes: Vec<Lane>,
    pub turns: Vec<Turn>,
}

impl RoadNetwork {
    pub open spec fn n_intersections(self) -> int {
        self.intersections@.len() as int
    }

    pub open spec fn n_roads(self) -> int {
        self.roads@.len() as int
    }

    pub open spec fn n_lanes(self) -> int {
        self.lanes@.len() as int
    }

    pub open spec fn n_turns(self) -> int {
        self.turns@.len() as int
    }

    /// The total length of road `r`: the last cumulative distance.
    pub open spec fn road_len(self, r: int) -> u64 {
        self.roads@[r].cum_dist@.last()
    }

    /// Road `r` has intersection `i` as one of its two endpoints.
    pub open spec fn road_touches(self, r: int, i: int) -> bool {
        self.roads@[r].src_i == i || self.roads@[r].dst_i == i
    }

    /// Road `r` appears in intersection `i`'s incident list.
    pub open spec fn road_listed_at(self, r: int, i: int) -> bool {
        exists|k: int|
            0 <= k < self.intersections@[i].roads@.len()
                && self.intersections@[i].roads@[k] == r
    }

    pub open spec fn road_ok(self, r: int) -> bool {
        let rd = self.roads@[r];
        &&& rd.src_i < self.n_intersections()
        &&& rd.dst_i < self.n_intersections()
        &&& rd.src_i != rd.dst_i
        &&& rd.center@.len() >= 2
        &&& rd.cum_dist@.len() == rd.center@.len()
        &&& rd.cum_dist@[0] == 0
        &&& (forall|k: int|
            0 <= k && k + 1 < rd.cum_dist@.len()
                ==> #[trigger] rd.cum_dist@[k] + 2 <= rd.cum_dist@[k + 1])
        &&& 2 <= rd.cum_dist@.last() <= DIST_LIMIT
        &&& pts_ok(rd.center@)
        &&& self.road_listed_at(r, rd.src_i as int)
        &&& self.road_listed_at(r, rd.dst_i as int)
    }

    pub open spec fn intersection_ok(self, i: int) -> bool {
        let it = self.intersections@[i];
        &&& it.polygon@.len() >= 3
        &&& pts_ok(it.polygon@)
        &&& (forall|k: int|
            0 <= k < it.roads@.len()
                ==> #[trigger] it.roads@[k] < self.n_roads()
                    && self.road_touches(it.roads@[k] as int, i))
        &&& (forall|k1: int, k2: int|
            0 <= k1 < k2 < it.roads@.len() ==> it.roads@[k1] != it.roads@[k2])
    }

    pub open spec fn lane_ok(self, l: int) -> bool {
        let ln = self.lanes@[l];
        &&& ln.road < self.n_roads()
        &&& ((ln.src_i == self.roads@[ln.road as int].src_i
                && ln.dst_i == self.roads@[ln.road as int].dst_i)
            || (ln.src_i == self.roads@[ln.road as int].dst_i
                && ln.dst_i == self.roads@[ln.road as int].src_i))
    }

    pub open spec fn turn_ok(self, t: int) -> bool {
        let tn = self.turns@[t];
        &&& tn.parent < self.n_intersections()
        &&& tn.src_lane < self.n_lanes()
        &&& tn.dst_lane < self.n_lanes()
        &&& self.lanes@[tn.src_lane as int].dst_i == tn.parent
        &&& self.lanes@[tn.dst_lane as int].src_i == tn.parent
    }

    /// Well-formedness of the loaded map; everything else requires it.
    pub open spec fn valid(self) -> bool {
        &&& (forall|r: int| 0 <= r < self.n_roads() ==> #[trigger] self.road_ok(r))
        &&& (forall|i: int| 0 <= i < self.n_intersections() ==> #[trigger] self.intersection_ok(i))
        &&& (forall|l: int| 0 <= l < self.n_lanes() ==> #[trigger] self.lane_ok(l))
        &&& (forall|t: int| 0 <= t < self.n_turns() ==> #[trigger] self.turn_ok(t))
    }

    /// Resolves an intersection identity, or reports it unknown.
    pub fn get_intersection(&self, id: usize) -> (r: Option<&Intersection>)
        ensures
            match r {
                Some(it) => id < self.n_intersections() && *it == self.intersections@[id as int],
                None => id >= self.n_intersections(),
            },
    {
        if id < self.intersections.len() {
            Some(&self.intersections[id])
        } else {
            None
        }
    }

    /// Resolves a road identity, or reports it unknown.
    pub fn get_road(&self, id: usize) -> (r: Option<&Road>)
        ensures
            match r {
                Some(rd) => id < self.n_roads() && *rd == self.roads@[id as int],
                None => id >= self.n_roads(),
            },
    {
        if id < self.roads.len() {
            Some(&self.roads[id])
        } else {
            None
        }
    }

    /// Resolves a lane identity, or reports it unknown.
    pub fn get_lane(&self, id: usize) -> (r: Option<&Lane>)
        ensures
            match r {
                Some(ln) => id < self.n_lanes() && *ln == self.lanes@[id as int],
                None => id >= self.n_lanes(),
            },
    {
        if id < self.lanes.len() {
            Some(&self.lanes[id])
        } else {
            None
        }
    }

    /// Resolves a turn identity, or reports it unknown.
    pub fn get_turn(&self, id: usize) -> (r: Option<&Turn>)
        ensures
            match r {
                Some(tn) => id < self.n_turns() && *tn == self.turns@[id as int],
                None => id >= self.n_turns(),
            },
    {
        if id < self.turns.len() {
            Some(&self.turns[id])
        } else {
            None
        }
    }

    /// Checks the whole well-formedness condition on a loaded map, so
    /// that callers get `valid()` as a verified fact at run time.
    pub fn check_valid(&self) -> (r: bool)
        ensures
            r == self.valid(),
    {
        let nr = self.roads.len();
        let ni = self.intersections.len();
        let nl = self.lanes.len();
        let nt = self.turns.len();

        let mut r: usize = 0;
        while r < nr
            invariant
                nr == self.n_roads(),
                r <= nr,
                forall|j: int| 0 <= j < r ==> #[trigger] self.road_ok(j),
            decreases nr - r,
        {
            if !self.check_road_ok(r) {
                return false;
            }
            r = r + 1;
        }

        let mut i: usize = 0;
        while i < ni
            invariant
                ni == self.n_intersections(),
                i <= ni,
                forall|j: int| 0 <= j < i ==> #[trigger] self.intersection_ok(j),
            decreases ni - i,
        {
            if !self.check_intersection_ok(i) {
                return false;
            }
            i = i + 1;
        }

        let mut l: usize = 0;
        while l < nl
            invariant
                nl == self.n_lanes(),
                nr == self.n_roads(),
                ni == self.n_intersections(),
                l <= nl,
                forall|j: int| 0 <= j < l ==> #[trigger] self.lane_ok(j),
            decreases nl - l,
        {
            let ln = &self.lanes[l];
            if !(ln.road < nr) {
                assert(!self.lane_ok(l as int));
                return false;
            }
            let rd = &self.roads[ln.road];
            if !((ln.src_i == rd.src_i && ln.dst_i == rd.dst_i)
                || (ln.src_i == rd.dst_i && ln.dst_i == rd.src_i)) {
                assert(!self.lane_ok(l as int));
                return false;
            }
            l = l + 1;
        }

        let mut t: usize = 0;
        while t < nt
            invariant
                nt == self.n_turns(),
                nl == self.n_lanes(),
                ni == self.n_intersections(),
                t <= nt,
                forall|j: int| 0 <= j < t ==> #[trigger] self.turn_ok(j),
            decreases nt - t,
        {
            let tn = &self.turns[t];
            if !(tn.parent < ni && tn.src_lane < nl && tn.dst_lane < nl) {
                assert(!self.turn_ok(t as int));
                return false;
            }
            if !(self.lanes[tn.src_lane].dst_i == tn.parent
                && self.lanes[tn.dst_lane].src_i == tn.parent) {
                assert(!self.turn_ok(t as int));
                return false;
            }
            t = t + 1;
        }

        true
    }

    #[verifier::rlimit(50)]
    fn check_road_ok(&self, r: usize) -> (ok: bool)
        requires
            r < self.n_roads(),
        ensures
            ok == self.road_ok(r as int),
    {
        let ni = self.intersections.len();
        let rd = &self.roads[r];
        if !(rd.src_i < ni && rd.dst_i < ni && rd.src_i != rd.dst_i) {
            return false;
        }
        let cn = rd.center.len();
        if !(cn >= 2 && rd.cum_dist.len() == cn) {
            return false;
        }
        if rd.cum_dist[0] != 0 {
            return false;
        }
        let mut k: usize = 0;
        while k + 1 < cn
            invariant
                r < self.n_roads(),
                rd == self.roads@[r as int],
                cn == rd.cum_dist@.len(),
                2 <= cn,
                k + 1 <= cn,
                forall|j: int|
                    0 <= j && j + 1 < k + 1 ==> #[trigger] rd.cum_dist@[j] + 2 <= rd.cum_dist@[j + 1],
            decreases cn - k,
        {
            if !(rd.cum_dist[k + 1] >= 2 && rd.cum_dist[k] <= rd.cum_dist[k + 1] - 2) {
                return false;
            }
            k = k + 1;
        }
        if !(2 <= rd.cum_dist[cn - 1] && rd.cum_dist[cn - 1] <= DIST_LIMIT) {
            return false;
        }
        let mut p: usize = 0;
        while p < cn
            invariant
                r < self.n_roads(),
                rd == self.roads@[r as int],
                cn == rd.center@.len(),
                p <= cn,
                forall|j: int| 0 <= j < p ==> pt_ok(#[trigger] rd.center@[j]),
            decreases cn - p,
        {
            let q = rd.center[p];
            if !(-COORD_LIMIT <= q.x && q.x <= COORD_LIMIT && -COORD_LIMIT <= q.y
                && q.y <= COORD_LIMIT) {
                return false;
            }
            p = p + 1;
        }
        if !self.road_listed_at_exec(r, rd.src_i) {
            return false;
        }
        if !self.road_listed_at_exec(r, rd.dst_i) {
            return false;
        }
        true
    }

    /// Scans intersection `i`'s incident list for road `r`.
    pub fn road_listed_at_exec(&self, r: usize, i: usize) -> (ok: bool)
        requires
            i < self.n_intersections(),
        ensures
            ok == self.road_listed_at(r as int, i as int),
    {
        let it = &self.intersections[i];
        let n = it.roads.len();
        let mut k: usize = 0;
        while k < n
            invariant
                i < self.n_intersections(),
                it == self.intersections@[i as int],
                n == it.roads@.len(),
                k <= n,
                forall|j: int| 0 <= j < k ==> it.roads@[j] != r,
            decreases n - k,
        {
            if it.roads[k] == r {
                return true;
            }
            k = k + 1;
        }
        false
    }

    fn check_intersection_ok(&self, i: usize) -> (ok: bool)
        requires
            i < self.n_intersections(),
        ensures
            ok == self.intersection_ok(i as int),
    {
        let nr = self.roads.len();
        let it = &self.intersections[i];
        if it.polygon.len() < 3 {
            return false;
        }
        let pn = it.polygon.len();
        let mut p: usize = 0;
        while p < pn
            invariant
                i < self.n_intersections(),
                it == self.intersections@[i as int],
                pn == it.polygon@.len(),
                p <= pn,
                forall|j: int| 0 <= j < p ==> pt_ok(#[trigger] it.polygon@[j]),
            decreases pn - p,
        {
            let q = it.polygon[p];
            if !(-COORD_LIMIT <= q.x && q.x <= COORD_LIMIT && -COORD_LIMIT <= q.y
                && q.y <= COORD_LIMIT) {
                return false;
            }
            p = p + 1;
        }
        let n = it.roads.len();
        let mut k: usize = 0;
        while k < n
            invariant
                i < self.n_intersections(),
                nr == self.n_roads(),
                it == self.intersections@[i as int],
                n == it.roads@.len(),
                k <= n,
                forall|j: int|
                    0 <= j < k
                        ==> #[trigger] it.roads@[j] < self.n_roads()
                            && self.road_touches(it.roads@[j] as int, i as int),
                forall|j1: int, j2: int| 0 <= j1 < j2 < k ==> it.roads@[j1] != it.roads@[j2],
            decreases n - k,
        {
            let rid = it.roads[k];
            if !(rid < nr) {
                return false;
            }
            if !(self.roads[rid].src_i == i || self.roads[rid].dst_i == i) {
                return false;
            }
            let mut j: usize = 0;
            while j < k
                invariant
                    i < self.n_intersections(),
                    it == self.intersections@[i as int],
                    k < it.roads@.len(),
                    j <= k,
                    rid == it.roads@[k as int],
                    forall|j2: int| 0 <= j2 < j ==> it.roads@[j2] != rid,
                decreases k - j,
            {
                if it.roads[j] == rid {
                    return false;
                }
                j = j + 1;
            }
            k = k + 1;
        }
        true
    }
}

} // verus!
