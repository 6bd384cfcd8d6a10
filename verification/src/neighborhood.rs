//! Neighborhoods: a closed perimeter loop of boundary roads, the
//! interior intersections enclosed by it, and the interior roads that
//! join them. The tracer that builds one from a seed set lives here
//! too, together with the connectivity guarantee over the interior.

use vstd::prelude::*;

use crate::network::RoadNetwork;
use crate::EditError;

verus! {

/// An ordered, closed loop of boundary roads. `corners[k]` is the
/// intersection at which road `roads[k - 1]` hands over to `roads[k]`;
/// road `roads[k]` runs from `corners[k]` to `corners[(k + 1) % len]`.
#[derive(Clone, Debug)]
pub struct Perimeter {
    pub roads: Vec<usize>,
    pub corners: Vec<usize>,
}

/// A traced neighborhood: its perimeter, the enclosed intersections,
/// and the roads joining two enclosed intersections.
#[derive(Clone, Debug)]
pub struct Neighborhood {
    pub perimeter: Perimeter,
    pub interior_intersections: Vec<usize>,
    pub interior_roads: Vec<usize>,
}

/// The sequence holds pairwise distinct values.
pub open spec fn distinct_ids(s: Seq<usize>) -> bool {
    forall|k1: int, k2: int| 0 <= k1 < k2 < s.len() ==> s[k1] != s[k2]
}

impl Perimeter {
    /// Road `roads[k]` joins `corners[k]` and the next corner, in
    /// either orientation.
    pub open spec fn link_ok(self, m: RoadNetwork, k: int) -> bool {
        let r = self.roads@[k] as int;
        let a = self.corners@[k];
        let b = self.corners@[if k + 1 == self.roads@.len() as int { 0 } else { k + 1 }];
        &&& self.roads@[k] < m.n_roads()
        &&& ((m.roads@[r].src_i == a && m.roads@[r].dst_i == b)
            || (m.roads@[r].src_i == b && m.roads@[r].dst_i == a))
    }

    /// A single closed loop: every consecutive pair of roads meets at
    /// its corner, and no road or corner repeats.
    pub open spec fn wf(self, m: RoadNetwork) -> bool {
        &&& self.roads@.len() >= 2
        &&& self.corners@.len() == self.roads@.len()
        &&& distinct_ids(self.roads@)
        &&& distinct_ids(self.corners@)
        &&& (forall|k: int| 0 <= k < self.roads@.len() ==> #[trigger] self.link_ok(m, k))
    }
}

impl Neighborhood {
    /// Road `r` lies on the perimeter loop.
    pub open spec fn is_perimeter_road(self, r: usize) -> bool {
        self.perimeter.roads@.contains(r)
    }

    /// Intersection `i` is a corner of the perimeter loop.
    pub open spec fn is_corner(self, i: usize) -> bool {
        self.perimeter.corners@.contains(i)
    }

    /// Intersection `i` is fully enclosed.
    pub open spec fn is_interior_intersection(self, i: usize) -> bool {
        self.interior_intersections@.contains(i)
    }

    /// Road `r` joins two enclosed intersections.
    pub open spec fn is_interior_road(self, r: usize) -> bool {
        self.interior_roads@.contains(r)
    }

    /// Intersections `a` and `b` are joined by some interior road.
    pub open spec fn interior_linked(self, m: RoadNetwork, a: usize, b: usize) -> bool {
        exists|r: usize|
            #[trigger] self.is_interior_road(r) && r < m.n_roads()
                && ((m.roads@[r as int].src_i == a && m.roads@[r as int].dst_i == b)
                    || (m.roads@[r as int].src_i == b && m.roads@[r as int].dst_i == a))
    }

    /// `p` is a walk through interior intersections along interior roads.
    pub open spec fn interior_path_ok(self, m: RoadNetwork, p: Seq<usize>) -> bool {
        &&& p.len() >= 1
        &&& (forall|k: int| 0 <= k < p.len() ==> self.is_interior_intersection(#[trigger] p[k]))
        &&& (forall|k: int|
            0 <= k && k + 1 < p.len() ==> self.interior_linked(m, #[trigger] p[k], p[k + 1]))
    }

    /// `u` can reach `v` without leaving the interior.
    pub open spec fn interior_reachable(self, m: RoadNetwork, u: usize, v: usize) -> bool {
        exists|p: Seq<usize>|
            self.interior_path_ok(m, p) && p.first() == u && p.last() == v
    }

    /// Every pair of enclosed intersections is mutually reachable over
    /// interior roads alone; disconnection is a defect, never tolerated.
    pub open spec fn interior_connected(self, m: RoadNetwork) -> bool {
        forall|u: usize, v: usize|
            self.is_interior_intersection(u) && self.is_interior_intersection(v)
                ==> #[trigger] self.interior_reachable(m, u, v)
    }

    /// Well-formedness of a traced neighborhood.
    pub open spec fn wf(self, m: RoadNetwork) -> bool {
        &&& self.perimeter.wf(m)
        &&& (forall|k: int|
            0 <= k < self.interior_intersections@.len()
                ==> (#[trigger] self.interior_intersections@[k]) < m.n_intersections())
        &&& distinct_ids(self.interior_intersections@)
        &&& (forall|i: usize|
            #[trigger] self.is_interior_intersection(i) ==> !self.is_corner(i))
        &&& distinct_ids(self.interior_roads@)
        &&& (forall|r: usize|
            #[trigger] self.is_interior_road(r)
                <==> (r < m.n_roads() && !self.is_perimeter_road(r)
                    && (self.is_interior_intersection(m.roads@[r as int].src_i)
                        || self.is_corner(m.roads@[r as int].src_i))
                    && (self.is_interior_intersection(m.roads@[r as int].dst_i)
                        || self.is_corner(m.roads@[r as int].dst_i))
                    && (self.is_interior_intersection(m.roads@[r as int].src_i)
                        || self.is_interior_intersection(m.roads@[r as int].dst_i))))
        &&& self.interior_connected(m)
    }


    /// Law: in a well-formed neighborhood, every enclosed intersection
    /// reaches every other through interior roads alone, never crossing
    /// the perimeter.
    pub proof fn lemma_interior_mutually_reachable(
        self,
        m: RoadNetwork,
        u: usize,
        v: usize,
    )
        requires
            self.wf(m),
            self.is_interior_intersection(u),
            self.is_interior_intersection(v),
        ensures
            self.interior_reachable(m, u, v),
            self.interior_reachable(m, v, u),
    {
    }

    /// A structural copy with the same contents, usable where an
    /// owned neighborhood value is needed alongside the original.
    pub fn duplicate(&self) -> (r: Neighborhood)
        ensures
            r.perimeter.roads@ == self.perimeter.roads@,
            r.perimeter.corners@ == self.perimeter.corners@,
            r.interior_intersections@ == self.interior_intersections@,
            r.interior_roads@ == self.interior_roads@,
    {
        Neighborhood {
            perimeter: Perimeter {
                roads: copy_ids(&self.perimeter.roads),
                corners: copy_ids(&self.perimeter.corners),
            },
            interior_intersections: copy_ids(&self.interior_intersections),
            interior_roads: copy_ids(&self.interior_roads),
        }
    }

    /// Decides perimeter membership for a road identity.
    pub fn perimeter_road_exec(&self, r: usize) -> (b: bool)
        ensures
            b == self.is_perimeter_road(r),
    {
        contains_id(&self.perimeter.roads, r)
    }

    /// Decides interior membership for a road identity.
    pub fn interior_road_exec(&self, r: usize) -> (b: bool)
        ensures
            b == self.is_interior_road(r),
    {
        contains_id(&self.interior_roads, r)
    }

    /// Decides interior membership for an intersection identity.
    pub fn interior_intersection_exec(&self, i: usize) -> (b: bool)
        ensures
            b == self.is_interior_intersection(i),
    {
        contains_id(&self.interior_intersections, i)
    }
}

/// Linear membership scan over a list of identities.
pub fn contains_id(v: &Vec<usize>, x: usize) -> (b: bool)
    ensures
        b == v@.contains(x),
{
    let n = v.len();
    let mut k: usize = 0;
    while k < n
        invariant
            n == v@.len(),
            k <= n,
            forall|j: int| 0 <= j < k ==> v@[j] != x,
        decreases n - k,
    {
        if v[k] == x {
            return true;
        }
        k = k + 1;
    }
    false
}


/// Copies a list of identities, entry for entry.
pub fn copy_ids(v: &Vec<usize>) -> (r: Vec<usize>)
    ensures
        r@ == v@,
{
    let n = v.len();
    let mut out: Vec<usize> = Vec::new();
    let mut k: usize = 0;
    while k < n
        invariant
            n == v@.len(),
            k <= n,
            out@ == v@.take(k as int),
        decreases n - k,
    {
        out.push(v[k]);
        proof {
            assert(out@ =~= v@.take((k + 1) as int));
        }
        k = k + 1;
    }
    proof {
        assert(v@.take(n as int) =~= v@);
    }
    out
}

/// Road `x` belongs to a traced interior: off the boundary, both ends
/// on the traced region (enclosed or corner), at least one end enclosed.
pub open spec fn sp_int_road_cond(
    m: RoadNetwork,
    is_bd: Seq<bool>,
    vis: Seq<bool>,
    cs: Seq<bool>,
    x: int,
) -> bool {
    &&& 0 <= x < m.n_roads()
    &&& !is_bd[x]
    &&& (vis[m.roads@[x].src_i as int] || cs[m.roads@[x].src_i as int])
    &&& (vis[m.roads@[x].dst_i as int] || cs[m.roads@[x].dst_i as int])
    &&& (vis[m.roads@[x].src_i as int] || vis[m.roads@[x].dst_i as int])
}

/// Intersections `a` and `b` are the two ends of road `r`.
pub open spec fn sp_road_joins(m: RoadNetwork, r: int, a: usize, b: usize) -> bool {
    (m.roads@[r].src_i == a && m.roads@[r].dst_i == b) || (m.roads@[r].src_i == b
        && m.roads@[r].dst_i == a)
}

/// `a` and `b` are joined by some road off the boundary set.
pub open spec fn sp_flood_linked(m: RoadNetwork, is_bd: Seq<bool>, a: usize, b: usize) -> bool {
    exists|r: int|
        0 <= r < m.n_roads() && r < is_bd.len() && !is_bd[r] && #[trigger] sp_road_joins(m, r, a, b)
}

/// A walk through visited intersections along roads off the boundary.
pub open spec fn sp_flood_path(
    m: RoadNetwork,
    is_bd: Seq<bool>,
    vis: Seq<bool>,
    p: Seq<usize>,
) -> bool {
    &&& p.len() >= 1
    &&& (forall|k: int| 0 <= k < p.len() ==> (#[trigger] p[k]) < vis.len() && vis[p[k] as int])
    &&& (forall|k: int|
        0 <= k && k + 1 < p.len() ==> sp_flood_linked(m, is_bd, #[trigger] p[k], p[k + 1]))
}

/// Some flood walk joins `s` to `i`.
pub open spec fn sp_flood_reach(
    m: RoadNetwork,
    is_bd: Seq<bool>,
    vis: Seq<bool>,
    s: usize,
    i: usize,
) -> bool {
    exists|p: Seq<usize>| sp_flood_path(m, is_bd, vis, p) && p.first() == s && p.last() == i
}

/// Every visited intersection has a flood walk from the seed.
pub open spec fn sp_flood_inv(m: RoadNetwork, is_bd: Seq<bool>, vis: Seq<bool>, s: usize) -> bool {
    forall|i: int| 0 <= i < vis.len() && vis[i] ==> sp_flood_reach(m, is_bd, vis, s, i as usize)
}

proof fn lemma_flood_reach_mono(
    m: RoadNetwork,
    is_bd: Seq<bool>,
    vis: Seq<bool>,
    vis2: Seq<bool>,
    s: usize,
    i: usize,
)
    requires
        vis2.len() == vis.len(),
        forall|j: int| 0 <= j < vis.len() && vis[j] ==> vis2[j],
        sp_flood_reach(m, is_bd, vis, s, i),
    ensures
        sp_flood_reach(m, is_bd, vis2, s, i),
{
    let p = choose|p: Seq<usize>|
        sp_flood_path(m, is_bd, vis, p) && p.first() == s && p.last() == i;
    assert(sp_flood_path(m, is_bd, vis2, p));
}

/// How many entries of `s` are set.
pub open spec fn count_true(s: Seq<bool>) -> nat
    decreases s.len(),
{
    if s.len() == 0 {
        0
    } else {
        count_true(s.drop_last()) + if s.last() {
            1nat
        } else {
            0nat
        }
    }
}

proof fn lemma_count_true_bound(s: Seq<bool>)
    ensures
        count_true(s) <= s.len(),
    decreases s.len(),
{
    if s.len() > 0 {
        lemma_count_true_bound(s.drop_last());
    }
}

proof fn lemma_count_true_update(s: Seq<bool>, i: int)
    requires
        0 <= i < s.len(),
        !s[i],
    ensures
        count_true(s.update(i, true)) == count_true(s) + 1,
    decreases s.len(),
{
    let s2 = s.update(i, true);
    if i == s.len() - 1 {
        assert(s2.drop_last() =~= s.drop_last());
    } else {
        assert(s2.drop_last() =~= s.drop_last().update(i, true));
        lemma_count_true_update(s.drop_last(), i);
    }
}

impl Neighborhood {
    /// A flood walk whose flags agree with this neighborhood's
    /// interior is an interior walk.
    proof fn lemma_flood_to_interior(
        self,
        m: RoadNetwork,
        is_bd: Seq<bool>,
        vis: Seq<bool>,
        p: Seq<usize>,
    )
        requires
            m.valid(),
            is_bd.len() == m.n_roads(),
            vis.len() == m.n_intersections(),
            sp_flood_path(m, is_bd, vis, p),
            forall|i: usize| i < vis.len() ==> (vis[i as int] <==> self.is_interior_intersection(i)),
            forall|r: usize|
                (r < m.n_roads() && !is_bd[r as int] && vis[m.roads@[r as int].src_i as int]
                    && vis[m.roads@[r as int].dst_i as int]) ==> #[trigger] self.is_interior_road(
                    r,
                ),
        ensures
            self.interior_path_ok(m, p),
    {
        assert forall|k: int| 0 <= k && k + 1 < p.len() implies self.interior_linked(
            m,
            #[trigger] p[k],
            p[k + 1],
        ) by {
            let r = choose|r: int|
                0 <= r < m.n_roads() && r < is_bd.len() && !is_bd[r] && #[trigger] sp_road_joins(
                    m,
                    r,
                    p[k],
                    p[k + 1],
                );
            assert(m.roads.len() == m.roads@.len());
            assert((r as usize) as int == r);
            assert(m.road_ok(r));
            assert(vis[m.roads@[r].src_i as int]);
            assert(vis[m.roads@[r].dst_i as int]);
            assert(self.is_interior_road(r as usize));
        }
    }

    /// An interior walk read backwards is an interior walk.
    proof fn lemma_interior_path_reverse(self, m: RoadNetwork, p: Seq<usize>)
        requires
            self.interior_path_ok(m, p),
        ensures
            self.interior_path_ok(m, p.reverse()),
            p.reverse().first() == p.last(),
            p.reverse().last() == p.first(),
    {
        let q = p.reverse();
        assert(q.len() == p.len());
        assert forall|k: int| 0 <= k < q.len() implies self.is_interior_intersection(
            #[trigger] q[k],
        ) by {
            assert(q[k] == p[p.len() - 1 - k]);
        }
        assert forall|k: int| 0 <= k && k + 1 < q.len() implies self.interior_linked(
            m,
            #[trigger] q[k],
            q[k + 1],
        ) by {
            let j = p.len() - 2 - k;
            assert(q[k] == p[j + 1] && q[k + 1] == p[j]);
            assert(self.interior_linked(m, p[j], p[j + 1]));
            let r = choose|r: usize|
                #[trigger] self.is_interior_road(r) && r < m.n_roads() && ((m.roads@[r
                    as int].src_i == p[j] && m.roads@[r as int].dst_i == p[j + 1]) || (m.roads@[r
                    as int].src_i == p[j + 1] && m.roads@[r as int].dst_i == p[j]));
            assert(self.is_interior_road(r) && r < m.n_roads() && ((m.roads@[r as int].src_i == q[k]
                && m.roads@[r as int].dst_i == q[k + 1]) || (m.roads@[r as int].src_i == q[k + 1]
                && m.roads@[r as int].dst_i == q[k])));
        }
    }

    /// Interior walks concatenate at a shared endpoint.
    proof fn lemma_interior_path_concat(self, m: RoadNetwork, p: Seq<usize>, q: Seq<usize>)
        requires
            self.interior_path_ok(m, p),
            self.interior_path_ok(m, q),
            p.last() == q.first(),
        ensures
            self.interior_reachable(m, p.first(), q.last()),
    {
        let c = p + q.subrange(1, q.len() as int);
        assert(c.len() == p.len() + q.len() - 1);
        assert forall|k: int| 0 <= k < c.len() implies self.is_interior_intersection(
            #[trigger] c[k],
        ) by {
            if k < p.len() {
                assert(c[k] == p[k]);
            } else {
                assert(c[k] == q[k - p.len() + 1]);
            }
        }
        assert forall|k: int| 0 <= k && k + 1 < c.len() implies self.interior_linked(
            m,
            #[trigger] c[k],
            c[k + 1],
        ) by {
            if k + 1 < p.len() {
                assert(c[k] == p[k] && c[k + 1] == p[k + 1]);
                assert(self.interior_linked(m, p[k], p[k + 1]));
            } else if k + 1 == p.len() {
                assert(c[k] == p[k] && c[k + 1] == q[1]);
                assert(k == p.len() - 1);
                assert(c[k] == p.last());
                assert(p.last() == q[0]);
                assert(self.interior_linked(m, q[0], q[1]));
            } else {
                let j = k - p.len() + 1;
                assert(c[k] == q[j] && c[k + 1] == q[j + 1]);
                assert(self.interior_linked(m, q[j], q[j + 1]));
            }
        }
        assert(c.first() == p.first());
        assert(c.last() == q.last());
        assert(self.interior_path_ok(m, c));
    }
}

/// How many of the boundary roads, from index `k` on, touch
/// intersection `i`.
pub open spec fn sp_bd_degree_from(m: RoadNetwork, bd: Seq<usize>, i: int, k: int) -> int
    decreases bd.len() - k,
{
    if k < 0 || k >= bd.len() {
        0
    } else {
        (if m.road_touches(bd[k] as int, i) {
            1int
        } else {
            0int
        }) + sp_bd_degree_from(m, bd, i, k + 1)
    }
}

/// The boundary degree of intersection `i`: how many boundary roads
/// end there.
pub open spec fn sp_bd_degree(m: RoadNetwork, bd: Seq<usize>, i: int) -> int {
    sp_bd_degree_from(m, bd, i, 0)
}

/// Roads `r1` and `r2` share an endpoint.
pub open spec fn sp_roads_adjacent(m: RoadNetwork, r1: int, r2: int) -> bool {
    m.road_touches(r1, m.roads@[r2].src_i as int) || m.road_touches(r1, m.roads@[r2].dst_i as int)
}

/// A chain of boundary roads, consecutive ones sharing an endpoint.
pub open spec fn sp_bd_chain(m: RoadNetwork, bd: Seq<usize>, p: Seq<usize>) -> bool {
    &&& p.len() >= 1
    &&& (forall|k: int| 0 <= k < p.len() ==> bd.contains(#[trigger] p[k]))
    &&& (forall|k: int|
        0 <= k && k + 1 < p.len() ==> sp_roads_adjacent(m, #[trigger] p[k] as int, p[k + 1] as int))
}

/// The boundary hangs together: every boundary road is joined to the
/// first one by a chain of boundary roads.
pub open spec fn sp_bd_connected(m: RoadNetwork, bd: Seq<usize>) -> bool {
    forall|j: int|
        0 <= j < bd.len() ==> exists|p: Seq<usize>|
            sp_bd_chain(m, bd, p) && p.first() == bd[0] && p.last() == #[trigger] bd[j]
}

/// An enclosable request: at least two distinct known boundary roads,
/// every intersection touching either none or exactly two of them,
/// hanging together in one piece — a single closed loop — and a known
/// seed intersection that no boundary road touches. On such a request
/// the tracer is guaranteed to succeed.
pub open spec fn sp_enclosable(m: RoadNetwork, bd: Seq<usize>, seed: usize) -> bool {
    &&& bd.len() >= 2
    &&& distinct_ids(bd)
    &&& (forall|j: int| 0 <= j < bd.len() ==> (#[trigger] bd[j]) < m.n_roads())
    &&& seed < m.n_intersections()
    &&& (forall|j: int| 0 <= j < bd.len() ==> !m.road_touches(#[trigger] bd[j] as int, seed as int))
    &&& (forall|i: int|
        0 <= i < m.n_intersections() ==> sp_bd_degree(m, bd, i) == 0 || #[trigger] sp_bd_degree(
            m,
            bd,
            i,
        ) == 2)
    &&& sp_bd_connected(m, bd)
}

proof fn lemma_deg_nonneg(m: RoadNetwork, bd: Seq<usize>, i: int, k: int)
    ensures
        sp_bd_degree_from(m, bd, i, k) >= 0,
    decreases bd.len() - k,
{
    if 0 <= k < bd.len() {
        lemma_deg_nonneg(m, bd, i, k + 1);
    }
}

proof fn lemma_deg_tail(m: RoadNetwork, bd: Seq<usize>, i: int, k: int, j: int)
    requires
        0 <= k <= j < bd.len(),
        m.road_touches(bd[j] as int, i),
    ensures
        sp_bd_degree_from(m, bd, i, k) >= 1 + sp_bd_degree_from(m, bd, i, j + 1),
    decreases j - k,
{
    if k < j {
        lemma_deg_tail(m, bd, i, k + 1, j);
    }
}

proof fn lemma_deg_three_ordered(m: RoadNetwork, bd: Seq<usize>, i: int, j1: int, j2: int, j3: int)
    requires
        0 <= j1 < j2 < j3 < bd.len(),
        m.road_touches(bd[j1] as int, i),
        m.road_touches(bd[j2] as int, i),
        m.road_touches(bd[j3] as int, i),
    ensures
        sp_bd_degree(m, bd, i) >= 3,
{
    lemma_deg_tail(m, bd, i, 0, j1);
    lemma_deg_tail(m, bd, i, j1 + 1, j2);
    lemma_deg_tail(m, bd, i, j2 + 1, j3);
    lemma_deg_nonneg(m, bd, i, j3 + 1);
}

proof fn lemma_deg_three(m: RoadNetwork, bd: Seq<usize>, i: int, j1: int, j2: int, j3: int)
    requires
        0 <= j1 < bd.len(),
        0 <= j2 < bd.len(),
        0 <= j3 < bd.len(),
        j1 != j2 && j1 != j3 && j2 != j3,
        m.road_touches(bd[j1] as int, i),
        m.road_touches(bd[j2] as int, i),
        m.road_touches(bd[j3] as int, i),
    ensures
        sp_bd_degree(m, bd, i) >= 3,
{
    if j1 < j2 {
        if j2 < j3 {
            lemma_deg_three_ordered(m, bd, i, j1, j2, j3);
        } else if j3 < j1 {
            lemma_deg_three_ordered(m, bd, i, j3, j1, j2);
        } else {
            lemma_deg_three_ordered(m, bd, i, j1, j3, j2);
        }
    } else {
        if j1 < j3 {
            lemma_deg_three_ordered(m, bd, i, j2, j1, j3);
        } else if j3 < j2 {
            lemma_deg_three_ordered(m, bd, i, j3, j2, j1);
        } else {
            lemma_deg_three_ordered(m, bd, i, j2, j3, j1);
        }
    }
}

proof fn lemma_deg_only(m: RoadNetwork, bd: Seq<usize>, i: int, k: int, j1: int)
    requires
        forall|j: int| k <= j < bd.len() && j != j1 ==> !m.road_touches(#[trigger] bd[j] as int, i),
    ensures
        sp_bd_degree_from(m, bd, i, k) <= if k <= j1 {
            1int
        } else {
            0int
        },
    decreases bd.len() - k,
{
    if 0 <= k < bd.len() {
        lemma_deg_only(m, bd, i, k + 1, j1);
    } else if k < 0 {
        lemma_deg_only(m, bd, i, 0, j1);
    }
}

/// With degree two and one touching road known, a second, different
/// touching road exists.
proof fn lemma_deg_second_witness(m: RoadNetwork, bd: Seq<usize>, i: int, j1: int)
    requires
        0 <= j1 < bd.len(),
        m.road_touches(bd[j1] as int, i),
        sp_bd_degree(m, bd, i) >= 2,
    ensures
        exists|j2: int|
            0 <= j2 < bd.len() && j2 != j1 && m.road_touches(#[trigger] bd[j2] as int, i),
{
    if !(exists|j2: int|
        0 <= j2 < bd.len() && j2 != j1 && m.road_touches(#[trigger] bd[j2] as int, i)) {
        lemma_deg_only(m, bd, i, 0, j1);
        assert(false);
    }
}


/// How many marked boundary roads are not yet walked, from `k` on.
pub open spec fn sp_unwalked_count(bd: Seq<bool>, w: Seq<bool>, k: int) -> int
    decreases bd.len() - k,
{
    if k < 0 || k >= bd.len() {
        0
    } else {
        (if k < w.len() && bd[k] && !w[k] {
            1int
        } else {
            0int
        }) + sp_unwalked_count(bd, w, k + 1)
    }
}

proof fn lemma_unwalked_nonneg(bd: Seq<bool>, w: Seq<bool>, k: int)
    ensures
        sp_unwalked_count(bd, w, k) >= 0,
    decreases bd.len() - k,
{
    if 0 <= k < bd.len() {
        lemma_unwalked_nonneg(bd, w, k + 1);
    }
}

proof fn lemma_unwalked_update(bd: Seq<bool>, w: Seq<bool>, r: int, k: int)
    requires
        bd.len() == w.len(),
        0 <= r < bd.len(),
        0 <= k,
        bd[r],
        !w[r],
    ensures
        sp_unwalked_count(bd, w.update(r, true), k) == sp_unwalked_count(bd, w, k) - if k <= r {
            1int
        } else {
            0int
        },
    decreases bd.len() - k,
{
    if 0 <= k < bd.len() {
        lemma_unwalked_update(bd, w, r, k + 1);
    }
}

/// Along a closed walk whose corners all have boundary degree two,
/// any chain of boundary roads that starts on the walk stays on it:
/// a third boundary road at a walk corner would raise its degree.
proof fn lemma_chain_walked(
    m: RoadNetwork,
    bd: Seq<usize>,
    roads: Seq<usize>,
    corners: Seq<usize>,
    chain: Seq<usize>,
)
    requires
        m.valid(),
        distinct_ids(bd),
        forall|j: int| 0 <= j < bd.len() ==> (#[trigger] bd[j]) < m.n_roads(),
        forall|i: int|
            0 <= i < m.n_intersections() ==> sp_bd_degree(m, bd, i) == 0 || #[trigger] sp_bd_degree(
                m,
                bd,
                i,
            ) == 2,
        roads.len() == corners.len(),
        roads.len() >= 2,
        distinct_ids(roads),
        forall|kk: int| 0 <= kk < corners.len() ==> (#[trigger] corners[kk]) < m.n_intersections(),
        forall|kk: int| 0 <= kk < roads.len() ==> bd.contains(#[trigger] roads[kk]),
        forall|kk: int|
            0 <= kk < roads.len() ==> sp_road_joins(
                m,
                (#[trigger] roads[kk]) as int,
                corners[kk],
                corners[if kk + 1 == roads.len() {
                    0int
                } else {
                    kk + 1
                }],
            ),
        sp_bd_chain(m, bd, chain),
        chain.first() == roads[0],
    ensures
        forall|k: int| 0 <= k < chain.len() ==> roads.contains(#[trigger] chain[k]),
    decreases chain.len(),
{
    if chain.len() == 1 {
        assert(chain[0] == roads[0]);
        assert(roads.contains(chain[0]));
    } else {
        let pre = chain.drop_last();
        assert(sp_bd_chain(m, bd, pre)) by {
            assert(pre.len() >= 1);
            assert forall|k: int| 0 <= k < pre.len() implies bd.contains(#[trigger] pre[k]) by {
                assert(pre[k] == chain[k]);
            }
            assert forall|k: int|
                0 <= k && k + 1 < pre.len() implies sp_roads_adjacent(
                m,
                (#[trigger] pre[k]) as int,
                pre[k + 1] as int,
            ) by {
                assert(pre[k] == chain[k] && pre[k + 1] == chain[k + 1]);
            }
        }
        assert(pre.first() == chain.first());
        lemma_chain_walked(m, bd, roads, corners, pre);
        let e1 = chain[chain.len() - 2];
        let e2 = chain.last();
        assert(pre[pre.len() - 1] == e1);
        assert(roads.contains(e1));
        assert(sp_roads_adjacent(m, e1 as int, e2 as int));
        let x: usize = if m.road_touches(e1 as int, m.roads@[e2 as int].src_i as int) {
            m.roads@[e2 as int].src_i
        } else {
            m.roads@[e2 as int].dst_i
        };
        assert(m.road_touches(e1 as int, x as int));
        assert(m.road_touches(e2 as int, x as int));
        let kk = choose|kk: int| 0 <= kk < roads.len() && roads[kk] == e1;
        let nxt: int = if kk + 1 == roads.len() {
            0int
        } else {
            kk + 1
        };
        assert(sp_road_joins(m, e1 as int, corners[kk], corners[nxt]));
        assert(x == corners[kk] || x == corners[nxt]);
        let k0: int = if x == corners[kk] {
            kk
        } else {
            nxt
        };
        assert(0 <= k0 < corners.len() && corners[k0] == x);
        let prev_k: int = if k0 == 0 {
            roads.len() - 1
        } else {
            k0 - 1
        };
        assert(if prev_k + 1 == roads.len() {
            0int
        } else {
            prev_k + 1
        } == k0);
        let ea = roads[prev_k];
        let eb = roads[k0];
        assert(sp_road_joins(m, ea as int, corners[prev_k], corners[k0]));
        assert(m.road_touches(ea as int, x as int));
        assert(sp_road_joins(
            m,
            eb as int,
            corners[k0],
            corners[if k0 + 1 == roads.len() {
                0int
            } else {
                k0 + 1
            }],
        ));
        assert(m.road_touches(eb as int, x as int));
        assert(prev_k != k0);
        assert(ea != eb) by {
            if prev_k < k0 {
                assert(roads[prev_k] != roads[k0]);
            } else {
                assert(roads[k0] != roads[prev_k]);
            }
        }
        if e2 != ea && e2 != eb {
            assert(bd.contains(ea));
            assert(bd.contains(eb));
            assert(bd.contains(e2));
            let ja = choose|j: int| 0 <= j < bd.len() && bd[j] == ea;
            let jb = choose|j: int| 0 <= j < bd.len() && bd[j] == eb;
            let jc = choose|j: int| 0 <= j < bd.len() && bd[j] == e2;
            assert(x < m.n_intersections());
            lemma_deg_three(m, bd, x as int, ja, jb, jc);
            assert(sp_bd_degree(m, bd, x as int) == 0 || sp_bd_degree(m, bd, x as int) == 2);
            assert(false);
        }
        assert(roads.contains(e2)) by {
            if e2 == ea {
                assert(roads[prev_k] == e2);
            } else {
                assert(roads[k0] == e2);
            }
        }
        assert forall|k: int| 0 <= k < chain.len() implies roads.contains(#[trigger] chain[k]) by {
            if k < chain.len() - 1 {
                assert(chain[k] == pre[k]);
            } else {
                assert(chain[k] == e2);
            }
        }
    }
}

/// Scans intersection `i` for an incident boundary road not yet walked.
fn find_unwalked_boundary(
    m: &RoadNetwork,
    is_bd: &Vec<bool>,
    walked: &Vec<bool>,
    i: usize,
) -> (r: Option<usize>)
    requires
        m.valid(),
        i < m.n_intersections(),
        is_bd@.len() == m.n_roads(),
        walked@.len() == m.n_roads(),
    ensures
        r matches Some(rr) ==> rr < m.n_roads() && is_bd@[rr as int] && !walked@[rr as int]
            && m.road_touches(rr as int, i as int),
        r is None ==> forall|q: int|
            0 <= q < m.intersections@[i as int].roads@.len()
                ==> !(is_bd@[(#[trigger] m.intersections@[i as int].roads@[q]) as int]
                    && !walked@[m.intersections@[i as int].roads@[q] as int]),
{
    let inc = &m.intersections[i];
    let n = inc.roads.len();
    let mut q: usize = 0;
    while q < n
        invariant
            m.valid(),
            i < m.n_intersections(),
            is_bd@.len() == m.n_roads(),
            walked@.len() == m.n_roads(),
            inc.roads@ == m.intersections@[i as int].roads@,
            n == inc.roads@.len(),
            q <= n,
            forall|q2: int|
                0 <= q2 < q ==> !(is_bd@[(#[trigger] inc.roads@[q2]) as int]
                    && !walked@[inc.roads@[q2] as int]),
        decreases n - q,
    {
        let rr = inc.roads[q];
        proof {
            assert(m.intersection_ok(i as int));
        }
        if is_bd[rr] && !walked[rr] {
            return Some(rr);
        }
        q = q + 1;
    }
    None
}

/// Traces a neighborhood: validates and marks the seed boundary roads,
/// walks them into one closed perimeter loop, flood-fills the enclosed
/// intersections from the seed, and derives the interior roads.
/// Reports `NotFound` for an identity unknown to the network and
/// `Unenclosed` when the boundary does not close into a single loop
/// with the seed strictly inside it; a failed trace never yields a
/// partial neighborhood.
#[verifier::loop_isolation(false)]
#[verifier::rlimit(100)]
pub fn trace_neighborhood(m: &RoadNetwork, boundary: &Vec<usize>, seed: usize) -> (res: Result<
    Neighborhood,
    EditError,
>)
    requires
        m.valid(),
    ensures
        res matches Ok(nb) ==> {
            &&& nb.wf(*m)
            &&& (forall|r: usize| nb.is_perimeter_road(r) <==> boundary@.contains(r))
            &&& nb.is_interior_intersection(seed)
        },
        seed >= m.n_intersections() ==> res == Err::<Neighborhood, EditError>(EditError::NotFound),
        (exists|j: int| 0 <= j < boundary@.len() && boundary@[j] >= m.n_roads()) ==> res is Err,
        (seed < m.n_intersections() && boundary@.len() < 2) ==> res == Err::<
            Neighborhood,
            EditError,
        >(EditError::Unenclosed),
        sp_enclosable(*m, boundary@, seed) ==> res is Ok,
{
    let nr = m.roads.len();
    let ni = m.intersections.len();
    if seed >= ni {
        return Err(EditError::NotFound);
    }
    if boundary.len() < 2 {
        return Err(EditError::Unenclosed);
    }

    let mut is_bd: Vec<bool> = Vec::new();
    let mut k: usize = 0;
    while k < nr
        invariant
            k <= nr,
            is_bd@.len() == k,
            forall|j: int| 0 <= j < k ==> !is_bd@[j],
        decreases nr - k,
    {
        is_bd.push(false);
        k = k + 1;
    }
    let nb_len = boundary.len();
    let mut j: usize = 0;
    while j < nb_len
        invariant
            j <= nb_len,
            is_bd@.len() == nr,
            forall|jj: int| 0 <= jj < j ==> boundary@[jj] < nr && is_bd@[boundary@[jj] as int],
            forall|r: int|
                0 <= r < nr && is_bd@[r] ==> (exists|jj: int| 0 <= jj < j && boundary@[jj] == r),
        decreases nb_len - j,
    {
        let b = boundary[j];
        if b >= nr {
            proof {
                if sp_enclosable(*m, boundary@, seed) {
                    assert(boundary@[j as int] < m.n_roads());
                    assert(false);
                }
            }
            return Err(EditError::NotFound);
        }
        if is_bd[b] {
            proof {
                if sp_enclosable(*m, boundary@, seed) {
                    let jj = choose|jj: int| 0 <= jj < j && boundary@[jj] == b as int;
                    assert(boundary@[jj] == boundary@[j as int]);
                    assert(false);
                }
            }
            return Err(EditError::Unenclosed);
        }
        is_bd.set(b, true);
        j = j + 1;
    }

    let b0 = boundary[0];
    proof {
        assert(m.road_ok(b0 as int));
    }
    let c0 = m.roads[b0].src_i;
    let mut walked: Vec<bool> = Vec::new();
    let mut k2: usize = 0;
    while k2 < nr
        invariant
            k2 <= nr,
            walked@.len() == k2,
            forall|jj: int| 0 <= jj < k2 ==> !walked@[jj],
        decreases nr - k2,
    {
        walked.push(false);
        k2 = k2 + 1;
    }
    let mut corner_seen: Vec<bool> = Vec::new();
    let mut k3: usize = 0;
    while k3 < ni
        invariant
            k3 <= ni,
            corner_seen@.len() == k3,
            forall|jj: int| 0 <= jj < k3 ==> !corner_seen@[jj],
        decreases ni - k3,
    {
        corner_seen.push(false);
        k3 = k3 + 1;
    }
    let mut p_roads: Vec<usize> = Vec::new();
    let mut p_corners: Vec<usize> = Vec::new();
    p_roads.push(b0);
    walked.set(b0, true);
    p_corners.push(c0);
    corner_seen.set(c0, true);
    let mut cur_i = m.roads[b0].dst_i;
    proof {
        assert(p_roads@[0] == b0);
        assert(p_roads@.contains(b0));
        assert(p_corners@[0] == c0);
        assert(p_corners@.contains(c0));
    }

    while cur_i != c0
        invariant
            is_bd@.len() == nr,
            walked@.len() == nr,
            corner_seen@.len() == ni,
            p_roads@.len() == p_corners@.len(),
            1 <= p_roads@.len(),
            cur_i < ni,
            p_roads@[0] == b0,
            p_corners@[0] == c0,
            forall|kk: int|
                0 <= kk < p_roads@.len() ==> (#[trigger] p_roads@[kk]) < nr
                    && is_bd@[p_roads@[kk] as int] && walked@[p_roads@[kk] as int],
            forall|r: int| 0 <= r < nr && walked@[r] ==> p_roads@.contains(r as usize),
            forall|kk: int|
                0 <= kk < p_corners@.len() ==> (#[trigger] p_corners@[kk]) < ni
                    && corner_seen@[p_corners@[kk] as int],
            forall|i2: int| 0 <= i2 < ni && corner_seen@[i2] ==> p_corners@.contains(i2 as usize),
            distinct_ids(p_roads@),
            distinct_ids(p_corners@),
            forall|kk: int|
                0 <= kk && kk + 1 < p_roads@.len() ==> sp_road_joins(
                    *m,
                    #[trigger] p_roads@[kk] as int,
                    p_corners@[kk],
                    p_corners@[kk + 1],
                ),
            sp_road_joins(
                *m,
                p_roads@[p_roads@.len() - 1] as int,
                p_corners@[p_corners@.len() - 1],
                cur_i,
            ),
        decreases sp_unwalked_count(is_bd@, walked@, 0),
    {
        proof {
            lemma_unwalked_nonneg(is_bd@, walked@, 0);
        }
        if corner_seen[cur_i] {
            proof {
                if sp_enclosable(*m, boundary@, seed) {
                    let len = p_roads@.len();
                    let k0 = choose|kk: int|
                        0 <= kk < p_corners@.len() && p_corners@[kk] == cur_i;
                    assert(k0 != 0);
                    assert(m.road_ok(p_roads@[len - 1] as int));
                    if k0 == len - 1 {
                        assert(sp_road_joins(
                            *m,
                            p_roads@[len - 1] as int,
                            p_corners@[len - 1],
                            cur_i,
                        ));
                        assert(false);
                    }
                    let e1 = p_roads@[k0 - 1];
                    let e2 = p_roads@[k0];
                    let e3 = p_roads@[len - 1];
                    assert(sp_road_joins(*m, e1 as int, p_corners@[k0 - 1], p_corners@[k0]));
                    assert(sp_road_joins(*m, e2 as int, p_corners@[k0], p_corners@[k0 + 1]));
                    assert(sp_road_joins(*m, e3 as int, p_corners@[len - 1], cur_i));
                    assert(m.road_touches(e1 as int, cur_i as int));
                    assert(m.road_touches(e2 as int, cur_i as int));
                    assert(m.road_touches(e3 as int, cur_i as int));
                    assert(e1 != e2 && e1 != e3 && e2 != e3);
                    let j1 = choose|jj: int| 0 <= jj < nb_len && boundary@[jj] == e1 as int;
                    let j2x = choose|jj: int| 0 <= jj < nb_len && boundary@[jj] == e2 as int;
                    let j3 = choose|jj: int| 0 <= jj < nb_len && boundary@[jj] == e3 as int;
                    lemma_deg_three(*m, boundary@, cur_i as int, j1, j2x, j3);
                    assert(sp_bd_degree(*m, boundary@, cur_i as int) == 0 || sp_bd_degree(
                        *m,
                        boundary@,
                        cur_i as int,
                    ) == 2);
                    assert(false);
                }
            }
            return Err(EditError::Unenclosed);
        }
        match find_unwalked_boundary(m, &is_bd, &walked, cur_i) {
            None => {
                proof {
                    if sp_enclosable(*m, boundary@, seed) {
                        let len = p_roads@.len();
                        let e = p_roads@[len - 1];
                        assert(sp_road_joins(*m, e as int, p_corners@[len - 1], cur_i));
                        assert(m.road_touches(e as int, cur_i as int));
                        assert(is_bd@[e as int]);
                        let ja = choose|jj: int| 0 <= jj < nb_len && boundary@[jj] == e as int;
                        lemma_deg_tail(*m, boundary@, cur_i as int, 0, ja);
                        lemma_deg_nonneg(*m, boundary@, cur_i as int, ja + 1);
                        assert(sp_bd_degree(*m, boundary@, cur_i as int) == 2);
                        lemma_deg_second_witness(*m, boundary@, cur_i as int, ja);
                        let jb = choose|j2: int|
                            0 <= j2 < boundary@.len() && j2 != ja && m.road_touches(
                                boundary@[j2] as int,
                                cur_i as int,
                            );
                        let e2 = boundary@[jb];
                        assert(e2 != e) by {
                            if ja < jb {
                                assert(boundary@[ja] != boundary@[jb]);
                            } else {
                                assert(boundary@[jb] != boundary@[ja]);
                            }
                        }
                        assert(is_bd@[e2 as int]);
                        if walked@[e2 as int] {
                            assert(p_roads@.contains(e2));
                            let kk = choose|kk: int|
                                0 <= kk < p_roads@.len() && p_roads@[kk] == e2;
                            assert(kk != len - 1);
                            assert(sp_road_joins(
                                *m,
                                e2 as int,
                                p_corners@[kk],
                                p_corners@[kk + 1],
                            ));
                            assert(cur_i == p_corners@[kk] || cur_i == p_corners@[kk + 1]);
                            assert(corner_seen@[cur_i as int]);
                            assert(false);
                        }
                        assert(m.road_ok(e2 as int));
                        assert(m.road_listed_at(e2 as int, cur_i as int));
                        let q = choose|k: int|
                            0 <= k < m.intersections@[cur_i as int].roads@.len()
                                && m.intersections@[cur_i as int].roads@[k] == e2 as int;
                        assert(!(is_bd@[m.intersections@[cur_i as int].roads@[q] as int]
                            && !walked@[m.intersections@[cur_i as int].roads@[q] as int]));
                        assert(false);
                    }
                }
                return Err(EditError::Unenclosed);
            },
            Some(rr) => {
                proof {
                    assert(!p_roads@.contains(rr));
                    assert(!p_corners@.contains(cur_i));
                }
                let ghost p_roads0 = p_roads@;
                let ghost p_corners0 = p_corners@;
                let ghost walked0 = walked@;
                p_corners.push(cur_i);
                corner_seen.set(cur_i, true);
                p_roads.push(rr);
                walked.set(rr, true);
                proof {
                    lemma_unwalked_update(is_bd@, walked0, rr as int, 0);
                    lemma_unwalked_nonneg(is_bd@, walked@, 0);
                    assert(m.road_ok(rr as int));
                    assert forall|r: int| 0 <= r < nr && walked@[r] implies p_roads@.contains(
                        r as usize,
                    ) by {
                        if r == rr as int {
                            assert(p_roads@[p_roads@.len() - 1] == rr);
                        } else {
                            assert(walked@[r] == p_roads0.contains(r as usize) || p_roads0.contains(
                                r as usize,
                            ));
                            let kk = choose|kk: int|
                                0 <= kk < p_roads0.len() && p_roads0[kk] == r as usize;
                            assert(p_roads@[kk] == r as usize);
                        }
                    }
                    assert forall|i2: int|
                        0 <= i2 < ni && corner_seen@[i2] implies p_corners@.contains(
                        i2 as usize,
                    ) by {
                        if i2 == cur_i as int {
                            assert(p_corners@[p_corners@.len() - 1] == cur_i);
                        } else {
                            let kk = choose|kk: int|
                                0 <= kk < p_corners0.len() && p_corners0[kk] == i2 as usize;
                            assert(p_corners@[kk] == i2 as usize);
                        }
                    }
                }
                let rd = &m.roads[rr];
                let nxt = if rd.src_i == cur_i {
                    rd.dst_i
                } else {
                    rd.src_i
                };
                cur_i = nxt;
            },
        }
    }

    if p_roads.len() < 2 {
        proof {
            assert(m.road_ok(b0 as int));
            assert(sp_road_joins(
                *m,
                p_roads@[p_roads@.len() - 1] as int,
                p_corners@[p_corners@.len() - 1],
                cur_i,
            ));
            assert(false);
        }
        return Err(EditError::Unenclosed);
    }
    let mut j2: usize = 0;
    while j2 < nb_len
        invariant
            j2 <= nb_len,
            walked@.len() == nr,
            forall|jj: int| 0 <= jj < j2 ==> walked@[boundary@[jj] as int],
        decreases nb_len - j2,
    {
        let b = boundary[j2];
        if !walked[b] {
            proof {
                if sp_enclosable(*m, boundary@, seed) {
                    let len = p_roads@.len();
                    assert forall|kk: int| 0 <= kk < len implies sp_road_joins(
                        *m,
                        (#[trigger] p_roads@[kk]) as int,
                        p_corners@[kk],
                        p_corners@[if kk + 1 == len {
                            0int
                        } else {
                            kk + 1
                        }],
                    ) by {
                        if kk + 1 == len {
                            assert(sp_road_joins(
                                *m,
                                p_roads@[len - 1] as int,
                                p_corners@[len - 1],
                                cur_i,
                            ));
                        }
                    }
                    assert forall|kk: int| 0 <= kk < len implies boundary@.contains(
                        #[trigger] p_roads@[kk],
                    ) by {
                        let r = p_roads@[kk];
                        assert(is_bd@[r as int]);
                        let jj = choose|jj: int| 0 <= jj < nb_len && boundary@[jj] == r as int;
                        assert(boundary@[jj] == r);
                    }
                    assert(boundary@[0] == b0 && p_roads@[0] == b0);
                    let ch = choose|p: Seq<usize>|
                        sp_bd_chain(*m, boundary@, p) && p.first() == boundary@[0] && p.last()
                            == boundary@[j2 as int];
                    lemma_chain_walked(*m, boundary@, p_roads@, p_corners@, ch);
                    assert(p_roads@.contains(ch.last()));
                    let kk2 = choose|kk: int|
                        0 <= kk < p_roads@.len() && p_roads@[kk] == b as usize;
                    assert(walked@[b as int]);
                    assert(false);
                }
            }
            return Err(EditError::Unenclosed);
        }
        j2 = j2 + 1;
    }

    if corner_seen[seed] {
        proof {
            if sp_enclosable(*m, boundary@, seed) {
                let len = p_roads@.len();
                let k0 = choose|kk: int| 0 <= kk < p_corners@.len() && p_corners@[kk] == seed;
                if k0 + 1 < len {
                    assert(sp_road_joins(
                        *m,
                        p_roads@[k0] as int,
                        p_corners@[k0],
                        p_corners@[k0 + 1],
                    ));
                } else {
                    assert(sp_road_joins(*m, p_roads@[len - 1] as int, p_corners@[len - 1], cur_i));
                }
                assert(m.road_touches(p_roads@[k0] as int, seed as int));
                assert(is_bd@[p_roads@[k0] as int]);
                let jj = choose|jj: int|
                    0 <= jj < nb_len && boundary@[jj] == p_roads@[k0] as int;
                assert(!m.road_touches(boundary@[jj] as int, seed as int));
                assert(false);
            }
        }
        return Err(EditError::Unenclosed);
    }

    let mut vis: Vec<bool> = Vec::new();
    let mut k4: usize = 0;
    while k4 < ni
        invariant
            k4 <= ni,
            vis@.len() == k4,
            forall|jj: int| 0 <= jj < k4 ==> !vis@[jj],
        decreases ni - k4,
    {
        vis.push(false);
        k4 = k4 + 1;
    }
    let mut work: Vec<usize> = Vec::new();
    vis.set(seed, true);
    work.push(seed);
    proof {
        let p0 = seq![seed];
        assert(p0.len() == 1 && p0[0] == seed);
        assert(p0.first() == seed && p0.last() == seed);
        assert(sp_flood_path(*m, is_bd@, vis@, p0) && p0.first() == seed && p0.last() == seed);
        assert(sp_flood_reach(*m, is_bd@, vis@, seed, seed));
        lemma_count_true_bound(vis@);
    }
    while work.len() > 0
        invariant
            vis@.len() == ni,
            is_bd@.len() == nr,
            corner_seen@.len() == ni,
            seed < ni,
            vis@[seed as int],
            forall|kk: int|
                0 <= kk < work@.len() ==> (#[trigger] work@[kk]) < ni && vis@[work@[kk] as int],
            forall|i2: int| 0 <= i2 < ni && vis@[i2] ==> !corner_seen@[i2],
            sp_flood_inv(*m, is_bd@, vis@, seed),
        decreases ni - count_true(vis@), work@.len(),
    {
        proof {
            lemma_count_true_bound(vis@);
        }
        let ghost count0 = count_true(vis@);
        let ghost wlen0 = work@.len();
        let cur = match work.pop() {
            Some(c) => c,
            None => {
                proof {
                    assert(false);
                }
                return Err(EditError::Unenclosed);
            },
        };
        let inc = &m.intersections[cur];
        let ninc = inc.roads.len();
        let mut q: usize = 0;
        while q < ninc
            invariant
                cur < ni,
                q <= ninc,
                inc.roads@ == m.intersections@[cur as int].roads@,
                ninc == inc.roads@.len(),
                vis@.len() == ni,
                is_bd@.len() == nr,
                corner_seen@.len() == ni,
                seed < ni,
                vis@[seed as int],
                vis@[cur as int],
                forall|kk: int|
                    0 <= kk < work@.len() ==> (#[trigger] work@[kk]) < ni && vis@[work@[kk] as int],
                forall|i2: int| 0 <= i2 < ni && vis@[i2] ==> !corner_seen@[i2],
                sp_flood_inv(*m, is_bd@, vis@, seed),
                count_true(vis@) >= count0,
                count_true(vis@) <= ni,
                work@.len() >= wlen0 - 1,
                count_true(vis@) > count0 || work@.len() == wlen0 - 1,
            decreases ninc - q,
        {
            let rr = inc.roads[q];
            proof {
                assert(m.intersection_ok(cur as int));
                assert(m.road_ok(rr as int));
            }
            if !is_bd[rr] {
                let rd = &m.roads[rr];
                let other = if rd.src_i == cur {
                    rd.dst_i
                } else {
                    rd.src_i
                };
                if !corner_seen[other] && !vis[other] {
                    proof {
                        lemma_count_true_update(vis@, other as int);
                    }
                    let ghost vis0 = vis@;
                    vis.set(other, true);
                    work.push(other);
                    proof {
                        lemma_count_true_bound(vis@);
                        assert(sp_road_joins(*m, rr as int, cur, other));
                        assert(sp_flood_linked(*m, is_bd@, cur, other));
                        assert forall|i2: int| 0 <= i2 < ni && vis@[i2] implies sp_flood_reach(
                            *m,
                            is_bd@,
                            vis@,
                            seed,
                            i2 as usize,
                        ) by {
                            if i2 == other as int {
                                assert(vis0[cur as int]);
                                assert(sp_flood_reach(*m, is_bd@, vis0, seed, cur));
                                lemma_flood_reach_mono(*m, is_bd@, vis0, vis@, seed, cur);
                                let p = choose|p: Seq<usize>|
                                    sp_flood_path(*m, is_bd@, vis@, p) && p.first() == seed
                                        && p.last() == cur;
                                let p2 = p.push(other);
                                assert forall|kk: int| 0 <= kk < p2.len() implies (
                                #[trigger] p2[kk]) < vis@.len() && vis@[p2[kk] as int] by {
                                    if kk < p.len() {
                                        assert(p2[kk] == p[kk]);
                                    }
                                }
                                assert forall|kk: int|
                                    0 <= kk && kk + 1 < p2.len() implies sp_flood_linked(
                                    *m,
                                    is_bd@,
                                    #[trigger] p2[kk],
                                    p2[kk + 1],
                                ) by {
                                    if kk + 1 < p.len() {
                                        assert(p2[kk] == p[kk] && p2[kk + 1] == p[kk + 1]);
                                    } else {
                                        assert(p2[kk] == p[p.len() - 1] && p2[kk + 1] == other);
                                        assert(p2[kk] == cur);
                                    }
                                }
                                assert(sp_flood_path(*m, is_bd@, vis@, p2));
                                assert(p2.first() == seed && p2.last() == other);
                            } else {
                                assert(vis0[i2]);
                                lemma_flood_reach_mono(*m, is_bd@, vis0, vis@, seed, i2 as usize);
                            }
                        }
                    }
                }
            }
            q = q + 1;
        }
        proof {
            lemma_count_true_bound(vis@);
        }
    }

    let mut interior_is: Vec<usize> = Vec::new();
    let mut i3: usize = 0;
    while i3 < ni
        invariant
            i3 <= ni,
            vis@.len() == ni,
            forall|kk: int|
                0 <= kk < interior_is@.len() ==> (#[trigger] interior_is@[kk]) < i3
                    && vis@[interior_is@[kk] as int],
            forall|x: int| 0 <= x < i3 && vis@[x] ==> interior_is@.contains(x as usize),
            distinct_ids(interior_is@),
        decreases ni - i3,
    {
        if vis[i3] {
            proof {
                assert(!interior_is@.contains(i3));
            }
            let ghost prev = interior_is@;
            interior_is.push(i3);
            proof {
                assert forall|x: int| 0 <= x < i3 + 1 && vis@[x] implies interior_is@.contains(
                    x as usize,
                ) by {
                    if x == i3 as int {
                        assert(interior_is@[interior_is@.len() - 1] == i3);
                    } else {
                        let kk = choose|kk: int| 0 <= kk < prev.len() && prev[kk] == x as usize;
                        assert(interior_is@[kk] == x as usize);
                    }
                }
            }
        }
        i3 = i3 + 1;
    }

    let mut interior_rs: Vec<usize> = Vec::new();
    let mut r4: usize = 0;
    while r4 < nr
        invariant
            r4 <= nr,
            vis@.len() == ni,
            is_bd@.len() == nr,
            corner_seen@.len() == ni,
            forall|kk: int|
                0 <= kk < interior_rs@.len() ==> (#[trigger] interior_rs@[kk]) < r4
                    && sp_int_road_cond(*m, is_bd@, vis@, corner_seen@, interior_rs@[kk] as int),
            forall|x: int|
                0 <= x < r4 && sp_int_road_cond(*m, is_bd@, vis@, corner_seen@, x)
                    ==> interior_rs@.contains(x as usize),
            distinct_ids(interior_rs@),
        decreases nr - r4,
    {
        proof {
            assert(m.road_ok(r4 as int));
        }
        let rd4 = &m.roads[r4];
        if !is_bd[r4] && (vis[rd4.src_i] || corner_seen[rd4.src_i]) && (vis[rd4.dst_i]
            || corner_seen[rd4.dst_i]) && (vis[rd4.src_i] || vis[rd4.dst_i]) {
            proof {
                assert(!interior_rs@.contains(r4));
            }
            let ghost prev = interior_rs@;
            interior_rs.push(r4);
            proof {
                assert forall|x: int|
                    0 <= x < r4 + 1 && sp_int_road_cond(*m, is_bd@, vis@, corner_seen@, x)
                        implies interior_rs@.contains(x as usize) by {
                    if x == r4 as int {
                        assert(interior_rs@[interior_rs@.len() - 1] == r4);
                    } else {
                        let kk = choose|kk: int| 0 <= kk < prev.len() && prev[kk] == x as usize;
                        assert(interior_rs@[kk] == x as usize);
                    }
                }
            }
        }
        r4 = r4 + 1;
    }

    let nb = Neighborhood {
        perimeter: Perimeter { roads: p_roads, corners: p_corners },
        interior_intersections: interior_is,
        interior_roads: interior_rs,
    };

    proof {
        // the walked loop is exactly the boundary set
        assert forall|r: usize| nb.is_perimeter_road(r) <==> boundary@.contains(r) by {
            if nb.is_perimeter_road(r) {
                let kk = choose|kk: int|
                    0 <= kk < nb.perimeter.roads@.len() && nb.perimeter.roads@[kk] == r;
                assert(is_bd@[r as int]);
                assert(exists|jj: int| 0 <= jj < nb_len && boundary@[jj] == r as int);
            }
            if boundary@.contains(r) {
                let jj = choose|jj: int| 0 <= jj < boundary@.len() && boundary@[jj] == r;
                assert(walked@[boundary@[jj] as int]);
                assert(nb.perimeter.roads@.contains(r));
            }
        }
        // membership spellings agree with the flags
        assert forall|i2: usize| i2 < ni implies (vis@[i2 as int]
            <==> nb.is_interior_intersection(i2)) by {
            if nb.is_interior_intersection(i2) {
                let kk = choose|kk: int|
                    0 <= kk < nb.interior_intersections@.len()
                        && nb.interior_intersections@[kk] == i2;
            }
        }
        assert forall|r: usize| #[trigger] nb.is_interior_road(r) <==> sp_int_road_cond(
            *m,
            is_bd@,
            vis@,
            corner_seen@,
            r as int,
        ) by {
            if nb.is_interior_road(r) {
                let kk = choose|kk: int|
                    0 <= kk < nb.interior_roads@.len() && nb.interior_roads@[kk] == r;
            }
        }
        assert forall|x: usize| x < ni implies (corner_seen@[x as int] <==> nb.is_corner(x)) by {
            if nb.is_corner(x) {
                let kk = choose|kk: int|
                    0 <= kk < nb.perimeter.corners@.len() && nb.perimeter.corners@[kk] == x;
            }
        }
        // perimeter well-formedness: links close into a loop
        assert forall|kk: int| 0 <= kk < nb.perimeter.roads@.len() implies
            nb.perimeter.link_ok(*m, kk) by {
            if kk + 1 < nb.perimeter.roads@.len() {
                assert(sp_road_joins(
                    *m,
                    nb.perimeter.roads@[kk] as int,
                    nb.perimeter.corners@[kk],
                    nb.perimeter.corners@[kk + 1],
                ));
            } else {
                assert(sp_road_joins(
                    *m,
                    nb.perimeter.roads@[kk] as int,
                    nb.perimeter.corners@[kk],
                    c0,
                ));
            }
        }
        assert(nb.perimeter.wf(*m));
        // interior intersections avoid the perimeter corners
        assert forall|i2: usize| #[trigger] nb.is_interior_intersection(i2) implies !nb.is_corner(
            i2,
        ) by {
            assert(vis@[i2 as int]);
            if nb.is_corner(i2) {
                let kk = choose|kk: int|
                    0 <= kk < nb.perimeter.corners@.len() && nb.perimeter.corners@[kk] == i2;
                assert(corner_seen@[i2 as int]);
            }
        }
        // the interior road characterization demanded by wf
        assert forall|r: usize| #[trigger] nb.is_interior_road(r) <==> (r < m.n_roads()
            && !nb.is_perimeter_road(r) && (nb.is_interior_intersection(m.roads@[r as int].src_i)
            || nb.is_corner(m.roads@[r as int].src_i)) && (nb.is_interior_intersection(
            m.roads@[r as int].dst_i,
        ) || nb.is_corner(m.roads@[r as int].dst_i)) && (nb.is_interior_intersection(
            m.roads@[r as int].src_i,
        ) || nb.is_interior_intersection(m.roads@[r as int].dst_i))) by {
            if r < nr {
                assert(m.road_ok(r as int));
                assert(is_bd@[r as int] <==> nb.is_perimeter_road(r));
                assert(corner_seen@[m.roads@[r as int].src_i as int] <==> nb.is_corner(
                    m.roads@[r as int].src_i,
                ));
                assert(corner_seen@[m.roads@[r as int].dst_i as int] <==> nb.is_corner(
                    m.roads@[r as int].dst_i,
                ));
            }
        }
        // flood edges lie on interior roads
        assert forall|r: usize|
            (r < m.n_roads() && !is_bd@[r as int] && vis@[m.roads@[r as int].src_i as int]
                && vis@[m.roads@[r as int].dst_i as int]) implies #[trigger] nb.is_interior_road(
            r,
        ) by {
            assert(m.road_ok(r as int));
            assert(sp_int_road_cond(*m, is_bd@, vis@, corner_seen@, r as int));
        }
        // connectivity: any two interior intersections meet through the seed
        assert forall|u: usize, v: usize|
            nb.is_interior_intersection(u) && nb.is_interior_intersection(v) implies
            #[trigger] nb.interior_reachable(*m, u, v) by {
            assert(vis@[u as int] && vis@[v as int]);
            assert(sp_flood_reach(*m, is_bd@, vis@, seed, u));
            assert(sp_flood_reach(*m, is_bd@, vis@, seed, v));
            let pu = choose|p: Seq<usize>|
                sp_flood_path(*m, is_bd@, vis@, p) && p.first() == seed && p.last() == u;
            let pv = choose|p: Seq<usize>|
                sp_flood_path(*m, is_bd@, vis@, p) && p.first() == seed && p.last() == v;
            nb.lemma_flood_to_interior(*m, is_bd@, vis@, pu);
            nb.lemma_flood_to_interior(*m, is_bd@, vis@, pv);
            nb.lemma_interior_path_reverse(*m, pu);
            nb.lemma_interior_path_concat(*m, pu.reverse(), pv);
        }
        assert(nb.wf(*m));
        assert(nb.is_interior_intersection(seed));
    }
    Ok(nb)
}

} // verus!
