//! The modal filter manager: the set of active road closures and
//! diagonal turn-restriction choices, with placement, removal and
//! cycling, bounds enforcement against the neighborhood under edit,
//! and a plain-value saved form for persistence.

use vstd::prelude::*;

use crate::neighborhood::Neighborhood;
use crate::network::RoadNetwork;
use crate::EditError;

verus! {

/// The filter state: for each road, an optional closure point
/// (distance along the road); for each intersection, an optional
/// diagonal-closure alternative index.
#[derive(Clone, Debug)]
#[verifier::ext_equal]
pub struct ModalFilters {
    pub road_dists: Vec<Option<u64>>,
    pub diagonals: Vec<Option<u64>>,
}

/// The alternative that cycling advances to from `cur`, at an
/// intersection with `n_inc` incident roads: the alternatives
/// `0 .. n_inc - 1` in order, then back to no restriction. At a
/// four-way this closes after exactly four steps.
pub open spec fn sp_cycle_next(n_inc: int, cur: Option<u64>) -> Option<u64> {
    match cur {
        None => Some(0u64),
        Some(j) => if j + 1 < n_inc - 1 {
            Some((j + 1) as u64)
        } else {
            None
        },
    }
}

/// `sp_cycle_next` applied `times` times.
pub open spec fn sp_cycle_times(n_inc: int, cur: Option<u64>, times: nat) -> Option<u64>
    decreases times,
{
    if times == 0 {
        cur
    } else {
        sp_cycle_times(n_inc, sp_cycle_next(n_inc, cur), (times - 1) as nat)
    }
}

impl ModalFilters {
    /// A filter's distance lies strictly within its road; a diagonal
    /// alternative exists at its intersection.
    pub open spec fn wf(self, m: RoadNetwork) -> bool {
        &&& self.road_dists@.len() == m.n_roads()
        &&& self.diagonals@.len() == m.n_intersections()
        &&& (forall|r: int|
            0 <= r < m.n_roads() ==> match #[trigger] self.road_dists@[r] {
                Some(d) => 0 < d < m.road_len(r),
                None => true,
            })
        &&& (forall|i: int|
            0 <= i < m.n_intersections() ==> match #[trigger] self.diagonals@[i] {
                Some(j) => m.intersections@[i].roads@.len() >= 4
                    && j + 1 < m.intersections@[i].roads@.len(),
                None => true,
            })
    }

    /// The empty filter state for a loaded map.
    pub fn new(m: &RoadNetwork) -> (f: ModalFilters)
        ensures
            f.wf(*m),
            f.road_dists@ == Seq::new(m.n_roads() as nat, |r: int| None::<u64>),
            f.diagonals@ == Seq::new(m.n_intersections() as nat, |i: int| None::<u64>),
    {
        let nr = m.roads.len();
        let ni = m.intersections.len();
        let mut roads: Vec<Option<u64>> = Vec::new();
        let mut k: usize = 0;
        while k < nr
            invariant
                k <= nr,
                roads@.len() == k,
                forall|j: int| 0 <= j < k ==> roads@[j] is None,
            decreases nr - k,
        {
            roads.push(None);
            k = k + 1;
        }
        let mut diags: Vec<Option<u64>> = Vec::new();
        let mut k2: usize = 0;
        while k2 < ni
            invariant
                k2 <= ni,
                diags@.len() == k2,
                forall|j: int| 0 <= j < k2 ==> diags@[j] is None,
            decreases ni - k2,
        {
            diags.push(None);
            k2 = k2 + 1;
        }
        let f = ModalFilters { road_dists: roads, diagonals: diags };
        proof {
            assert(f.road_dists@ =~= Seq::new(m.n_roads() as nat, |r: int| None::<u64>));
            assert(f.diagonals@ =~= Seq::new(m.n_intersections() as nat, |i: int| None::<u64>));
        }
        f
    }


    /// A structural copy of the filter state, used for edit snapshots.
    pub fn duplicate(&self) -> (r: ModalFilters)
        ensures
            r.road_dists@ == self.road_dists@,
            r.diagonals@ == self.diagonals@,
    {
        ModalFilters {
            road_dists: copy_entries(&self.road_dists),
            diagonals: copy_entries(&self.diagonals),
        }
    }

    /// Places a closure on `road` at `dist` along it, replacing any
    /// filter already there. Rejects a road unknown to the network, a
    /// road outside the neighborhood's interior, and a distance not
    /// strictly inside the road's length.
    pub fn place_filter(
        &mut self,
        m: &RoadNetwork,
        nb: &Neighborhood,
        road: usize,
        dist: u64,
    ) -> (r: Result<(), EditError>)
        requires
            m.valid(),
            old(self).wf(*m),
        ensures
            final(self).wf(*m),
            r == Ok::<(), EditError>(()) <==> (road < m.n_roads() && nb.is_interior_road(road)
                && 0 < dist < m.road_len(road as int)),
            r == Ok::<(), EditError>(()) ==> final(self).road_dists@ == old(self).road_dists@.update(
                road as int,
                Some(dist),
            ),
            r is Err ==> *final(self) == *old(self),
            r == Err::<(), EditError>(EditError::NotFound) <==> road >= m.n_roads(),
            r == Err::<(), EditError>(EditError::OutOfBounds) <==> (road < m.n_roads()
                && !(nb.is_interior_road(road) && 0 < dist && dist < m.road_len(road as int))),
            final(self).diagonals@ == old(self).diagonals@,
    {
        if road >= self.road_dists.len() {
            return Err(EditError::NotFound);
        }
        if !nb.interior_road_exec(road) {
            return Err(EditError::OutOfBounds);
        }
        proof {
            assert(m.road_ok(road as int));
        }
        let rd = &m.roads[road];
        let len = rd.cum_dist[rd.cum_dist.len() - 1];
        if !(0 < dist && dist < len) {
            return Err(EditError::OutOfBounds);
        }
        self.road_dists.set(road, Some(dist));
        Ok(())
    }

    /// Removes the closure on `road`, if any. The same bounds apply as
    /// for placement: the engine does not reach outside the
    /// neighborhood under edit.
    pub fn remove_filter(
        &mut self,
        m: &RoadNetwork,
        nb: &Neighborhood,
        road: usize,
    ) -> (r: Result<(), EditError>)
        requires
            m.valid(),
            old(self).wf(*m),
        ensures
            final(self).wf(*m),
            r == Ok::<(), EditError>(()) <==> (road < m.n_roads() && nb.is_interior_road(road)),
            r == Ok::<(), EditError>(()) ==> final(self).road_dists@ == old(self).road_dists@.update(
                road as int,
                None,
            ),
            r is Err ==> *final(self) == *old(self),
            r == Err::<(), EditError>(EditError::NotFound) <==> road >= m.n_roads(),
            r == Err::<(), EditError>(EditError::OutOfBounds) <==> (road < m.n_roads()
                && !nb.is_interior_road(road)),
            final(self).diagonals@ == old(self).diagonals@,
    {
        if road >= self.road_dists.len() {
            return Err(EditError::NotFound);
        }
        if !nb.interior_road_exec(road) {
            return Err(EditError::OutOfBounds);
        }
        self.road_dists.set(road, None);
        Ok(())
    }

    /// Advances the diagonal filter at intersection `i` to the next
    /// alternative, wrapping back to no restriction. An intersection
    /// with fewer than four incident roads supports no diagonal
    /// closure: the call reports `false` and changes nothing.
    pub fn cycle_diagonal_filter(
        &mut self,
        m: &RoadNetwork,
        nb: &Neighborhood,
        i: usize,
    ) -> (r: Result<bool, EditError>)
        requires
            m.valid(),
            old(self).wf(*m),
        ensures
            final(self).wf(*m),
            r is Ok <==> (i < m.n_intersections() && nb.is_interior_intersection(i)),
            r is Err ==> *final(self) == *old(self),
            r == Err::<bool, EditError>(EditError::NotFound) <==> i >= m.n_intersections(),
            r == Err::<bool, EditError>(EditError::OutOfBounds) <==> (i < m.n_intersections()
                && !nb.is_interior_intersection(i)),
            r == Ok::<bool, EditError>(false) <==> (i < m.n_intersections()
                && nb.is_interior_intersection(i) && m.intersections@[i as int].roads@.len() < 4),
            r == Ok::<bool, EditError>(false) ==> *final(self) == *old(self),
            r == Ok::<bool, EditError>(true) ==> final(self).diagonals@ == old(self).diagonals@.update(
                i as int,
                sp_cycle_next(
                    m.intersections@[i as int].roads@.len() as int,
                    old(self).diagonals@[i as int],
                ),
            ),
            final(self).road_dists@ == old(self).road_dists@,
    {
        if i >= self.diagonals.len() {
            return Err(EditError::NotFound);
        }
        if !nb.interior_intersection_exec(i) {
            return Err(EditError::OutOfBounds);
        }
        let n_inc = m.intersections[i].roads.len();
        if n_inc < 4 {
            return Ok(false);
        }
        let cur = self.diagonals[i];
        let next: Option<u64> = match cur {
            None => Some(0),
            Some(j) => {
                if j + 1 < (n_inc - 1) as u64 {
                    Some(j + 1)
                } else {
                    None
                }
            },
        };
        self.diagonals.set(i, next);
        Ok(true)
    }

    /// Clears the diagonal filter at intersection `i`.
    pub fn remove_diagonal_filter(
        &mut self,
        m: &RoadNetwork,
        nb: &Neighborhood,
        i: usize,
    ) -> (r: Result<(), EditError>)
        requires
            m.valid(),
            old(self).wf(*m),
        ensures
            final(self).wf(*m),
            r == Ok::<(), EditError>(()) <==> (i < m.n_intersections()
                && nb.is_interior_intersection(i)),
            r == Ok::<(), EditError>(()) ==> final(self).diagonals@ == old(self).diagonals@.update(
                i as int,
                None,
            ),
            r is Err ==> *final(self) == *old(self),
            r == Err::<(), EditError>(EditError::NotFound) <==> i >= m.n_intersections(),
            r == Err::<(), EditError>(EditError::OutOfBounds) <==> (i < m.n_intersections()
                && !nb.is_interior_intersection(i)),
            final(self).road_dists@ == old(self).road_dists@,
    {
        if i >= self.diagonals.len() {
            return Err(EditError::NotFound);
        }
        if !nb.interior_intersection_exec(i) {
            return Err(EditError::OutOfBounds);
        }
        self.diagonals.set(i, None);
        Ok(())
    }

    /// The saved form of the road filter map: `(road, distance)` pairs
    /// in ascending road order.
    pub fn save_road_filters(&self) -> (r: Vec<(usize, u64)>)
        ensures
            r@ == sp_saved_from(self.road_dists@, 0),
    {
        save_entries(&self.road_dists)
    }

    /// The saved form of the diagonal filter map: `(intersection,
    /// alternative)` pairs in ascending intersection order.
    pub fn save_diagonal_filters(&self) -> (r: Vec<(usize, u64)>)
        ensures
            r@ == sp_saved_from(self.diagonals@, 0),
    {
        save_entries(&self.diagonals)
    }

    /// Rebuilds filter state from the two saved maps, against the same
    /// network. Every entry is validated as placement would validate
    /// it; any stale identity or out-of-range value rejects the load.
    pub fn load_saved(
        m: &RoadNetwork,
        road_pairs: &Vec<(usize, u64)>,
        diag_pairs: &Vec<(usize, u64)>,
    ) -> (r: Option<ModalFilters>)
        requires
            m.valid(),
        ensures
            r is Some <==> (sp_road_pairs_ok(*m, road_pairs@) && sp_diag_pairs_ok(*m, diag_pairs@)),
            r matches Some(f) ==> {
                &&& f.wf(*m)
                &&& f.road_dists@ == sp_apply_saved(
                    Seq::new(m.n_roads() as nat, |r: int| None::<u64>),
                    road_pairs@,
                )
                &&& f.diagonals@ == sp_apply_saved(
                    Seq::new(m.n_intersections() as nat, |i: int| None::<u64>),
                    diag_pairs@,
                )
            },
    {
        let mut f = ModalFilters::new(m);
        let nrp = road_pairs.len();
        let mut k: usize = 0;
        while k < nrp
            invariant
                m.valid(),
                nrp == road_pairs@.len(),
                k <= nrp,
                f.wf(*m),
                forall|j: int|
                    0 <= j < k ==> sp_road_pair_ok(*m, #[trigger] road_pairs@[j]),
                f.road_dists@ == sp_apply_saved(
                    Seq::new(m.n_roads() as nat, |r: int| None::<u64>),
                    road_pairs@.take(k as int),
                ),
                f.diagonals@ == Seq::new(m.n_intersections() as nat, |i: int| None::<u64>),
            decreases nrp - k,
        {
            let (rid, d) = road_pairs[k];
            if rid >= f.road_dists.len() {
                proof {
                    assert(!sp_road_pair_ok(*m, road_pairs@[k as int]));
                }
                return None;
            }
            proof {
                assert(m.road_ok(rid as int));
            }
            let rd = &m.roads[rid];
            let len = rd.cum_dist[rd.cum_dist.len() - 1];
            if !(0 < d && d < len) {
                proof {
                    assert(!sp_road_pair_ok(*m, road_pairs@[k as int]));
                }
                return None;
            }
            f.road_dists.set(rid, Some(d));
            proof {
                assert(road_pairs@.take((k + 1) as int).drop_last() =~= road_pairs@.take(k as int));
                assert(road_pairs@.take((k + 1) as int).last() == road_pairs@[k as int]);
                lemma_apply_saved_step(
                    Seq::new(m.n_roads() as nat, |r: int| None::<u64>),
                    road_pairs@.take((k + 1) as int),
                );
            }
            k = k + 1;
        }
        proof {
            assert(road_pairs@.take(nrp as int) =~= road_pairs@);
        }
        let ndp = diag_pairs.len();
        let mut k2: usize = 0;
        while k2 < ndp
            invariant
                m.valid(),
                ndp == diag_pairs@.len(),
                k2 <= ndp,
                f.wf(*m),
                forall|j: int| 0 <= j < k2 ==> sp_diag_pair_ok(*m, #[trigger] diag_pairs@[j]),
                f.diagonals@ == sp_apply_saved(
                    Seq::new(m.n_intersections() as nat, |i: int| None::<u64>),
                    diag_pairs@.take(k2 as int),
                ),
                f.road_dists@ == sp_apply_saved(
                    Seq::new(m.n_roads() as nat, |r: int| None::<u64>),
                    road_pairs@,
                ),
                sp_road_pairs_ok(*m, road_pairs@),
            decreases ndp - k2,
        {
            let (iid, j) = diag_pairs[k2];
            if iid >= f.diagonals.len() {
                proof {
                    assert(!sp_diag_pair_ok(*m, diag_pairs@[k2 as int]));
                }
                return None;
            }
            let n_inc = m.intersections[iid].roads.len();
            if !(n_inc >= 4 && j < u64::MAX && j + 1 < n_inc as u64) {
                proof {
                    assert(!sp_diag_pair_ok(*m, diag_pairs@[k2 as int]));
                }
                return None;
            }
            f.diagonals.set(iid, Some(j));
            proof {
                assert(diag_pairs@.take((k2 + 1) as int).drop_last() =~= diag_pairs@.take(k2 as int));
                assert(diag_pairs@.take((k2 + 1) as int).last() == diag_pairs@[k2 as int]);
                lemma_apply_saved_step(
                    Seq::new(m.n_intersections() as nat, |i: int| None::<u64>),
                    diag_pairs@.take((k2 + 1) as int),
                );
            }
            k2 = k2 + 1;
        }
        proof {
            assert(diag_pairs@.take(ndp as int) =~= diag_pairs@);
        }
        Some(f)
    }
}


/// Copies a filter column, entry for entry.
fn copy_entries(v: &Vec<Option<u64>>) -> (r: Vec<Option<u64>>)
    ensures
        r@ == v@,
{
    let n = v.len();
    let mut out: Vec<Option<u64>> = Vec::new();
    let mut k: usize = 0;
    while k < n
        invariant
            n == v@.len(),
            k <= n,
            out@ == v@.take(k as int),
        decreases n - k,
    {
        out.push(v[k]);
        proof {
            assert(out@ =~= v@.take((k + 1) as int));
        }
        k = k + 1;
    }
    proof {
        assert(v@.take(n as int) =~= v@);
    }
    out
}

/// One saved road entry resolves in the network with a distance
/// strictly inside the road.
pub open spec fn sp_road_pair_ok(m: RoadNetwork, p: (usize, u64)) -> bool {
    p.0 < m.n_roads() && 0 < p.1 < m.road_len(p.0 as int)
}

/// Every saved road entry is acceptable.
pub open spec fn sp_road_pairs_ok(m: RoadNetwork, ps: Seq<(usize, u64)>) -> bool {
    forall|k: int| 0 <= k < ps.len() ==> sp_road_pair_ok(m, #[trigger] ps[k])
}

/// One saved diagonal entry resolves to an intersection that supports
/// that alternative.
pub open spec fn sp_diag_pair_ok(m: RoadNetwork, p: (usize, u64)) -> bool {
    p.0 < m.n_intersections() && m.intersections@[p.0 as int].roads@.len() >= 4
        && p.1 + 1 < m.intersections@[p.0 as int].roads@.len()
}

/// Every saved diagonal entry is acceptable.
pub open spec fn sp_diag_pairs_ok(m: RoadNetwork, ps: Seq<(usize, u64)>) -> bool {
    forall|k: int| 0 <= k < ps.len() ==> sp_diag_pair_ok(m, #[trigger] ps[k])
}

/// The `(index, value)` pairs of the set entries of `s`, from index
/// `k` on, in ascending index order.
pub open spec fn sp_saved_from(s: Seq<Option<u64>>, k: int) -> Seq<(usize, u64)>
    decreases s.len() - k,
{
    if k < 0 || k >= s.len() {
        Seq::empty()
    } else {
        match s[k] {
            Some(d) => seq![(k as usize, d)] + sp_saved_from(s, k + 1),
            None => sp_saved_from(s, k + 1),
        }
    }
}

/// Replays saved pairs over a base state, last write winning.
pub open spec fn sp_apply_saved(base: Seq<Option<u64>>, ps: Seq<(usize, u64)>) -> Seq<Option<u64>>
    decreases ps.len(),
{
    if ps.len() == 0 {
        base
    } else {
        sp_apply_saved(base, ps.drop_last()).update(ps.last().0 as int, Some(ps.last().1))
    }
}

proof fn lemma_apply_saved_step(base: Seq<Option<u64>>, ps: Seq<(usize, u64)>)
    requires
        ps.len() >= 1,
    ensures
        sp_apply_saved(base, ps) == sp_apply_saved(base, ps.drop_last()).update(
            ps.last().0 as int,
            Some(ps.last().1),
        ),
{
}

/// Collects the set entries of `v` as saved pairs.
fn save_entries(v: &Vec<Option<u64>>) -> (r: Vec<(usize, u64)>)
    ensures
        r@ == sp_saved_from(v@, 0),
{
    let n = v.len();
    let mut out: Vec<(usize, u64)> = Vec::new();
    let mut k: usize = 0;
    while k < n
        invariant
            n == v@.len(),
            k <= n,
            sp_saved_from(v@, 0) == out@ + sp_saved_from(v@, k as int),
        decreases n - k,
    {
        let ghost out0 = out@;
        match v[k] {
            Some(d) => {
                out.push((k, d));
                proof {
                    assert(sp_saved_from(v@, k as int) == seq![(k, d)] + sp_saved_from(
                        v@,
                        (k + 1) as int,
                    ));
                    assert(out0 + (seq![(k, d)] + sp_saved_from(v@, (k + 1) as int)) =~= out@
                        + sp_saved_from(v@, (k + 1) as int));
                }
            },
            None => {
                proof {
                    assert(sp_saved_from(v@, k as int) == sp_saved_from(v@, (k + 1) as int));
                }
            },
        }
        k = k + 1;
    }
    proof {
        assert(sp_saved_from(v@, n as int) =~= Seq::<(usize, u64)>::empty());
        assert(out@ + Seq::<(usize, u64)>::empty() =~= out@);
    }
    out
}


/// One mutation of the road filter map: a placement or a removal.
#[derive(Clone, Copy, Debug, PartialEq, Eq, Structural)]
pub enum FilterOp {
    Place(usize, u64),
    Remove(usize),
}

/// The road a mutation touches.
pub open spec fn sp_op_road(op: FilterOp) -> usize {
    match op {
        FilterOp::Place(r, _) => r,
        FilterOp::Remove(r) => r,
    }
}

/// The entry a mutation leaves on its road.
pub open spec fn sp_op_value(op: FilterOp) -> Option<u64> {
    match op {
        FilterOp::Place(_, d) => Some(d),
        FilterOp::Remove(_) => None,
    }
}

/// Replays a sequence of mutations over the road filter map, first to
/// last: exactly what a run of `place_filter` and `remove_filter`
/// calls does to the map, by their contracts.
pub open spec fn sp_apply_ops(s: Seq<Option<u64>>, ops: Seq<FilterOp>) -> Seq<Option<u64>>
    decreases ops.len(),
{
    if ops.len() == 0 {
        s
    } else {
        sp_apply_ops(s, ops.drop_last()).update(
            sp_op_road(ops.last()) as int,
            sp_op_value(ops.last()),
        )
    }
}

/// The index of the last mutation that touches road `r`; `-1` if none.
pub open spec fn sp_last_op_on(ops: Seq<FilterOp>, r: int) -> int
    decreases ops.len(),
{
    if ops.len() == 0 {
        -1
    } else if sp_op_road(ops.last()) == r {
        ops.len() - 1
    } else {
        sp_last_op_on(ops.drop_last(), r)
    }
}

/// Law: replaying any sequence of placements and removals leaves each
/// road with exactly the net effect — the value of the last mutation
/// that touched it — and roads no mutation touched keep their entry.
/// Wrapping each mutation in its own transaction changes nothing:
/// `before_edit` and `after_edit` leave the filter map untouched.
pub proof fn lemma_replay_is_net_effect(s: Seq<Option<u64>>, ops: Seq<FilterOp>, r: int)
    requires
        0 <= r < s.len(),
        forall|k: int| 0 <= k < ops.len() ==> sp_op_road(#[trigger] ops[k]) < s.len(),
    ensures
        sp_last_op_on(ops, r) >= 0 ==> sp_apply_ops(s, ops)[r] == sp_op_value(
            ops[sp_last_op_on(ops, r)],
        ),
        sp_last_op_on(ops, r) == -1 ==> sp_apply_ops(s, ops)[r] == s[r],
    decreases ops.len(),
{
    if ops.len() > 0 {
        assert(ops[ops.len() - 1] == ops.last());
        lemma_replay_is_net_effect(s, ops.drop_last(), r);
        lemma_last_op_bound(ops.drop_last(), r);
        assert forall|k: int| 0 <= k < ops.len() - 1 implies #[trigger] ops.drop_last()[k]
            == ops[k] by {}
        lemma_apply_ops_len(s, ops.drop_last());
        if sp_op_road(ops.last()) != r && sp_last_op_on(ops.drop_last(), r) >= 0 {
            let lst = sp_last_op_on(ops.drop_last(), r);
            assert(ops.drop_last()[lst] == ops[lst]);
        }
    }
}

proof fn lemma_last_op_bound(ops: Seq<FilterOp>, r: int)
    ensures
        sp_last_op_on(ops, r) < ops.len(),
    decreases ops.len(),
{
    if ops.len() > 0 {
        lemma_last_op_bound(ops.drop_last(), r);
    }
}

proof fn lemma_apply_ops_len(s: Seq<Option<u64>>, ops: Seq<FilterOp>)
    requires
        forall|k: int| 0 <= k < ops.len() ==> sp_op_road(#[trigger] ops[k]) < s.len(),
    ensures
        sp_apply_ops(s, ops).len() == s.len(),
    decreases ops.len(),
{
    if ops.len() > 0 {
        assert(ops[ops.len() - 1] == ops.last());
        assert forall|k: int| 0 <= k < ops.len() - 1 implies #[trigger] ops.drop_last()[k]
            == ops[k] by {}
        lemma_apply_ops_len(s, ops.drop_last());
    }
}

/// Law: wrapping any number of placements and removals in edit
/// transactions, only the net effect on the filter map remains; in
/// particular removing a road's filter and then placing one on the
/// same road leaves exactly the state that the placement alone leaves.
pub proof fn lemma_remove_then_place_is_place(s: Seq<Option<u64>>, r: int, d: u64)
    requires
        0 <= r < s.len(),
    ensures
        s.update(r, None).update(r, Some(d)) == s.update(r, Some(d)),
{
    assert(s.update(r, None).update(r, Some(d)) =~= s.update(r, Some(d)));
}

/// Law: placing a filter on an already-filtered road replaces the old
/// closure; the earlier placement leaves no trace.
pub proof fn lemma_place_replaces(s: Seq<Option<u64>>, r: int, d1: u64, d2: u64)
    requires
        0 <= r < s.len(),
    ensures
        s.update(r, Some(d1)).update(r, Some(d2)) == s.update(r, Some(d2)),
{
    assert(s.update(r, Some(d1)).update(r, Some(d2)) =~= s.update(r, Some(d2)));
}

/// Law: at a four-way intersection, cycling the diagonal filter four
/// times returns to the configuration it started from; starting
/// unrestricted, it ends unrestricted.
pub proof fn lemma_diagonal_cycle_closes(cur: Option<u64>)
    requires
        cur matches Some(j) ==> j < 3,
    ensures
        sp_cycle_times(4, cur, 4) == cur,
{
    reveal_with_fuel(sp_cycle_times, 5);
}

/// Law: the saved form reloads to exactly the state that was saved.
/// Replaying the saved pairs of `s` over the empty state rebuilds `s`.
pub proof fn lemma_saved_round_trip(s: Seq<Option<u64>>)
    requires
        s.len() <= usize::MAX,
    ensures
        sp_apply_saved(Seq::new(s.len(), |k: int| None::<u64>), sp_saved_from(s, 0)) == s,
{
    lemma_saved_round_trip_from(s, Seq::new(s.len(), |k: int| None::<u64>), 0);
}

proof fn lemma_saved_round_trip_from(s: Seq<Option<u64>>, base: Seq<Option<u64>>, k: int)
    requires
        s.len() <= usize::MAX,
        0 <= k <= s.len(),
        base.len() == s.len(),
        forall|j: int| k <= j < s.len() ==> base[j] is None,
        forall|j: int| 0 <= j < k ==> base[j] == s[j],
    ensures
        sp_apply_saved(base, sp_saved_from(s, k)) == s,
    decreases s.len() - k,
{
    if k >= s.len() {
        assert(sp_saved_from(s, k) == Seq::<(usize, u64)>::empty());
        assert(sp_apply_saved(base, Seq::<(usize, u64)>::empty()) == base);
        assert(base =~= s);
    } else {
        match s[k] {
            Some(d) => {
                let base2 = base.update(k, Some(d));
                lemma_saved_round_trip_from(s, base2, k + 1);
                let pre = seq![(k as usize, d)];
                let rest = sp_saved_from(s, k + 1);
                assert(sp_saved_from(s, k) == pre + rest);
                lemma_apply_prefix_single(base, (k as usize, d), rest);
                assert((k as usize) as int == k);
                assert(sp_apply_saved(base, sp_saved_from(s, k)) == sp_apply_saved(base2, rest));
            },
            None => {
                lemma_saved_round_trip_from(s, base, k + 1);
            },
        }
    }
}

proof fn lemma_apply_prefix_single(
    base: Seq<Option<u64>>,
    p: (usize, u64),
    rest: Seq<(usize, u64)>,
)
    ensures
        sp_apply_saved(base, seq![p] + rest) == sp_apply_saved(
            base.update(p.0 as int, Some(p.1)),
            rest,
        ),
    decreases rest.len(),
{
    if rest.len() == 0 {
        assert(seq![p] + rest =~= seq![p]);
        assert(sp_apply_saved(base, seq![p]) == sp_apply_saved(base, seq![p].drop_last()).update(
            p.0 as int,
            Some(p.1),
        ));
        assert(seq![p].drop_last() =~= Seq::<(usize, u64)>::empty());
    } else {
        let whole = seq![p] + rest;
        assert(whole.last() == rest.last());
        assert(whole.drop_last() =~= seq![p] + rest.drop_last());
        lemma_apply_prefix_single(base, p, rest.drop_last());
    }
}

} // verus!
