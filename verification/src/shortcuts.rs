//! Shortcut detection: for every ordered pair of perimeter roads of a
//! neighborhood, the pathfinder is invoked restricted to that
//! neighborhood, and a found route that crosses the interior is a
//! shortcut. Results come in ascending entry-then-exit road order, and
//! the whole result is pinned to a pure function of the inputs, so
//! repeated runs on unchanged state browse identically.

use vstd::prelude::*;

use crate::filters::ModalFilters;
use crate::neighborhood::Neighborhood;
use crate::network::RoadNetwork;
use crate::pathfind::{
    find_path, lemma_find_path_sound, lemma_path_valid_congr, lemma_pathfinding_deterministic,
    sp_equal_inputs, sp_find_path, sp_path_valid, PathRequest, TravelProfile,
};

verus! {

/// A detected through-route: it enters at perimeter road `entry`,
/// leaves at perimeter road `exit`, and `path` is the turn sequence.
#[derive(Clone, Debug)]
pub struct Shortcut {
    pub entry: usize,
    pub exit: usize,
    pub path: Vec<usize>,
}

/// The request detection issues for one lane pair: driving profile,
/// restricted to the neighborhood.
pub open spec fn sp_sc_request(nb: Neighborhood, la: usize, lb: usize) -> PathRequest {
    PathRequest {
        start: la,
        goal: lb,
        profile: TravelProfile { driving: true, biking: false, walking: false, bus: false },
        restrict: Some(nb),
    }
}

/// The path traverses at least one interior road of the neighborhood.
pub open spec fn sp_uses_interior(m: RoadNetwork, nb: Neighborhood, p: Seq<usize>) -> bool {
    exists|k: int|
        0 <= k < p.len() && nb.is_interior_road(
            m.lanes@[m.turns@[#[trigger] p[k] as int].dst_lane as int].road,
        )
}

/// The route found for exit road `x` from start lane `la`, trying goal
/// lanes from `lb` up in identity order.
pub open spec fn sp_pair_from_lb(
    m: RoadNetwork,
    f: ModalFilters,
    nb: Neighborhood,
    x: usize,
    la: usize,
    lb: int,
) -> Option<Seq<usize>>
    decreases m.n_lanes() - lb,
{
    if lb < 0 || lb >= m.n_lanes() {
        None
    } else if m.lanes@[lb].road == x {
        match sp_find_path(m, f, sp_sc_request(nb, la, lb as usize)) {
            Some(p) => if sp_uses_interior(m, nb, p) {
                Some(p)
            } else {
                sp_pair_from_lb(m, f, nb, x, la, lb + 1)
            },
            None => sp_pair_from_lb(m, f, nb, x, la, lb + 1),
        }
    } else {
        sp_pair_from_lb(m, f, nb, x, la, lb + 1)
    }
}

/// The route found for the road pair `(e, x)`, trying start lanes from
/// `la` up in identity order.
pub open spec fn sp_pair_from_la(
    m: RoadNetwork,
    f: ModalFilters,
    nb: Neighborhood,
    e: usize,
    x: usize,
    la: int,
) -> Option<Seq<usize>>
    decreases m.n_lanes() - la,
{
    if la < 0 || la >= m.n_lanes() {
        None
    } else if m.lanes@[la].road == e {
        match sp_pair_from_lb(m, f, nb, x, la as usize, 0) {
            Some(p) => Some(p),
            None => sp_pair_from_la(m, f, nb, e, x, la + 1),
        }
    } else {
        sp_pair_from_la(m, f, nb, e, x, la + 1)
    }
}

/// The shortcuts for entry road `e`, over exit roads from `x` up.
pub open spec fn sp_entry_from(
    m: RoadNetwork,
    f: ModalFilters,
    nb: Neighborhood,
    e: usize,
    x: int,
) -> Seq<(usize, usize, Seq<usize>)>
    decreases m.n_roads() - x,
{
    if x < 0 || x >= m.n_roads() {
        Seq::empty()
    } else {
        let rest = sp_entry_from(m, f, nb, e, x + 1);
        if x != e && nb.is_perimeter_road(x as usize) {
            match sp_pair_from_la(m, f, nb, e, x as usize, 0) {
                Some(p) => seq![(e, x as usize, p)] + rest,
                None => rest,
            }
        } else {
            rest
        }
    }
}

/// All shortcuts, over entry roads from `e` up.
pub open spec fn sp_detect_from(
    m: RoadNetwork,
    f: ModalFilters,
    nb: Neighborhood,
    e: int,
) -> Seq<(usize, usize, Seq<usize>)>
    decreases m.n_roads() - e,
{
    if e < 0 || e >= m.n_roads() {
        Seq::empty()
    } else {
        let rest = sp_detect_from(m, f, nb, e + 1);
        if nb.is_perimeter_road(e as usize) {
            sp_entry_from(m, f, nb, e as usize, 0) + rest
        } else {
            rest
        }
    }
}

/// The full detection result: a pure function of the network, the
/// filter state and the neighborhood.
pub open spec fn sp_detect(m: RoadNetwork, f: ModalFilters, nb: Neighborhood) -> Seq<
    (usize, usize, Seq<usize>),
> {
    sp_detect_from(m, f, nb, 0)
}

/// What every reported shortcut satisfies: its ends are two distinct
/// perimeter roads, its path crosses the interior, and its path is a
/// usable chain for some lane pair on those roads under the current
/// filter state.
pub open spec fn sp_shortcut_ok(
    m: RoadNetwork,
    f: ModalFilters,
    nb: Neighborhood,
    s: (usize, usize, Seq<usize>),
) -> bool {
    &&& nb.is_perimeter_road(s.0)
    &&& nb.is_perimeter_road(s.1)
    &&& s.0 != s.1
    &&& sp_uses_interior(m, nb, s.2)
    &&& (forall|k: int| 0 <= k < s.2.len() ==> (#[trigger] s.2[k]) < m.n_turns())
    &&& exists|la: usize, lb: usize|
        la < m.n_lanes() && lb < m.n_lanes() && m.lanes@[la as int].road == s.0
            && m.lanes@[lb as int].road == s.1 && sp_path_valid(
            m,
            f,
            #[trigger] sp_sc_request(nb, la, lb),
            s.2,
        )
}

/// The view of a shortcut list as entry, exit and path contents.
pub open spec fn sp_shortcut_views(s: Seq<Shortcut>) -> Seq<(usize, usize, Seq<usize>)> {
    Seq::new(s.len(), |k: int| (s[k].entry, s[k].exit, s[k].path@))
}

/// Decides whether the path crosses the neighborhood's interior.
fn uses_interior_exec(m: &RoadNetwork, nb: &Neighborhood, p: &Vec<usize>) -> (b: bool)
    requires
        m.valid(),
        forall|k: int| 0 <= k < p@.len() ==> (#[trigger] p@[k]) < m.n_turns(),
    ensures
        b == sp_uses_interior(*m, *nb, p@),
{
    let n = p.len();
    let mut k: usize = 0;
    while k < n
        invariant
            m.valid(),
            n == p@.len(),
            k <= n,
            forall|j: int| 0 <= j < p@.len() ==> (#[trigger] p@[j]) < m.n_turns(),
            forall|j: int|
                0 <= j < k ==> !nb.is_interior_road(
                    m.lanes@[m.turns@[#[trigger] p@[j] as int].dst_lane as int].road,
                ),
        decreases n - k,
    {
        let t = p[k];
        proof {
            assert(m.turn_ok(t as int));
        }
        if nb.interior_road_exec(m.lanes[m.turns[t].dst_lane].road) {
            return true;
        }
        k = k + 1;
    }
    false
}

/// Tries goal lanes on exit road `x` in identity order for start lane
/// `la`.
fn pair_inner(
    m: &RoadNetwork,
    f: &ModalFilters,
    nb: &Neighborhood,
    x: usize,
    la: usize,
) -> (r: Option<Vec<usize>>)
    requires
        m.valid(),
        f.wf(*m),
    ensures
        match r {
            Some(p) => sp_pair_from_lb(*m, *f, *nb, x, la, 0) == Some(p@) && sp_uses_interior(
                *m,
                *nb,
                p@,
            ) && (forall|k: int| 0 <= k < p@.len() ==> (#[trigger] p@[k]) < m.n_turns()) && (
            exists|lb: usize|
                lb < m.n_lanes() && m.lanes@[lb as int].road == x && sp_path_valid(
                    *m,
                    *f,
                    #[trigger] sp_sc_request(*nb, la, lb),
                    p@,
                )),
            None => sp_pair_from_lb(*m, *f, *nb, x, la, 0) is None,
        },
{
    let nl = m.lanes.len();
    let mut lb: usize = 0;
    while lb < nl
        invariant
            m.valid(),
            f.wf(*m),
            nl == m.n_lanes(),
            lb <= nl,
            sp_pair_from_lb(*m, *f, *nb, x, la, 0) == sp_pair_from_lb(*m, *f, *nb, x, la, lb as int),
        decreases nl - lb,
    {
        if m.lanes[lb].road == x {
            let req = PathRequest {
                start: la,
                goal: lb,
                profile: TravelProfile::for_driving(),
                restrict: Some(nb.duplicate()),
            };
            proof {
                assert(sp_equal_inputs(*f, *f, sp_sc_request(*nb, la, lb), req));
                lemma_pathfinding_deterministic(*m, *f, *f, sp_sc_request(*nb, la, lb), req);
            }
            match find_path(m, f, &req) {
                Some(p) => {
                    proof {
                        assert(forall|k: int|
                            0 <= k < p@.len() ==> (#[trigger] p@[k]) < m.n_turns()) by {
                            assert(sp_path_valid(*m, *f, req, p@));
                        }
                    }
                    if uses_interior_exec(m, nb, &p) {
                        proof {
                            lemma_path_valid_congr(
                                *m,
                                *f,
                                *f,
                                req,
                                sp_sc_request(*nb, la, lb),
                                p@,
                            );
                        }
                        return Some(p);
                    }
                },
                None => {},
            }
        }
        lb = lb + 1;
    }
    None
}

/// Tries start lanes on entry road `e` in identity order.
fn pair_shortcut(
    m: &RoadNetwork,
    f: &ModalFilters,
    nb: &Neighborhood,
    e: usize,
    x: usize,
) -> (r: Option<Vec<usize>>)
    requires
        m.valid(),
        f.wf(*m),
    ensures
        match r {
            Some(p) => sp_pair_from_la(*m, *f, *nb, e, x, 0) == Some(p@) && sp_uses_interior(
                *m,
                *nb,
                p@,
            ) && (forall|k: int| 0 <= k < p@.len() ==> (#[trigger] p@[k]) < m.n_turns()) && (
            exists|la: usize, lb: usize|
                la < m.n_lanes() && lb < m.n_lanes() && m.lanes@[la as int].road == e
                    && m.lanes@[lb as int].road == x && sp_path_valid(
                    *m,
                    *f,
                    #[trigger] sp_sc_request(*nb, la, lb),
                    p@,
                )),
            None => sp_pair_from_la(*m, *f, *nb, e, x, 0) is None,
        },
{
    let nl = m.lanes.len();
    let mut la: usize = 0;
    while la < nl
        invariant
            m.valid(),
            f.wf(*m),
            nl == m.n_lanes(),
            la <= nl,
            sp_pair_from_la(*m, *f, *nb, e, x, 0) == sp_pair_from_la(*m, *f, *nb, e, x, la as int),
        decreases nl - la,
    {
        if m.lanes[la].road == e {
            match pair_inner(m, f, nb, x, la) {
                Some(p) => {
                    return Some(p);
                },
                None => {},
            }
        }
        la = la + 1;
    }
    None
}

/// Runs shortcut detection for the neighborhood under the current
/// filter state. The result is pinned to `sp_detect`, ordered by
/// ascending entry-then-exit road identity, and every reported
/// shortcut satisfies `sp_shortcut_ok`: a through-route between two
/// distinct perimeter roads whose path crosses the interior.
#[verifier::loop_isolation(false)]
pub fn detect_shortcuts(m: &RoadNetwork, f: &ModalFilters, nb: &Neighborhood) -> (r: Vec<Shortcut>)
    requires
        m.valid(),
        f.wf(*m),
    ensures
        sp_shortcut_views(r@) == sp_detect(*m, *f, *nb),
        forall|k: int|
            0 <= k < r@.len() ==> sp_shortcut_ok(
                *m,
                *f,
                *nb,
                (#[trigger] r@[k].entry, r@[k].exit, r@[k].path@),
            ),
{
    let nr = m.roads.len();
    let mut out: Vec<Shortcut> = Vec::new();
    let mut e: usize = 0;
    while e < nr
        invariant
            sp_detect(*m, *f, *nb) == sp_shortcut_views(out@) + sp_detect_from(*m, *f, *nb, e as int),
            e <= nr,
            forall|k: int|
                0 <= k < out@.len() ==> sp_shortcut_ok(
                    *m,
                    *f,
                    *nb,
                    (#[trigger] out@[k].entry, out@[k].exit, out@[k].path@),
                ),
        decreases nr - e,
    {
        if nb.perimeter_road_exec(e) {
            let mut x: usize = 0;
            while x < nr
                invariant
                    nb.is_perimeter_road(e),
                    x <= nr,
                    e < nr,
                    sp_detect(*m, *f, *nb) == sp_shortcut_views(out@) + sp_entry_from(
                        *m,
                        *f,
                        *nb,
                        e,
                        x as int,
                    ) + sp_detect_from(*m, *f, *nb, e + 1),
                    forall|k: int|
                        0 <= k < out@.len() ==> sp_shortcut_ok(
                            *m,
                            *f,
                            *nb,
                            (#[trigger] out@[k].entry, out@[k].exit, out@[k].path@),
                        ),
                decreases nr - x,
            {
                if x != e && nb.perimeter_road_exec(x) {
                    match pair_shortcut(m, f, nb, e, x) {
                        Some(p) => {
                            let ghost out0 = out@;
                            let ghost pview = p@;
                            out.push(Shortcut { entry: e, exit: x, path: p });
                            proof {
                                assert(sp_shortcut_views(out@) =~= sp_shortcut_views(out0).push(
                                    (e, x, pview),
                                ));
                                assert(sp_shortcut_views(out0) + (seq![(e, x, pview)]
                                    + sp_entry_from(*m, *f, *nb, e, (x + 1) as int)) =~= (
                                sp_shortcut_views(out0).push((e, x, pview))) + sp_entry_from(
                                    *m,
                                    *f,
                                    *nb,
                                    e,
                                    (x + 1) as int,
                                ));
                                assert(sp_shortcut_ok(*m, *f, *nb, (e, x, pview)));
                            }
                        },
                        None => {},
                    }
                }
                x = x + 1;
            }
            proof {
                assert(sp_entry_from(*m, *f, *nb, e, nr as int) =~= Seq::<
                    (usize, usize, Seq<usize>),
                >::empty());
                assert(sp_shortcut_views(out@) + Seq::<(usize, usize, Seq<usize>)>::empty()
                    + sp_detect_from(*m, *f, *nb, e + 1) =~= sp_shortcut_views(out@)
                    + sp_detect_from(*m, *f, *nb, e + 1));
            }
        }
        e = e + 1;
    }
    proof {
        assert(sp_detect_from(*m, *f, *nb, nr as int) =~= Seq::<(usize, usize, Seq<usize>)>::empty());
        assert(sp_shortcut_views(out@) + Seq::<(usize, usize, Seq<usize>)>::empty()
            =~= sp_shortcut_views(out@));
    }
    out
}

proof fn lemma_pair_lb_congr(
    m: RoadNetwork,
    f1: ModalFilters,
    f2: ModalFilters,
    nb: Neighborhood,
    x: usize,
    la: usize,
    lb: int,
)
    requires
        f1.road_dists@ == f2.road_dists@,
        f1.diagonals@ == f2.diagonals@,
    ensures
        sp_pair_from_lb(m, f1, nb, x, la, lb) == sp_pair_from_lb(m, f2, nb, x, la, lb),
    decreases m.n_lanes() - lb,
{
    if 0 <= lb < m.n_lanes() {
        lemma_pair_lb_congr(m, f1, f2, nb, x, la, lb + 1);
        if m.lanes@[lb].road == x {
            assert(sp_equal_inputs(
                f1,
                f2,
                sp_sc_request(nb, la, lb as usize),
                sp_sc_request(nb, la, lb as usize),
            ));
            lemma_pathfinding_deterministic(
                m,
                f1,
                f2,
                sp_sc_request(nb, la, lb as usize),
                sp_sc_request(nb, la, lb as usize),
            );
        }
    }
}

proof fn lemma_pair_la_congr(
    m: RoadNetwork,
    f1: ModalFilters,
    f2: ModalFilters,
    nb: Neighborhood,
    e: usize,
    x: usize,
    la: int,
)
    requires
        f1.road_dists@ == f2.road_dists@,
        f1.diagonals@ == f2.diagonals@,
    ensures
        sp_pair_from_la(m, f1, nb, e, x, la) == sp_pair_from_la(m, f2, nb, e, x, la),
    decreases m.n_lanes() - la,
{
    if 0 <= la < m.n_lanes() {
        lemma_pair_la_congr(m, f1, f2, nb, e, x, la + 1);
        if m.lanes@[la].road == e {
            lemma_pair_lb_congr(m, f1, f2, nb, x, la as usize, 0);
        }
    }
}

proof fn lemma_entry_congr(
    m: RoadNetwork,
    f1: ModalFilters,
    f2: ModalFilters,
    nb: Neighborhood,
    e: usize,
    x: int,
)
    requires
        f1.road_dists@ == f2.road_dists@,
        f1.diagonals@ == f2.diagonals@,
    ensures
        sp_entry_from(m, f1, nb, e, x) == sp_entry_from(m, f2, nb, e, x),
    decreases m.n_roads() - x,
{
    if 0 <= x < m.n_roads() {
        lemma_entry_congr(m, f1, f2, nb, e, x + 1);
        if x != e && nb.is_perimeter_road(x as usize) {
            lemma_pair_la_congr(m, f1, f2, nb, e, x as usize, 0);
        }
    }
}

proof fn lemma_detect_congr(
    m: RoadNetwork,
    f1: ModalFilters,
    f2: ModalFilters,
    nb: Neighborhood,
    e: int,
)
    requires
        f1.road_dists@ == f2.road_dists@,
        f1.diagonals@ == f2.diagonals@,
    ensures
        sp_detect_from(m, f1, nb, e) == sp_detect_from(m, f2, nb, e),
    decreases m.n_roads() - e,
{
    if 0 <= e < m.n_roads() {
        lemma_detect_congr(m, f1, f2, nb, e + 1);
        if nb.is_perimeter_road(e as usize) {
            lemma_entry_congr(m, f1, f2, nb, e as usize, 0);
        }
    }
}

/// Reproducibility: detection depends on the filter contents alone.
/// Two filter states holding equal maps — for instance one saved and
/// reloaded against the same network — yield identical detection
/// results, as repeated runs on unchanged state do.
pub proof fn lemma_detection_reproducible(
    m: RoadNetwork,
    f1: ModalFilters,
    f2: ModalFilters,
    nb: Neighborhood,
)
    requires
        f1.road_dists@ == f2.road_dists@,
        f1.diagonals@ == f2.diagonals@,
    ensures
        sp_detect(m, f1, nb) == sp_detect(m, f2, nb),
{
    lemma_detect_congr(m, f1, f2, nb, 0);
}

/// A path that traverses a filtered interior road is never a usable
/// chain for a detection request: the filter blocks through travel,
/// and only the perimeter entry and exit roads are exempt.
pub proof fn lemma_filtered_road_blocks_path(
    m: RoadNetwork,
    f: ModalFilters,
    nb: Neighborhood,
    la: usize,
    lb: usize,
    p: Seq<usize>,
    k: int,
)
    requires
        m.valid(),
        nb.wf(m),
        la < m.n_lanes(),
        lb < m.n_lanes(),
        nb.is_perimeter_road(m.lanes@[la as int].road),
        nb.is_perimeter_road(m.lanes@[lb as int].road),
        0 <= k < p.len(),
        p[k] < m.n_turns(),
        nb.is_interior_road(m.lanes@[m.turns@[p[k] as int].dst_lane as int].road),
        f.road_dists@[m.lanes@[m.turns@[p[k] as int].dst_lane as int].road as int] is Some,
    ensures
        !sp_path_valid(m, f, sp_sc_request(nb, la, lb), p),
{
    let req = sp_sc_request(nb, la, lb);
    let r0 = m.lanes@[m.turns@[p[k] as int].dst_lane as int].road;
    assert(!nb.is_perimeter_road(r0));
    if sp_path_valid(m, f, req, p) {
        assert(crate::pathfind::sp_turn_usable(m, f, req, p[k] as int));
        assert(crate::pathfind::sp_lane_passable(
            m,
            f,
            req,
            m.turns@[p[k] as int].dst_lane as int,
        ));
        assert(false);
    }
}

/// Shortcut elimination: once every interior road on a detected
/// shortcut's path carries a filter, no detection run reports a
/// shortcut with that path again — every reported shortcut's path is
/// usable under the filters in force, and this one no longer is.
pub proof fn lemma_shortcut_eliminated(
    m: RoadNetwork,
    f2: ModalFilters,
    nb: Neighborhood,
    s: (usize, usize, Seq<usize>),
)
    requires
        m.valid(),
        nb.wf(m),
        sp_uses_interior(m, nb, s.2),
        forall|k: int| 0 <= k < s.2.len() ==> (#[trigger] s.2[k]) < m.n_turns(),
        forall|k: int|
            0 <= k < s.2.len() && nb.is_interior_road(
                m.lanes@[m.turns@[#[trigger] s.2[k] as int].dst_lane as int].road,
            ) ==> f2.road_dists@[m.lanes@[m.turns@[s.2[k] as int].dst_lane as int].road as int]
                is Some,
    ensures
        !sp_shortcut_ok(m, f2, nb, s),
{
    if sp_shortcut_ok(m, f2, nb, s) {
        let k = choose|k: int|
            0 <= k < s.2.len() && nb.is_interior_road(
                m.lanes@[m.turns@[#[trigger] s.2[k] as int].dst_lane as int].road,
            );
        let (la, lb) = choose|la: usize, lb: usize|
            la < m.n_lanes() && lb < m.n_lanes() && m.lanes@[la as int].road == s.0
                && m.lanes@[lb as int].road == s.1 && sp_path_valid(
                m,
                f2,
                #[trigger] sp_sc_request(nb, la, lb),
                s.2,
            );
        lemma_filtered_road_blocks_path(m, f2, nb, la, lb, s.2, k);
    }
}

} // verus!
