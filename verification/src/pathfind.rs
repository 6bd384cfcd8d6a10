//! Deterministic pathfinding over the turn graph. Costs are road
//! lengths; a road carrying a modal filter is impassable for through
//! travel (access on the start and goal roads themselves stays open),
//! and a diagonal filter removes the turns that cross its closure.
//! The search is a fixed-order relaxation whose result is a pure
//! function of the network, the filter state and the request, so
//! repeated queries on identical state return identical paths.

use vstd::prelude::*;

use crate::filters::ModalFilters;
use crate::neighborhood::Neighborhood;
use crate::network::{LaneType, RoadNetwork};

verus! {

/// Sentinel distance for an unreached lane.
pub const UNREACHED: u64 = 0xffff_ffff_ffff_ffff;

/// Which lane types a traveller may use. Parking lanes are never
/// traversable.
#[derive(Clone, Copy, Debug, PartialEq, Eq, Structural)]
pub struct TravelProfile {
    pub driving: bool,
    pub biking: bool,
    pub walking: bool,
    pub bus: bool,
}

impl TravelProfile {
    /// The profile admits lanes of type `lt`.
    pub open spec fn sp_allows(self, lt: LaneType) -> bool {
        match lt {
            LaneType::Driving => self.driving,
            LaneType::Biking => self.biking,
            LaneType::Walking => self.walking,
            LaneType::Bus => self.bus,
            LaneType::Parking => false,
        }
    }

    /// Decides admission for a lane type.
    pub fn allows(&self, lt: LaneType) -> (b: bool)
        ensures
            b == self.sp_allows(lt),
    {
        match lt {
            LaneType::Driving => self.driving,
            LaneType::Biking => self.biking,
            LaneType::Walking => self.walking,
            LaneType::Bus => self.bus,
            LaneType::Parking => false,
        }
    }

    /// The driving profile used for shortcut detection.
    pub fn for_driving() -> (p: TravelProfile)
        ensures
            p == (TravelProfile { driving: true, biking: false, walking: false, bus: false }),
    {
        TravelProfile { driving: true, biking: false, walking: false, bus: false }
    }
}

/// A pathfinding request: start lane, goal lane, travel profile, and
/// an optional restriction to one neighborhood's roads (its perimeter
/// plus its interior), used to confine a query to that cell.
#[derive(Clone, Debug)]
pub struct PathRequest {
    pub start: usize,
    pub goal: usize,
    pub profile: TravelProfile,
    pub restrict: Option<Neighborhood>,
}

/// Road `r` is admitted by the request's optional restriction: with a
/// neighborhood given, only its perimeter and interior roads are open.
pub open spec fn sp_road_allowed(req: PathRequest, r: int) -> bool {
    match req.restrict {
        None => true,
        Some(nb) => nb.is_perimeter_road(r as usize) || nb.is_interior_road(r as usize),
    }
}

/// Lane `l` may be traversed: its type suits the profile, its road is
/// admitted, and its road carries no modal filter — except that the
/// start and goal roads stay accessible up to the closure point.
pub open spec fn sp_lane_passable(
    m: RoadNetwork,
    f: ModalFilters,
    req: PathRequest,
    l: int,
) -> bool {
    let ln = m.lanes@[l];
    &&& req.profile.sp_allows(ln.lane_type)
    &&& sp_road_allowed(req, ln.road as int)
    &&& (ln.road == m.lanes@[req.start as int].road || ln.road == m.lanes@[req.goal as int].road
        || f.road_dists@[ln.road as int] is None)
}

/// First position of `x` in `s` at or after `k`; `-1` when absent.
pub open spec fn sp_first_pos(s: Seq<usize>, x: usize, k: int) -> int
    decreases s.len() - k,
{
    if k < 0 || k >= s.len() {
        -1
    } else if s[k] == x {
        k
    } else {
        sp_first_pos(s, x, k + 1)
    }
}

/// A diagonal filter at the turn's intersection removes the turn when
/// its source and destination roads lie on opposite sides of the
/// chosen closure: alternative `j` splits the angularly ordered
/// incident roads after position `j`.
pub open spec fn sp_turn_restricted(m: RoadNetwork, f: ModalFilters, t: int) -> bool {
    let tn = m.turns@[t];
    match f.diagonals@[tn.parent as int] {
        None => false,
        Some(j) => {
            let rs = m.intersections@[tn.parent as int].roads@;
            let ps = sp_first_pos(rs, m.lanes@[tn.src_lane as int].road, 0);
            let pd = sp_first_pos(rs, m.lanes@[tn.dst_lane as int].road, 0);
            (ps <= j) != (pd <= j)
        },
    }
}

/// Turn `t` may be taken under the current restrictions.
pub open spec fn sp_turn_usable(m: RoadNetwork, f: ModalFilters, req: PathRequest, t: int) -> bool {
    &&& 0 <= t < m.n_turns()
    &&& sp_lane_passable(m, f, req, m.turns@[t].src_lane as int)
    &&& sp_lane_passable(m, f, req, m.turns@[t].dst_lane as int)
    &&& !sp_turn_restricted(m, f, t)
}

/// The cost of taking turn `t`: the length of the road entered.
pub open spec fn sp_cost(m: RoadNetwork, t: int) -> u64 {
    m.road_len(m.lanes@[m.turns@[t].dst_lane as int].road as int)
}

/// The request resolves: both lanes exist and are themselves passable.
pub open spec fn sp_req_ok(m: RoadNetwork, f: ModalFilters, req: PathRequest) -> bool {
    &&& req.start < m.n_lanes()
    &&& req.goal < m.n_lanes()
    &&& sp_lane_passable(m, f, req, req.start as int)
    &&& sp_lane_passable(m, f, req, req.goal as int)
}

/// The initial search state: distance 0 at the start lane, unreached
/// everywhere else, no parents.
pub open spec fn sp_init(m: RoadNetwork, req: PathRequest) -> (Seq<u64>, Seq<Option<usize>>) {
    (
        Seq::new(m.n_lanes() as nat, |l: int| if l == req.start as int { 0u64 } else { UNREACHED }),
        Seq::new(m.n_lanes() as nat, |l: int| None::<usize>),
    )
}

/// One relaxation of turn `t`: improve the destination lane's distance
/// when the turn is usable and strictly better.
pub open spec fn sp_relax(
    m: RoadNetwork,
    f: ModalFilters,
    req: PathRequest,
    st: (Seq<u64>, Seq<Option<usize>>),
    t: int,
) -> (Seq<u64>, Seq<Option<usize>>) {
    if !sp_turn_usable(m, f, req, t) {
        st
    } else {
        let src = m.turns@[t].src_lane as int;
        let dst = m.turns@[t].dst_lane as int;
        let ds = st.0[src];
        let c = sp_cost(m, t);
        if ds < UNREACHED && c < UNREACHED - ds && ds + c < st.0[dst] {
            (st.0.update(dst, (ds + c) as u64), st.1.update(dst, Some(t as usize)))
        } else {
            st
        }
    }
}

/// Relaxations of turns `0 .. k`, in turn order.
pub open spec fn sp_relax_upto(
    m: RoadNetwork,
    f: ModalFilters,
    req: PathRequest,
    st: (Seq<u64>, Seq<Option<usize>>),
    k: int,
) -> (Seq<u64>, Seq<Option<usize>>)
    decreases k,
{
    if k <= 0 {
        st
    } else {
        sp_relax(m, f, req, sp_relax_upto(m, f, req, st, k - 1), k - 1)
    }
}

/// `n` full rounds of relaxation over every turn.
pub open spec fn sp_rounds(
    m: RoadNetwork,
    f: ModalFilters,
    req: PathRequest,
    st: (Seq<u64>, Seq<Option<usize>>),
    n: int,
) -> (Seq<u64>, Seq<Option<usize>>)
    decreases n,
{
    if n <= 0 {
        st
    } else {
        sp_relax_upto(m, f, req, sp_rounds(m, f, req, st, n - 1), m.n_turns())
    }
}

/// The final search state: one round per lane, in fixed order.
pub open spec fn sp_search(
    m: RoadNetwork,
    f: ModalFilters,
    req: PathRequest,
) -> (Seq<u64>, Seq<Option<usize>>) {
    sp_rounds(m, f, req, sp_init(m, req), m.n_lanes())
}

/// Walks parent pointers back from `cur` to the start lane, spending
/// one unit of `fuel` per step.
pub open spec fn sp_extract(
    m: RoadNetwork,
    st: (Seq<u64>, Seq<Option<usize>>),
    start: usize,
    cur: usize,
    fuel: nat,
) -> Option<Seq<usize>>
    decreases fuel,
{
    if cur == start {
        Some(Seq::empty())
    } else {
        match st.1[cur as int] {
            None => None,
            Some(t) => if fuel == 0 {
                None
            } else {
                match sp_extract(m, st, start, m.turns@[t as int].src_lane, (fuel - 1) as nat) {
                    None => None,
                    Some(p) => Some(p.push(t)),
                }
            },
        }
    }
}

/// The path the search returns: `None` exactly when the request does
/// not resolve or the goal lane stays unreached.
pub open spec fn sp_find_path(m: RoadNetwork, f: ModalFilters, req: PathRequest) -> Option<
    Seq<usize>,
> {
    if !sp_req_ok(m, f, req) {
        None
    } else if req.start == req.goal {
        Some(Seq::empty())
    } else {
        let st = sp_search(m, f, req);
        if st.0[req.goal as int] == UNREACHED {
            None
        } else {
            sp_extract(m, st, req.start, req.goal, st.0[req.goal as int] as nat)
        }
    }
}

/// `p` is a usable chain of turns from the start lane to lane `cur`.
pub open spec fn sp_chain_to(
    m: RoadNetwork,
    f: ModalFilters,
    req: PathRequest,
    p: Seq<usize>,
    cur: usize,
) -> bool {
    &&& (p.len() == 0 ==> cur == req.start)
    &&& (p.len() > 0 ==> {
        &&& m.turns@[p[0] as int].src_lane == req.start
        &&& m.turns@[p.last() as int].dst_lane == cur
        &&& (forall|k: int| 0 <= k < p.len() ==> sp_turn_usable(m, f, req, #[trigger] p[k] as int))
        &&& (forall|k: int|
            0 <= k && k + 1 < p.len()
                ==> m.turns@[#[trigger] p[k + 1] as int].src_lane == m.turns@[p[k] as int].dst_lane)
    })
}

/// `p` answers the request: a usable chain from start to goal, empty
/// only when start and goal coincide.
pub open spec fn sp_path_valid(
    m: RoadNetwork,
    f: ModalFilters,
    req: PathRequest,
    p: Seq<usize>,
) -> bool {
    &&& sp_req_ok(m, f, req)
    &&& sp_chain_to(m, f, req, p, req.goal)
}

/// Parent invariant at lane `l`: a reached lane other than the start
/// records a usable turn into it whose source is strictly closer.
pub open spec fn sp_parent_ok(
    m: RoadNetwork,
    f: ModalFilters,
    req: PathRequest,
    st: (Seq<u64>, Seq<Option<usize>>),
    l: int,
) -> bool {
    l == req.start as int || st.0[l] == UNREACHED || (match st.1[l] {
        Some(t) => {
            &&& t < m.n_turns()
            &&& sp_turn_usable(m, f, req, t as int)
            &&& m.turns@[t as int].dst_lane == l
            &&& st.0[m.turns@[t as int].src_lane as int] + sp_cost(m, t as int) <= st.0[l]
            &&& st.0[m.turns@[t as int].src_lane as int] < UNREACHED
        },
        None => false,
    })
}

/// The search-state invariant maintained by every relaxation.
pub open spec fn sp_state_inv(
    m: RoadNetwork,
    f: ModalFilters,
    req: PathRequest,
    st: (Seq<u64>, Seq<Option<usize>>),
) -> bool {
    &&& st.0.len() == m.n_lanes()
    &&& st.1.len() == m.n_lanes()
    &&& req.start < m.n_lanes()
    &&& st.0[req.start as int] == 0
    &&& (forall|l: int| 0 <= l < m.n_lanes() ==> #[trigger] sp_parent_ok(m, f, req, st, l))
    &&& (forall|l: int|
        0 <= l < m.n_lanes() ==> (#[trigger] st.1[l] matches Some(t) ==> t < m.n_turns()))
}

/// Every road is at least two units long, so every turn has positive
/// cost.
pub proof fn lemma_cost_positive(m: RoadNetwork, t: int)
    requires
        m.valid(),
        0 <= t < m.n_turns(),
    ensures
        2 <= sp_cost(m, t) <= crate::network::DIST_LIMIT,
{
    assert(m.turn_ok(t));
    let dl = m.turns@[t].dst_lane as int;
    assert(m.lane_ok(dl));
    let r = m.lanes@[dl].road as int;
    assert(m.road_ok(r));
}

proof fn lemma_relax_preserves(
    m: RoadNetwork,
    f: ModalFilters,
    req: PathRequest,
    st: (Seq<u64>, Seq<Option<usize>>),
    t: int,
)
    requires
        m.valid(),
        sp_state_inv(m, f, req, st),
    ensures
        sp_state_inv(m, f, req, sp_relax(m, f, req, st, t)),
        forall|l: int| 0 <= l < m.n_lanes() ==> sp_relax(m, f, req, st, t).0[l] <= #[trigger] st.0[l],
{
    let st2 = sp_relax(m, f, req, st, t);
    assert(m.turns.len() == m.turns@.len());
    if sp_turn_usable(m, f, req, t) {
        let src = m.turns@[t].src_lane as int;
        let dst = m.turns@[t].dst_lane as int;
        let ds = st.0[src];
        let c = sp_cost(m, t);
        if ds < UNREACHED && c < UNREACHED - ds && ds + c < st.0[dst] {
            lemma_cost_positive(m, t);
            assert(m.turn_ok(t));
            // the turn's endpoints differ: a turn from a lane onto itself
            // would need a lane that starts and ends at the same
            // intersection, which a road's two distinct endpoints forbid
            if src == dst {
                assert(m.lane_ok(src));
                assert(m.road_ok(m.lanes@[src].road as int));
                assert(false);
            }
            if dst == req.start as int {
                assert(st.0[dst] == 0);
                assert(false);
            }
            assert(m.turn_ok(t));
            assert(0 <= src < m.n_lanes());
            assert(0 <= dst < m.n_lanes());
            assert(st2.0 == st.0.update(dst, (ds + c) as u64));
            assert(st2.1 == st.1.update(dst, Some(t as usize)));
            assert((t as usize) as int == t);
            assert(st2.1[dst] == Some(t as usize));
            assert(sp_turn_usable(m, f, req, (t as usize) as int));
            assert(m.turns@[(t as usize) as int].dst_lane == dst);
            assert(st2.0[m.turns@[(t as usize) as int].src_lane as int] + sp_cost(
                m,
                (t as usize) as int,
            ) <= st2.0[dst]);
            assert(st2.0[m.turns@[(t as usize) as int].src_lane as int] < UNREACHED);
            assert(dst != req.start as int);
            assert(sp_parent_ok(m, f, req, st2, dst));
            assert forall|l: int| 0 <= l < m.n_lanes() implies #[trigger] sp_parent_ok(
                m,
                f,
                req,
                st2,
                l,
            ) by {
                assert(sp_parent_ok(m, f, req, st, l));
                if l == dst {
                    assert(st2.1[l] == Some(t as usize));
                    assert(st2.0[l] == ds + c);
                    assert(st2.0[src] == st.0[src]);
                } else {
                    assert(st2.0[l] == st.0[l]);
                    assert(st2.1[l] == st.1[l]);
                    if l != req.start as int && st2.0[l] < UNREACHED {
                        let pt = st.1[l]->Some_0;
                        assert(sp_turn_usable(m, f, req, pt as int));
                        assert(m.turn_ok(pt as int));
                        let psrc = m.turns@[pt as int].src_lane as int;
                        assert(0 <= psrc < m.n_lanes());
                        if psrc == dst {
                            assert(st2.0[psrc] <= st.0[psrc]);
                        } else {
                            assert(st2.0[psrc] == st.0[psrc]);
                        }
                    }
                }
            }
        }
    }
}

proof fn lemma_relax_upto_preserves(
    m: RoadNetwork,
    f: ModalFilters,
    req: PathRequest,
    st: (Seq<u64>, Seq<Option<usize>>),
    k: int,
)
    requires
        m.valid(),
        sp_state_inv(m, f, req, st),
    ensures
        sp_state_inv(m, f, req, sp_relax_upto(m, f, req, st, k)),
    decreases k,
{
    if k > 0 {
        lemma_relax_upto_preserves(m, f, req, st, k - 1);
        lemma_relax_preserves(m, f, req, sp_relax_upto(m, f, req, st, k - 1), k - 1);
    }
}

proof fn lemma_rounds_preserves(
    m: RoadNetwork,
    f: ModalFilters,
    req: PathRequest,
    st: (Seq<u64>, Seq<Option<usize>>),
    n: int,
)
    requires
        m.valid(),
        sp_state_inv(m, f, req, st),
    ensures
        sp_state_inv(m, f, req, sp_rounds(m, f, req, st, n)),
    decreases n,
{
    if n > 0 {
        lemma_rounds_preserves(m, f, req, st, n - 1);
        lemma_relax_upto_preserves(m, f, req, sp_rounds(m, f, req, st, n - 1), m.n_turns());
    }
}

/// The initial state satisfies the invariant.
proof fn lemma_init_inv(m: RoadNetwork, f: ModalFilters, req: PathRequest)
    requires
        m.valid(),
        req.start < m.n_lanes(),
    ensures
        sp_state_inv(m, f, req, sp_init(m, req)),
{
    let st = sp_init(m, req);
    assert forall|l: int| 0 <= l < m.n_lanes() implies #[trigger] sp_parent_ok(m, f, req, st, l) by {
        if l != req.start as int {
            assert(st.0[l] == UNREACHED);
        }
    }
}

/// Extraction succeeds from any reached lane given fuel at least its
/// distance, and yields a usable chain from the start.
proof fn lemma_extract_sound(
    m: RoadNetwork,
    f: ModalFilters,
    req: PathRequest,
    st: (Seq<u64>, Seq<Option<usize>>),
    cur: usize,
    fuel: nat,
)
    requires
        m.valid(),
        sp_state_inv(m, f, req, st),
        cur < m.n_lanes(),
        st.0[cur as int] < UNREACHED,
        fuel >= st.0[cur as int],
    ensures
        sp_extract(m, st, req.start, cur, fuel) matches Some(p) && sp_chain_to(m, f, req, p, cur)
            && sp_chain_cost(m, p) <= st.0[cur as int],
    decreases fuel,
{
    if cur == req.start {
        assert(sp_extract(m, st, req.start, cur, fuel) == Some(Seq::<usize>::empty()));
    } else {
        assert(sp_parent_ok(m, f, req, st, cur as int));
        let t = st.1[cur as int]->Some_0;
        assert(sp_turn_usable(m, f, req, t as int));
        assert(m.turn_ok(t as int));
        let src = m.turns@[t as int].src_lane;
        lemma_cost_positive(m, t as int);
        assert(st.0[src as int] + 2 <= st.0[cur as int]);
        assert(fuel >= 1);
        lemma_extract_sound(m, f, req, st, src, (fuel - 1) as nat);
        let p = sp_extract(m, st, req.start, src, (fuel - 1) as nat)->Some_0;
        assert(sp_extract(m, st, req.start, cur, fuel) == Some(p.push(t)));
        let q = p.push(t);
        assert(q.last() == t);
        assert(q.drop_last() =~= p);
        assert(sp_chain_cost(m, q) == sp_chain_cost(m, p) + sp_cost(m, t as int));
        assert(sp_chain_cost(m, q) <= st.0[cur as int]);
        assert forall|k: int| 0 <= k < q.len() implies sp_turn_usable(
            m,
            f,
            req,
            #[trigger] q[k] as int,
        ) by {
            if k < p.len() {
                assert(q[k] == p[k]);
            }
        }
        assert forall|k: int| 0 <= k && k + 1 < q.len() implies m.turns@[#[trigger] q[k
            + 1] as int].src_lane == m.turns@[q[k] as int].dst_lane by {
            if k + 1 < p.len() {
                assert(q[k] == p[k] && q[k + 1] == p[k + 1]);
            } else {
                assert(q[k + 1] == t);
                if p.len() > 0 {
                    assert(q[k] == p[p.len() - 1]);
                    assert(m.turns@[p.last() as int].dst_lane == src);
                }
            }
        }
        if p.len() == 0 {
            assert(src == req.start);
            assert(q[0] == t);
        }
    }
}

/// Soundness: whatever the search returns is a usable chain answering
/// the request.
pub proof fn lemma_find_path_sound(m: RoadNetwork, f: ModalFilters, req: PathRequest)
    requires
        m.valid(),
    ensures
        sp_find_path(m, f, req) matches Some(p) ==> sp_path_valid(m, f, req, p),
{
    if sp_req_ok(m, f, req) && req.start != req.goal {
        let st = sp_search(m, f, req);
        if st.0[req.goal as int] != UNREACHED {
            lemma_init_inv(m, f, req);
            lemma_rounds_preserves(m, f, req, sp_init(m, req), m.n_lanes());
            lemma_extract_sound(m, f, req, st, req.goal, st.0[req.goal as int] as nat);
        }
    }
}

/// The total cost of a chain of turns: the sum of its turn costs.
pub open spec fn sp_chain_cost(m: RoadNetwork, p: Seq<usize>) -> int
    decreases p.len(),
{
    if p.len() == 0 {
        0
    } else {
        sp_chain_cost(m, p.drop_last()) + sp_cost(m, p.last() as int)
    }
}

proof fn lemma_chain_cost_nonneg(m: RoadNetwork, p: Seq<usize>)
    ensures
        sp_chain_cost(m, p) >= 0,
    decreases p.len(),
{
    if p.len() > 0 {
        lemma_chain_cost_nonneg(m, p.drop_last());
    }
}

proof fn lemma_chain_cost_concat(m: RoadNetwork, a: Seq<usize>, b: Seq<usize>)
    ensures
        sp_chain_cost(m, a + b) == sp_chain_cost(m, a) + sp_chain_cost(m, b),
    decreases b.len(),
{
    if b.len() == 0 {
        assert(a + b =~= a);
    } else {
        assert((a + b).drop_last() =~= a + b.drop_last());
        assert((a + b).last() == b.last());
        lemma_chain_cost_concat(m, a, b.drop_last());
    }
}

proof fn lemma_relax_pointwise(
    m: RoadNetwork,
    f: ModalFilters,
    req: PathRequest,
    st: (Seq<u64>, Seq<Option<usize>>),
    t: int,
)
    requires
        m.valid(),
        st.0.len() == m.n_lanes(),
    ensures
        sp_relax(m, f, req, st, t).0.len() == st.0.len(),
        forall|l: int|
            0 <= l < st.0.len() ==> sp_relax(m, f, req, st, t).0[l] <= #[trigger] st.0[l],
{
    if sp_turn_usable(m, f, req, t) {
        assert(m.turn_ok(t));
    }
}

proof fn lemma_upto_pointwise(
    m: RoadNetwork,
    f: ModalFilters,
    req: PathRequest,
    st: (Seq<u64>, Seq<Option<usize>>),
    k: int,
)
    requires
        m.valid(),
        st.0.len() == m.n_lanes(),
    ensures
        sp_relax_upto(m, f, req, st, k).0.len() == st.0.len(),
        forall|l: int|
            0 <= l < st.0.len() ==> sp_relax_upto(m, f, req, st, k).0[l] <= #[trigger] st.0[l],
    decreases k,
{
    if k > 0 {
        lemma_upto_pointwise(m, f, req, st, k - 1);
        lemma_relax_pointwise(m, f, req, sp_relax_upto(m, f, req, st, k - 1), k - 1);
    }
}

proof fn lemma_rounds_pointwise(
    m: RoadNetwork,
    f: ModalFilters,
    req: PathRequest,
    st: (Seq<u64>, Seq<Option<usize>>),
    n: int,
)
    requires
        m.valid(),
        st.0.len() == m.n_lanes(),
    ensures
        sp_rounds(m, f, req, st, n).0.len() == st.0.len(),
        forall|l: int|
            0 <= l < st.0.len() ==> sp_rounds(m, f, req, st, n).0[l] <= #[trigger] st.0[l],
    decreases n,
{
    if n > 0 {
        lemma_rounds_pointwise(m, f, req, st, n - 1);
        lemma_upto_pointwise(m, f, req, sp_rounds(m, f, req, st, n - 1), m.n_turns());
    }
}

/// After a pass over the turns, the destination of any usable turn
/// sits no higher than its source's prior distance plus the turn cost.
proof fn lemma_upto_bound(
    m: RoadNetwork,
    f: ModalFilters,
    req: PathRequest,
    st: (Seq<u64>, Seq<Option<usize>>),
    t: int,
    k: int,
)
    requires
        m.valid(),
        st.0.len() == m.n_lanes(),
        sp_turn_usable(m, f, req, t),
        t < k,
    ensures
        sp_relax_upto(m, f, req, st, k).0[m.turns@[t].dst_lane as int] <= st.0[m.turns@[t].src_lane
            as int] + sp_cost(m, t),
    decreases k,
{
    let src = m.turns@[t].src_lane as int;
    let dst = m.turns@[t].dst_lane as int;
    let c = sp_cost(m, t);
    assert(m.turn_ok(t));
    if k == t + 1 {
        lemma_upto_pointwise(m, f, req, st, t);
        let st1 = sp_relax_upto(m, f, req, st, t);
        let st2 = sp_relax(m, f, req, st1, t);
        let ds1 = st1.0[src];
        assert(ds1 <= st.0[src]);
        if ds1 < UNREACHED && c < UNREACHED - ds1 && ds1 + c < st1.0[dst] {
            assert(st2.0[dst] == ds1 + c);
        } else {
            if ds1 >= UNREACHED {
                assert(st2.0[dst] <= UNREACHED);
            } else if c >= UNREACHED - ds1 {
                assert(st2.0[dst] <= UNREACHED);
                assert(st.0[src] + c >= ds1 + c >= UNREACHED);
            } else {
                assert(st2.0[dst] == st1.0[dst]);
                assert(st1.0[dst] <= ds1 + c);
            }
        }
    } else {
        lemma_upto_bound(m, f, req, st, t, k - 1);
        lemma_upto_pointwise(m, f, req, st, k - 1);
        lemma_relax_pointwise(m, f, req, sp_relax_upto(m, f, req, st, k - 1), k - 1);
    }
}

/// After at least as many passes as a usable chain has turns, the
/// chain's endpoint is reached at no more than the chain's cost.
proof fn lemma_chain_dist_bound(
    m: RoadNetwork,
    f: ModalFilters,
    req: PathRequest,
    p: Seq<usize>,
    cur: usize,
    k: int,
)
    requires
        m.valid(),
        req.start < m.n_lanes(),
        cur < m.n_lanes(),
        sp_chain_to(m, f, req, p, cur),
        p.len() <= k,
    ensures
        sp_rounds(m, f, req, sp_init(m, req), k).0[cur as int] <= sp_chain_cost(m, p),
    decreases p.len(),
{
    let init = sp_init(m, req);
    if p.len() == 0 {
        lemma_rounds_pointwise(m, f, req, init, k);
        assert(init.0[req.start as int] == 0);
    } else {
        let t = p.last();
        let pre = p.drop_last();
        assert(sp_turn_usable(m, f, req, p[p.len() - 1] as int));
        assert(m.turn_ok(t as int));
        let srcl = m.turns@[t as int].src_lane;
        assert(sp_chain_to(m, f, req, pre, srcl)) by {
            if pre.len() == 0 {
                assert(m.turns@[p[0] as int].src_lane == req.start);
            } else {
                assert(pre[0] == p[0]);
                assert(pre.last() == p[p.len() - 2]);
                let kx = p.len() - 2;
                assert(m.turns@[#[trigger] p[kx + 1] as int].src_lane == m.turns@[p[kx]
                    as int].dst_lane);
                assert(m.turns@[p[p.len() - 1] as int].src_lane == m.turns@[p[p.len()
                    - 2] as int].dst_lane);
                assert forall|kk: int| 0 <= kk < pre.len() implies sp_turn_usable(
                    m,
                    f,
                    req,
                    #[trigger] pre[kk] as int,
                ) by {
                    assert(pre[kk] == p[kk]);
                }
                assert forall|kk: int|
                    0 <= kk && kk + 1 < pre.len() implies m.turns@[#[trigger] pre[kk
                    + 1] as int].src_lane == m.turns@[pre[kk] as int].dst_lane by {
                    assert(pre[kk] == p[kk] && pre[kk + 1] == p[kk + 1]);
                }
            }
        }
        lemma_chain_dist_bound(m, f, req, pre, srcl, k - 1);
        lemma_rounds_pointwise(m, f, req, init, k - 1);
        lemma_upto_bound(m, f, req, sp_rounds(m, f, req, init, k - 1), t as int, m.n_turns());
        assert(m.turns@[t as int].dst_lane == cur);
    }
}

proof fn lemma_pigeonhole_lanes(s: Seq<usize>, n: int)
    requires
        n >= 0,
        s.len() > n,
        forall|k: int| 0 <= k < s.len() ==> (#[trigger] s[k]) < n,
    ensures
        exists|i: int, j: int| 0 <= i < j < s.len() && s[i] == s[j],
{
    if !(exists|i: int, j: int| 0 <= i < j < s.len() && s[i] == s[j]) {
        assert(s.no_duplicates());
        let f = |x: usize| x as int;
        assert(vstd::relations::injective(f)) by {
            assert forall|x: usize, y: usize| #[trigger] f(x) == #[trigger] f(y) implies x == y by {}
        }
        s.lemma_no_duplicates_injective(f);
        let si = s.map_values(f);
        si.unique_seq_to_set();
        vstd::set_lib::lemma_int_range(0, n);
        assert(si.to_set().subset_of(vstd::set_lib::set_int_range(0, n))) by {
            assert forall|x: int| si.to_set().contains(x) implies vstd::set_lib::set_int_range(
                0,
                n,
            ).contains(x) by {
                let k = choose|k: int| 0 <= k < si.len() && si[k] == x;
                assert(si[k] == s[k] as int);
            }
        }
        vstd::set_lib::lemma_len_subset(si.to_set(), vstd::set_lib::set_int_range(0, n));
        assert(false);
    }
}

/// Minimality: no usable chain answering the request costs less than
/// the path the search returns. The search's result is the lowest-cost
/// route under the restrictions in force.
#[verifier::rlimit(100)]
pub proof fn lemma_find_path_minimal(m: RoadNetwork, f: ModalFilters, req: PathRequest, q: Seq<
    usize,
>)
    requires
        m.valid(),
        sp_path_valid(m, f, req, q),
    ensures
        sp_find_path(m, f, req) matches Some(p) ==> sp_chain_cost(m, p) <= sp_chain_cost(m, q),
    decreases q.len(),
{
    if sp_find_path(m, f, req) is Some {
        let p = sp_find_path(m, f, req)->Some_0;
        if q.len() <= m.n_lanes() {
            if req.start == req.goal {
                assert(p =~= Seq::<usize>::empty());
                lemma_chain_cost_nonneg(m, q);
            } else {
                let st = sp_search(m, f, req);
                assert(st.0[req.goal as int] != UNREACHED);
                lemma_init_inv(m, f, req);
                lemma_rounds_preserves(m, f, req, sp_init(m, req), m.n_lanes());
                lemma_extract_sound(m, f, req, st, req.goal, st.0[req.goal as int] as nat);
                assert(sp_chain_cost(m, p) <= st.0[req.goal as int]);
                lemma_chain_dist_bound(m, f, req, q, req.goal, m.n_lanes());
            }
        } else {
            // a chain longer than the lane count revisits a lane; cut
            // the loop out and recurse on the shorter chain
            let lanes = Seq::new(q.len(), |k: int| m.turns@[q[k] as int].dst_lane);
            assert forall|k: int| 0 <= k < lanes.len() implies (#[trigger] lanes[k])
                < m.n_lanes() by {
                assert(sp_turn_usable(m, f, req, q[k] as int));
                assert(m.turn_ok(q[k] as int));
            }
            lemma_pigeonhole_lanes(lanes, m.n_lanes());
            let (i, j) = choose|i: int, j: int| 0 <= i < j < lanes.len() && lanes[i] == lanes[j];
            let part1 = q.subrange(0, i + 1);
            let part2 = q.subrange(i + 1, j + 1);
            let part3 = q.subrange(j + 1, q.len() as int);
            assert(q =~= part1 + part2 + part3);
            let q2 = part1 + part3;
            lemma_chain_cost_concat(m, part1 + part2, part3);
            lemma_chain_cost_concat(m, part1, part2);
            lemma_chain_cost_concat(m, part1, part3);
            lemma_chain_cost_nonneg(m, part2);
            assert(sp_chain_cost(m, q2) <= sp_chain_cost(m, q));
            assert(q2.len() < q.len());
            assert(sp_chain_to(m, f, req, q2, req.goal)) by {
                assert(q2.len() >= 1);
                assert(q2[0] == q[0]);
                assert forall|kk: int| 0 <= kk < q2.len() implies sp_turn_usable(
                    m,
                    f,
                    req,
                    #[trigger] q2[kk] as int,
                ) by {
                    if kk <= i {
                        assert(q2[kk] == q[kk]);
                    } else {
                        assert(q2[kk] == q[kk + (j - i)]);
                    }
                }
                assert forall|kk: int|
                    0 <= kk && kk + 1 < q2.len() implies m.turns@[#[trigger] q2[kk
                    + 1] as int].src_lane == m.turns@[q2[kk] as int].dst_lane by {
                    if kk + 1 <= i {
                        assert(q2[kk] == q[kk] && q2[kk + 1] == q[kk + 1]);
                        assert(m.turns@[#[trigger] q[kk + 1] as int].src_lane == m.turns@[q[kk]
                            as int].dst_lane);
                    } else if kk == i {
                        assert(q2[kk] == q[i]);
                        assert(q2[kk + 1] == part3[0]);
                        assert(part3[0] == q[j + 1]);
                        let kj = j;
                        assert(m.turns@[#[trigger] q[kj + 1] as int].src_lane == m.turns@[q[kj]
                            as int].dst_lane);
                        assert(lanes[i] == m.turns@[q[i] as int].dst_lane);
                        assert(lanes[j] == m.turns@[q[j] as int].dst_lane);
                        assert(lanes[i] == lanes[j]);
                    } else {
                        let k3 = kk + (j - i);
                        assert(q2[kk] == part3[kk - (i + 1)]);
                        assert(part3[kk - (i + 1)] == q[k3]);
                        assert(q2[kk + 1] == part3[kk + 1 - (i + 1)]);
                        assert(part3[kk + 1 - (i + 1)] == q[k3 + 1]);
                        assert(m.turns@[#[trigger] q[k3 + 1] as int].src_lane == m.turns@[q[k3]
                            as int].dst_lane);
                    }
                }
                if j + 1 < q.len() {
                    assert(q2.last() == q.last());
                } else {
                    assert(q2.last() == q[i]);
                    assert(lanes[i] == lanes[j]);
                    assert(m.turns@[q[j] as int].dst_lane == req.goal);
                }
            }
            lemma_find_path_minimal(m, f, req, q2);
        }
    }
}

/// Equal filter state and equal requests, compared by contents.
pub open spec fn sp_equal_inputs(
    f1: ModalFilters,
    f2: ModalFilters,
    req1: PathRequest,
    req2: PathRequest,
) -> bool {
    &&& f1.road_dists@ == f2.road_dists@
    &&& f1.diagonals@ == f2.diagonals@
    &&& req1.start == req2.start
    &&& req1.goal == req2.goal
    &&& req1.profile == req2.profile
    &&& (req1.restrict is None <==> req2.restrict is None)
    &&& (req1.restrict matches Some(nb1) ==> req2.restrict matches Some(nb2)
        && nb1.perimeter.roads@ == nb2.perimeter.roads@
        && nb1.interior_roads@ == nb2.interior_roads@)
}

proof fn lemma_relax_congr(
    m: RoadNetwork,
    f1: ModalFilters,
    f2: ModalFilters,
    req1: PathRequest,
    req2: PathRequest,
    st: (Seq<u64>, Seq<Option<usize>>),
    t: int,
)
    requires
        sp_equal_inputs(f1, f2, req1, req2),
    ensures
        sp_relax(m, f1, req1, st, t) == sp_relax(m, f2, req2, st, t),
{
    assert(sp_turn_restricted(m, f1, t) == sp_turn_restricted(m, f2, t));
    assert(sp_lane_passable(m, f1, req1, m.turns@[t].src_lane as int) == sp_lane_passable(
        m,
        f2,
        req2,
        m.turns@[t].src_lane as int,
    ));
    assert(sp_lane_passable(m, f1, req1, m.turns@[t].dst_lane as int) == sp_lane_passable(
        m,
        f2,
        req2,
        m.turns@[t].dst_lane as int,
    ));
}

proof fn lemma_relax_upto_congr(
    m: RoadNetwork,
    f1: ModalFilters,
    f2: ModalFilters,
    req1: PathRequest,
    req2: PathRequest,
    st: (Seq<u64>, Seq<Option<usize>>),
    k: int,
)
    requires
        sp_equal_inputs(f1, f2, req1, req2),
    ensures
        sp_relax_upto(m, f1, req1, st, k) == sp_relax_upto(m, f2, req2, st, k),
    decreases k,
{
    if k > 0 {
        lemma_relax_upto_congr(m, f1, f2, req1, req2, st, k - 1);
        lemma_relax_congr(m, f1, f2, req1, req2, sp_relax_upto(m, f1, req1, st, k - 1), k - 1);
    }
}

proof fn lemma_rounds_congr(
    m: RoadNetwork,
    f1: ModalFilters,
    f2: ModalFilters,
    req1: PathRequest,
    req2: PathRequest,
    st: (Seq<u64>, Seq<Option<usize>>),
    n: int,
)
    requires
        sp_equal_inputs(f1, f2, req1, req2),
    ensures
        sp_rounds(m, f1, req1, st, n) == sp_rounds(m, f2, req2, st, n),
    decreases n,
{
    if n > 0 {
        lemma_rounds_congr(m, f1, f2, req1, req2, st, n - 1);
        lemma_relax_upto_congr(
            m,
            f1,
            f2,
            req1,
            req2,
            sp_rounds(m, f1, req1, st, n - 1),
            m.n_turns(),
        );
    }
}

/// Determinism: the path found depends on the network, the filter
/// contents and the request contents alone. Two queries whose filter
/// maps and requests hold equal values return identical results, so
/// repeated queries on identical state return identical paths.
pub proof fn lemma_pathfinding_deterministic(
    m: RoadNetwork,
    f1: ModalFilters,
    f2: ModalFilters,
    req1: PathRequest,
    req2: PathRequest,
)
    requires
        sp_equal_inputs(f1, f2, req1, req2),
    ensures
        sp_find_path(m, f1, req1) == sp_find_path(m, f2, req2),
{
    assert(sp_lane_passable(m, f1, req1, req1.start as int) == sp_lane_passable(
        m,
        f2,
        req2,
        req2.start as int,
    ));
    assert(sp_lane_passable(m, f1, req1, req1.goal as int) == sp_lane_passable(
        m,
        f2,
        req2,
        req2.goal as int,
    ));
    assert(sp_req_ok(m, f1, req1) == sp_req_ok(m, f2, req2));
    if sp_req_ok(m, f1, req1) && req1.start != req1.goal {
        assert(sp_init(m, req1).0 =~= sp_init(m, req2).0);
        assert(sp_init(m, req1).1 =~= sp_init(m, req2).1);
        lemma_rounds_congr(m, f1, f2, req1, req2, sp_init(m, req1), m.n_lanes());
        assert(sp_search(m, f1, req1) == sp_search(m, f2, req2));
    }
}


/// Path validity depends only on the contents of the filter state and
/// the request.
pub proof fn lemma_path_valid_congr(
    m: RoadNetwork,
    f1: ModalFilters,
    f2: ModalFilters,
    req1: PathRequest,
    req2: PathRequest,
    p: Seq<usize>,
)
    requires
        sp_equal_inputs(f1, f2, req1, req2),
    ensures
        sp_path_valid(m, f1, req1, p) == sp_path_valid(m, f2, req2, p),
{
    assert(sp_lane_passable(m, f1, req1, req1.start as int) == sp_lane_passable(
        m,
        f2,
        req2,
        req2.start as int,
    ));
    assert(sp_lane_passable(m, f1, req1, req1.goal as int) == sp_lane_passable(
        m,
        f2,
        req2,
        req2.goal as int,
    ));
    assert forall|t: int| true implies sp_turn_usable(m, f1, req1, t) == sp_turn_usable(
        m,
        f2,
        req2,
        t,
    ) by {
        assert(sp_turn_restricted(m, f1, t) == sp_turn_restricted(m, f2, t));
        assert(sp_lane_passable(m, f1, req1, m.turns@[t].src_lane as int) == sp_lane_passable(
            m,
            f2,
            req2,
            m.turns@[t].src_lane as int,
        ));
        assert(sp_lane_passable(m, f1, req1, m.turns@[t].dst_lane as int) == sp_lane_passable(
            m,
            f2,
            req2,
            m.turns@[t].dst_lane as int,
        ));
    }
    assert(sp_chain_to(m, f1, req1, p, req1.goal) == sp_chain_to(m, f2, req2, p, req2.goal));
}

/// Decides road admission under the request's optional restriction.
fn road_allowed_exec(req: &PathRequest, r: usize) -> (b: bool)
    ensures
        b == sp_road_allowed(*req, r as int),
{
    match &req.restrict {
        None => true,
        Some(nb) => nb.perimeter_road_exec(r) || nb.interior_road_exec(r),
    }
}

/// Decides lane passability.
fn lane_passable_exec(m: &RoadNetwork, f: &ModalFilters, req: &PathRequest, l: usize) -> (b: bool)
    requires
        m.valid(),
        f.wf(*m),
        l < m.n_lanes(),
        req.start < m.n_lanes(),
        req.goal < m.n_lanes(),
    ensures
        b == sp_lane_passable(*m, *f, *req, l as int),
{
    let ln = &m.lanes[l];
    if !req.profile.allows(ln.lane_type) {
        return false;
    }
    if !road_allowed_exec(req, ln.road) {
        return false;
    }
    if ln.road == m.lanes[req.start].road || ln.road == m.lanes[req.goal].road {
        return true;
    }
    proof {
        assert(m.lane_ok(l as int));
    }
    f.road_dists[ln.road].is_none()
}

/// Finds the first position of `x` in `v`.
fn first_pos_exec(v: &Vec<usize>, x: usize) -> (r: Option<usize>)
    ensures
        match r {
            Some(k) => k as int == sp_first_pos(v@, x, 0),
            None => sp_first_pos(v@, x, 0) == -1,
        },
{
    let n = v.len();
    let mut k: usize = 0;
    while k < n
        invariant
            n == v@.len(),
            k <= n,
            sp_first_pos(v@, x, 0) == sp_first_pos(v@, x, k as int),
        decreases n - k,
    {
        if v[k] == x {
            return Some(k);
        }
        k = k + 1;
    }
    None
}

proof fn lemma_first_pos_miss(s: Seq<usize>, x: usize, k: int)
    requires
        0 <= k <= s.len(),
    ensures
        sp_first_pos(s, x, k) == -1 ==> (forall|j: int| k <= j < s.len() ==> s[j] != x),
    decreases s.len() - k,
{
    if k < s.len() {
        lemma_first_pos_miss(s, x, k + 1);
    }
}

/// Decides whether a diagonal filter removes turn `t`.
fn turn_restricted_exec(m: &RoadNetwork, f: &ModalFilters, t: usize) -> (b: bool)
    requires
        m.valid(),
        f.wf(*m),
        t < m.n_turns(),
    ensures
        b == sp_turn_restricted(*m, *f, t as int),
{
    let tn = &m.turns[t];
    proof {
        assert(m.turn_ok(t as int));
    }
    match f.diagonals[tn.parent] {
        None => false,
        Some(j) => {
            let it = &m.intersections[tn.parent];
            proof {
                assert(m.lane_ok(tn.src_lane as int));
                assert(m.lane_ok(tn.dst_lane as int));
            }
            let src_road = m.lanes[tn.src_lane].road;
            let dst_road = m.lanes[tn.dst_lane].road;
            proof {
                assert(m.road_ok(src_road as int));
                assert(m.road_ok(dst_road as int));
                assert(m.road_listed_at(src_road as int, tn.parent as int));
                assert(m.road_listed_at(dst_road as int, tn.parent as int));
                lemma_first_pos_miss(it.roads@, src_road, 0);
                lemma_first_pos_miss(it.roads@, dst_road, 0);
            }
            let ps = first_pos_exec(&it.roads, src_road);
            let pd = first_pos_exec(&it.roads, dst_road);
            match (ps, pd) {
                (Some(a), Some(b)) => (a as u64 <= j) != (b as u64 <= j),
                _ => {
                    proof {
                        assert(false);
                    }
                    false
                },
            }
        },
    }
}

/// Decides whether turn `t` may be taken.
fn turn_usable_exec(m: &RoadNetwork, f: &ModalFilters, req: &PathRequest, t: usize) -> (b: bool)
    requires
        m.valid(),
        f.wf(*m),
        t < m.n_turns(),
        req.start < m.n_lanes(),
        req.goal < m.n_lanes(),
    ensures
        b == sp_turn_usable(*m, *f, *req, t as int),
{
    let tn = &m.turns[t];
    proof {
        assert(m.turn_ok(t as int));
    }
    if !lane_passable_exec(m, f, req, tn.src_lane) {
        return false;
    }
    if !lane_passable_exec(m, f, req, tn.dst_lane) {
        return false;
    }
    !turn_restricted_exec(m, f, t)
}

/// Reads the cost of turn `t`.
fn cost_exec(m: &RoadNetwork, t: usize) -> (c: u64)
    requires
        m.valid(),
        t < m.n_turns(),
    ensures
        c == sp_cost(*m, t as int),
{
    proof {
        assert(m.turn_ok(t as int));
        assert(m.lane_ok(m.turns@[t as int].dst_lane as int));
        assert(m.road_ok(m.lanes@[m.turns@[t as int].dst_lane as int].road as int));
    }
    let rd = &m.roads[m.lanes[m.turns[t].dst_lane].road];
    rd.cum_dist[rd.cum_dist.len() - 1]
}

/// Walks parent pointers back from `cur`, mirroring `sp_extract`.
fn extract_path(
    m: &RoadNetwork,
    dist: &Vec<u64>,
    parent: &Vec<Option<usize>>,
    start: usize,
    cur: usize,
    fuel: u64,
) -> (r: Option<Vec<usize>>)
    requires
        m.valid(),
        parent@.len() == m.n_lanes(),
        cur < m.n_lanes(),
        forall|l: int|
            0 <= l < parent@.len() ==> (#[trigger] parent@[l] matches Some(t) ==> t
                < m.n_turns()),
    ensures
        match r {
            Some(p) => sp_extract(*m, (dist@, parent@), start, cur, fuel as nat) == Some(p@),
            None => sp_extract(*m, (dist@, parent@), start, cur, fuel as nat) is None,
        },
    decreases fuel,
{
    if cur == start {
        let empty: Vec<usize> = Vec::new();
        proof {
            assert(empty@ =~= Seq::<usize>::empty());
        }
        return Some(empty);
    }
    match parent[cur] {
        None => None,
        Some(t) => {
            if fuel == 0 {
                return None;
            }
            proof {
                assert(m.turn_ok(t as int));
            }
            let src = m.turns[t].src_lane;
            match extract_path(m, dist, parent, start, src, fuel - 1) {
                None => None,
                Some(mut p) => {
                    p.push(t);
                    Some(p)
                },
            }
        },
    }
}

/// Computes the lowest-cost usable chain of turns from the request's
/// start lane to its goal lane, or reports that no route exists — a
/// normal outcome, not an error. The result is pinned to
/// `sp_find_path`, a pure function of the inputs; any returned path
/// is a usable chain answering the request, and by
/// `lemma_find_path_minimal` no usable chain answering it costs less.
#[verifier::loop_isolation(false)]
pub fn find_path(m: &RoadNetwork, f: &ModalFilters, req: &PathRequest) -> (r: Option<Vec<usize>>)
    requires
        m.valid(),
        f.wf(*m),
    ensures
        match r {
            Some(p) => sp_find_path(*m, *f, *req) == Some(p@) && sp_path_valid(*m, *f, *req, p@),
            None => sp_find_path(*m, *f, *req) is None,
        },
{
    let nl = m.lanes.len();
    let nt = m.turns.len();
    if req.start >= nl || req.goal >= nl {
        return None;
    }
    if !lane_passable_exec(m, f, req, req.start) {
        return None;
    }
    if !lane_passable_exec(m, f, req, req.goal) {
        return None;
    }
    if req.start == req.goal {
        let empty: Vec<usize> = Vec::new();
        proof {
            assert(empty@ =~= Seq::<usize>::empty());
        }
        return Some(empty);
    }
    let mut dist: Vec<u64> = Vec::new();
    let mut parent: Vec<Option<usize>> = Vec::new();
    let mut k: usize = 0;
    while k < nl
        invariant
            k <= nl,
            dist@.len() == k,
            parent@.len() == k,
            forall|j: int|
                0 <= j < k ==> dist@[j] == (if j == req.start as int {
                    0u64
                } else {
                    UNREACHED
                }),
            forall|j: int| 0 <= j < k ==> parent@[j] is None,
        decreases nl - k,
    {
        if k == req.start {
            dist.push(0);
        } else {
            dist.push(UNREACHED);
        }
        parent.push(None);
        k = k + 1;
    }
    proof {
        assert(dist@ =~= sp_init(*m, *req).0);
        assert(parent@ =~= sp_init(*m, *req).1);
    }
    let mut round: usize = 0;
    while round < nl
        invariant
            round <= nl,
            dist@.len() == nl,
            parent@.len() == nl,
            dist@ == sp_rounds(*m, *f, *req, sp_init(*m, *req), round as int).0,
            parent@ == sp_rounds(*m, *f, *req, sp_init(*m, *req), round as int).1,
        decreases nl - round,
    {
        let ghost st_round = sp_rounds(*m, *f, *req, sp_init(*m, *req), round as int);
        let mut t: usize = 0;
        while t < nt
            invariant
                t <= nt,
                dist@.len() == nl,
                parent@.len() == nl,
                dist@ == sp_relax_upto(*m, *f, *req, st_round, t as int).0,
                parent@ == sp_relax_upto(*m, *f, *req, st_round, t as int).1,
            decreases nt - t,
        {
            let ghost st0 = (dist@, parent@);
            let usable = turn_usable_exec(m, f, req, t);
            if usable {
                let tn = &m.turns[t];
                proof {
                    assert(m.turn_ok(t as int));
                }
                let src = tn.src_lane;
                let dst = tn.dst_lane;
                let ds = dist[src];
                let c = cost_exec(m, t);
                if ds < UNREACHED && c < UNREACHED - ds {
                    let cand = ds + c;
                    if cand < dist[dst] {
                        dist.set(dst, cand);
                        parent.set(dst, Some(t));
                    }
                }
            }
            proof {
                assert(dist@ == sp_relax(*m, *f, *req, st0, t as int).0 && parent@ == sp_relax(
                    *m,
                    *f,
                    *req,
                    st0,
                    t as int,
                ).1);
            }
            t = t + 1;
        }
        round = round + 1;
    }
    let goal_dist = dist[req.goal];
    if goal_dist == UNREACHED {
        return None;
    }
    proof {
        lemma_init_inv(*m, *f, *req);
        lemma_rounds_preserves(*m, *f, *req, sp_init(*m, *req), m.n_lanes());
        assert(sp_state_inv(*m, *f, *req, (dist@, parent@)));
        lemma_extract_sound(*m, *f, *req, (dist@, parent@), req.goal, goal_dist as nat);
    }
    let r = extract_path(m, &dist, &parent, req.start, req.goal, goal_dist);
    proof {
        assert((dist@, parent@) == sp_search(*m, *f, *req));
    }
    r
}

} // verus!
