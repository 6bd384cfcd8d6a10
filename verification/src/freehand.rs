//! Freehand filter placement: a drawn shape is matched against the
//! neighborhood under edit; every interior road whose centerline the
//! shape crosses receives a modal filter at the crossed segment's
//! midpoint (roads already filtered are skipped), and every interior
//! intersection whose footprint the shape crosses has its diagonal
//! filter cycled. The whole edit runs inside one transaction.

use vstd::prelude::*;

use crate::filters::sp_cycle_next;
use crate::EditError;
use crate::geometry::{polygon_hits_path, polyline_first_cross, pts_ok, sp_first_cross,
    sp_polygon_hits_path, Pt};
use crate::neighborhood::Neighborhood;
use crate::network::RoadNetwork;
use crate::session::EditSession;

verus! {

/// The filter distance assigned when segment `seg` of road `r`'s
/// centerline is crossed: the midpoint of that segment's span.
pub open spec fn sp_mid_dist(m: RoadNetwork, r: int, seg: int) -> u64 {
    (((m.roads@[r].cum_dist@[seg] + m.roads@[r].cum_dist@[seg + 1]) / 2) as u64)
}

/// The road filters after the drawn path is applied to the interior
/// roads from index `k` on, in ascending order: an unfiltered road
/// whose centerline the path crosses gets a filter at the midpoint of
/// the first crossed segment; filtered roads are skipped silently.
pub open spec fn sp_freehand_roads(
    m: RoadNetwork,
    nb: Neighborhood,
    path: Seq<Pt>,
    s: Seq<Option<u64>>,
    k: int,
) -> Seq<Option<u64>>
    decreases nb.interior_roads@.len() - k,
{
    if k < 0 || k >= nb.interior_roads@.len() {
        s
    } else {
        let r = nb.interior_roads@[k] as int;
        let hit = sp_first_cross(m.roads@[r].center@, path, 0);
        let s2 = if s[r] is None && hit >= 0 {
            s.update(r, Some(sp_mid_dist(m, r, hit)))
        } else {
            s
        };
        sp_freehand_roads(m, nb, path, s2, k + 1)
    }
}

/// The diagonal filters after the drawn path is applied to the
/// interior intersections from index `k` on, in ascending order: an
/// intersection whose footprint the path crosses has its diagonal
/// filter cycled, where at least four roads meet.
pub open spec fn sp_freehand_diags(
    m: RoadNetwork,
    nb: Neighborhood,
    path: Seq<Pt>,
    s: Seq<Option<u64>>,
    k: int,
) -> Seq<Option<u64>>
    decreases nb.interior_intersections@.len() - k,
{
    if k < 0 || k >= nb.interior_intersections@.len() {
        s
    } else {
        let i = nb.interior_intersections@[k] as int;
        let n_inc = m.intersections@[i].roads@.len() as int;
        let s2 = if sp_polygon_hits_path(m.intersections@[i].polygon@, path, 0) && n_inc >= 4 {
            s.update(i, sp_cycle_next(n_inc, s[i]))
        } else {
            s
        };
        sp_freehand_diags(m, nb, path, s2, k + 1)
    }
}

proof fn lemma_cum_monotone(m: RoadNetwork, r: int, i: int, j: int)
    requires
        m.valid(),
        0 <= r < m.n_roads(),
        0 <= i <= j < m.roads@[r].cum_dist@.len(),
    ensures
        m.roads@[r].cum_dist@[i] <= m.roads@[r].cum_dist@[j],
    decreases j - i,
{
    assert(m.road_ok(r));
    if i < j {
        lemma_cum_monotone(m, r, i + 1, j);
    }
}

/// Creates filters along a drawn freehand path, in one transaction:
/// opens the edit, applies the road pass and then the diagonal pass,
/// and closes the edit, which re-derives the cached shortcuts. The
/// resulting filter maps are exactly the two passes' folds over the
/// prior state.
#[verifier::loop_isolation(false)]
pub fn make_filters_along_path(
    m: &RoadNetwork,
    nb: &Neighborhood,
    path: &Vec<Pt>,
    session: &mut EditSession,
)
    requires
        m.valid(),
        nb.wf(*m),
        pts_ok(path@),
        old(session).wf(*m),
        !old(session).in_edit,
    ensures
        final(session).wf(*m),
        !final(session).in_edit,
        final(session).filters.road_dists@ == sp_freehand_roads(
            *m,
            *nb,
            path@,
            old(session).filters.road_dists@,
            0,
        ),
        final(session).filters.diagonals@ == sp_freehand_diags(
            *m,
            *nb,
            path@,
            old(session).filters.diagonals@,
            0,
        ),
        final(session).snapshots@.len() == old(session).snapshots@.len() + 1,
        final(session).snapshots@.last().road_dists@ == old(session).filters.road_dists@,
        final(session).snapshots@.last().diagonals@ == old(session).filters.diagonals@,
        final(session).active == old(session).active,
        old(session).active matches Some(anb) ==> final(session).cached_shortcuts matches Some(c)
            && crate::shortcuts::sp_shortcut_views(c@) == crate::shortcuts::sp_detect(
            *m,
            final(session).filters,
            anb,
        ),
{
    session.before_edit(m);
    let ghost roads0 = session.filters.road_dists@;
    let ghost diags0 = session.filters.diagonals@;
    let ghost snaps1 = session.snapshots@;

    let n_ir = nb.interior_roads.len();
    let mut k: usize = 0;
    while k < n_ir
        invariant
            session.wf(*m),
            session.in_edit,
            n_ir == nb.interior_roads@.len(),
            k <= n_ir,
            sp_freehand_roads(*m, *nb, path@, roads0, 0) == sp_freehand_roads(
                *m,
                *nb,
                path@,
                session.filters.road_dists@,
                k as int,
            ),
            session.filters.diagonals@ == diags0,
            session.snapshots@ == snaps1,
            session.active == old(session).active,
        decreases n_ir - k,
    {
        let r = nb.interior_roads[k];
        proof {
            assert(nb.interior_roads@[k as int] == r);
            assert(nb.is_interior_road(r));
            assert(r < m.n_roads());
            assert(m.road_ok(r as int));
        }
        if session.filters.road_dists[r].is_none() {
            let rd = &m.roads[r];
            match polyline_first_cross(&rd.center, path) {
                Some(seg) => {
                    proof {
                        assert(rd.center.len() == rd.center@.len());
                        assert(rd.cum_dist@[seg as int] + 2 <= rd.cum_dist@[seg + 1]);
                        lemma_cum_monotone(*m, r as int, 0, seg as int);
                        lemma_cum_monotone(*m, r as int, seg + 1, rd.cum_dist@.len() - 1);
                        assert(rd.cum_dist@[seg + 1] <= crate::network::DIST_LIMIT);
                    }
                    let d = (rd.cum_dist[seg] + rd.cum_dist[seg + 1]) / 2;
                    proof {
                        assert(0 < d);
                        assert(d < m.road_len(r as int));
                    }
                    let res = session.filters.place_filter(m, nb, r, d);
                    proof {
                        assert(res is Ok);
                    }
                },
                None => {},
            }
        }
        k = k + 1;
    }
    proof {
        assert(sp_freehand_roads(*m, *nb, path@, roads0, 0) == session.filters.road_dists@);
    }

    let ghost roads_done = session.filters.road_dists@;
    let n_ii = nb.interior_intersections.len();
    let mut k2: usize = 0;
    while k2 < n_ii
        invariant
            session.wf(*m),
            session.in_edit,
            n_ii == nb.interior_intersections@.len(),
            k2 <= n_ii,
            session.filters.road_dists@ == roads_done,
            sp_freehand_diags(*m, *nb, path@, diags0, 0) == sp_freehand_diags(
                *m,
                *nb,
                path@,
                session.filters.diagonals@,
                k2 as int,
            ),
            session.snapshots@ == snaps1,
            session.active == old(session).active,
        decreases n_ii - k2,
    {
        let i = nb.interior_intersections[k2];
        proof {
            assert(nb.interior_intersections@[k2 as int] == i);
            assert(nb.is_interior_intersection(i));
            assert(i < m.n_intersections());
            assert(m.intersection_ok(i as int));
        }
        let ghost dprev = session.filters.diagonals@;
        if polygon_hits_path(&m.intersections[i].polygon, path) {
            let res = session.filters.cycle_diagonal_filter(m, nb, i);
            proof {
                assert(res is Ok);
                if m.intersections@[i as int].roads@.len() < 4 {
                    assert(res == Ok::<bool, EditError>(false));
                    assert(session.filters.diagonals@ == dprev);
                } else {
                    assert(res != Ok::<bool, EditError>(false));
                    assert(res == Ok::<bool, EditError>(res->Ok_0));
                    assert(res->Ok_0 != false);
                    assert(res == Ok::<bool, EditError>(true));
                    assert(session.filters.diagonals@ == dprev.update(
                        i as int,
                        sp_cycle_next(
                            m.intersections@[i as int].roads@.len() as int,
                            dprev[i as int],
                        ),
                    ));
                }
            }
        }
        proof {
            assert(sp_freehand_diags(*m, *nb, path@, dprev, k2 as int) == sp_freehand_diags(
                *m,
                *nb,
                path@,
                session.filters.diagonals@,
                (k2 + 1) as int,
            ));
        }
        k2 = k2 + 1;
    }
    proof {
        assert(sp_freehand_diags(*m, *nb, path@, diags0, 0) == session.filters.diagonals@);
    }

    session.after_edit(m);
}

} // verus!
