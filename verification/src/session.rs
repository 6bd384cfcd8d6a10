//! The edit cascade controller: the session that owns the filter
//! state, wraps every mutation in a transaction that snapshots the
//! prior state for undo, and refreshes the cached shortcut results
//! once the transaction closes. Outside a transaction the cache always
//! agrees with the filter state in force.

use vstd::prelude::*;

use crate::filters::ModalFilters;
use crate::neighborhood::Neighborhood;
use crate::network::RoadNetwork;
use crate::shortcuts::{detect_shortcuts, sp_detect, sp_shortcut_views, Shortcut};

verus! {

/// The mutable session state around the filter maps. Exactly one edit
/// transaction may be open at a time; `before_edit` and `after_edit`
/// out of order are programming errors and are ruled out by contract.
pub struct EditSession {
    pub filters: ModalFilters,
    pub in_edit: bool,
    pub snapshots: Vec<ModalFilters>,
    pub active: Option<Neighborhood>,
    pub cached_shortcuts: Option<Vec<Shortcut>>,
}

impl EditSession {
    /// Session invariant: the filter state and any snapshot are
    /// well formed, the active neighborhood is well formed, and —
    /// outside a transaction — the cached shortcuts are exactly what
    /// detection yields for the current filter state.
    pub open spec fn wf(self, m: RoadNetwork) -> bool {
        &&& self.filters.wf(m)
        &&& (forall|k: int| 0 <= k < self.snapshots@.len() ==> (#[trigger] self.snapshots@[k]).wf(m))
        &&& (self.active matches Some(nb) ==> nb.wf(m))
        &&& (!self.in_edit ==> match (self.active, self.cached_shortcuts) {
            (Some(nb), Some(c)) => sp_shortcut_views(c@) == sp_detect(m, self.filters, nb),
            (None, c) => c is None,
            _ => true,
        })
    }

    /// A fresh session over a loaded map: empty filters, no open
    /// transaction, no history, no neighborhood under edit.
    pub fn new(m: &RoadNetwork) -> (s: EditSession)
        ensures
            s.wf(*m),
            !s.in_edit,
            s.snapshots@.len() == 0,
            s.active is None,
            s.cached_shortcuts is None,
            s.filters.road_dists@ == Seq::new(m.n_roads() as nat, |r: int| None::<u64>),
            s.filters.diagonals@ == Seq::new(m.n_intersections() as nat, |i: int| None::<u64>),
    {
        EditSession {
            filters: ModalFilters::new(m),
            in_edit: false,
            snapshots: Vec::new(),
            active: None,
            cached_shortcuts: None,
        }
    }

    /// Selects the neighborhood under edit and derives its shortcuts.
    pub fn set_neighborhood(&mut self, m: &RoadNetwork, nb: Neighborhood)
        requires
            m.valid(),
            old(self).wf(*m),
            !old(self).in_edit,
            nb.wf(*m),
        ensures
            final(self).wf(*m),
            !final(self).in_edit,
            final(self).filters == old(self).filters,
            final(self).snapshots@ == old(self).snapshots@,
            final(self).active == Some(nb),
            final(self).cached_shortcuts matches Some(c) && sp_shortcut_views(c@) == sp_detect(
                *m,
                final(self).filters,
                nb,
            ),
    {
        let c = detect_shortcuts(m, &self.filters, &nb);
        self.active = Some(nb);
        self.cached_shortcuts = Some(c);
    }

    /// Opens a transaction: snapshots the filter state for undo.
    pub fn before_edit(&mut self, m: &RoadNetwork)
        requires
            m.valid(),
            old(self).wf(*m),
            !old(self).in_edit,
        ensures
            final(self).wf(*m),
            final(self).in_edit,
            final(self).filters == old(self).filters,
            final(self).active == old(self).active,
            final(self).snapshots@.len() == old(self).snapshots@.len() + 1,
            final(self).snapshots@.last().road_dists@ == old(self).filters.road_dists@,
            final(self).snapshots@.last().diagonals@ == old(self).filters.diagonals@,
            forall|k: int|
                0 <= k < old(self).snapshots@.len() ==> final(self).snapshots@[k] == old(
                    self,
                ).snapshots@[k],
    {
        let snap = self.filters.duplicate();
        self.snapshots.push(snap);
        self.in_edit = true;
    }

    /// Closes the transaction and re-derives every dependent cache:
    /// the shortcut results for the neighborhood under edit are
    /// recomputed against the filter state now in force.
    pub fn after_edit(&mut self, m: &RoadNetwork)
        requires
            m.valid(),
            old(self).wf(*m),
            old(self).in_edit,
        ensures
            final(self).wf(*m),
            !final(self).in_edit,
            final(self).filters == old(self).filters,
            final(self).snapshots@ == old(self).snapshots@,
            final(self).active == old(self).active,
            old(self).active matches Some(nb) ==> final(self).cached_shortcuts matches Some(c)
                && sp_shortcut_views(c@) == sp_detect(*m, final(self).filters, nb),
    {
        let c = match &self.active {
            Some(nb) => Some(detect_shortcuts(m, &self.filters, nb)),
            None => None,
        };
        self.cached_shortcuts = c;
        self.in_edit = false;
    }

    /// Undoes the most recent transaction: restores the snapshotted
    /// filter state and re-derives the dependent caches.
    pub fn undo(&mut self, m: &RoadNetwork)
        requires
            m.valid(),
            old(self).wf(*m),
            !old(self).in_edit,
            old(self).snapshots@.len() > 0,
        ensures
            final(self).wf(*m),
            !final(self).in_edit,
            final(self).filters.road_dists@ == old(self).snapshots@.last().road_dists@,
            final(self).filters.diagonals@ == old(self).snapshots@.last().diagonals@,
            final(self).snapshots@ == old(self).snapshots@.drop_last(),
            final(self).active == old(self).active,
            old(self).active matches Some(nb) ==> final(self).cached_shortcuts matches Some(c)
                && sp_shortcut_views(c@) == sp_detect(*m, final(self).filters, nb),
    {
        let snap = match self.snapshots.pop() {
            Some(s) => s,
            None => {
                proof {
                    assert(false);
                }
                ModalFilters::new(m)
            },
        };
        self.filters = snap;
        let c = match &self.active {
            Some(nb) => Some(detect_shortcuts(m, &self.filters, nb)),
            None => None,
        };
        self.cached_shortcuts = c;
    }
}

} // verus!
