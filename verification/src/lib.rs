//! Core engine for neighborhood traffic analysis on a road network:
//! a directed lane/turn graph, deterministic pathfinding, perimeter
//! tracing with interior flood fill, shortcut detection, modal filter
//! management, and a transactional edit session with undo.

use vstd::prelude::*;

pub mod filters;
pub mod freehand;
pub mod geometry;
pub mod neighborhood;
pub mod network;
pub mod pathfind;
pub mod session;
pub mod shortcuts;

verus! {

/// Failure taxonomy for the engine's operations. `NoPath` is not here:
/// pathfinding reports the absence of a route as `None`, a normal outcome.
#[derive(Clone, Copy, Debug, PartialEq, Eq, Structural)]
pub enum EditError {
    /// An identity does not resolve in the network.
    NotFound,
    /// A placement distance or selection falls outside the road's length
    /// or outside the neighborhood under edit.
    OutOfBounds,
    /// Perimeter tracing could not close a loop around the seed region.
    Unenclosed,
}

} // verus!
