//! Collision and dynamics core of a rigid-body physics engine, as far as it
//! works on whole numbers: bounding boxes on an integer grid, a spatial
//! index over them, the broad phase that pairs the bodies whose boxes
//! overlap, the face bookkeeping of the expanding polytope that the narrow
//! phase uses, a store of recorded frames, and the check of a shader's
//! attributes against a vertex layout.

pub mod aabb;
pub mod gjk;
pub mod recording;
pub mod rtree;
pub mod simulation;
pub mod vertex;

use vstd::prelude::*;

verus! {

/// What the window's event loop is woken up for.
#[derive(Debug)]
pub enum UserEvent {
    Redraw,
}

} // verus!
