//! Lane identity and kind in the road-network model.

use vstd::prelude::*;

verus! {

/// An opaque lane identifier. Not a position in any lane list: an importer
/// may assign arbitrary ids, so lanes are looked up by identity.
#[derive(Debug, Clone, Copy, PartialEq, Eq, Hash, Structural)]
pub struct LaneId(pub usize);

/// What a lane is for. Only driving lanes exist today.
#[derive(Debug, Clone, Copy, PartialEq, Eq, Structural)]
pub enum LaneKind {
    Driving,
}

/// Travel direction of a lane relative to its geometry's start->end.
#[derive(Debug, Clone, Copy, PartialEq, Eq, Structural)]
pub enum Direction {
    Forward,
    Backward,
}

} // verus!
