//! What can go wrong while a roadmap is built or queried.

use vstd::prelude::*;

verus! {

/// A condition that the caller can recover from.
#[derive(Clone, Copy, Debug, PartialEq, Eq, Structural)]
pub enum PlanError {
    /// The roadmap falls into this many connected components, so it has no
    /// spanning tree. A new roadmap may do better.
    Disconnected { components: usize },
    /// The coordinate lies outside the navigable rectangle of the map.
    OutOfBounds,
    /// The coordinate lies on an obstacle.
    Obstructed,
    /// No route leads from the start vertex to the end vertex.
    NoPathFound,
    /// No free point was found within the allowed number of attempts.
    SamplingExhausted,
}

} // verus!
