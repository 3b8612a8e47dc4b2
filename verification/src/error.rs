//! Error taxonomy of the search engine.

use vstd::prelude::*;

verus! {

/// A caller-visible failure of a search. Each failure is terminal for that
/// call: there is no retry and no partial result.
#[derive(Clone, Copy, Debug, PartialEq, Eq, Structural)]
pub enum PathError {
    /// The caller supplied no targets.
    EmptyTargetSet,
    /// The source cell's coordinates exceed the grid size.
    SourceOutOfBounds,
    /// No observed-map snapshot could be obtained by the host.
    MapUnavailable,
    /// The search completed but no target improved on the unreachable
    /// sentinel.
    PathNotFound,
}

/// A single candidate edge is inadmissible. This signal is consumed inside
/// the search engine, where it prunes that one edge and nothing else; it is
/// never surfaced to a caller.
#[derive(Clone, Copy, Debug, PartialEq, Eq, Structural)]
pub enum EdgeDenied {
    /// The host's traversal-permission check disallows the step.
    PermissionDenied,
    /// The edge starts on a cell that has not been observed.
    SourceUnobserved,
    /// The edge ends on a cell that has not been observed.
    DestinationUnobserved,
    /// The destination tile's classification is not walkable under the cost
    /// policy.
    DestinationNotWalkable,
    /// A teleport endpoint lies outside the grid.
    SourceOutOfBounds,
    /// A teleport endpoint lies outside the grid.
    DestinationOutOfBounds,
    /// The cell teleported from is not an active teleport.
    SourceNotTeleport,
    /// The cell teleported to is not an active teleport.
    DestinationNotTeleport,
}

} // verus!
