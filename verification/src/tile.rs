//! The observed-map snapshot: tiles, partial observability, and the spec-level
//! view of a square grid of optionally observed cells.
//!
//! A map is a square `N x N` array of `Option<Tile>`; `None` marks a cell the
//! agent has not yet observed. Unobserved cells are absent from the search
//! graph: no edge starts or ends there.

use vstd::prelude::*;

use crate::plain::PlainContent;

verus! {

/// The classification of an observed tile. It determines base traversability
/// and base step cost (through the injected [`crate::policy::CostModel`]) and
/// whether the tile is a teleport endpoint; `Teleport(true)` marks an active
/// teleport.
#[derive(Clone, Copy, Debug, PartialEq, Eq, Structural)]
pub enum TileKind {
    DeepWater,
    ShallowWater,
    Sand,
    Grass,
    Street,
    Hill,
    Mountain,
    Snow,
    Lava,
    Teleport(bool),
    Wall,
}

/// One observed cell of the map: its classification, the kind of content it
/// holds, and its elevation (a non-negative integer).
#[derive(Clone, Copy, Debug, PartialEq, Eq, Structural)]
pub struct Tile {
    pub tile_type: TileKind,
    pub content: PlainContent,
    pub elevation: usize,
}

/// The map is square: every row has as many cells as there are rows.
pub open spec fn grid_square(g: Seq<Vec<Option<Tile>>>) -> bool {
    forall|r: int| 0 <= r < g.len() ==> (#[trigger] g[r])@.len() == g.len()
}

/// Cell `(r, c)` lies inside the square grid.
pub open spec fn in_bounds(g: Seq<Vec<Option<Tile>>>, r: int, c: int) -> bool {
    0 <= r < g.len() && 0 <= c < g.len()
}

/// Cell `(r, c)` lies inside the grid and has been observed.
pub open spec fn observed(g: Seq<Vec<Option<Tile>>>, r: int, c: int) -> bool {
    in_bounds(g, r, c) && g[r]@[c] is Some
}

/// The tile recorded at an observed cell.
pub open spec fn tile_at(g: Seq<Vec<Option<Tile>>>, r: int, c: int) -> Tile {
    g[r]@[c]->0
}

/// Cell `(r, c)` is observed and classified as an active teleport, making it
/// a teleport endpoint for the current world configuration.
pub open spec fn active_teleport(g: Seq<Vec<Option<Tile>>>, r: int, c: int) -> bool {
    observed(g, r, c) && tile_at(g, r, c).tile_type == TileKind::Teleport(true)
}

} // verus!
