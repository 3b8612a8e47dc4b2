//! Comparison-only vocabulary for tile classifications and tile contents.
//!
//! Callers describe the tiles they are looking for with these plain enums;
//! a filter value is matched against the classification stored in the map
//! without looking at any payload a content may carry.

use vstd::prelude::*;

use crate::tile::TileKind;

verus! {

/// A tile classification stripped of any payload, used to filter map cells
/// by kind alone. `Teleport` matches a teleport tile whether or not it is
/// currently active.
#[derive(Clone, Copy, Debug, PartialEq, Eq, Structural)]
pub enum PlainTileType {
    DeepWater,
    ShallowWater,
    Sand,
    Grass,
    Street,
    Hill,
    Mountain,
    Snow,
    Lava,
    Teleport,
    Wall,
}

impl PlainTileType {
    /// Whether this filter matches the given tile classification,
    /// ignoring the active flag of a teleport tile.
    pub open spec fn spec_eq_tile_type(self, tile_type: TileKind) -> bool {
        match tile_type {
            TileKind::DeepWater => self == PlainTileType::DeepWater,
            TileKind::ShallowWater => self == PlainTileType::ShallowWater,
            TileKind::Sand => self == PlainTileType::Sand,
            TileKind::Grass => self == PlainTileType::Grass,
            TileKind::Street => self == PlainTileType::Street,
            TileKind::Hill => self == PlainTileType::Hill,
            TileKind::Mountain => self == PlainTileType::Mountain,
            TileKind::Snow => self == PlainTileType::Snow,
            TileKind::Lava => self == PlainTileType::Lava,
            TileKind::Teleport(_) => self == PlainTileType::Teleport,
            TileKind::Wall => self == PlainTileType::Wall,
        }
    }

    /// Compares this filter against a tile classification, disregarding
    /// whether a teleport is active.
    pub fn eq_tile_type(&self, tile_type: &TileKind) -> (r: bool)
        ensures
            r == self.spec_eq_tile_type(*tile_type),
    {
        match tile_type {
            TileKind::DeepWater => *self == PlainTileType::DeepWater,
            TileKind::ShallowWater => *self == PlainTileType::ShallowWater,
            TileKind::Sand => *self == PlainTileType::Sand,
            TileKind::Grass => *self == PlainTileType::Grass,
            TileKind::Street => *self == PlainTileType::Street,
            TileKind::Hill => *self == PlainTileType::Hill,
            TileKind::Mountain => *self == PlainTileType::Mountain,
            TileKind::Snow => *self == PlainTileType::Snow,
            TileKind::Lava => *self == PlainTileType::Lava,
            TileKind::Teleport(_) => *self == PlainTileType::Teleport,
            TileKind::Wall => *self == PlainTileType::Wall,
        }
    }
}

/// A tile content stripped of any payload, used to filter map cells by the
/// kind of content they hold. `Empty` matches a cell with no content.
#[derive(Clone, Copy, Debug, PartialEq, Eq, Structural)]
pub enum PlainContent {
    Rock,
    Tree,
    Garbage,
    Fire,
    Coin,
    Bin,
    Crate,
    Bank,
    Water,
    Market,
    Fish,
    Building,
    Bush,
    JollyBlock,
    Scarecrow,
    Empty,
}

impl PlainContent {
    /// Whether this filter matches the given content classification.
    pub open spec fn spec_eq_content(self, content: PlainContent) -> bool {
        self == content
    }

    /// Compares this filter against the content classification of a tile.
    pub fn eq_content(&self, content: &PlainContent) -> (r: bool)
        ensures
            r == self.spec_eq_content(*content),
    {
        *self == *content
    }
}

} // verus!
