//! The cost and permission policy injected by the host.
//!
//! The engine does not own the mapping from tile classification to base
//! traversability and step cost: the host supplies it, already adjusted for
//! the ambient conditions (weather and the like) that hold for the duration
//! of one search over one map snapshot. The host likewise supplies the
//! per-cell, per-direction traversal permissions it wants enforced for
//! reasons outside pure tile geometry.

use vstd::prelude::*;

use crate::path::Direction;
use crate::tile::TileKind;

verus! {

/// The properties a cost policy assigns to one tile classification: whether
/// an agent may walk onto such a tile, and the base energy cost of doing so
/// (already adjusted for the current ambient conditions).
#[derive(Clone, Copy, Debug, PartialEq, Eq, Structural)]
pub struct TileProps {
    pub walk: bool,
    pub cost: usize,
}

/// The injected cost policy: one [`TileProps`] per tile classification.
/// A teleport tile has the same properties whether or not it is active.
#[derive(Clone, Copy, Debug, PartialEq, Eq, Structural)]
pub struct CostModel {
    pub deep_water: TileProps,
    pub shallow_water: TileProps,
    pub sand: TileProps,
    pub grass: TileProps,
    pub street: TileProps,
    pub hill: TileProps,
    pub mountain: TileProps,
    pub snow: TileProps,
    pub lava: TileProps,
    pub teleport: TileProps,
    pub wall: TileProps,
}

impl CostModel {
    /// The properties this policy assigns to the given tile classification.
    pub open spec fn spec_props(self, kind: TileKind) -> TileProps {
        match kind {
            TileKind::DeepWater => self.deep_water,
            TileKind::ShallowWater => self.shallow_water,
            TileKind::Sand => self.sand,
            TileKind::Grass => self.grass,
            TileKind::Street => self.street,
            TileKind::Hill => self.hill,
            TileKind::Mountain => self.mountain,
            TileKind::Snow => self.snow,
            TileKind::Lava => self.lava,
            TileKind::Teleport(_) => self.teleport,
            TileKind::Wall => self.wall,
        }
    }

    /// Looks up the properties of the given tile classification.
    pub fn props(&self, kind: TileKind) -> (r: TileProps)
        ensures
            r == self.spec_props(kind),
    {
        match kind {
            TileKind::DeepWater => self.deep_water,
            TileKind::ShallowWater => self.shallow_water,
            TileKind::Sand => self.sand,
            TileKind::Grass => self.grass,
            TileKind::Street => self.street,
            TileKind::Hill => self.hill,
            TileKind::Mountain => self.mountain,
            TileKind::Snow => self.snow,
            TileKind::Lava => self.lava,
            TileKind::Teleport(_) => self.teleport,
            TileKind::Wall => self.wall,
        }
    }

    /// A policy under which every classification is walkable at the given
    /// uniform base cost. Convenient for hosts that enforce traversability
    /// elsewhere, and for flat test worlds.
    pub fn uniform(cost: usize) -> (r: CostModel)
        ensures
            forall|kind: TileKind| #[trigger] r.spec_props(kind) == (TileProps { walk: true, cost }),
    {
        let props = TileProps { walk: true, cost };
        CostModel {
            deep_water: props,
            shallow_water: props,
            sand: props,
            grass: props,
            street: props,
            hill: props,
            mountain: props,
            snow: props,
            lava: props,
            teleport: props,
            wall: props,
        }
    }
}

/// The traversal permissions the host grants for the four orthogonal steps
/// out of one cell.
#[derive(Clone, Copy, Debug, PartialEq, Eq, Structural)]
pub struct StepPermission {
    pub up: bool,
    pub down: bool,
    pub left: bool,
    pub right: bool,
}

impl StepPermission {
    /// Whether the step out of the cell in direction `d` is permitted.
    pub open spec fn spec_allows(self, d: Direction) -> bool {
        match d {
            Direction::Up => self.up,
            Direction::Down => self.down,
            Direction::Left => self.left,
            Direction::Right => self.right,
        }
    }

    /// Tests the permission for direction `d`.
    pub fn allows(&self, d: Direction) -> (r: bool)
        ensures
            r == self.spec_allows(d),
    {
        match d {
            Direction::Up => self.up,
            Direction::Down => self.down,
            Direction::Left => self.left,
            Direction::Right => self.right,
        }
    }
}

/// The permission grid matches the map: one [`StepPermission`] per cell of
/// an `n x n` grid.
pub open spec fn permits_square(p: Seq<Vec<StepPermission>>, n: int) -> bool {
    p.len() == n && forall|r: int| 0 <= r < p.len() ==> (#[trigger] p[r])@.len() == n
}

/// The host permits the step out of cell `(r, c)` in direction `d`.
pub open spec fn move_permitted(
    p: Seq<Vec<StepPermission>>,
    r: int,
    c: int,
    d: Direction,
) -> bool {
    p[r]@[c].spec_allows(d)
}

/// An `n x n` permission grid that allows every step, for hosts that do not
/// restrict traversal beyond tile geometry.
pub fn permit_all(n: usize) -> (p: Vec<Vec<StepPermission>>)
    ensures
        permits_square(p@, n as int),
        forall|r: int, c: int, d: Direction|
            0 <= r < n && 0 <= c < n ==> move_permitted(p@, r, c, d),
{
    let allow = StepPermission { up: true, down: true, left: true, right: true };
    let mut p: Vec<Vec<StepPermission>> = Vec::new();
    let mut r: usize = 0;
    while r < n
        invariant
            r <= n,
            p@.len() == r as int,
            forall|i: int| 0 <= i < r ==> (#[trigger] p@[i])@.len() == n,
            forall|i: int, j: int| 0 <= i < r && 0 <= j < n ==> (#[trigger] p@[i]@[j]) == allow,
        decreases n - r,
    {
        let mut row: Vec<StepPermission> = Vec::new();
        let mut c: usize = 0;
        while c < n
            invariant
                c <= n,
                row@.len() == c as int,
                forall|j: int| 0 <= j < c ==> (#[trigger] row@[j]) == allow,
            decreases n - c,
        {
            row.push(allow);
            c = c + 1;
        }
        p.push(row);
        r = r + 1;
    }
    p
}

} // verus!
