//! Grid adjacency, per-edge cost computation, and the spec-level model of
//! edges and path weights that every search contract is stated against.
//!
//! The weight of a path is the mathematical sum of its edge weights, an
//! unbounded natural number; executable code computes weights saturated at
//! `usize::MAX`, which coincides with the mathematical value whenever that
//! value is representable.

use vstd::prelude::*;

use crate::error::EdgeDenied;
use crate::path::{Action, Direction};
use crate::plain::{PlainContent, PlainTileType};
use crate::policy::{move_permitted, permits_square, CostModel, StepPermission};
use crate::tile::{active_teleport, grid_square, in_bounds, observed, tile_at, Tile, TileKind};

verus! {

/// The fixed energy cost of a teleport jump between two active teleport
/// cells, regardless of their grid distance.
pub const TELEPORT_COST: usize = 30;

/// The cell reached from `(r, c)` by one step in direction `d`.
pub open spec fn go_target(r: int, c: int, d: Direction) -> (int, int) {
    match d {
        Direction::Up => (r - 1, c),
        Direction::Down => (r + 1, c),
        Direction::Left => (r, c - 1),
        Direction::Right => (r, c + 1),
    }
}

/// The step from `(r, c)` in direction `d` stays inside the grid.
pub open spec fn go_move_in_bounds(
    g: Seq<Vec<Option<Tile>>>,
    r: int,
    c: int,
    d: Direction,
) -> bool {
    in_bounds(g, go_target(r, c, d).0, go_target(r, c, d).1)
}

/// The quadratic elevation penalty: climbing from elevation `from` to a
/// higher elevation `to` costs the square of the difference; equal or lower
/// elevation adds nothing, so descending is never penalized.
pub open spec fn elevation_penalty(from: int, to: int) -> nat {
    if to > from {
        ((to - from) * (to - from)) as nat
    } else {
        0
    }
}

/// The weight of the grid edge out of `(r, c)` in direction `d`, or `None`
/// when that edge is absent: the step must stay in bounds, be permitted by
/// the host, start and end on observed cells, and end on a tile whose
/// classification the cost policy deems walkable. Its weight is the policy's
/// base cost for the destination tile plus the elevation penalty.
pub open spec fn go_edge_weight(
    g: Seq<Vec<Option<Tile>>>,
    model: CostModel,
    permits: Seq<Vec<StepPermission>>,
    r: int,
    c: int,
    d: Direction,
) -> Option<nat> {
    let t = go_target(r, c, d);
    if in_bounds(g, r, c) && in_bounds(g, t.0, t.1) && move_permitted(permits, r, c, d)
        && observed(g, r, c) && observed(g, t.0, t.1)
        && model.spec_props(tile_at(g, t.0, t.1).tile_type).walk {
        Some(
            (model.spec_props(tile_at(g, t.0, t.1).tile_type).cost + elevation_penalty(
                tile_at(g, r, c).elevation as int,
                tile_at(g, t.0, t.1).elevation as int,
            )) as nat,
        )
    } else {
        None
    }
}

/// The effect of one action taken from cell `(r, c)`: the cell reached and
/// the weight spent, or `None` when the action uses an absent edge. A
/// teleport edge exists exactly between active, observed teleport cells and
/// weighs [`TELEPORT_COST`], not gated by adjacency or elevation.
pub open spec fn step_result(
    g: Seq<Vec<Option<Tile>>>,
    model: CostModel,
    permits: Seq<Vec<StepPermission>>,
    r: int,
    c: int,
    a: Action,
) -> Option<((int, int), nat)> {
    match a {
        Action::Go(d) => match go_edge_weight(g, model, permits, r, c, d) {
            Some(w) => Some((go_target(r, c, d), w)),
            None => None,
        },
        Action::Teleport(t) => {
            if active_teleport(g, r, c) && active_teleport(g, t.0 as int, t.1 as int) {
                Some(((t.0 as int, t.1 as int), TELEPORT_COST as nat))
            } else {
                None
            }
        },
    }
}

/// The cell reached and total weight spent by performing `acts` in order
/// from `(sr, sc)`, or `None` when some action uses an absent edge. The
/// weight is an exact mathematical sum, never saturated.
pub open spec fn path_result(
    g: Seq<Vec<Option<Tile>>>,
    model: CostModel,
    permits: Seq<Vec<StepPermission>>,
    sr: int,
    sc: int,
    acts: Seq<Action>,
) -> Option<((int, int), nat)>
    decreases acts.len(),
{
    if acts.len() == 0 {
        Some(((sr, sc), 0))
    } else {
        match path_result(g, model, permits, sr, sc, acts.drop_last()) {
            Some(p) => match step_result(g, model, permits, p.0.0, p.0.1, acts.last()) {
                Some(s) => Some((s.0, (p.1 + s.1) as nat)),
                None => None,
            },
            None => None,
        }
    }
}

/// A weight saturated into `usize`: the mathematical value when it fits,
/// `usize::MAX` otherwise.
pub open spec fn sat_cap(w: nat) -> usize {
    if w > usize::MAX {
        usize::MAX
    } else {
        w as usize
    }
}

/// The observed orthogonal neighbors of `(r, c)`, in the fixed order right,
/// down, left, up.
pub open spec fn adjacent_observed(g: Seq<Vec<Option<Tile>>>, r: int, c: int) -> Seq<
    (usize, usize),
> {
    (if c + 1 < g.len() && observed(g, r, c + 1) {
        seq![(r as usize, (c + 1) as usize)]
    } else {
        Seq::empty()
    }) + (if r + 1 < g.len() && observed(g, r + 1, c) {
        seq![((r + 1) as usize, c as usize)]
    } else {
        Seq::empty()
    }) + (if c > 0 && observed(g, r, c - 1) {
        seq![(r as usize, (c - 1) as usize)]
    } else {
        Seq::empty()
    }) + (if r > 0 && observed(g, r - 1, c) {
        seq![((r - 1) as usize, c as usize)]
    } else {
        Seq::empty()
    })
}

/// Cell `a` comes strictly before cell `b` in row-major order.
pub open spec fn row_major_less(a: (usize, usize), b: (usize, usize)) -> bool {
    a.0 < b.0 || (a.0 == b.0 && a.1 < b.1)
}

/// Cell `(r, c)` is observed and matches both optional filters: a filter
/// left as `None` matches everything.
pub open spec fn cell_matches(
    g: Seq<Vec<Option<Tile>>>,
    tile_type: Option<PlainTileType>,
    content: Option<PlainContent>,
    r: int,
    c: int,
) -> bool {
    observed(g, r, c)
    && (tile_type is Some ==> tile_type->0.spec_eq_tile_type(tile_at(g, r, c).tile_type))
    && (content is Some ==> content->0.spec_eq_content(tile_at(g, r, c).content))
}

/// Elevation asymmetry: between two adjacent observed cells whose tiles
/// share one classification, the ascending step costs exactly the
/// descending step plus the square of the elevation difference — the
/// descending step carries no elevation term at all.
pub proof fn lemma_elevation_asymmetry(
    g: Seq<Vec<Option<Tile>>>,
    model: CostModel,
    permits: Seq<Vec<StepPermission>>,
    r: int,
    c: int,
    d: Direction,
    back: Direction,
)
    requires
        go_target(go_target(r, c, d).0, go_target(r, c, d).1, back) == ((r, c)),
        go_edge_weight(g, model, permits, r, c, d) is Some,
        go_edge_weight(g, model, permits, go_target(r, c, d).0, go_target(r, c, d).1, back)
            is Some,
        tile_at(g, go_target(r, c, d).0, go_target(r, c, d).1).tile_type == tile_at(
            g,
            r,
            c,
        ).tile_type,
        tile_at(g, go_target(r, c, d).0, go_target(r, c, d).1).elevation >= tile_at(
            g,
            r,
            c,
        ).elevation,
    ensures
        go_edge_weight(g, model, permits, r, c, d)->0 == go_edge_weight(
            g,
            model,
            permits,
            go_target(r, c, d).0,
            go_target(r, c, d).1,
            back,
        )->0 + (tile_at(g, go_target(r, c, d).0, go_target(r, c, d).1).elevation - tile_at(
            g,
            r,
            c,
        ).elevation) * (tile_at(g, go_target(r, c, d).0, go_target(r, c, d).1).elevation - tile_at(
            g,
            r,
            c,
        ).elevation),
{
    let t = go_target(r, c, d);
    let e1 = tile_at(g, r, c).elevation as int;
    let e2 = tile_at(g, t.0, t.1).elevation as int;
    assert(go_edge_weight(g, model, permits, r, c, d)->0 == model.spec_props(
        tile_at(g, t.0, t.1).tile_type,
    ).cost + elevation_penalty(e1, e2));
    assert(go_edge_weight(g, model, permits, t.0, t.1, back)->0 == model.spec_props(
        tile_at(g, r, c).tile_type,
    ).cost + elevation_penalty(e2, e1));
    assert(elevation_penalty(e2, e1) == 0);
    if e2 > e1 {
        assert(elevation_penalty(e1, e2) == (e2 - e1) * (e2 - e1));
    } else {
        assert(elevation_penalty(e1, e2) == 0);
        assert((e2 - e1) * (e2 - e1) == 0) by (nonlinear_arith)
            requires
                e1 == e2,
        ;
    }
}

/// The coordinates reached from `source` by one step in `direction`.
pub(crate) fn get_coords_row_col(source: (usize, usize), direction: Direction) -> (r: (usize, usize))
    requires
        direction == Direction::Up ==> source.0 >= 1,
        direction == Direction::Left ==> source.1 >= 1,
        direction == Direction::Down ==> source.0 < usize::MAX,
        direction == Direction::Right ==> source.1 < usize::MAX,
    ensures
        (r.0 as int, r.1 as int) == go_target(source.0 as int, source.1 as int, direction),
{
    let (row, col) = source;
    match direction {
        Direction::Up => (row - 1, col),
        Direction::Down => (row + 1, col),
        Direction::Left => (row, col - 1),
        Direction::Right => (row, col + 1),
    }
}

/// Collects the observed orthogonal neighbors of `tile`, in the fixed order
/// right, down, left, up. Purely a structural and observability filter: no
/// cost or permission is evaluated.
pub fn get_adjacent_tiles(map: &Vec<Vec<Option<Tile>>>, tile: (usize, usize)) -> (ret: Vec<
    (usize, usize),
>)
    requires
        grid_square(map@),
        in_bounds(map@, tile.0 as int, tile.1 as int),
    ensures
        ret@ =~= adjacent_observed(map@, tile.0 as int, tile.1 as int),
        forall|k: int|
            0 <= k < ret@.len() ==> observed(
                map@,
                (#[trigger] ret@[k]).0 as int,
                ret@[k].1 as int,
            ),
{
    let mut ret: Vec<(usize, usize)> = Vec::new();

    let (row, col) = tile;
    let size = map.len();

    if col + 1 < size && map[row][col + 1].is_some() {
        ret.push((row, col + 1));
    }

    if row + 1 < size && map[row + 1][col].is_some() {
        ret.push((row + 1, col));
    }

    if col > 0 && map[row][col - 1].is_some() {
        ret.push((row, col - 1));
    }

    if row > 0 && map[row - 1][col].is_some() {
        ret.push((row - 1, col));
    }

    ret
}

/// Collects every observed cell matching the optional classification and
/// content filters, scanning the grid in row-major order.
pub fn get_specific_tiles(
    map: &Vec<Vec<Option<Tile>>>,
    tile_type: &Option<PlainTileType>,
    content: &Option<PlainContent>,
) -> (ret: Vec<(usize, usize)>)
    requires
        grid_square(map@),
    ensures
        forall|k: int|
            0 <= k < ret@.len() ==> cell_matches(
                map@,
                *tile_type,
                *content,
                (#[trigger] ret@[k]).0 as int,
                ret@[k].1 as int,
            ),
        forall|r: int, c: int|
            #[trigger] cell_matches(map@, *tile_type, *content, r, c) ==> ret@.contains(
                (r as usize, c as usize),
            ),
        forall|i: int, j: int|
            0 <= i < j < ret@.len() ==> row_major_less(#[trigger] ret@[i], #[trigger] ret@[j]),
{
    let mut ret: Vec<(usize, usize)> = Vec::new();

    let size = map.len();

    let mut row: usize = 0;
    while row < size
        invariant
            grid_square(map@),
            size == map@.len(),
            row <= size,
            forall|k: int|
                0 <= k < ret@.len() ==> cell_matches(
                    map@,
                    *tile_type,
                    *content,
                    (#[trigger] ret@[k]).0 as int,
                    ret@[k].1 as int,
                ),
            forall|r: int, c: int|
                0 <= r < row && 0 <= c < size && #[trigger] cell_matches(
                    map@,
                    *tile_type,
                    *content,
                    r,
                    c,
                ) ==> ret@.contains((r as usize, c as usize)),
            forall|i: int, j: int|
                0 <= i < j < ret@.len() ==> row_major_less(#[trigger] ret@[i], #[trigger] ret@[j]),
            forall|k: int| 0 <= k < ret@.len() ==> (#[trigger] ret@[k]).0 < row,
        decreases size - row,
    {
        let mut col: usize = 0;
        while col < size
            invariant
                grid_square(map@),
                size == map@.len(),
                row < size,
                col <= size,
                forall|k: int|
                    0 <= k < ret@.len() ==> cell_matches(
                        map@,
                        *tile_type,
                        *content,
                        (#[trigger] ret@[k]).0 as int,
                        ret@[k].1 as int,
                    ),
                forall|r: int, c: int|
                    0 <= r < row && 0 <= c < size && #[trigger] cell_matches(
                        map@,
                        *tile_type,
                        *content,
                        r,
                        c,
                    ) ==> ret@.contains((r as usize, c as usize)),
                forall|c: int|
                    0 <= c < col && #[trigger] cell_matches(
                        map@,
                        *tile_type,
                        *content,
                        row as int,
                        c,
                    ) ==> ret@.contains((row as usize, c as usize)),
                forall|i: int, j: int|
                    0 <= i < j < ret@.len() ==> row_major_less(
                        #[trigger] ret@[i],
                        #[trigger] ret@[j],
                    ),
                forall|k: int|
                    0 <= k < ret@.len() ==> row_major_less(#[trigger] ret@[k], (row, col)),
            decreases size - col,
        {
            let cell = map[row][col];
            if let Some(tile) = cell {
                let mut control = true;

                if let Some(plain_tile_type) = tile_type {
                    if !plain_tile_type.eq_tile_type(&tile.tile_type) {
                        control = false;
                    }
                }

                if let Some(plain_content) = content {
                    if !plain_content.eq_content(&tile.content) {
                        control = false;
                    }
                }

                if control {
                    proof {
                        assert(cell_matches(map@, *tile_type, *content, row as int, col as int));
                    }
                    let ghost old_ret = ret@;
                    ret.push((row, col));
                    proof {
                        assert forall|x: (usize, usize)| #[trigger]
                            old_ret.contains(x) implies ret@.contains(x) by {
                            let i = choose|i: int| 0 <= i < old_ret.len() && old_ret[i] == x;
                            assert(ret@[i] == x);
                        }
                        assert(ret@[ret@.len() - 1] == (row, col));
                        assert(ret@.contains((row, col)));
                    }
                }
            }
            col = col + 1;
        }
        row = row + 1;
    }

    ret
}

pub(crate) proof fn lemma_push_keeps_contains<T>(s: Seq<T>, x: T, e: T)
    requires
        s.contains(x),
    ensures
        s.push(e).contains(x),
{
    let j = choose|j: int| 0 <= j < s.len() && s[j] == x;
    assert(s.push(e)[j] == x);
}

/// Collects every observed cell classified as an active teleport, scanning
/// the grid in row-major order. The collection is invariant for the
/// duration of one search, so the engine computes it once per call, not
/// once per relaxation.
pub fn active_teleports(map: &Vec<Vec<Option<Tile>>>) -> (ret: Vec<(usize, usize)>)
    requires
        grid_square(map@),
    ensures
        forall|k: int|
            0 <= k < ret@.len() ==> active_teleport(
                map@,
                (#[trigger] ret@[k]).0 as int,
                ret@[k].1 as int,
            ),
        forall|r: int, c: int|
            #[trigger] active_teleport(map@, r, c) ==> ret@.contains(((r as usize, c as usize))),
        forall|i: int, j: int|
            0 <= i < j < ret@.len() ==> row_major_less(#[trigger] ret@[i], #[trigger] ret@[j]),
{
    let mut ret: Vec<(usize, usize)> = Vec::new();

    let size = map.len();

    let mut row: usize = 0;
    while row < size
        invariant
            grid_square(map@),
            size == map@.len(),
            row <= size,
            forall|k: int|
                0 <= k < ret@.len() ==> active_teleport(
                    map@,
                    (#[trigger] ret@[k]).0 as int,
                    ret@[k].1 as int,
                ),
            forall|r: int, c: int|
                0 <= r < row && 0 <= c < size && #[trigger] active_teleport(map@, r, c)
                    ==> ret@.contains(((r as usize, c as usize))),
            forall|i: int, j: int|
                0 <= i < j < ret@.len() ==> row_major_less(#[trigger] ret@[i], #[trigger] ret@[j]),
            forall|k: int| 0 <= k < ret@.len() ==> (#[trigger] ret@[k]).0 < row,
        decreases size - row,
    {
        let mut col: usize = 0;
        while col < size
            invariant
                grid_square(map@),
                size == map@.len(),
                row < size,
                col <= size,
                forall|k: int|
                    0 <= k < ret@.len() ==> active_teleport(
                        map@,
                        (#[trigger] ret@[k]).0 as int,
                        ret@[k].1 as int,
                    ),
                forall|r: int, c: int|
                    0 <= r < row && 0 <= c < size && #[trigger] active_teleport(map@, r, c)
                        ==> ret@.contains(((r as usize, c as usize))),
                forall|c2: int|
                    0 <= c2 < col && #[trigger] active_teleport(map@, row as int, c2)
                        ==> ret@.contains(((row as usize, c2 as usize))),
                forall|i: int, j: int|
                    0 <= i < j < ret@.len() ==> row_major_less(
                        #[trigger] ret@[i],
                        #[trigger] ret@[j],
                    ),
                forall|k: int|
                    0 <= k < ret@.len() ==> row_major_less(#[trigger] ret@[k], (row, col)),
            decreases size - col,
        {
            let cell = map[row][col];
            if let Some(tile) = cell {
                if tile.tile_type == TileKind::Teleport(true) {
                    let ghost old_ret = ret@;
                    ret.push((row, col));
                    proof {
                        assert forall|x: (usize, usize)| #[trigger]
                            old_ret.contains(x) implies ret@.contains(x) by {
                            lemma_push_keeps_contains(old_ret, x, (row, col));
                        }
                        assert(ret@[ret@.len() - 1] == (row, col));
                        assert(ret@.contains((row, col)));
                    }
                }
            }
            col = col + 1;
        }
        row = row + 1;
    }

    ret
}

/// The energy cost of one orthogonal step from `source` in `direction`, or
/// the reason that edge is inadmissible. Checked in order: the host's
/// permission, then observability of both endpoints, then walkability of the
/// destination tile. On success the cost is the policy's base cost for the
/// destination tile plus the quadratic elevation penalty, saturated at
/// `usize::MAX`.
pub fn calculate_go_cost(
    map: &Vec<Vec<Option<Tile>>>,
    model: &CostModel,
    permits: &Vec<Vec<StepPermission>>,
    source: (usize, usize),
    direction: Direction,
) -> (r: Result<usize, EdgeDenied>)
    requires
        grid_square(map@),
        permits_square(permits@, map@.len() as int),
        in_bounds(map@, source.0 as int, source.1 as int),
        go_move_in_bounds(map@, source.0 as int, source.1 as int, direction),
    ensures
        (r is Ok) == (go_edge_weight(
            map@,
            *model,
            permits@,
            source.0 as int,
            source.1 as int,
            direction,
        ) is Some),
        r is Ok ==> r->Ok_0 == sat_cap(
            go_edge_weight(
                map@,
                *model,
                permits@,
                source.0 as int,
                source.1 as int,
                direction,
            )->0,
        ),
        !move_permitted(permits@, source.0 as int, source.1 as int, direction) ==> r == Result::<
            usize,
            EdgeDenied,
        >::Err(EdgeDenied::PermissionDenied),
        move_permitted(permits@, source.0 as int, source.1 as int, direction) && !observed(
            map@,
            source.0 as int,
            source.1 as int,
        ) ==> r == Result::<usize, EdgeDenied>::Err(EdgeDenied::SourceUnobserved),
        move_permitted(permits@, source.0 as int, source.1 as int, direction) && observed(
            map@,
            source.0 as int,
            source.1 as int,
        ) && !observed(
            map@,
            go_target(source.0 as int, source.1 as int, direction).0,
            go_target(source.0 as int, source.1 as int, direction).1,
        ) ==> r == Result::<usize, EdgeDenied>::Err(EdgeDenied::DestinationUnobserved),
        move_permitted(permits@, source.0 as int, source.1 as int, direction) && observed(
            map@,
            source.0 as int,
            source.1 as int,
        ) && observed(
            map@,
            go_target(source.0 as int, source.1 as int, direction).0,
            go_target(source.0 as int, source.1 as int, direction).1,
        ) && !model.spec_props(
            tile_at(
                map@,
                go_target(source.0 as int, source.1 as int, direction).0,
                go_target(source.0 as int, source.1 as int, direction).1,
            ).tile_type,
        ).walk ==> r == Result::<usize, EdgeDenied>::Err(EdgeDenied::DestinationNotWalkable),
{
    let size = map.len();
    proof {
        assert(map@.len() == size);
    }

    let (source_row, source_col) = source;
    let (destination_row, destination_col) = get_coords_row_col(source, direction);

    if !permits[source_row][source_col].allows(direction) {
        return Err(EdgeDenied::PermissionDenied);
    }

    if map[source_row][source_col].is_none() {
        return Err(EdgeDenied::SourceUnobserved);
    }

    if map[destination_row][destination_col].is_none() {
        return Err(EdgeDenied::DestinationUnobserved);
    }

    let source_tile = map[source_row][source_col].unwrap();
    let destination_tile = map[destination_row][destination_col].unwrap();

    let props = model.props(destination_tile.tile_type);
    if !props.walk {
        return Err(EdgeDenied::DestinationNotWalkable);
    }

    let base_cost = props.cost;

    let elevation_cost: usize = if destination_tile.elevation > source_tile.elevation {
        let diff = destination_tile.elevation - source_tile.elevation;
        assert((diff as u128) * (diff as u128) <= u128::MAX) by (nonlinear_arith)
            requires
                diff as u128 <= 0xFFFF_FFFF_FFFF_FFFFu128,
        ;
        let squared = (diff as u128) * (diff as u128);
        if squared <= usize::MAX as u128 {
            squared as usize
        } else {
            usize::MAX
        }
    } else {
        0
    };

    proof {
        assert(elevation_cost == sat_cap(
            elevation_penalty(source_tile.elevation as int, destination_tile.elevation as int),
        ));
    }

    if base_cost <= usize::MAX - elevation_cost {
        Ok(base_cost + elevation_cost)
    } else {
        Ok(usize::MAX)
    }
}

/// The energy cost of the teleport jump from `source` to `destination`, or
/// the reason that edge is inadmissible: each endpoint must lie inside the
/// grid, be observed, and be classified as an active teleport. On success
/// the cost is the fixed [`TELEPORT_COST`], regardless of grid distance.
pub fn calculate_teleport_cost(
    map: &Vec<Vec<Option<Tile>>>,
    source: (usize, usize),
    destination: (usize, usize),
) -> (r: Result<usize, EdgeDenied>)
    requires
        grid_square(map@),
    ensures
        (r is Ok) == (active_teleport(map@, source.0 as int, source.1 as int) && active_teleport(
            map@,
            destination.0 as int,
            destination.1 as int,
        )),
        r is Ok ==> r->Ok_0 == TELEPORT_COST,
        !in_bounds(map@, source.0 as int, source.1 as int) ==> r == Result::<
            usize,
            EdgeDenied,
        >::Err(EdgeDenied::SourceOutOfBounds),
        in_bounds(map@, source.0 as int, source.1 as int) && !in_bounds(
            map@,
            destination.0 as int,
            destination.1 as int,
        ) ==> r == Result::<usize, EdgeDenied>::Err(EdgeDenied::DestinationOutOfBounds),
        in_bounds(map@, source.0 as int, source.1 as int) && in_bounds(
            map@,
            destination.0 as int,
            destination.1 as int,
        ) && !observed(map@, source.0 as int, source.1 as int) ==> r == Result::<
            usize,
            EdgeDenied,
        >::Err(EdgeDenied::SourceUnobserved),
        observed(map@, source.0 as int, source.1 as int) && in_bounds(
            map@,
            destination.0 as int,
            destination.1 as int,
        ) && !active_teleport(map@, source.0 as int, source.1 as int) ==> r == Result::<
            usize,
            EdgeDenied,
        >::Err(EdgeDenied::SourceNotTeleport),
        active_teleport(map@, source.0 as int, source.1 as int) && in_bounds(
            map@,
            destination.0 as int,
            destination.1 as int,
        ) && !observed(map@, destination.0 as int, destination.1 as int) ==> r == Result::<
            usize,
            EdgeDenied,
        >::Err(EdgeDenied::DestinationUnobserved),
        active_teleport(map@, source.0 as int, source.1 as int) && observed(
            map@,
            destination.0 as int,
            destination.1 as int,
        ) && !active_teleport(map@, destination.0 as int, destination.1 as int) ==> r == Result::<
            usize,
            EdgeDenied,
        >::Err(EdgeDenied::DestinationNotTeleport),
{
    let size = map.len();

    let (source_row, source_col) = source;
    let (destination_row, destination_col) = destination;

    if source_row >= size || source_col >= size {
        return Err(EdgeDenied::SourceOutOfBounds);
    }

    if destination_row >= size || destination_col >= size {
        return Err(EdgeDenied::DestinationOutOfBounds);
    }

    match &map[source_row][source_col] {
        None => {
            return Err(EdgeDenied::SourceUnobserved);
        },
        Some(tile) => {
            if tile.tile_type != TileKind::Teleport(true) {
                return Err(EdgeDenied::SourceNotTeleport);
            }
        },
    }

    match &map[destination_row][destination_col] {
        None => {
            return Err(EdgeDenied::DestinationUnobserved);
        },
        Some(tile) => {
            if tile.tile_type != TileKind::Teleport(true) {
                return Err(EdgeDenied::DestinationNotTeleport);
            }
        },
    }

    Ok(TELEPORT_COST)
}

} // verus!
