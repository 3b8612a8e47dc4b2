//! A single-source, multi-target shortest-path engine over a partially
//! observed square grid. Edge costs are computed per step from tile
//! properties and elevation difference through an injected cost policy, and
//! active teleport cells form all-pairs shortcut edges of fixed cost. The
//! engine returns not just a cost but the ordered action sequence that
//! realizes it.

use vstd::prelude::*;

pub mod dijkstra;
pub mod error;
pub mod path;
pub mod plain;
pub mod policy;
pub mod tile;
pub mod utils;

use crate::dijkstra::{search_post, target_set_of};
use crate::error::PathError;
use crate::path::Path;
use crate::plain::{PlainContent, PlainTileType};
use crate::policy::{permits_square, CostModel, StepPermission};
use crate::tile::{grid_square, in_bounds, observed, Tile};
use crate::utils::{adjacent_observed, cell_matches, get_adjacent_tiles, get_specific_tiles};

verus! {

/// The navigation tool: resolves a requested destination, or a tile filter,
/// into a target set and finds the cheapest path to it over the observed
/// map, the injected cost policy and the host's step permissions.
pub struct TomTom {}

impl TomTom {
    /// The target set a coordinate request stands for: the destination cell
    /// itself, or, with `adjacent`, its observed orthogonal neighbors.
    pub open spec fn coordinate_targets(
        g: Seq<Vec<Option<Tile>>>,
        adjacent: bool,
        destination: (usize, usize),
    ) -> Set<(usize, usize)> {
        if adjacent {
            target_set_of(adjacent_observed(g, destination.0 as int, destination.1 as int))
        } else {
            target_set_of(seq![destination])
        }
    }

    /// The target set a tile filter stands for: every observed cell matching
    /// the optional classification and content filters, or, with `adjacent`,
    /// the observed orthogonal neighbors of every matching cell.
    pub open spec fn tile_targets(
        g: Seq<Vec<Option<Tile>>>,
        adjacent: bool,
        tile_type: Option<PlainTileType>,
        content: Option<PlainContent>,
    ) -> Set<(usize, usize)> {
        if adjacent {
            Set::new(
                |t: (usize, usize)|
                    exists|r: int, c: int|
                        #[trigger] cell_matches(g, tile_type, content, r, c) && adjacent_observed(
                            g,
                            r,
                            c,
                        ).contains(t),
            )
        } else {
            Set::new(|t: (usize, usize)| cell_matches(g, tile_type, content, t.0 as int, t.1 as int))
        }
    }

    /// Returns the path of smallest energy cost from `source` to the
    /// destination cell (or, with `adjacent`, to the nearest observed
    /// neighbor of it), considering walkability, per-tile step costs,
    /// elevation penalties, host permissions and teleports.
    pub fn get_path_to_coordinates(
        map: &Vec<Vec<Option<Tile>>>,
        model: &CostModel,
        permits: &Vec<Vec<StepPermission>>,
        source: (usize, usize),
        adjacent: bool,
        destination: (usize, usize),
    ) -> (r: Result<Path, PathError>)
        requires
            grid_square(map@),
            map@.len() * map@.len() <= usize::MAX,
            permits_square(permits@, map@.len() as int),
            in_bounds(map@, destination.0 as int, destination.1 as int),
        ensures
            search_post(
                map@,
                *model,
                permits@,
                source,
                TomTom::coordinate_targets(map@, adjacent, destination),
                r,
            ),
    {
        let mut targets: Vec<(usize, usize)> = Vec::new();

        if adjacent {
            let mut adj = get_adjacent_tiles(map, destination);
            targets.append(&mut adj);
            proof {
                assert(targets@ =~= adjacent_observed(
                    map@,
                    destination.0 as int,
                    destination.1 as int,
                ));
            }
        } else {
            targets.push(destination);
            proof {
                assert(targets@ =~= seq![destination]);
            }
        }

        proof {
            assert(target_set_of(targets@) =~= TomTom::coordinate_targets(
                map@,
                adjacent,
                destination,
            ));
        }

        dijkstra::dijkstra(map, model, permits, source, &targets)
    }

    /// Returns the path of smallest energy cost from `source` to the nearest
    /// observed cell matching the optional tile classification and content
    /// filters (or, with `adjacent`, to the nearest observed neighbor of a
    /// matching cell), considering walkability, per-tile step costs,
    /// elevation penalties, host permissions and teleports.
    pub fn get_path_to_tile(
        map: &Vec<Vec<Option<Tile>>>,
        model: &CostModel,
        permits: &Vec<Vec<StepPermission>>,
        source: (usize, usize),
        adjacent: bool,
        tile_type: Option<PlainTileType>,
        content: Option<PlainContent>,
    ) -> (r: Result<Path, PathError>)
        requires
            grid_square(map@),
            map@.len() * map@.len() <= usize::MAX,
            permits_square(permits@, map@.len() as int),
        ensures
            search_post(
                map@,
                *model,
                permits@,
                source,
                TomTom::tile_targets(map@, adjacent, tile_type, content),
                r,
            ),
    {
        let ghost tset = TomTom::tile_targets(map@, adjacent, tile_type, content);

        let destinations = get_specific_tiles(map, &tile_type, &content);
        let mut targets: Vec<(usize, usize)> = Vec::new();

        let mut i: usize = 0;
        while i < destinations.len()
            invariant
                grid_square(map@),
                tset == TomTom::tile_targets(map@, adjacent, tile_type, content),
                i <= destinations@.len(),
                forall|k: int|
                    0 <= k < destinations@.len() ==> cell_matches(
                        map@,
                        tile_type,
                        content,
                        (#[trigger] destinations@[k]).0 as int,
                        destinations@[k].1 as int,
                    ),
                forall|k: int| 0 <= k < targets@.len() ==> tset.contains(#[trigger] targets@[k]),
                forall|k: int|
                    0 <= k < targets@.len() ==> in_bounds(
                        map@,
                        (#[trigger] targets@[k]).0 as int,
                        targets@[k].1 as int,
                    ),
                adjacent ==> forall|j: int, t: (usize, usize)|
                    0 <= j < i && (#[trigger] adjacent_observed(
                        map@,
                        (destinations@[j]).0 as int,
                        destinations@[j].1 as int,
                    ).contains(t)) ==> targets@.contains(t),
                !adjacent ==> targets@ =~= destinations@.subrange(0, i as int),
            decreases destinations@.len() - i,
        {
            let destination = destinations[i];
            let ghost t_old = targets@;

            if adjacent {
                let mut adj = get_adjacent_tiles(map, destination);
                let ghost adj_view = adj@;
                targets.append(&mut adj);
                proof {
                    let dr = destination.0 as int;
                    let dc = destination.1 as int;
                    assert(cell_matches(map@, tile_type, content, dr, dc));
                    assert forall|k: int| 0 <= k < targets@.len() implies tset.contains(
                        #[trigger] targets@[k],
                    ) by {
                        if k < t_old.len() {
                            assert(targets@[k] == t_old[k]);
                        } else {
                            assert(targets@[k] == adj_view[k - t_old.len()]);
                            assert(adjacent_observed(map@, dr, dc).contains(targets@[k]));
                        }
                    }
                    assert forall|k: int| 0 <= k < targets@.len() implies in_bounds(
                        map@,
                        (#[trigger] targets@[k]).0 as int,
                        targets@[k].1 as int,
                    ) by {
                        if k < t_old.len() {
                            assert(targets@[k] == t_old[k]);
                        } else {
                            assert(targets@[k] == adj_view[k - t_old.len()]);
                        }
                    }
                    assert forall|j: int, t: (usize, usize)|
                        0 <= j < i + 1 && (#[trigger] adjacent_observed(
                            map@,
                            (destinations@[j]).0 as int,
                            destinations@[j].1 as int,
                        ).contains(t)) implies targets@.contains(t) by {
                        if j < i {
                            let m = choose|m: int| 0 <= m < t_old.len() && t_old[m] == t;
                            assert(targets@[m] == t);
                        } else {
                            let m = choose|m: int| 0 <= m < adj_view.len() && adj_view[m] == t;
                            assert(targets@[t_old.len() + m] == t);
                        }
                    }
                }
            } else {
                targets.push(destination);
                proof {
                    assert(tset.contains(destination));
                    assert(targets@ =~= destinations@.subrange(0, i as int + 1));
                }
            }
            i = i + 1;
        }

        proof {
            assert forall|t: (usize, usize)| tset.contains(t) implies target_set_of(
                targets@,
            ).contains(t) by {
                if adjacent {
                    let (r, c) = choose|r: int, c: int|
                        #[trigger] cell_matches(map@, tile_type, content, r, c)
                            && adjacent_observed(map@, r, c).contains(t);
                    assert(observed(map@, r, c));
                    assert(map@.len() <= usize::MAX) by (nonlinear_arith)
                        requires
                            map@.len() * map@.len() <= usize::MAX,
                    ;
                    assert(destinations@.contains(((r as usize, c as usize))));
                    let j = choose|j: int|
                        0 <= j < destinations@.len() && destinations@[j] == ((
                            r as usize,
                            c as usize,
                        ));
                    assert(destinations@[j].0 as int == r && destinations@[j].1 as int == c);
                    assert(adjacent_observed(
                        map@,
                        destinations@[j].0 as int,
                        destinations@[j].1 as int,
                    ).contains(t));
                    assert(targets@.contains(t));
                } else {
                    assert(cell_matches(map@, tile_type, content, t.0 as int, t.1 as int));
                    assert(destinations@.contains(t));
                    assert(destinations@.subrange(0, destinations@.len() as int)
                        =~= destinations@);
                    assert(targets@.contains(t));
                }
            }
            assert(target_set_of(targets@) =~= tset);
        }

        dijkstra::dijkstra(map, model, permits, source, &targets)
    }
}

} // verus!
