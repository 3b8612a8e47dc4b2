//! The search engine: single-source, multi-target Dijkstra over the grid
//! graph of observed cells, with teleport shortcut edges.
//!
//! The per-call working state is a flat arena of tentative [`Path`] records,
//! one per cell, indexed by `row * n + col`, and a frontier of
//! `(cell, distance)` entries popped in order of minimum distance. A popped
//! entry whose distance no longer matches the cell's tentative cost is stale
//! and discarded. The search always runs the reachable component to
//! exhaustion; the result for a target set is extracted from the finished
//! table afterwards.

use vstd::prelude::*;

use crate::error::PathError;
use crate::path::{Action, Direction, Path};
use crate::policy::{permits_square, CostModel, StepPermission};
use crate::tile::{active_teleport, grid_square, in_bounds, Tile, TileKind};
use crate::utils::{
    active_teleports, calculate_go_cost, calculate_teleport_cost, get_coords_row_col,
    go_edge_weight, go_target, lemma_push_keeps_contains, path_result, sat_cap, step_result,
    TELEPORT_COST,
};

verus! {

/// A frontier entry: a cell together with the tentative distance it was
/// pushed with.
struct State {
    node: (usize, usize),
    distance: usize,
}

/// The flat arena index of cell `(r, c)` in an `n x n` grid.
pub open spec fn cell_index(n: int, r: int, c: int) -> int {
    r * n + c
}

proof fn lemma_cell_index_bounds(n: int, r: int, c: int)
    requires
        0 <= r < n,
        0 <= c < n,
    ensures
        0 <= cell_index(n, r, c) < n * n,
{
    assert(0 <= r * n + c < n * n) by (nonlinear_arith)
        requires
            0 <= r < n,
            0 <= c < n,
    ;
}

proof fn lemma_cell_index_injective(n: int, r1: int, c1: int, r2: int, c2: int)
    requires
        0 <= r1 < n,
        0 <= c1 < n,
        0 <= r2 < n,
        0 <= c2 < n,
        cell_index(n, r1, c1) == cell_index(n, r2, c2),
    ensures
        r1 == r2,
        c1 == c2,
{
    assert(r1 == r2 && c1 == c2) by (nonlinear_arith)
        requires
            0 <= r1 < n,
            0 <= c1 < n,
            0 <= r2 < n,
            0 <= c2 < n,
            r1 * n + c1 == r2 * n + c2,
    ;
}

/// The tentative cost recorded for cell `(r, c)`, as a mathematical integer.
pub open spec fn cost_at(n: int, tbl: Seq<Path>, r: int, c: int) -> int {
    tbl[cell_index(n, r, c)].cost as int
}

/// Bookkeeping shape of the arena: one entry per cell of the square grid,
/// each carrying the search's source and its own cell as destination.
pub open spec fn table_wf(n: int, src: (usize, usize), tbl: Seq<Path>) -> bool {
    &&& tbl.len() == n * n
    &&& forall|r: int, c: int|
        0 <= r < n && 0 <= c < n ==> (#[trigger] tbl[cell_index(n, r, c)]).source == src
            && tbl[cell_index(n, r, c)].destination == ((r as usize, c as usize))
}

/// Every tentative entry below the sentinel is witnessed by its own action
/// sequence: replaying the recorded actions from the source reaches the
/// entry's cell at exactly the entry's cost.
pub open spec fn entry_ok(
    g: Seq<Vec<Option<Tile>>>,
    model: CostModel,
    permits: Seq<Vec<StepPermission>>,
    src: (usize, usize),
    tbl: Seq<Path>,
    r: int,
    c: int,
) -> bool {
    let p = tbl[cell_index(g.len() as int, r, c)];
    p.cost < usize::MAX ==> path_result(g, model, permits, src.0 as int, src.1 as int, p.actions@)
        == Some((((r, c), p.cost as nat)))
}

/// [`entry_ok`] holds for every cell.
pub open spec fn table_entries_ok(
    g: Seq<Vec<Option<Tile>>>,
    model: CostModel,
    permits: Seq<Vec<StepPermission>>,
    src: (usize, usize),
    tbl: Seq<Path>,
) -> bool {
    forall|r: int, c: int|
        0 <= r < g.len() && 0 <= c < g.len() ==> #[trigger] entry_ok(g, model, permits, src, tbl, r, c)
}

/// Every edge out of cell `(r, c)` has been relaxed: no edge from it can
/// still improve its endpoint's tentative cost.
pub open spec fn cell_relaxed(
    g: Seq<Vec<Option<Tile>>>,
    model: CostModel,
    permits: Seq<Vec<StepPermission>>,
    tbl: Seq<Path>,
    r: int,
    c: int,
) -> bool {
    &&& forall|d: Direction|
        (#[trigger] go_edge_weight(g, model, permits, r, c, d)) is Some ==> cost_at(
            g.len() as int,
            tbl,
            go_target(r, c, d).0,
            go_target(r, c, d).1,
        ) <= cost_at(g.len() as int, tbl, r, c) + go_edge_weight(g, model, permits, r, c, d)->0
    &&& active_teleport(g, r, c) ==> forall|tr: int, tc: int|
        #[trigger] active_teleport(g, tr, tc) ==> cost_at(g.len() as int, tbl, tr, tc) <= cost_at(
            g.len() as int,
            tbl,
            r,
            c,
        ) + TELEPORT_COST
}

/// The table is a fixed point of relaxation: re-running relaxation on it
/// cannot change any entry.
pub open spec fn table_relaxed(
    g: Seq<Vec<Option<Tile>>>,
    model: CostModel,
    permits: Seq<Vec<StepPermission>>,
    tbl: Seq<Path>,
) -> bool {
    forall|r: int, c: int|
        0 <= r < g.len() && 0 <= c < g.len() ==> #[trigger] cell_relaxed(g, model, permits, tbl, r, c)
}

/// Every frontier entry names a cell inside the grid.
spec fn frontier_nodes_ok(g: Seq<Vec<Option<Tile>>>, fr: Seq<State>) -> bool {
    forall|i: int|
        0 <= i < fr.len() ==> in_bounds(
            g,
            (#[trigger] fr[i]).node.0 as int,
            fr[i].node.1 as int,
        )
}

/// Cell `(r, c)` is accounted for: either all its edges are already
/// relaxed, or the frontier still holds an entry for it at its current
/// tentative cost, so the main loop will relax them before finishing.
spec fn cell_covered(
    g: Seq<Vec<Option<Tile>>>,
    model: CostModel,
    permits: Seq<Vec<StepPermission>>,
    tbl: Seq<Path>,
    fr: Seq<State>,
    r: int,
    c: int,
) -> bool {
    cell_relaxed(g, model, permits, tbl, r, c) || fr.contains(
        (State {
            node: (r as usize, c as usize),
            distance: tbl[cell_index(g.len() as int, r, c)].cost,
        }),
    )
}

/// Every frontier entry carries a distance below the unreachable sentinel.
spec fn frontier_dists_ok(fr: Seq<State>) -> bool {
    forall|i: int| 0 <= i < fr.len() ==> (#[trigger] fr[i]).distance < usize::MAX
}

/// [`cell_covered`] holds for every cell.
spec fn frontier_covers(
    g: Seq<Vec<Option<Tile>>>,
    model: CostModel,
    permits: Seq<Vec<StepPermission>>,
    tbl: Seq<Path>,
    fr: Seq<State>,
) -> bool {
    forall|r: int, c: int|
        0 <= r < g.len() && 0 <= c < g.len() ==> #[trigger] cell_covered(
            g,
            model,
            permits,
            tbl,
            fr,
            r,
            c,
        )
}

/// The sum of all tentative costs, the decreasing measure of the main loop:
/// a relaxation strictly lowers it, and a pop without relaxation shortens
/// the frontier.
spec fn sum_costs(tbl: Seq<Path>) -> nat
    decreases tbl.len(),
{
    if tbl.len() == 0 {
        0
    } else {
        (sum_costs(tbl.drop_last()) + tbl.last().cost) as nat
    }
}

proof fn lemma_sum_update(tbl: Seq<Path>, i: int, p: Path)
    requires
        0 <= i < tbl.len(),
    ensures
        sum_costs(tbl.update(i, p)) + tbl[i].cost == sum_costs(tbl) + p.cost,
    decreases tbl.len(),
{
    let t2 = tbl.update(i, p);
    if i == tbl.len() - 1 {
        assert(t2.drop_last() =~= tbl.drop_last());
        assert(t2.last() == p);
    } else {
        lemma_sum_update(tbl.drop_last(), i, p);
        assert(t2.drop_last() =~= tbl.drop_last().update(i, p));
        assert(t2.last() == tbl.last());
    }
}

proof fn lemma_frontier_facts_carry(g: Seq<Vec<Option<Tile>>>, f_old: Seq<State>, f_new: Seq<State>)
    requires
        frontier_nodes_ok(g, f_old),
        frontier_dists_ok(f_old),
        forall|x: State| f_new.contains(x) ==> f_old.contains(x),
    ensures
        frontier_nodes_ok(g, f_new),
        frontier_dists_ok(f_new),
{
    assert forall|i: int| 0 <= i < f_new.len() implies in_bounds(
        g,
        (#[trigger] f_new[i]).node.0 as int,
        f_new[i].node.1 as int,
    ) by {
        assert(f_new.contains(f_new[i]));
        let j = choose|j: int| 0 <= j < f_old.len() && f_old[j] == f_new[i];
        assert(f_old[j] == f_new[i]);
    }
    assert forall|i: int| 0 <= i < f_new.len() implies (#[trigger] f_new[i]).distance
        < usize::MAX by {
        assert(f_new.contains(f_new[i]));
        let j = choose|j: int| 0 <= j < f_old.len() && f_old[j] == f_new[i];
        assert(f_old[j] == f_new[i]);
    }
}

/// One relaxation of the single edge `u -> v` realized by `action`, whose
/// exact weight is `step_result(..)`, with `w` its saturated value: if going
/// through `u` improves on `v`'s tentative cost, `v`'s entry is rebuilt from
/// `u`'s by appending `action` and `v` is pushed onto the frontier;
/// otherwise nothing changes. A relaxation never increases any recorded
/// cost.
fn relax(
    map: &Vec<Vec<Option<Tile>>>,
    model: &CostModel,
    permits: &Vec<Vec<StepPermission>>,
    source: (usize, usize),
    table: &mut Vec<Path>,
    frontier: &mut Vec<State>,
    u: (usize, usize),
    distance: usize,
    action: Action,
    v: (usize, usize),
    w: usize,
)
    requires
        grid_square(map@),
        map@.len() * map@.len() <= usize::MAX,
        in_bounds(map@, u.0 as int, u.1 as int),
        in_bounds(map@, v.0 as int, v.1 as int),
        table_wf(map@.len() as int, source, old(table)@),
        table_entries_ok(map@, *model, permits@, source, old(table)@),
        frontier_nodes_ok(map@, old(frontier)@),
        frontier_dists_ok(old(frontier)@),
        step_result(map@, *model, permits@, u.0 as int, u.1 as int, action) is Some,
        (step_result(map@, *model, permits@, u.0 as int, u.1 as int, action)->0).0 == ((
            v.0 as int,
            v.1 as int,
        )),
        w == sat_cap((step_result(map@, *model, permits@, u.0 as int, u.1 as int, action)->0).1),
        distance < usize::MAX,
        distance == cost_at(map@.len() as int, old(table)@, u.0 as int, u.1 as int),
    ensures
        final(table)@.len() == old(table)@.len(),
        table_wf(map@.len() as int, source, final(table)@),
        table_entries_ok(map@, *model, permits@, source, final(table)@),
        frontier_nodes_ok(map@, final(frontier)@),
        frontier_dists_ok(final(frontier)@),
        forall|i: int|
            0 <= i < final(table)@.len() ==> (#[trigger] final(table)@[i]).cost <= old(
                table,
            )@[i].cost,
        forall|i: int|
            0 <= i < final(table)@.len() ==> (#[trigger] final(table)@[i]) == old(table)@[i]
                || final(table)@[i].cost < old(table)@[i].cost,
        forall|i: int|
            0 <= i < final(table)@.len() && i != cell_index(
                map@.len() as int,
                v.0 as int,
                v.1 as int,
            ) ==> #[trigger] final(table)@[i] == old(table)@[i],
        final(table)@[cell_index(map@.len() as int, u.0 as int, u.1 as int)] == old(
            table,
        )@[cell_index(map@.len() as int, u.0 as int, u.1 as int)],
        cost_at(map@.len() as int, final(table)@, v.0 as int, v.1 as int) <= distance + (
        step_result(map@, *model, permits@, u.0 as int, u.1 as int, action)->0).1,
        forall|x: State| old(frontier)@.contains(x) ==> final(frontier)@.contains(x),
        forall|r: int, c: int|
            0 <= r < map@.len() && 0 <= c < map@.len() && cell_covered(
                map@,
                *model,
                permits@,
                old(table)@,
                old(frontier)@,
                r,
                c,
            ) ==> #[trigger] cell_covered(map@, *model, permits@, final(table)@, final(frontier)@, r, c),
        sum_costs(final(table)@) <= sum_costs(old(table)@),
        sum_costs(final(table)@) == sum_costs(old(table)@) ==> final(table)@ == old(table)@
            && final(frontier)@ == old(frontier)@,
{
    let n = map.len();
    proof {
        lemma_cell_index_bounds(n as int, u.0 as int, u.1 as int);
        lemma_cell_index_bounds(n as int, v.0 as int, v.1 as int);
    }
    let ui = u.0 * n + u.1;
    let vi = v.0 * n + v.1;

    let new_cost = if distance <= usize::MAX - w {
        distance + w
    } else {
        usize::MAX
    };

    if new_cost < table[vi].cost {
        let ghost t0 = table@;
        let ghost f0 = frontier@;
        let ghost gn = map@.len() as int;
        let ghost wt = (step_result(map@, *model, permits@, u.0 as int, u.1 as int, action)->0).1;

        let p = table[ui].extend(action, v, new_cost);
        table[vi] = p;
        frontier.push(State { node: v, distance: new_cost });

        proof {
            assert(new_cost == distance + wt);

            // the rebuilt entry is witnessed by its own actions
            let acts0 = t0[ui as int].actions@;
            assert(entry_ok(map@, *model, permits@, source, t0, u.0 as int, u.1 as int));
            assert(path_result(map@, *model, permits@, source.0 as int, source.1 as int, acts0)
                == Some((((u.0 as int, u.1 as int), distance as nat))));
            assert(p.actions@ =~= acts0.push(action));
            assert(acts0.push(action).drop_last() =~= acts0);
            assert(acts0.push(action).last() == action);
            assert(path_result(
                map@,
                *model,
                permits@,
                source.0 as int,
                source.1 as int,
                p.actions@,
            ) == Some((((v.0 as int, v.1 as int), new_cost as nat))));

            // pointwise effect of the single update
            assert(table@ =~= t0.update(vi as int, p));
            assert(forall|i: int|
                0 <= i < table@.len() && i != vi as int ==> #[trigger] table@[i] == t0[i]);
            assert(forall|i: int|
                0 <= i < table@.len() ==> (#[trigger] table@[i]).cost <= t0[i].cost);
            if ui == vi {
                lemma_cell_index_injective(gn, u.0 as int, u.1 as int, v.0 as int, v.1 as int);
                assert(false);
            }

            // shape of the arena is kept
            assert forall|r: int, c: int| 0 <= r < gn && 0 <= c < gn implies (#[trigger] table@[
                cell_index(gn, r, c)
            ]).source == source && table@[cell_index(gn, r, c)].destination == ((
                r as usize,
                c as usize,
            )) by {
                lemma_cell_index_bounds(gn, r, c);
                if cell_index(gn, r, c) == vi as int {
                    lemma_cell_index_injective(gn, r, c, v.0 as int, v.1 as int);
                }
            }

            // every entry is still witnessed
            assert forall|r: int, c: int| 0 <= r < gn && 0 <= c < gn implies #[trigger] entry_ok(
                map@,
                *model,
                permits@,
                source,
                table@,
                r,
                c,
            ) by {
                lemma_cell_index_bounds(gn, r, c);
                if cell_index(gn, r, c) == vi as int {
                    lemma_cell_index_injective(gn, r, c, v.0 as int, v.1 as int);
                    assert(table@[cell_index(gn, r, c)] == p);
                } else {
                    assert(table@[cell_index(gn, r, c)] == t0[cell_index(gn, r, c)]);
                    assert(entry_ok(map@, *model, permits@, source, t0, r, c));
                }
            }

            // coverage of every cell survives the update
            assert forall|r: int, c: int|
                0 <= r < gn && 0 <= c < gn && cell_covered(
                    map@,
                    *model,
                    permits@,
                    t0,
                    f0,
                    r,
                    c,
                ) implies #[trigger] cell_covered(
                map@,
                *model,
                permits@,
                table@,
                frontier@,
                r,
                c,
            ) by {
                lemma_cell_index_bounds(gn, r, c);
                if r == v.0 as int && c == v.1 as int {
                    assert(frontier@[frontier@.len() - 1] == (State {
                        node: (r as usize, c as usize),
                        distance: table@[cell_index(gn, r, c)].cost,
                    }));
                    assert(frontier@.contains(
                        (State {
                            node: (r as usize, c as usize),
                            distance: table@[cell_index(gn, r, c)].cost,
                        }),
                    ));
                } else {
                    if cell_index(gn, r, c) == vi as int {
                        lemma_cell_index_injective(gn, r, c, v.0 as int, v.1 as int);
                        assert(false);
                    }
                    assert(table@[cell_index(gn, r, c)] == t0[cell_index(gn, r, c)]);
                    if cell_relaxed(map@, *model, permits@, t0, r, c) {
                        assert forall|d: Direction|
                            (#[trigger] go_edge_weight(map@, *model, permits@, r, c, d))
                                is Some implies cost_at(
                            gn,
                            table@,
                            go_target(r, c, d).0,
                            go_target(r, c, d).1,
                        ) <= cost_at(gn, table@, r, c) + go_edge_weight(
                            map@,
                            *model,
                            permits@,
                            r,
                            c,
                            d,
                        )->0 by {
                            let t = go_target(r, c, d);
                            lemma_cell_index_bounds(gn, t.0, t.1);
                        }
                        if active_teleport(map@, r, c) {
                            assert forall|tr: int, tc: int| #[trigger] active_teleport(
                                map@,
                                tr,
                                tc,
                            ) implies cost_at(gn, table@, tr, tc) <= cost_at(gn, table@, r, c)
                                + TELEPORT_COST by {
                                lemma_cell_index_bounds(gn, tr, tc);
                            }
                        }
                        assert(cell_relaxed(map@, *model, permits@, table@, r, c));
                    } else {
                        let x = State {
                            node: (r as usize, c as usize),
                            distance: t0[cell_index(gn, r, c)].cost,
                        };
                        assert(f0.contains(x));
                        lemma_push_keeps_contains(
                            f0,
                            x,
                            State { node: v, distance: new_cost },
                        );
                    }
                }
            }

            // frontier entries persist and stay in bounds
            assert forall|x: State| f0.contains(x) implies frontier@.contains(x) by {
                lemma_push_keeps_contains(f0, x, State { node: v, distance: new_cost });
            }
            assert forall|i: int| 0 <= i < frontier@.len() implies in_bounds(
                map@,
                (#[trigger] frontier@[i]).node.0 as int,
                frontier@[i].node.1 as int,
            ) by {
                if i < f0.len() {
                    assert(frontier@[i] == f0[i]);
                }
            }
            assert forall|i: int| 0 <= i < frontier@.len() implies (#[trigger] frontier@[
                i
            ]).distance < usize::MAX by {
                if i < f0.len() {
                    assert(frontier@[i] == f0[i]);
                }
            }

            // the sum of tentative costs strictly falls
            lemma_sum_update(t0, vi as int, p);
        }
    }
}

/// Relaxes the single grid edge out of `u` in direction `d`, if that edge
/// exists: out-of-bounds, unobserved, denied or unwalkable candidate steps
/// are silently pruned, never aborting the search.
fn relax_go(
    map: &Vec<Vec<Option<Tile>>>,
    model: &CostModel,
    permits: &Vec<Vec<StepPermission>>,
    source: (usize, usize),
    table: &mut Vec<Path>,
    frontier: &mut Vec<State>,
    u: (usize, usize),
    distance: usize,
    d: Direction,
)
    requires
        grid_square(map@),
        map@.len() * map@.len() <= usize::MAX,
        permits_square(permits@, map@.len() as int),
        in_bounds(map@, u.0 as int, u.1 as int),
        table_wf(map@.len() as int, source, old(table)@),
        table_entries_ok(map@, *model, permits@, source, old(table)@),
        frontier_nodes_ok(map@, old(frontier)@),
        frontier_dists_ok(old(frontier)@),
        distance < usize::MAX,
        distance == cost_at(map@.len() as int, old(table)@, u.0 as int, u.1 as int),
    ensures
        final(table)@.len() == old(table)@.len(),
        table_wf(map@.len() as int, source, final(table)@),
        table_entries_ok(map@, *model, permits@, source, final(table)@),
        frontier_nodes_ok(map@, final(frontier)@),
        frontier_dists_ok(final(frontier)@),
        forall|i: int|
            0 <= i < final(table)@.len() ==> (#[trigger] final(table)@[i]).cost <= old(
                table,
            )@[i].cost,
        forall|i: int|
            0 <= i < final(table)@.len() ==> (#[trigger] final(table)@[i]) == old(table)@[i]
                || final(table)@[i].cost < old(table)@[i].cost,
        final(table)@[cell_index(map@.len() as int, u.0 as int, u.1 as int)] == old(
            table,
        )@[cell_index(map@.len() as int, u.0 as int, u.1 as int)],
        forall|x: State| old(frontier)@.contains(x) ==> final(frontier)@.contains(x),
        forall|r: int, c: int|
            0 <= r < map@.len() && 0 <= c < map@.len() && cell_covered(
                map@,
                *model,
                permits@,
                old(table)@,
                old(frontier)@,
                r,
                c,
            ) ==> #[trigger] cell_covered(map@, *model, permits@, final(table)@, final(frontier)@, r, c),
        sum_costs(final(table)@) <= sum_costs(old(table)@),
        sum_costs(final(table)@) == sum_costs(old(table)@) ==> final(table)@ == old(table)@
            && final(frontier)@ == old(frontier)@,
        go_edge_weight(map@, *model, permits@, u.0 as int, u.1 as int, d) is Some ==> cost_at(
            map@.len() as int,
            final(table)@,
            go_target(u.0 as int, u.1 as int, d).0,
            go_target(u.0 as int, u.1 as int, d).1,
        ) <= distance + go_edge_weight(map@, *model, permits@, u.0 as int, u.1 as int, d)->0,
{
    let n = map.len();
    let (row, col) = u;

    let in_grid = match d {
        Direction::Up => row > 0,
        Direction::Down => row + 1 < n,
        Direction::Left => col > 0,
        Direction::Right => col + 1 < n,
    };

    if in_grid {
        let v = get_coords_row_col(u, d);
        if map[v.0][v.1].is_some() {
            match calculate_go_cost(map, model, permits, u, d) {
                Ok(cost) => {
                    proof {
                        assert(step_result(
                            map@,
                            *model,
                            permits@,
                            u.0 as int,
                            u.1 as int,
                            Action::Go(d),
                        ) is Some);
                    }
                    relax(
                        map,
                        model,
                        permits,
                        source,
                        table,
                        frontier,
                        u,
                        distance,
                        Action::Go(d),
                        v,
                        cost,
                    );
                },
                Err(_) => {},
            }
        }
    }
}

/// Relaxes every teleport edge out of `u`, if `u` is an active teleport:
/// one directed edge of fixed weight to every active teleport cell in
/// `teleports`, which must list exactly the observed active teleports of the
/// map.
fn relax_teleports(
    map: &Vec<Vec<Option<Tile>>>,
    model: &CostModel,
    permits: &Vec<Vec<StepPermission>>,
    source: (usize, usize),
    table: &mut Vec<Path>,
    frontier: &mut Vec<State>,
    teleports: &Vec<(usize, usize)>,
    u: (usize, usize),
    distance: usize,
)
    requires
        grid_square(map@),
        map@.len() * map@.len() <= usize::MAX,
        permits_square(permits@, map@.len() as int),
        in_bounds(map@, u.0 as int, u.1 as int),
        table_wf(map@.len() as int, source, old(table)@),
        table_entries_ok(map@, *model, permits@, source, old(table)@),
        frontier_nodes_ok(map@, old(frontier)@),
        frontier_dists_ok(old(frontier)@),
        distance < usize::MAX,
        distance == cost_at(map@.len() as int, old(table)@, u.0 as int, u.1 as int),
        forall|k: int|
            0 <= k < teleports@.len() ==> active_teleport(
                map@,
                (#[trigger] teleports@[k]).0 as int,
                teleports@[k].1 as int,
            ),
        forall|r: int, c: int|
            #[trigger] active_teleport(map@, r, c) ==> teleports@.contains(
                ((r as usize, c as usize)),
            ),
    ensures
        final(table)@.len() == old(table)@.len(),
        table_wf(map@.len() as int, source, final(table)@),
        table_entries_ok(map@, *model, permits@, source, final(table)@),
        frontier_nodes_ok(map@, final(frontier)@),
        frontier_dists_ok(final(frontier)@),
        forall|i: int|
            0 <= i < final(table)@.len() ==> (#[trigger] final(table)@[i]).cost <= old(
                table,
            )@[i].cost,
        forall|i: int|
            0 <= i < final(table)@.len() ==> (#[trigger] final(table)@[i]) == old(table)@[i]
                || final(table)@[i].cost < old(table)@[i].cost,
        final(table)@[cell_index(map@.len() as int, u.0 as int, u.1 as int)] == old(
            table,
        )@[cell_index(map@.len() as int, u.0 as int, u.1 as int)],
        forall|x: State| old(frontier)@.contains(x) ==> final(frontier)@.contains(x),
        forall|r: int, c: int|
            0 <= r < map@.len() && 0 <= c < map@.len() && cell_covered(
                map@,
                *model,
                permits@,
                old(table)@,
                old(frontier)@,
                r,
                c,
            ) ==> #[trigger] cell_covered(map@, *model, permits@, final(table)@, final(frontier)@, r, c),
        sum_costs(final(table)@) <= sum_costs(old(table)@),
        sum_costs(final(table)@) == sum_costs(old(table)@) ==> final(table)@ == old(table)@
            && final(frontier)@ == old(frontier)@,
        active_teleport(map@, u.0 as int, u.1 as int) ==> forall|tr: int, tc: int|
            #[trigger] active_teleport(map@, tr, tc) ==> cost_at(
                map@.len() as int,
                final(table)@,
                tr,
                tc,
            ) <= distance + TELEPORT_COST,
{
    let n = map.len();
    let (row, col) = u;
    let ghost gn = map@.len() as int;
    let ghost t_entry = table@;
    let ghost f_entry = frontier@;

    let cell = map[row][col];
    if let Some(tile) = cell {
        if tile.tile_type == TileKind::Teleport(true) {
            proof {
                assert(active_teleport(map@, u.0 as int, u.1 as int));
            }
            let mut k: usize = 0;
            while k < teleports.len()
                invariant
                    grid_square(map@),
                    gn == map@.len() as int,
                    map@.len() * map@.len() <= usize::MAX,
                    permits_square(permits@, gn),
                    in_bounds(map@, u.0 as int, u.1 as int),
                    active_teleport(map@, u.0 as int, u.1 as int),
                    k <= teleports@.len(),
                    forall|j: int|
                        0 <= j < teleports@.len() ==> active_teleport(
                            map@,
                            (#[trigger] teleports@[j]).0 as int,
                            teleports@[j].1 as int,
                        ),
                    table_wf(gn, source, table@),
                    table_entries_ok(map@, *model, permits@, source, table@),
                    frontier_nodes_ok(map@, frontier@),
                    frontier_dists_ok(frontier@),
                    distance < usize::MAX,
                    distance == cost_at(gn, table@, u.0 as int, u.1 as int),
                    table@.len() == t_entry.len(),
                    table@[cell_index(gn, u.0 as int, u.1 as int)] == t_entry[cell_index(
                        gn,
                        u.0 as int,
                        u.1 as int,
                    )],
                    forall|i: int|
                        0 <= i < table@.len() ==> (#[trigger] table@[i]).cost <= t_entry[i].cost,
                    forall|i: int|
                        0 <= i < table@.len() ==> (#[trigger] table@[i]) == t_entry[i]
                            || table@[i].cost < t_entry[i].cost,
                    forall|x: State| f_entry.contains(x) ==> frontier@.contains(x),
                    forall|r: int, c: int|
                        0 <= r < map@.len() && 0 <= c < map@.len() && cell_covered(
                            map@,
                            *model,
                            permits@,
                            t_entry,
                            f_entry,
                            r,
                            c,
                        ) ==> #[trigger] cell_covered(
                            map@,
                            *model,
                            permits@,
                            table@,
                            frontier@,
                            r,
                            c,
                        ),
                    sum_costs(table@) <= sum_costs(t_entry),
                    sum_costs(table@) == sum_costs(t_entry) ==> table@ == t_entry && frontier@
                        == f_entry,
                    forall|j: int|
                        0 <= j < k ==> cost_at(
                            gn,
                            table@,
                            (#[trigger] teleports@[j]).0 as int,
                            teleports@[j].1 as int,
                        ) <= distance + TELEPORT_COST,
                decreases teleports@.len() - k,
            {
                let ghost t_mid = table@;
                let ghost f_mid = frontier@;
                let t = teleports[k];
                match calculate_teleport_cost(map, u, t) {
                    Ok(cost) => {
                        proof {
                            assert(active_teleport(map@, t.0 as int, t.1 as int));
                            assert(step_result(
                                map@,
                                *model,
                                permits@,
                                u.0 as int,
                                u.1 as int,
                                Action::Teleport(t),
                            ) is Some);
                            assert(TELEPORT_COST as nat <= usize::MAX as nat);
                            assert(cost == sat_cap(TELEPORT_COST as nat));
                        }
                        relax(
                            map,
                            model,
                            permits,
                            source,
                            table,
                            frontier,
                            u,
                            distance,
                            Action::Teleport(t),
                            t,
                            cost,
                        );
                    },
                    Err(_) => {
                        proof {
                            assert(false);
                        }
                    },
                }
                proof {
                    assert forall|r: int, c: int|
                        0 <= r < map@.len() && 0 <= c < map@.len() && cell_covered(
                            map@,
                            *model,
                            permits@,
                            t_entry,
                            f_entry,
                            r,
                            c,
                        ) implies #[trigger] cell_covered(
                        map@,
                        *model,
                        permits@,
                        table@,
                        frontier@,
                        r,
                        c,
                    ) by {
                        assert(cell_covered(map@, *model, permits@, t_mid, f_mid, r, c));
                    }
                    assert(cost_at(gn, table@, t.0 as int, t.1 as int) <= distance
                        + TELEPORT_COST);
                    assert forall|j: int| 0 <= j < k + 1 implies cost_at(
                        gn,
                        table@,
                        (#[trigger] teleports@[j]).0 as int,
                        teleports@[j].1 as int,
                    ) <= distance + TELEPORT_COST by {
                        let jr = teleports@[j].0 as int;
                        let jc = teleports@[j].1 as int;
                        lemma_cell_index_bounds(gn, jr, jc);
                        if j < k {
                            assert(cost_at(gn, t_mid, jr, jc) <= distance + TELEPORT_COST);
                            assert(table@[cell_index(gn, jr, jc)].cost <= t_mid[cell_index(
                                gn,
                                jr,
                                jc,
                            )].cost);
                        }
                    }
                }
                k = k + 1;
            }
            proof {
                assert forall|tr: int, tc: int| #[trigger] active_teleport(
                    map@,
                    tr,
                    tc,
                ) implies cost_at(gn, table@, tr, tc) <= distance + TELEPORT_COST by {
                    assert(teleports@.contains(((tr as usize, tc as usize))));
                    let j = choose|j: int|
                        0 <= j < teleports@.len() && teleports@[j] == ((tr as usize, tc as usize));
                    assert(in_bounds(map@, tr, tc));
                    assert(teleports@[j].0 as int == tr);
                    assert(teleports@[j].1 as int == tc);
                }
            }
        }
    }
}

/// Removes and returns a frontier entry of minimum distance.
fn pop_min(frontier: &mut Vec<State>) -> (s: State)
    requires
        old(frontier)@.len() > 0,
    ensures
        old(frontier)@.contains(s),
        final(frontier)@.len() == old(frontier)@.len() - 1,
        forall|i: int|
            0 <= i < old(frontier)@.len() ==> s.distance <= (#[trigger] old(frontier)@[i]).distance,
        forall|x: State| old(frontier)@.contains(x) && x != s ==> final(frontier)@.contains(x),
        forall|x: State| final(frontier)@.contains(x) ==> old(frontier)@.contains(x),
{
    let mut best: usize = 0;
    let mut i: usize = 1;
    while i < frontier.len()
        invariant
            frontier@ == old(frontier)@,
            0 < frontier@.len(),
            (best as int) < frontier@.len(),
            i <= frontier@.len(),
            forall|j: int|
                0 <= j < i ==> frontier@[best as int].distance <= (#[trigger] frontier@[j]).distance,
        decreases frontier@.len() - i,
    {
        if frontier[i].distance < frontier[best].distance {
            best = i;
        }
        i = i + 1;
    }
    let ghost before = frontier@;
    let s = frontier.swap_remove(best);
    proof {
        assert(before.contains(s)) by {
            assert(before[best as int] == s);
        }
        assert forall|x: State| before.contains(x) && x != s implies frontier@.contains(x) by {
            let j = choose|j: int| 0 <= j < before.len() && before[j] == x;
            if j == before.len() - 1 {
                assert(frontier@[best as int] == x);
            } else if j != best as int {
                assert(frontier@[j] == x);
            }
        }
        assert forall|x: State| frontier@.contains(x) implies before.contains(x) by {
            let j = choose|j: int| 0 <= j < frontier@.len() && frontier@[j] == x;
            if j == best as int {
                assert(before[before.len() - 1] == x);
            } else {
                assert(before[j] == x);
            }
        }
    }
    s
}

/// A freshly initialized arena entry: the unreachable-sentinel hypothesis
/// for its own cell.
spec fn init_entry(src: (usize, usize), p: Path, r: int, c: int) -> bool {
    p.source == src && p.destination == ((r as usize, c as usize)) && p.cost == usize::MAX
        && p.actions@.len() == 0
}

proof fn lemma_index_mono(n: int, r1: int, c1: int, r2: int, c2: int)
    requires
        0 <= c1 < n,
        0 <= c2 < n,
        0 <= r1,
        r1 < r2 || (r1 == r2 && c1 < c2),
    ensures
        cell_index(n, r1, c1) < cell_index(n, r2, c2),
{
    assert(r1 * n + c1 < r2 * n + c2) by (nonlinear_arith)
        requires
            0 <= c1 < n,
            0 <= c2 < n,
            0 <= r1,
            r1 < r2 || (r1 == r2 && c1 < c2),
    ;
}

/// Runs the Dijkstra relaxation to exhaustion of the reachable component
/// and returns the finished tentative table: one [`Path`] per cell, indexed
/// by `row * n + col`. The finished table records, for every cell, the true
/// minimum path weight under the edge model: every entry below the sentinel
/// is realized by its own recorded actions, no action sequence from the
/// source can beat any entry, and the table is a fixed point of relaxation,
/// so re-running relaxation on it would change nothing.
pub fn compute_best_table(
    map: &Vec<Vec<Option<Tile>>>,
    model: &CostModel,
    permits: &Vec<Vec<StepPermission>>,
    source: (usize, usize),
) -> (table: Vec<Path>)
    requires
        grid_square(map@),
        map@.len() * map@.len() <= usize::MAX,
        permits_square(permits@, map@.len() as int),
        in_bounds(map@, source.0 as int, source.1 as int),
    ensures
        table_wf(map@.len() as int, source, table@),
        table_entries_ok(map@, *model, permits@, source, table@),
        table_relaxed(map@, *model, permits@, table@),
        cost_at(map@.len() as int, table@, source.0 as int, source.1 as int) == 0,
        table@[cell_index(map@.len() as int, source.0 as int, source.1 as int)].actions@.len()
            == 0,
        forall|acts: Seq<Action>|
            (#[trigger] path_result(
                map@,
                *model,
                permits@,
                source.0 as int,
                source.1 as int,
                acts,
            )) is Some ==> cost_at(
                map@.len() as int,
                table@,
                (path_result(map@, *model, permits@, source.0 as int, source.1 as int, acts)->0).0.0,
                (path_result(map@, *model, permits@, source.0 as int, source.1 as int, acts)->0).0.1,
            ) <= (path_result(map@, *model, permits@, source.0 as int, source.1 as int, acts)->0).1,
{
    let size = map.len();
    let ghost gn = map@.len() as int;

    let teleports = active_teleports(map);

    let mut table: Vec<Path> = Vec::new();

    let mut row: usize = 0;
    while row < size
        invariant
            grid_square(map@),
            gn == map@.len() as int,
            size == map@.len(),
            map@.len() * map@.len() <= usize::MAX,
            row <= size,
            table@.len() == row * size,
            forall|r: int, c: int|
                0 <= r < row && 0 <= c < size ==> init_entry(
                    source,
                    #[trigger] table@[cell_index(gn, r, c)],
                    r,
                    c,
                ),
        decreases size - row,
    {
        let mut col: usize = 0;
        while col < size
            invariant
                grid_square(map@),
                gn == map@.len() as int,
                size == map@.len(),
                map@.len() * map@.len() <= usize::MAX,
                row < size,
                col <= size,
                table@.len() == row * size + col,
                forall|r: int, c: int|
                    0 <= r < row && 0 <= c < size ==> init_entry(
                        source,
                        #[trigger] table@[cell_index(gn, r, c)],
                        r,
                        c,
                    ),
                forall|c2: int|
                    0 <= c2 < col ==> init_entry(
                        source,
                        #[trigger] table@[cell_index(gn, row as int, c2)],
                        row as int,
                        c2,
                    ),
            decreases size - col,
        {
            proof {
                lemma_cell_index_bounds(gn, row as int, col as int);
            }
            let ghost told = table@;
            table.push(Path::new(source, (row, col), usize::MAX));
            proof {
                assert(cell_index(gn, row as int, col as int) == told.len());
                assert forall|r: int, c: int| 0 <= r < row && 0 <= c < size implies init_entry(
                    source,
                    #[trigger] table@[cell_index(gn, r, c)],
                    r,
                    c,
                ) by {
                    lemma_cell_index_bounds(gn, r, c);
                    lemma_index_mono(gn, r, c, row as int, col as int);
                    assert(table@[cell_index(gn, r, c)] == told[cell_index(gn, r, c)]);
                }
                assert forall|c2: int| 0 <= c2 < col + 1 implies init_entry(
                    source,
                    #[trigger] table@[cell_index(gn, row as int, c2)],
                    row as int,
                    c2,
                ) by {
                    if c2 < col {
                        lemma_index_mono(gn, row as int, c2, row as int, col as int);
                        assert(table@[cell_index(gn, row as int, c2)] == told[cell_index(
                            gn,
                            row as int,
                            c2,
                        )]);
                    } else {
                        assert(table@[cell_index(gn, row as int, c2)] == table@.last());
                    }
                }
            }
            col = col + 1;
        }
        proof {
            assert((row as int + 1) * (size as int) == row as int * (size as int) + size as int)
                by (nonlinear_arith);
        }
        row = row + 1;
    }

    proof {
        lemma_cell_index_bounds(gn, source.0 as int, source.1 as int);
    }
    let src_idx = source.0 * size + source.1;
    let zero = Path::new(source, source, 0);
    table[src_idx] = zero;

    let mut frontier: Vec<State> = Vec::new();
    frontier.push(State { node: source, distance: 0 });

    proof {
        let ghost si = cell_index(gn, source.0 as int, source.1 as int);
        assert forall|r: int, c: int| 0 <= r < gn && 0 <= c < gn implies (#[trigger] table@[
            cell_index(gn, r, c)
        ]).source == source && table@[cell_index(gn, r, c)].destination == ((
            r as usize,
            c as usize,
        )) by {
            lemma_cell_index_bounds(gn, r, c);
            if cell_index(gn, r, c) == si {
                lemma_cell_index_injective(gn, r, c, source.0 as int, source.1 as int);
            }
        }
        assert(table_wf(gn, source, table@));
        assert forall|r: int, c: int| 0 <= r < gn && 0 <= c < gn implies #[trigger] entry_ok(
            map@,
            *model,
            permits@,
            source,
            table@,
            r,
            c,
        ) by {
            lemma_cell_index_bounds(gn, r, c);
            if cell_index(gn, r, c) == si {
                lemma_cell_index_injective(gn, r, c, source.0 as int, source.1 as int);
                assert(table@[cell_index(gn, r, c)].actions@.len() == 0);
            }
        }
        assert forall|r: int, c: int| 0 <= r < gn && 0 <= c < gn implies #[trigger] cell_covered(
            map@,
            *model,
            permits@,
            table@,
            frontier@,
            r,
            c,
        ) by {
            lemma_cell_index_bounds(gn, r, c);
            if cell_index(gn, r, c) == si {
                lemma_cell_index_injective(gn, r, c, source.0 as int, source.1 as int);
                assert(frontier@[0] == (State {
                    node: (r as usize, c as usize),
                    distance: table@[cell_index(gn, r, c)].cost,
                }));
                assert(frontier@.contains(
                    (State {
                        node: (r as usize, c as usize),
                        distance: table@[cell_index(gn, r, c)].cost,
                    }),
                ));
            } else {
                assert(table@[cell_index(gn, r, c)].cost == usize::MAX);
                assert forall|d: Direction|
                    (#[trigger] go_edge_weight(map@, *model, permits@, r, c, d))
                        is Some implies cost_at(
                    gn,
                    table@,
                    go_target(r, c, d).0,
                    go_target(r, c, d).1,
                ) <= cost_at(gn, table@, r, c) + go_edge_weight(map@, *model, permits@, r, c, d)->0 by {
                    let t = go_target(r, c, d);
                    lemma_cell_index_bounds(gn, t.0, t.1);
                }
                if active_teleport(map@, r, c) {
                    assert forall|tr: int, tc: int| #[trigger] active_teleport(
                        map@,
                        tr,
                        tc,
                    ) implies cost_at(gn, table@, tr, tc) <= cost_at(gn, table@, r, c)
                        + TELEPORT_COST by {
                        lemma_cell_index_bounds(gn, tr, tc);
                    }
                }
                assert(cell_relaxed(map@, *model, permits@, table@, r, c));
            }
        }
    }

    while frontier.len() > 0
        invariant
            grid_square(map@),
            gn == map@.len() as int,
            size == map@.len(),
            map@.len() * map@.len() <= usize::MAX,
            permits_square(permits@, gn),
            in_bounds(map@, source.0 as int, source.1 as int),
            table_wf(gn, source, table@),
            table_entries_ok(map@, *model, permits@, source, table@),
            frontier_nodes_ok(map@, frontier@),
            frontier_dists_ok(frontier@),
            frontier_covers(map@, *model, permits@, table@, frontier@),
            cost_at(gn, table@, source.0 as int, source.1 as int) == 0,
            table@[cell_index(gn, source.0 as int, source.1 as int)].actions@.len() == 0,
            forall|k: int|
                0 <= k < teleports@.len() ==> active_teleport(
                    map@,
                    (#[trigger] teleports@[k]).0 as int,
                    teleports@[k].1 as int,
                ),
            forall|r: int, c: int|
                #[trigger] active_teleport(map@, r, c) ==> teleports@.contains(
                    ((r as usize, c as usize)),
                ),
        decreases sum_costs(table@), frontier@.len(),
    {
        let ghost sum0 = sum_costs(table@);
        let ghost f_before = frontier@;
        let ghost t_before = table@;

        let s = pop_min(&mut frontier);
        let ghost f_pop = frontier@;

        let (row, col) = s.node;
        let distance = s.distance;
        proof {
            let i = choose|i: int| 0 <= i < f_before.len() && f_before[i] == s;
            assert(in_bounds(map@, f_before[i].node.0 as int, f_before[i].node.1 as int));
            assert(f_before[i].distance < usize::MAX);
            lemma_cell_index_bounds(gn, row as int, col as int);
            lemma_frontier_facts_carry(map@, f_before, f_pop);
        }
        let ui = row * size + col;

        if table[ui].cost == distance {
            let ghost ur = row as int;
            let ghost uc = col as int;
            proof {
                assert forall|r: int, c: int|
                    0 <= r < gn && 0 <= c < gn && !(r == ur && c == uc) implies cell_covered(
                    map@,
                    *model,
                    permits@,
                    table@,
                    f_pop,
                    r,
                    c,
                ) by {
                    assert(cell_covered(map@, *model, permits@, table@, f_before, r, c));
                    if !cell_relaxed(map@, *model, permits@, table@, r, c) {
                        let x = State {
                            node: (r as usize, c as usize),
                            distance: table@[cell_index(gn, r, c)].cost,
                        };
                        assert(f_before.contains(x));
                        assert(x.node != s.node || x != s);
                        if x == s {
                            lemma_cell_index_bounds(gn, r, c);
                            assert(r == ur && c == uc);
                        }
                        assert(f_pop.contains(x));
                    }
                }
            }
            let ghost ta = table@;
            let ghost fa = frontier@;
            relax_go(
                map,
                model,
                permits,
                source,
                &mut table,
                &mut frontier,
                (row, col),
                distance,
                Direction::Right,
            );
            let ghost tb = table@;
            let ghost fb = frontier@;
            relax_go(
                map,
                model,
                permits,
                source,
                &mut table,
                &mut frontier,
                (row, col),
                distance,
                Direction::Down,
            );
            let ghost tc2 = table@;
            let ghost fc2 = frontier@;
            relax_go(
                map,
                model,
                permits,
                source,
                &mut table,
                &mut frontier,
                (row, col),
                distance,
                Direction::Left,
            );
            let ghost td = table@;
            let ghost fd = frontier@;
            relax_go(
                map,
                model,
                permits,
                source,
                &mut table,
                &mut frontier,
                (row, col),
                distance,
                Direction::Up,
            );
            let ghost te = table@;
            let ghost fe = frontier@;
            relax_teleports(
                map,
                model,
                permits,
                source,
                &mut table,
                &mut frontier,
                &teleports,
                (row, col),
                distance,
            );
            proof {
                let ci = cell_index(gn, ur, uc);
                assert(table@[ci] == ta[ci]);
                assert(cost_at(gn, table@, ur, uc) == distance);

                let si = cell_index(gn, source.0 as int, source.1 as int);
                lemma_cell_index_bounds(gn, source.0 as int, source.1 as int);
                assert(ta[si].cost == 0);
                assert(tb[si] == ta[si] || tb[si].cost < ta[si].cost);
                assert(tb[si] == ta[si]);
                assert(tc2[si] == tb[si] || tc2[si].cost < tb[si].cost);
                assert(tc2[si] == tb[si]);
                assert(td[si] == tc2[si] || td[si].cost < tc2[si].cost);
                assert(td[si] == tc2[si]);
                assert(te[si] == td[si] || te[si].cost < td[si].cost);
                assert(te[si] == td[si]);
                assert(table@[si] == te[si] || table@[si].cost < te[si].cost);
                assert(table@[si] == ta[si]);

                assert forall|d: Direction|
                    (#[trigger] go_edge_weight(map@, *model, permits@, ur, uc, d))
                        is Some implies cost_at(
                    gn,
                    table@,
                    go_target(ur, uc, d).0,
                    go_target(ur, uc, d).1,
                ) <= cost_at(gn, table@, ur, uc) + go_edge_weight(
                    map@,
                    *model,
                    permits@,
                    ur,
                    uc,
                    d,
                )->0 by {
                    let t = go_target(ur, uc, d);
                    lemma_cell_index_bounds(gn, t.0, t.1);
                    let ti = cell_index(gn, t.0, t.1);
                    match d {
                        Direction::Right => {
                            assert(tb[ti].cost <= distance + go_edge_weight(
                                map@,
                                *model,
                                permits@,
                                ur,
                                uc,
                                d,
                            )->0);
                            assert(tc2[ti].cost <= tb[ti].cost);
                            assert(td[ti].cost <= tc2[ti].cost);
                            assert(te[ti].cost <= td[ti].cost);
                            assert(table@[ti].cost <= te[ti].cost);
                        },
                        Direction::Down => {
                            assert(tc2[ti].cost <= distance + go_edge_weight(
                                map@,
                                *model,
                                permits@,
                                ur,
                                uc,
                                d,
                            )->0);
                            assert(td[ti].cost <= tc2[ti].cost);
                            assert(te[ti].cost <= td[ti].cost);
                            assert(table@[ti].cost <= te[ti].cost);
                        },
                        Direction::Left => {
                            assert(td[ti].cost <= distance + go_edge_weight(
                                map@,
                                *model,
                                permits@,
                                ur,
                                uc,
                                d,
                            )->0);
                            assert(te[ti].cost <= td[ti].cost);
                            assert(table@[ti].cost <= te[ti].cost);
                        },
                        Direction::Up => {
                            assert(te[ti].cost <= distance + go_edge_weight(
                                map@,
                                *model,
                                permits@,
                                ur,
                                uc,
                                d,
                            )->0);
                            assert(table@[ti].cost <= te[ti].cost);
                        },
                    }
                }
                assert(cell_relaxed(map@, *model, permits@, table@, ur, uc));

                assert forall|r: int, c: int| 0 <= r < gn && 0 <= c < gn implies
                    #[trigger] cell_covered(map@, *model, permits@, table@, frontier@, r, c) by {
                    if r == ur && c == uc {
                        assert(cell_relaxed(map@, *model, permits@, table@, r, c));
                    } else {
                        assert(cell_covered(map@, *model, permits@, ta, fa, r, c));
                        assert(cell_covered(map@, *model, permits@, tb, fb, r, c));
                        assert(cell_covered(map@, *model, permits@, tc2, fc2, r, c));
                        assert(cell_covered(map@, *model, permits@, td, fd, r, c));
                        assert(cell_covered(map@, *model, permits@, te, fe, r, c));
                    }
                }

                assert(sum_costs(table@) <= sum0);
                if sum_costs(table@) == sum0 {
                    assert(sum_costs(te) == sum0);
                    assert(sum_costs(td) == sum0);
                    assert(sum_costs(tc2) == sum0);
                    assert(sum_costs(tb) == sum0);
                    assert(frontier@ == f_pop);
                }
            }
        } else {
            proof {
                assert forall|r: int, c: int| 0 <= r < gn && 0 <= c < gn implies
                    #[trigger] cell_covered(map@, *model, permits@, table@, frontier@, r, c) by {
                    assert(cell_covered(map@, *model, permits@, table@, f_before, r, c));
                    if !cell_relaxed(map@, *model, permits@, table@, r, c) {
                        let x = State {
                            node: (r as usize, c as usize),
                            distance: table@[cell_index(gn, r, c)].cost,
                        };
                        assert(f_before.contains(x));
                        if x == s {
                            lemma_cell_index_bounds(gn, r, c);
                            assert(table@[cell_index(gn, r, c)].cost == distance);
                            assert(cell_index(gn, r, c) == ui as int);
                            assert(false);
                        }
                        assert(frontier@.contains(x));
                    }
                }
            }
        }
    }

    proof {
        assert forall|r: int, c: int| 0 <= r < gn && 0 <= c < gn implies #[trigger] cell_relaxed(
            map@,
            *model,
            permits@,
            table@,
            r,
            c,
        ) by {
            assert(cell_covered(map@, *model, permits@, table@, frontier@, r, c));
        }
        assert forall|acts: Seq<Action>|
            (#[trigger] path_result(
                map@,
                *model,
                permits@,
                source.0 as int,
                source.1 as int,
                acts,
            )) is Some implies cost_at(
            gn,
            table@,
            (path_result(map@, *model, permits@, source.0 as int, source.1 as int, acts)->0).0.0,
            (path_result(map@, *model, permits@, source.0 as int, source.1 as int, acts)->0).0.1,
        ) <= (path_result(map@, *model, permits@, source.0 as int, source.1 as int, acts)->0).1 by {
            lemma_no_better_path(map@, *model, permits@, table@, source, acts);
        }
    }

    table
}

/// Once the table is a fixed point of relaxation and the source is settled
/// at cost zero, no action sequence can beat the recorded costs: the weight
/// of any valid path to a cell is at least that cell's tentative cost.
pub proof fn lemma_no_better_path(
    g: Seq<Vec<Option<Tile>>>,
    model: CostModel,
    permits: Seq<Vec<StepPermission>>,
    tbl: Seq<Path>,
    src: (usize, usize),
    acts: Seq<Action>,
)
    requires
        in_bounds(g, src.0 as int, src.1 as int),
        tbl.len() == g.len() * g.len(),
        table_relaxed(g, model, permits, tbl),
        cost_at(g.len() as int, tbl, src.0 as int, src.1 as int) == 0,
        path_result(g, model, permits, src.0 as int, src.1 as int, acts) is Some,
    ensures
        in_bounds(
            g,
            (path_result(g, model, permits, src.0 as int, src.1 as int, acts)->0).0.0,
            (path_result(g, model, permits, src.0 as int, src.1 as int, acts)->0).0.1,
        ),
        cost_at(
            g.len() as int,
            tbl,
            (path_result(g, model, permits, src.0 as int, src.1 as int, acts)->0).0.0,
            (path_result(g, model, permits, src.0 as int, src.1 as int, acts)->0).0.1,
        ) <= (path_result(g, model, permits, src.0 as int, src.1 as int, acts)->0).1,
    decreases acts.len(),
{
    let gn = g.len() as int;
    if acts.len() > 0 {
        lemma_no_better_path(g, model, permits, tbl, src, acts.drop_last());
        let p = path_result(g, model, permits, src.0 as int, src.1 as int, acts.drop_last())->0;
        let s = step_result(g, model, permits, p.0.0, p.0.1, acts.last())->0;
        assert(cell_relaxed(g, model, permits, tbl, p.0.0, p.0.1));
        match acts.last() {
            Action::Go(d) => {
                assert(go_edge_weight(g, model, permits, p.0.0, p.0.1, d) is Some);
                assert(s.0 == go_target(p.0.0, p.0.1, d));
                assert(cost_at(gn, tbl, s.0.0, s.0.1) <= cost_at(gn, tbl, p.0.0, p.0.1) + s.1);
            },
            Action::Teleport(t) => {
                assert(active_teleport(g, t.0 as int, t.1 as int));
                assert(cost_at(gn, tbl, s.0.0, s.0.1) <= cost_at(gn, tbl, p.0.0, p.0.1) + s.1);
            },
        }
    }
}

/// Idempotence of relaxation: on a finished table no single edge can
/// improve any entry, so the Dijkstra update rule
/// `cost(v) := min(cost(v), cost(u) + weight)` leaves every tentative cost
/// exactly as it is, whichever admissible action is re-relaxed.
pub proof fn lemma_relaxation_idempotent(
    g: Seq<Vec<Option<Tile>>>,
    model: CostModel,
    permits: Seq<Vec<StepPermission>>,
    tbl: Seq<Path>,
    r: int,
    c: int,
    a: Action,
)
    requires
        table_relaxed(g, model, permits, tbl),
        0 <= r < g.len(),
        0 <= c < g.len(),
        step_result(g, model, permits, r, c, a) is Some,
    ensures
        cost_at(
            g.len() as int,
            tbl,
            (step_result(g, model, permits, r, c, a)->0).0.0,
            (step_result(g, model, permits, r, c, a)->0).0.1,
        ) <= cost_at(g.len() as int, tbl, r, c) + (step_result(g, model, permits, r, c, a)->0).1,
{
    assert(cell_relaxed(g, model, permits, tbl, r, c));
    match a {
        Action::Go(d) => {
            assert(go_edge_weight(g, model, permits, r, c, d) is Some);
        },
        Action::Teleport(t) => {
            assert(active_teleport(g, t.0 as int, t.1 as int));
        },
    }
}

/// Teleport shortcut law: between two observed, active teleport cells the
/// teleport edge exists and weighs exactly [`TELEPORT_COST`], regardless of
/// their grid distance; and a finished table never records more for the
/// jump's target than the jump's source plus that constant, so any chain of
/// steps dearer than the shortcut is never kept.
pub proof fn lemma_teleport_shortcut(
    g: Seq<Vec<Option<Tile>>>,
    model: CostModel,
    permits: Seq<Vec<StepPermission>>,
    tbl: Seq<Path>,
    u: (usize, usize),
    t: (usize, usize),
)
    requires
        table_relaxed(g, model, permits, tbl),
        active_teleport(g, u.0 as int, u.1 as int),
        active_teleport(g, t.0 as int, t.1 as int),
    ensures
        step_result(g, model, permits, u.0 as int, u.1 as int, Action::Teleport(t)) == Some(((
            (t.0 as int, t.1 as int),
            TELEPORT_COST as nat,
        ))),
        cost_at(g.len() as int, tbl, t.0 as int, t.1 as int) <= cost_at(
            g.len() as int,
            tbl,
            u.0 as int,
            u.1 as int,
        ) + TELEPORT_COST,
{
    assert(cell_relaxed(g, model, permits, tbl, u.0 as int, u.1 as int));
}

/// `p` is a faithful copy of the arena entry recorded for target cell `t`.
pub open spec fn target_entry_taken(n: int, tbl: Seq<Path>, t: (usize, usize), p: Path) -> bool {
    let e = tbl[cell_index(n, t.0 as int, t.1 as int)];
    p.source == e.source && p.destination == e.destination && p.cost == e.cost && p.actions@
        == e.actions@
}

/// Scans the target cells and returns a copy of the finished-table entry of
/// minimum tentative cost among them, or `PathNotFound` when every target
/// still carries the unreachable sentinel. On a tie the target encountered
/// first wins; callers must not rely on a particular tie-break.
pub fn best_of_targets(n: usize, table: &Vec<Path>, targets: &Vec<(usize, usize)>) -> (r: Result<
    Path,
    PathError,
>)
    requires
        table@.len() == n * n,
        n * n <= usize::MAX,
        forall|k: int|
            0 <= k < targets@.len() ==> (#[trigger] targets@[k]).0 < n && targets@[k].1 < n,
    ensures
        (r is Ok) == (exists|k: int|
            0 <= k < targets@.len() && cost_at(
                n as int,
                table@,
                (#[trigger] targets@[k]).0 as int,
                targets@[k].1 as int,
            ) < usize::MAX),
        r is Ok ==> (r->Ok_0).cost < usize::MAX,
        r is Ok ==> exists|k: int|
            0 <= k < targets@.len() && target_entry_taken(
                n as int,
                table@,
                #[trigger] targets@[k],
                r->Ok_0,
            ),
        r is Ok ==> forall|k: int|
            0 <= k < targets@.len() ==> (r->Ok_0).cost <= cost_at(
                n as int,
                table@,
                (#[trigger] targets@[k]).0 as int,
                targets@[k].1 as int,
            ),
        r is Err ==> r->Err_0 == PathError::PathNotFound,
{
    let mut ret: Option<Path> = None;

    let mut k: usize = 0;
    while k < targets.len()
        invariant
            table@.len() == n * n,
            n * n <= usize::MAX,
            forall|j: int|
                0 <= j < targets@.len() ==> (#[trigger] targets@[j]).0 < n && targets@[j].1 < n,
            k <= targets@.len(),
            ret is None ==> forall|j: int|
                0 <= j < k ==> cost_at(
                    n as int,
                    table@,
                    (#[trigger] targets@[j]).0 as int,
                    targets@[j].1 as int,
                ) == usize::MAX,
            ret is Some ==> (ret->0).cost < usize::MAX,
            ret is Some ==> exists|j: int|
                0 <= j < k && target_entry_taken(n as int, table@, #[trigger] targets@[j], ret->0),
            ret is Some ==> forall|j: int|
                0 <= j < k ==> (ret->0).cost <= cost_at(
                    n as int,
                    table@,
                    (#[trigger] targets@[j]).0 as int,
                    targets@[j].1 as int,
                ),
        decreases targets@.len() - k,
    {
        let t = targets[k];
        proof {
            lemma_cell_index_bounds(n as int, t.0 as int, t.1 as int);
        }
        let idx = t.0 * n + t.1;
        let cost = table[idx].cost;

        let better = match &ret {
            None => cost < usize::MAX,
            Some(p) => cost < p.cost,
        };
        if better {
            ret = Some(table[idx].duplicate());
            proof {
                assert(target_entry_taken(n as int, table@, targets@[k as int], ret->0));
            }
        }
        k = k + 1;
    }

    match ret {
        Some(p) => Ok(p),
        None => Err(PathError::PathNotFound),
    }
}

/// The target set holds at least one cell.
pub open spec fn has_target(tset: Set<(usize, usize)>) -> bool {
    exists|t: (usize, usize)| tset.contains(t)
}

/// The contract of one search call over target set `tset`: which failure
/// comes on which input, and, on success, that the returned record is a
/// genuine minimum-cost path from the source to one of the targets, realized
/// by its own action sequence. A weight of `usize::MAX` or more counts as
/// unreachable.
pub open spec fn search_post(
    g: Seq<Vec<Option<Tile>>>,
    model: CostModel,
    permits: Seq<Vec<StepPermission>>,
    source: (usize, usize),
    tset: Set<(usize, usize)>,
    r: Result<Path, PathError>,
) -> bool {
    &&& (!has_target(tset) <==> r == Result::<Path, PathError>::Err(PathError::EmptyTargetSet))
    &&& (has_target(tset) ==> (!in_bounds(g, source.0 as int, source.1 as int) <==> r
        == Result::<Path, PathError>::Err(PathError::SourceOutOfBounds)))
    &&& (has_target(tset) && in_bounds(g, source.0 as int, source.1 as int) && r is Err ==> r->Err_0
        == PathError::PathNotFound)
    &&& (r is Ok ==> (r->Ok_0).source == source)
    &&& (r is Ok ==> tset.contains((r->Ok_0).destination))
    &&& (r is Ok ==> (r->Ok_0).cost < usize::MAX)
    &&& (r is Ok ==> path_result(
        g,
        model,
        permits,
        source.0 as int,
        source.1 as int,
        (r->Ok_0).actions@,
    ) == Some(((((r->Ok_0).destination.0 as int, (r->Ok_0).destination.1 as int), (
    r->Ok_0).cost as nat))))
    &&& (r is Ok && (r->Ok_0).destination == source ==> (r->Ok_0).actions@.len() == 0)
    &&& (r is Ok ==> forall|acts: Seq<Action>|
        (#[trigger] path_result(g, model, permits, source.0 as int, source.1 as int, acts))
            is Some && tset.contains(
            (((path_result(g, model, permits, source.0 as int, source.1 as int, acts)->0).0.0
                as usize, (path_result(
                g,
                model,
                permits,
                source.0 as int,
                source.1 as int,
                acts,
            )->0).0.1 as usize)),
        ) ==> (r->Ok_0).cost as nat <= (path_result(
            g,
            model,
            permits,
            source.0 as int,
            source.1 as int,
            acts,
        )->0).1)
    &&& (has_target(tset) && in_bounds(g, source.0 as int, source.1 as int) ==> ((r is Err)
        <==> (forall|acts: Seq<Action>|
        (#[trigger] path_result(g, model, permits, source.0 as int, source.1 as int, acts))
            is Some && tset.contains(
            (((path_result(g, model, permits, source.0 as int, source.1 as int, acts)->0).0.0
                as usize, (path_result(
                g,
                model,
                permits,
                source.0 as int,
                source.1 as int,
                acts,
            )->0).0.1 as usize)),
        ) ==> (path_result(g, model, permits, source.0 as int, source.1 as int, acts)->0).1
            >= usize::MAX)))
    &&& (has_target(tset) && in_bounds(g, source.0 as int, source.1 as int) && tset.contains(source)
        ==> r is Ok && (r->Ok_0).cost == 0)
}

/// The set of cells a target list stands for.
pub open spec fn target_set_of(targets: Seq<(usize, usize)>) -> Set<(usize, usize)> {
    Set::new(|t: (usize, usize)| targets.contains(t))
}

/// Single-source, multi-target search: runs the relaxation to exhaustion and
/// extracts the minimum-cost reachable target. Fails on an empty target set,
/// on a source outside the grid, and when no target is reachable, in that
/// order of checks; otherwise returns the minimum-cost path record with its
/// full action sequence from the source.
pub fn dijkstra(
    map: &Vec<Vec<Option<Tile>>>,
    model: &CostModel,
    permits: &Vec<Vec<StepPermission>>,
    source: (usize, usize),
    targets: &Vec<(usize, usize)>,
) -> (r: Result<Path, PathError>)
    requires
        grid_square(map@),
        map@.len() * map@.len() <= usize::MAX,
        permits_square(permits@, map@.len() as int),
        forall|k: int|
            0 <= k < targets@.len() ==> in_bounds(
                map@,
                (#[trigger] targets@[k]).0 as int,
                targets@[k].1 as int,
            ),
    ensures
        search_post(map@, *model, permits@, source, target_set_of(targets@), r),
{
    let ghost tset = target_set_of(targets@);
    let ghost gn = map@.len() as int;

    if targets.len() == 0 {
        proof {
            assert(!has_target(tset));
        }
        return Err(PathError::EmptyTargetSet);
    }
    proof {
        assert(tset.contains(targets@[0]));
        assert(has_target(tset));
    }

    let size = map.len();
    if source.0 >= size || source.1 >= size {
        return Err(PathError::SourceOutOfBounds);
    }

    let table = compute_best_table(map, model, permits, source);
    let r = best_of_targets(size, &table, targets);

    proof {
        let sr = source.0 as int;
        let sc = source.1 as int;

        // every path endpoint in the target set corresponds to a scanned
        // target, so the finished table bounds it from below
        assert forall|acts: Seq<Action>|
            (#[trigger] path_result(map@, *model, permits@, sr, sc, acts)) is Some implies {
            let e = (path_result(map@, *model, permits@, sr, sc, acts)->0).0;
            let wt = (path_result(map@, *model, permits@, sr, sc, acts)->0).1;
            in_bounds(map@, e.0, e.1) && cost_at(gn, table@, e.0, e.1) <= wt
        } by {
            lemma_no_better_path(map@, *model, permits@, table@, source, acts);
        }

        if r is Ok {
            let p = r->Ok_0;
            let j = choose|j: int|
                0 <= j < targets@.len() && target_entry_taken(gn, table@, targets@[j], p);
            let t = targets@[j];
            lemma_cell_index_bounds(gn, t.0 as int, t.1 as int);
            assert(p.source == source);
            assert(p.destination == t);
            assert(tset.contains(p.destination));
            assert(entry_ok(map@, *model, permits@, source, table@, t.0 as int, t.1 as int));
            assert(path_result(map@, *model, permits@, sr, sc, p.actions@) == Some((((
                t.0 as int,
                t.1 as int,
            ), p.cost as nat))));
            if p.destination == source {
                assert(cell_index(gn, t.0 as int, t.1 as int) == cell_index(gn, sr, sc));
                assert(p.actions@.len() == 0);
            }
            assert forall|acts: Seq<Action>|
                (#[trigger] path_result(map@, *model, permits@, sr, sc, acts)) is Some
                    && tset.contains(
                    (((path_result(map@, *model, permits@, sr, sc, acts)->0).0.0 as usize, (
                    path_result(map@, *model, permits@, sr, sc, acts)->0).0.1 as usize)),
                ) implies p.cost as nat <= (path_result(map@, *model, permits@, sr, sc, acts)->0).1 by {
                let e = (path_result(map@, *model, permits@, sr, sc, acts)->0).0;
                let wt = (path_result(map@, *model, permits@, sr, sc, acts)->0).1;
                let eu = ((e.0 as usize, e.1 as usize));
                assert(targets@.contains(eu));
                let j2 = choose|j2: int| 0 <= j2 < targets@.len() && targets@[j2] == eu;
                assert(p.cost <= cost_at(gn, table@, targets@[j2].0 as int, targets@[j2].1 as int));
                assert(targets@[j2].0 as int == e.0 && targets@[j2].1 as int == e.1);
            }
        } else {
            // no scanned target lies below the sentinel
            assert forall|acts: Seq<Action>|
                (#[trigger] path_result(map@, *model, permits@, sr, sc, acts)) is Some
                    && tset.contains(
                    (((path_result(map@, *model, permits@, sr, sc, acts)->0).0.0 as usize, (
                    path_result(map@, *model, permits@, sr, sc, acts)->0).0.1 as usize)),
                ) implies (path_result(map@, *model, permits@, sr, sc, acts)->0).1
                >= usize::MAX by {
                let e = (path_result(map@, *model, permits@, sr, sc, acts)->0).0;
                let wt = (path_result(map@, *model, permits@, sr, sc, acts)->0).1;
                let eu = ((e.0 as usize, e.1 as usize));
                assert(targets@.contains(eu));
                let j2 = choose|j2: int| 0 <= j2 < targets@.len() && targets@[j2] == eu;
                if wt < usize::MAX {
                    assert(cost_at(gn, table@, e.0, e.1) < usize::MAX);
                    assert(targets@[j2].0 as int == e.0 && targets@[j2].1 as int == e.1);
                    assert(cost_at(
                        gn,
                        table@,
                        targets@[j2].0 as int,
                        targets@[j2].1 as int,
                    ) < usize::MAX);
                    assert(r is Ok);
                }
            }
        }

        // a target below the sentinel is witnessed by its own entry, so Ok
        // and reachability coincide
        if exists|k: int|
            0 <= k < targets@.len() && cost_at(
                gn,
                table@,
                (#[trigger] targets@[k]).0 as int,
                targets@[k].1 as int,
            ) < usize::MAX {
            let k = choose|k: int|
                0 <= k < targets@.len() && cost_at(
                    gn,
                    table@,
                    (#[trigger] targets@[k]).0 as int,
                    targets@[k].1 as int,
                ) < usize::MAX;
            let t = targets@[k];
            lemma_cell_index_bounds(gn, t.0 as int, t.1 as int);
            assert(entry_ok(map@, *model, permits@, source, table@, t.0 as int, t.1 as int));
            let e = table@[cell_index(gn, t.0 as int, t.1 as int)];
            assert(path_result(map@, *model, permits@, sr, sc, e.actions@) == Some((((
                t.0 as int,
                t.1 as int,
            ), e.cost as nat))));
            assert(tset.contains(t));
        }

        // the source itself as a target is reached by the empty sequence
        if tset.contains(source) {
            let empty_acts = Seq::<Action>::empty();
            assert(path_result(map@, *model, permits@, sr, sc, empty_acts) == Some((((sr, sc),
            0nat))));
            assert(((sr as usize, sc as usize)) == source);
            if r is Err {
                assert((path_result(map@, *model, permits@, sr, sc, empty_acts)->0).1
                    >= usize::MAX);
                assert(false);
            }
            assert((r->Ok_0).cost as nat <= 0);
        }
    }

    r
}

} // verus!
