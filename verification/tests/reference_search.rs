//! Checks the engine's per-cell costs against an independent reference:
//! repeated relaxation over every edge until a fixed point (Bellman-Ford),
//! which computes true minimum path weights for non-negative edge costs.

use tomtom::dijkstra::{best_of_targets, compute_best_table};
use tomtom::error::PathError;
use tomtom::path::Direction;
use tomtom::plain::PlainContent;
use tomtom::policy::{permit_all, CostModel, StepPermission, TileProps};
use tomtom::tile::{Tile, TileKind};
use tomtom::utils::calculate_go_cost;

const UNREACHED: usize = usize::MAX;

fn reference_costs(
    map: &Vec<Vec<Option<Tile>>>,
    model: &CostModel,
    permits: &Vec<Vec<StepPermission>>,
    source: (usize, usize),
) -> Vec<Vec<usize>> {
    let n = map.len();
    let mut dist = vec![vec![UNREACHED; n]; n];
    dist[source.0][source.1] = 0;

    let teleports: Vec<(usize, usize)> = (0..n)
        .flat_map(|r| (0..n).map(move |c| (r, c)))
        .filter(|&(r, c)| {
            matches!(map[r][c], Some(t) if t.tile_type == TileKind::Teleport(true))
        })
        .collect();

    loop {
        let mut changed = false;
        for r in 0..n {
            for c in 0..n {
                let d = dist[r][c];
                if d == UNREACHED {
                    continue;
                }
                let steps = [
                    (Direction::Right, r, c + 1),
                    (Direction::Down, r + 1, c),
                    (Direction::Left, r, c.wrapping_sub(1)),
                    (Direction::Up, r.wrapping_sub(1), c),
                ];
                for (dir, tr, tc) in steps {
                    if tr >= n || tc >= n {
                        continue;
                    }
                    if let Ok(w) = calculate_go_cost(map, model, permits, (r, c), dir) {
                        if d + w < dist[tr][tc] {
                            dist[tr][tc] = d + w;
                            changed = true;
                        }
                    }
                }
                if matches!(map[r][c], Some(t) if t.tile_type == TileKind::Teleport(true)) {
                    for &(tr, tc) in &teleports {
                        if d + 30 < dist[tr][tc] {
                            dist[tr][tc] = d + 30;
                            changed = true;
                        }
                    }
                }
            }
        }
        if !changed {
            return dist;
        }
    }
}

fn check_against_reference(
    map: &Vec<Vec<Option<Tile>>>,
    model: &CostModel,
    permits: &Vec<Vec<StepPermission>>,
    source: (usize, usize),
) {
    let n = map.len();
    let expected = reference_costs(map, model, permits, source);
    let table = compute_best_table(map, model, permits, source);
    for r in 0..n {
        for c in 0..n {
            assert_eq!(
                table[r * n + c].cost,
                expected[r][c],
                "cost mismatch at ({r}, {c})"
            );
        }
    }
}

#[test]
fn engine_matches_reference_on_hand_built_grids() {
    let grass = |e: usize| Some(Tile {
        tile_type: TileKind::Grass,
        content: PlainContent::Empty,
        elevation: e,
    });
    let teleport = |e: usize| Some(Tile {
        tile_type: TileKind::Teleport(true),
        content: PlainContent::Empty,
        elevation: e,
    });
    let wall = || Some(Tile {
        tile_type: TileKind::Wall,
        content: PlainContent::Empty,
        elevation: 0,
    });

    let map: Vec<Vec<Option<Tile>>> = vec![
        vec![grass(0), grass(2), None, teleport(1)],
        vec![grass(1), wall(), grass(0), grass(3)],
        vec![teleport(5), grass(1), None, grass(0)],
        vec![grass(0), grass(0), grass(7), grass(2)],
    ];
    let mut model = CostModel::uniform(3);
    model.wall = TileProps { walk: false, cost: 0 };
    model.teleport = TileProps { walk: true, cost: 6 };
    let mut permits = permit_all(4);
    permits[3][1] = StepPermission { up: true, down: true, left: false, right: true };

    check_against_reference(&map, &model, &permits, (0, 0));
    check_against_reference(&map, &model, &permits, (2, 0));
    check_against_reference(&map, &model, &permits, (3, 3));
}

#[test]
fn engine_matches_reference_on_generated_grids() {
    let mut seed: u64 = 0x2545_f491_4f6c_dd1d;
    let mut next = move || {
        seed = seed.wrapping_mul(6364136223846793005).wrapping_add(1442695040888963407);
        (seed >> 33) as usize
    };

    for round in 0..8 {
        let n = 3 + round % 3;
        let mut map: Vec<Vec<Option<Tile>>> = Vec::new();
        for _ in 0..n {
            let mut row = Vec::new();
            for _ in 0..n {
                let roll = next() % 10;
                row.push(if roll == 0 {
                    None
                } else {
                    let kind = match roll {
                        1 => TileKind::Teleport(true),
                        2 => TileKind::Wall,
                        3 => TileKind::Sand,
                        _ => TileKind::Grass,
                    };
                    Some(Tile {
                        tile_type: kind,
                        content: PlainContent::Empty,
                        elevation: next() % 6,
                    })
                });
            }
            map.push(row);
        }

        let mut model = CostModel::uniform(1 + next() % 5);
        model.wall = TileProps { walk: false, cost: 0 };
        model.sand = TileProps { walk: true, cost: 1 + next() % 9 };

        let mut permits = permit_all(n);
        for _ in 0..3 {
            let (r, c) = (next() % n, next() % n);
            permits[r][c] = StepPermission {
                up: next() % 2 == 0,
                down: next() % 2 == 0,
                left: next() % 2 == 0,
                right: next() % 2 == 0,
            };
        }

        let source = (next() % n, next() % n);
        check_against_reference(&map, &model, &permits, source);
    }
}

#[test]
fn extraction_picks_the_cheapest_target_of_the_table() {
    let grass = || Some(Tile {
        tile_type: TileKind::Grass,
        content: PlainContent::Empty,
        elevation: 0,
    });
    let map: Vec<Vec<Option<Tile>>> = vec![
        vec![grass(), grass(), grass()],
        vec![grass(), None, grass()],
        vec![grass(), grass(), grass()],
    ];
    let model = CostModel::uniform(5);
    let permits = permit_all(3);

    let table = compute_best_table(&map, &model, &permits, (0, 0));

    let best = best_of_targets(3, &table, &vec![(2, 2), (0, 1), (2, 0)]).unwrap();
    assert_eq!(best.destination, (0, 1));
    assert_eq!(best.cost, 5);

    let none = best_of_targets(3, &table, &Vec::new());
    assert_eq!(none.unwrap_err(), PathError::PathNotFound);
}
