use tomtom::dijkstra::dijkstra;
use tomtom::error::PathError;
use tomtom::path::{Action, Direction};
use tomtom::plain::{PlainContent, PlainTileType};
use tomtom::policy::{permit_all, CostModel, StepPermission, TileProps};
use tomtom::tile::{Tile, TileKind};
use tomtom::TomTom;

fn tile(kind: TileKind, elevation: usize) -> Tile {
    Tile { tile_type: kind, content: PlainContent::Empty, elevation }
}

fn flat_grass(n: usize) -> Vec<Vec<Option<Tile>>> {
    (0..n)
        .map(|_| (0..n).map(|_| Some(tile(TileKind::Grass, 0))).collect())
        .collect()
}

#[test]
fn flat_grid_diagonal_costs_four_steps() {
    let map = flat_grass(3);
    let model = CostModel::uniform(10);
    let permits = permit_all(3);

    let path = TomTom::get_path_to_coordinates(&map, &model, &permits, (0, 0), false, (2, 2))
        .expect("path must exist on a fully observed flat grid");

    assert_eq!(path.source, (0, 0));
    assert_eq!(path.destination, (2, 2));
    assert_eq!(path.cost, 40);
    assert_eq!(path.actions.len(), 4);
}

#[test]
fn teleport_shortcut_beats_long_walk() {
    let mut map = flat_grass(3);
    map[0][0] = Some(tile(TileKind::Teleport(true), 0));
    map[2][2] = Some(tile(TileKind::Teleport(true), 0));
    let model = CostModel::uniform(10);
    let permits = permit_all(3);

    let path = TomTom::get_path_to_coordinates(&map, &model, &permits, (0, 0), false, (2, 2))
        .expect("teleport target must be reachable");

    assert_eq!(path.cost, 30);
    assert_eq!(path.actions, vec![Action::Teleport((2, 2))]);
}

#[test]
fn grid_walk_wins_when_cheaper_than_teleport() {
    let mut map = flat_grass(3);
    map[0][0] = Some(tile(TileKind::Teleport(true), 0));
    map[2][2] = Some(tile(TileKind::Teleport(true), 0));
    let model = CostModel::uniform(2);
    let permits = permit_all(3);

    let path = TomTom::get_path_to_coordinates(&map, &model, &permits, (0, 0), false, (2, 2))
        .expect("grid path must be reachable");

    assert_eq!(path.cost, 8);
    assert_eq!(path.actions.len(), 4);
    assert!(path.actions.iter().all(|a| matches!(a, Action::Go(_))));
}

#[test]
fn source_as_target_resolves_to_zero_cost() {
    let map = flat_grass(3);
    let model = CostModel::uniform(10);
    let permits = permit_all(3);

    let path = TomTom::get_path_to_coordinates(&map, &model, &permits, (1, 1), false, (1, 1))
        .expect("the source itself must resolve");

    assert_eq!(path.cost, 0);
    assert_eq!(path.destination, (1, 1));
    assert!(path.actions.is_empty());
}

#[test]
fn empty_target_set_fails_before_searching() {
    let map = flat_grass(3);
    let model = CostModel::uniform(10);
    let permits = permit_all(3);

    let r = dijkstra(&map, &model, &permits, (0, 0), &Vec::new());
    assert_eq!(r.unwrap_err(), PathError::EmptyTargetSet);
}

#[test]
fn filter_matching_nothing_yields_empty_target_set() {
    let map = flat_grass(3);
    let model = CostModel::uniform(10);
    let permits = permit_all(3);

    let r = TomTom::get_path_to_tile(
        &map,
        &model,
        &permits,
        (0, 0),
        false,
        Some(PlainTileType::Lava),
        None,
    );
    assert_eq!(r.unwrap_err(), PathError::EmptyTargetSet);
}

#[test]
fn source_out_of_bounds_is_rejected() {
    let map = flat_grass(3);
    let model = CostModel::uniform(10);
    let permits = permit_all(3);

    let r = dijkstra(&map, &model, &permits, (5, 5), &vec![(0, 0)]);
    assert_eq!(r.unwrap_err(), PathError::SourceOutOfBounds);
}

#[test]
fn target_behind_unobserved_cells_is_not_found() {
    let mut map = flat_grass(3);
    map[0][1] = None;
    map[1][1] = None;
    map[2][1] = None;
    let model = CostModel::uniform(10);
    let permits = permit_all(3);

    let r = TomTom::get_path_to_coordinates(&map, &model, &permits, (0, 0), false, (0, 2));
    assert_eq!(r.unwrap_err(), PathError::PathNotFound);
}

#[test]
fn repeated_search_returns_the_same_answer() {
    let mut map = flat_grass(4);
    map[1][2] = Some(tile(TileKind::Hill, 3));
    map[3][0] = Some(tile(TileKind::Teleport(true), 0));
    let model = CostModel::uniform(5);
    let permits = permit_all(4);

    let first = TomTom::get_path_to_coordinates(&map, &model, &permits, (0, 0), false, (3, 3))
        .expect("reachable");
    let second = TomTom::get_path_to_coordinates(&map, &model, &permits, (0, 0), false, (3, 3))
        .expect("reachable");

    assert_eq!(first.cost, second.cost);
    assert_eq!(first.destination, second.destination);
    assert_eq!(first.actions, second.actions);
}

#[test]
fn denied_permission_forces_a_detour() {
    let map = flat_grass(2);
    let model = CostModel::uniform(5);
    let mut permits = permit_all(2);
    permits[0][0] = StepPermission { up: true, down: true, left: true, right: false };

    let path = TomTom::get_path_to_coordinates(&map, &model, &permits, (0, 0), false, (0, 1))
        .expect("detour must exist");

    assert_eq!(path.cost, 15);
    assert_eq!(
        path.actions,
        vec![
            Action::Go(Direction::Down),
            Action::Go(Direction::Right),
            Action::Go(Direction::Up),
        ]
    );
}

#[test]
fn climbing_pays_the_quadratic_penalty() {
    let mut map = flat_grass(2);
    map[0][0] = Some(tile(TileKind::Grass, 2));
    map[0][1] = Some(tile(TileKind::Grass, 5));
    map[1][0] = None;
    map[1][1] = None;
    let model = CostModel::uniform(7);
    let permits = permit_all(2);

    let up = TomTom::get_path_to_coordinates(&map, &model, &permits, (0, 0), false, (0, 1))
        .expect("ascending step exists");
    assert_eq!(up.cost, 7 + 9);

    let down = TomTom::get_path_to_coordinates(&map, &model, &permits, (0, 1), false, (0, 0))
        .expect("descending step exists");
    assert_eq!(down.cost, 7);
}

#[test]
fn adjacent_flag_targets_observed_neighbors() {
    let map = flat_grass(3);
    let model = CostModel::uniform(10);
    let permits = permit_all(3);

    let path = TomTom::get_path_to_coordinates(&map, &model, &permits, (0, 0), true, (2, 2))
        .expect("a neighbor of the corner is reachable");

    assert_eq!(path.cost, 30);
    assert!(path.destination == (1, 2) || path.destination == (2, 1));
}

#[test]
fn tile_filter_finds_the_nearest_match() {
    let mut map = flat_grass(3);
    map[0][2] = Some(tile(TileKind::Sand, 0));
    map[2][2] = Some(tile(TileKind::Sand, 0));
    let model = CostModel::uniform(10);
    let permits = permit_all(3);

    let path = TomTom::get_path_to_tile(
        &map,
        &model,
        &permits,
        (0, 0),
        false,
        Some(PlainTileType::Sand),
        None,
    )
    .expect("a sand tile is reachable");

    assert_eq!(path.destination, (0, 2));
    assert_eq!(path.cost, 20);
}

#[test]
fn content_filter_narrows_the_matches() {
    let mut map = flat_grass(3);
    map[2][0] = Some(Tile {
        tile_type: TileKind::Grass,
        content: PlainContent::Coin,
        elevation: 0,
    });
    let model = CostModel::uniform(10);
    let permits = permit_all(3);

    let path = TomTom::get_path_to_tile(
        &map,
        &model,
        &permits,
        (0, 0),
        false,
        None,
        Some(PlainContent::Coin),
    )
    .expect("the coin cell is reachable");

    assert_eq!(path.destination, (2, 0));
    assert_eq!(path.cost, 20);
}

#[test]
fn unwalkable_tiles_are_routed_around() {
    let mut map = flat_grass(3);
    map[0][1] = Some(tile(TileKind::Wall, 0));
    map[1][1] = Some(tile(TileKind::Wall, 0));
    let mut model = CostModel::uniform(4);
    model.wall = TileProps { walk: false, cost: 0 };
    let permits = permit_all(3);

    let path = TomTom::get_path_to_coordinates(&map, &model, &permits, (0, 0), false, (0, 2))
        .expect("the wall can be walked around");

    assert_eq!(path.cost, 24);
    assert_eq!(path.actions.len(), 6);
}
