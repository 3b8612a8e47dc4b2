use tomtom::error::EdgeDenied;
use tomtom::path::{Action, Direction};
use tomtom::plain::{PlainContent, PlainTileType};
use tomtom::policy::{permit_all, CostModel, StepPermission, TileProps};
use tomtom::tile::{Tile, TileKind};
use tomtom::utils::{
    active_teleports, calculate_go_cost, calculate_teleport_cost, get_adjacent_tiles,
    get_specific_tiles, TELEPORT_COST,
};
use tomtom::path::Path;

fn cell(kind: TileKind, elevation: usize) -> Tile {
    Tile { tile_type: kind, content: PlainContent::Empty, elevation }
}

fn grass_square(n: usize) -> Vec<Vec<Option<Tile>>> {
    (0..n)
        .map(|_| (0..n).map(|_| Some(cell(TileKind::Grass, 0))).collect())
        .collect()
}

#[test]
fn teleport_cost_is_constant_over_any_distance() {
    let mut map = grass_square(5);
    map[0][0] = Some(cell(TileKind::Teleport(true), 0));
    map[4][4] = Some(cell(TileKind::Teleport(true), 9));
    map[0][1] = Some(cell(TileKind::Teleport(true), 0));

    assert_eq!(calculate_teleport_cost(&map, (0, 0), (4, 4)), Ok(TELEPORT_COST));
    assert_eq!(calculate_teleport_cost(&map, (0, 0), (0, 1)), Ok(TELEPORT_COST));
    assert_eq!(calculate_teleport_cost(&map, (4, 4), (0, 0)), Ok(TELEPORT_COST));
}

#[test]
fn teleport_cost_rejects_bad_endpoints() {
    let mut map = grass_square(3);
    map[0][0] = Some(cell(TileKind::Teleport(true), 0));
    map[1][1] = Some(cell(TileKind::Teleport(false), 0));
    map[2][2] = None;

    assert_eq!(
        calculate_teleport_cost(&map, (9, 0), (0, 0)),
        Err(EdgeDenied::SourceOutOfBounds)
    );
    assert_eq!(
        calculate_teleport_cost(&map, (0, 0), (0, 9)),
        Err(EdgeDenied::DestinationOutOfBounds)
    );
    assert_eq!(
        calculate_teleport_cost(&map, (2, 2), (0, 0)),
        Err(EdgeDenied::SourceUnobserved)
    );
    assert_eq!(
        calculate_teleport_cost(&map, (0, 1), (0, 0)),
        Err(EdgeDenied::SourceNotTeleport)
    );
    assert_eq!(
        calculate_teleport_cost(&map, (0, 0), (2, 2)),
        Err(EdgeDenied::DestinationUnobserved)
    );
    assert_eq!(
        calculate_teleport_cost(&map, (0, 0), (1, 1)),
        Err(EdgeDenied::DestinationNotTeleport)
    );
}

#[test]
fn go_cost_charges_ascent_but_not_descent() {
    let mut map = grass_square(2);
    map[0][0] = Some(cell(TileKind::Grass, 2));
    map[0][1] = Some(cell(TileKind::Grass, 5));
    let model = CostModel::uniform(7);
    let permits = permit_all(2);

    let up = calculate_go_cost(&map, &model, &permits, (0, 0), Direction::Right).unwrap();
    let down = calculate_go_cost(&map, &model, &permits, (0, 1), Direction::Left).unwrap();

    assert_eq!(up, down + 9);
    assert_eq!(down, 7);
}

#[test]
fn go_cost_reports_each_denial() {
    let mut map = grass_square(3);
    map[1][0] = None;
    map[1][2] = Some(cell(TileKind::Lava, 0));
    let mut model = CostModel::uniform(3);
    model.lava = TileProps { walk: false, cost: 0 };
    let mut permits = permit_all(3);
    permits[1][1] = StepPermission { up: false, down: true, left: true, right: true };

    assert_eq!(
        calculate_go_cost(&map, &model, &permits, (1, 1), Direction::Up),
        Err(EdgeDenied::PermissionDenied)
    );
    assert_eq!(
        calculate_go_cost(&map, &model, &permits, (1, 0), Direction::Right),
        Err(EdgeDenied::SourceUnobserved)
    );
    assert_eq!(
        calculate_go_cost(&map, &model, &permits, (1, 1), Direction::Left),
        Err(EdgeDenied::DestinationUnobserved)
    );
    assert_eq!(
        calculate_go_cost(&map, &model, &permits, (1, 1), Direction::Right),
        Err(EdgeDenied::DestinationNotWalkable)
    );
    assert_eq!(calculate_go_cost(&map, &model, &permits, (1, 1), Direction::Down), Ok(3));
}

#[test]
fn adjacency_lists_in_fixed_order() {
    let map = grass_square(3);
    assert_eq!(get_adjacent_tiles(&map, (1, 1)), vec![(1, 2), (2, 1), (1, 0), (0, 1)]);
    assert_eq!(get_adjacent_tiles(&map, (0, 0)), vec![(0, 1), (1, 0)]);
}

#[test]
fn adjacency_skips_unobserved_neighbors() {
    let mut map = grass_square(3);
    map[1][2] = None;
    map[0][1] = None;
    assert_eq!(get_adjacent_tiles(&map, (1, 1)), vec![(2, 1), (1, 0)]);
}

#[test]
fn specific_tiles_scan_row_major_with_filters() {
    let mut map = grass_square(3);
    map[0][2] = Some(cell(TileKind::Sand, 0));
    map[1][1] = Some(Tile {
        tile_type: TileKind::Sand,
        content: PlainContent::Rock,
        elevation: 0,
    });
    map[2][0] = None;

    let sands = get_specific_tiles(&map, &Some(PlainTileType::Sand), &None);
    assert_eq!(sands, vec![(0, 2), (1, 1)]);

    let rocky_sand =
        get_specific_tiles(&map, &Some(PlainTileType::Sand), &Some(PlainContent::Rock));
    assert_eq!(rocky_sand, vec![(1, 1)]);

    let everything = get_specific_tiles(&map, &None, &None);
    assert_eq!(everything.len(), 8);
}

#[test]
fn active_teleports_collects_only_active_observed_cells() {
    let mut map = grass_square(3);
    map[0][1] = Some(cell(TileKind::Teleport(true), 0));
    map[1][0] = Some(cell(TileKind::Teleport(false), 0));
    map[2][2] = Some(cell(TileKind::Teleport(true), 4));
    map[1][2] = None;

    assert_eq!(active_teleports(&map), vec![(0, 1), (2, 2)]);
}

#[test]
fn plain_tile_type_ignores_teleport_activity() {
    assert!(PlainTileType::Teleport.eq_tile_type(&TileKind::Teleport(true)));
    assert!(PlainTileType::Teleport.eq_tile_type(&TileKind::Teleport(false)));
    assert!(PlainTileType::Grass.eq_tile_type(&TileKind::Grass));
    assert!(!PlainTileType::Grass.eq_tile_type(&TileKind::Sand));
}

#[test]
fn plain_content_compares_by_kind() {
    assert!(PlainContent::Coin.eq_content(&PlainContent::Coin));
    assert!(!PlainContent::Coin.eq_content(&PlainContent::Rock));
    assert!(PlainContent::Empty.eq_content(&PlainContent::Empty));
}

#[test]
fn path_extend_copies_the_action_sequence() {
    let base = Path::new((0, 0), (0, 0), 0);
    assert!(base.actions.is_empty());

    let one = base.extend(Action::Go(Direction::Right), (0, 1), 4);
    let two = one.extend(Action::Go(Direction::Down), (1, 1), 9);

    assert_eq!(one.actions, vec![Action::Go(Direction::Right)]);
    assert_eq!(two.actions, vec![Action::Go(Direction::Right), Action::Go(Direction::Down)]);
    assert_eq!(two.cost, 9);
    assert_eq!(two.source, (0, 0));
    assert_eq!(two.destination, (1, 1));

    let copy = two.duplicate();
    assert_eq!(copy.actions, two.actions);
    assert_eq!(copy.cost, two.cost);
}

#[test]
fn default_path_is_the_zero_record() {
    let p = Path::default();
    assert_eq!(p.source, (0, 0));
    assert_eq!(p.destination, (0, 0));
    assert_eq!(p.cost, 0);
    assert!(p.actions.is_empty());
}

#[test]
fn permit_all_allows_every_direction() {
    let permits = permit_all(2);
    assert_eq!(permits.len(), 2);
    for row in &permits {
        assert_eq!(row.len(), 2);
        for p in row {
            assert!(p.up && p.down && p.left && p.right);
        }
    }
}

#[test]
fn uniform_model_assigns_one_cost_everywhere() {
    let model = CostModel::uniform(6);
    assert_eq!(model.grass, TileProps { walk: true, cost: 6 });
    assert_eq!(model.teleport, TileProps { walk: true, cost: 6 });
    assert_eq!(model.wall, TileProps { walk: true, cost: 6 });
}
