use tile_movement::geometry::Position;
use tile_movement::pathfinding::astar_pathfind;
use tile_movement::registry::{build_tile_registry, TileRegistry};
use tile_movement::tiles::{Tile, TileId, TileStore};

const SPACING: i32 = 2000;

fn id_at(x: i32, z: i32) -> TileId {
    (100 + x * 10 + z) as TileId
}

fn grid(width: i32, height: i32, blocked: &[(i32, i32)]) -> TileStore {
    let mut tiles = TileStore::new();
    for x in 0..width {
        for z in 0..height {
            let mut tile = Tile::at(x, z);
            tile.walkable = !blocked.contains(&(x, z));
            assert!(tiles.insert(id_at(x, z), tile, Position::new(x * SPACING, 0, z * SPACING)));
        }
    }
    let mut registry = TileRegistry::new();
    build_tile_registry(&mut registry, &mut tiles);
    tiles
}

fn chebyshev(a: (i32, i32), b: (i32, i32)) -> usize {
    std::cmp::max((a.0 - b.0).abs(), (a.1 - b.1).abs()) as usize
}

fn coord_of(tiles: &TileStore, id: TileId) -> (i32, i32) {
    let entry = tiles.get(id).unwrap();
    (entry.tile.x, entry.tile.z)
}

fn assert_route(tiles: &TileStore, path: &[TileId], start: TileId, goal: TileId) {
    assert_eq!(path.first(), Some(&start));
    assert_eq!(path.last(), Some(&goal));
    for id in path {
        assert!(tiles.get(*id).unwrap().tile.walkable);
    }
    for pair in path.windows(2) {
        let from = tiles.get(pair[0]).unwrap();
        assert!(from.tile.neighbor_entities.contains(&Some(pair[1])));
    }
    for (i, a) in path.iter().enumerate() {
        for b in &path[i + 1..] {
            assert_ne!(a, b);
        }
    }
}

#[test]
fn identity_path_is_the_tile_alone() {
    let tiles = grid(3, 3, &[]);
    for x in 0..3 {
        for z in 0..3 {
            let t = id_at(x, z);
            assert_eq!(astar_pathfind(t, t, &tiles), Some(vec![t]));
        }
    }
}

#[test]
fn identity_path_of_a_blocked_tile_is_none() {
    let tiles = grid(3, 3, &[(1, 1)]);
    assert_eq!(astar_pathfind(id_at(1, 1), id_at(1, 1), &tiles), None);
}

#[test]
fn missing_endpoints_give_no_path() {
    let tiles = grid(3, 3, &[]);
    assert_eq!(astar_pathfind(9999, id_at(0, 0), &tiles), None);
    assert_eq!(astar_pathfind(id_at(0, 0), 9999, &tiles), None);
    assert_eq!(astar_pathfind(9999, 9999, &tiles), None);
}

#[test]
fn blocked_endpoints_give_no_path() {
    let tiles = grid(3, 3, &[(0, 0), (2, 2)]);
    assert_eq!(astar_pathfind(id_at(0, 0), id_at(1, 1), &tiles), None);
    assert_eq!(astar_pathfind(id_at(1, 1), id_at(2, 2), &tiles), None);
}

#[test]
fn no_path_through_a_wall() {
    let tiles = grid(3, 3, &[(1, 0), (1, 1), (1, 2)]);
    assert_eq!(astar_pathfind(id_at(0, 0), id_at(2, 2), &tiles), None);
    assert_eq!(astar_pathfind(id_at(0, 1), id_at(2, 0), &tiles), None);
    let same_side = astar_pathfind(id_at(0, 0), id_at(0, 2), &tiles).unwrap();
    assert_route(&tiles, &same_side, id_at(0, 0), id_at(0, 2));
}

#[test]
fn no_path_out_of_an_enclosure() {
    let tiles = grid(5, 5, &[(1, 1), (1, 2), (1, 3), (2, 1), (2, 3), (3, 1), (3, 2), (3, 3)]);
    assert_eq!(astar_pathfind(id_at(2, 2), id_at(0, 0), &tiles), None);
    assert_eq!(astar_pathfind(id_at(0, 0), id_at(2, 2), &tiles), None);
}

#[test]
fn scenario_diagonal_across_open_grid() {
    let tiles = grid(3, 3, &[]);
    let path = astar_pathfind(id_at(0, 0), id_at(2, 2), &tiles).unwrap();
    assert_eq!(path, vec![id_at(0, 0), id_at(1, 1), id_at(2, 2)]);
}

#[test]
fn scenario_blocked_centre_is_walked_around() {
    let tiles = grid(3, 3, &[(1, 1)]);
    let path = astar_pathfind(id_at(0, 0), id_at(2, 2), &tiles).unwrap();
    assert!(path.len() >= 3);
    assert!(!path.contains(&id_at(1, 1)));
    assert_route(&tiles, &path, id_at(0, 0), id_at(2, 2));
    assert_eq!(path.len(), 4);
}

#[test]
fn endpoints_are_included() {
    let tiles = grid(4, 5, &[(2, 2), (1, 3)]);
    for sx in 0..4 {
        for sz in 0..5 {
            for gx in 0..4 {
                for gz in 0..5 {
                    let (start, goal) = (id_at(sx, sz), id_at(gx, gz));
                    if let Some(path) = astar_pathfind(start, goal, &tiles) {
                        assert_route(&tiles, &path, start, goal);
                    } else {
                        assert!([(sx, sz), (gx, gz)].iter().any(|c| *c == (2, 2) || *c == (1, 3)));
                    }
                }
            }
        }
    }
}

#[test]
fn open_uniform_grid_gives_chebyshev_many_steps() {
    let tiles = grid(6, 5, &[]);
    for sx in 0..6 {
        for sz in 0..5 {
            for gx in 0..6 {
                for gz in 0..5 {
                    let (start, goal) = (id_at(sx, sz), id_at(gx, gz));
                    let path = astar_pathfind(start, goal, &tiles).unwrap();
                    assert_route(&tiles, &path, start, goal);
                    assert_eq!(path.len(), chebyshev((sx, sz), (gx, gz)) + 1);
                    assert_eq!(coord_of(&tiles, path[0]), (sx, sz));
                }
            }
        }
    }
}

#[test]
fn straight_line_path_visits_every_tile_between() {
    let tiles = grid(5, 1, &[]);
    let path = astar_pathfind(id_at(0, 0), id_at(4, 0), &tiles).unwrap();
    assert_eq!(path, vec![id_at(0, 0), id_at(1, 0), id_at(2, 0), id_at(3, 0), id_at(4, 0)]);
}

#[test]
fn stale_neighbours_that_are_not_stored_are_skipped() {
    let mut tiles = TileStore::new();
    let mut a = Tile::at(0, 0);
    a.neighbor_entities[2] = Some(777);
    a.neighbor_entities[0] = Some(2);
    let b = Tile::at(0, 1);
    assert!(tiles.insert(1, a, Position::new(0, 0, 0)));
    assert!(tiles.insert(2, b, Position::new(0, 0, SPACING)));
    assert_eq!(astar_pathfind(1, 2, &tiles), Some(vec![1, 2]));
    assert_eq!(astar_pathfind(1, 777, &tiles), None);
    assert_eq!(astar_pathfind(2, 1, &tiles), None);
}

#[test]
fn search_follows_cached_slots_not_coordinates() {
    let mut tiles = TileStore::new();
    let mut a = Tile::at(0, 0);
    a.neighbor_entities[5] = Some(3);
    let mut c = Tile::at(40, 40);
    c.neighbor_entities[1] = Some(2);
    assert!(tiles.insert(1, a, Position::new(0, 0, 0)));
    assert!(tiles.insert(2, Tile::at(7, 7), Position::new(10, 0, 10)));
    assert!(tiles.insert(3, c, Position::new(-5000, 0, 5000)));
    assert_eq!(astar_pathfind(1, 2, &tiles), Some(vec![1, 3, 2]));
}

#[test]
fn coincident_tiles_are_still_routed() {
    let mut tiles = TileStore::new();
    let mut a = Tile::at(0, 0);
    a.neighbor_entities[0] = Some(2);
    let mut b = Tile::at(0, 1);
    b.neighbor_entities[0] = Some(3);
    b.neighbor_entities[4] = Some(1);
    assert!(tiles.insert(1, a, Position::new(5, 5, 5)));
    assert!(tiles.insert(2, b, Position::new(5, 5, 5)));
    assert!(tiles.insert(3, Tile::at(0, 2), Position::new(5, 5, 5)));
    assert_eq!(astar_pathfind(1, 3, &tiles), Some(vec![1, 2, 3]));
}

#[test]
fn open_uniform_grid_gives_manhattan_cost() {
    let tiles = grid(5, 6, &[]);
    for (start, goal) in [((0, 0), (4, 5)), ((4, 0), (0, 5)), ((2, 3), (2, 0)), ((1, 5), (3, 4))] {
        let path = astar_pathfind(id_at(start.0, start.1), id_at(goal.0, goal.1), &tiles).unwrap();
        let mut cost: u128 = 0;
        for pair in path.windows(2) {
            let from = tiles.get(pair[0]).unwrap().position;
            let to = tiles.get(pair[1]).unwrap().position;
            cost += tile_movement::geometry::heuristic(from, to);
        }
        let manhattan = ((start.0 - goal.0).abs() + (start.1 - goal.1).abs()) as u128;
        assert_eq!(cost, (SPACING as u128) * (SPACING as u128) * manhattan);
        assert_eq!(path.len(), chebyshev(start, goal) + 1);
    }
}

#[test]
fn detour_is_taken_when_the_straight_way_is_walled() {
    let tiles = grid(5, 5, &[(2, 0), (2, 1), (2, 2), (2, 3)]);
    let path = astar_pathfind(id_at(0, 0), id_at(4, 0), &tiles).unwrap();
    assert_route(&tiles, &path, id_at(0, 0), id_at(4, 0));
    assert!(path.contains(&id_at(2, 4)));
    assert_eq!(path.len(), 9);
}
