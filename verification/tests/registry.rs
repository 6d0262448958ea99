use tile_movement::geometry::{Position, POSITION_LIMIT};
use tile_movement::registry::{
    build_tile_registry, calculate_neighbors_for_tile, calculate_tile_neighbors, get_middle,
    TileRegistry,
};
use tile_movement::tiles::{Tile, TileColor, TileStore};
use tile_movement::world::TileWorld;

fn three_by_three() -> (TileRegistry, TileStore) {
    let mut tiles = TileStore::new();
    for x in 0..3 {
        for z in 0..3 {
            assert!(tiles.insert((x * 3 + z) as u64, Tile::at(x, z), Position::new(x, 0, z)));
        }
    }
    let mut registry = TileRegistry::new();
    build_tile_registry(&mut registry, &mut tiles);
    (registry, tiles)
}

#[test]
fn registry_maps_each_coordinate_to_its_tile() {
    let (registry, tiles) = three_by_three();
    assert_eq!(registry.len(), 9);
    assert_eq!(tiles.len(), 9);
    for x in 0..3 {
        for z in 0..3 {
            assert_eq!(registry.get(x, z), Some((x * 3 + z) as u64));
        }
    }
    assert_eq!(registry.get(3, 0), None);
    assert_eq!(registry.get(-1, -1), None);
}

#[test]
fn centre_tile_has_all_eight_neighbours_in_compass_order() {
    let (_, tiles) = three_by_three();
    let centre = tiles.get(4).unwrap();
    assert_eq!(
        centre.tile.neighbor_entities,
        [Some(5), Some(8), Some(7), Some(6), Some(3), Some(0), Some(1), Some(2)]
    );
}

#[test]
fn corner_tile_has_three_neighbours() {
    let (_, tiles) = three_by_three();
    let corner = tiles.get(0).unwrap();
    assert_eq!(
        corner.tile.neighbor_entities,
        [Some(1), Some(4), Some(3), None, None, None, None, None]
    );
    let far = tiles.get(8).unwrap();
    assert_eq!(
        far.tile.neighbor_entities,
        [None, None, None, None, Some(7), Some(4), Some(5), None]
    );
}

#[test]
fn rebuild_is_idempotent() {
    let (mut registry, mut tiles) = three_by_three();
    let once: Vec<_> = (0..tiles.len()).map(|i| *tiles.entry_at(i)).collect();
    let mut mapping_once = registry.entries();
    mapping_once.sort();
    build_tile_registry(&mut registry, &mut tiles);
    let mut mapping_twice = registry.entries();
    mapping_twice.sort();
    assert_eq!(mapping_once, mapping_twice);
    assert_eq!(tiles.len(), once.len());
    for (i, before) in once.iter().enumerate() {
        let after = tiles.entry_at(i);
        assert_eq!(after.id, before.id);
        assert_eq!(after.position, before.position);
        assert_eq!(after.tile.neighbor_entities, before.tile.neighbor_entities);
        assert_eq!((after.tile.x, after.tile.z), (before.tile.x, before.tile.z));
        assert_eq!(after.tile.walkable, before.tile.walkable);
    }
}

#[test]
fn rebuild_forgets_what_the_registry_held() {
    let mut registry = TileRegistry::new();
    assert_eq!(registry.insert(50, 50, 1234), None);
    assert_eq!(registry.insert(50, 50, 4321), Some(1234));
    let mut tiles = TileStore::new();
    assert!(tiles.insert(1, Tile::at(0, 0), Position::new(0, 0, 0)));
    build_tile_registry(&mut registry, &mut tiles);
    assert_eq!(registry.get(50, 50), None);
    assert_eq!(registry.get(0, 0), Some(1));
    assert_eq!(registry.len(), 1);
}

#[test]
fn later_tile_wins_a_shared_coordinate() {
    let mut tiles = TileStore::new();
    assert!(tiles.insert(1, Tile::at(0, 0), Position::new(0, 0, 0)));
    assert!(tiles.insert(2, Tile::at(0, 0), Position::new(0, 0, 0)));
    assert!(tiles.insert(3, Tile::at(0, 1), Position::new(0, 0, 1)));
    let mut registry = TileRegistry::new();
    build_tile_registry(&mut registry, &mut tiles);
    assert_eq!(registry.get(0, 0), Some(2));
    assert_eq!(tiles.get(3).unwrap().tile.neighbor_entities[4], Some(2));
}

#[test]
fn neighbours_at_the_edge_of_the_coordinate_range_are_absent() {
    let mut registry = TileRegistry::new();
    registry.insert(i32::MAX, i32::MAX, 1);
    registry.insert(i32::MAX - 1, i32::MAX, 2);
    registry.insert(i32::MIN, i32::MIN, 3);
    registry.insert(i32::MIN, i32::MIN + 1, 4);
    assert_eq!(
        calculate_neighbors_for_tile(&registry, i32::MAX, i32::MAX),
        [None, None, None, None, None, None, Some(2), None]
    );
    assert_eq!(
        calculate_neighbors_for_tile(&registry, i32::MIN, i32::MIN),
        [Some(4), None, None, None, None, None, None, None]
    );
}

#[test]
fn neighbours_follow_the_registry_given() {
    let (_, mut tiles) = three_by_three();
    let empty = TileRegistry::new();
    calculate_tile_neighbors(&empty, &mut tiles);
    for i in 0..tiles.len() {
        assert_eq!(tiles.entry_at(i).tile.neighbor_entities, [None; 8]);
    }
}

#[test]
fn middle_of_the_registry_is_the_median_coordinate() {
    let (registry, _) = three_by_three();
    assert_eq!(get_middle(&registry), Some(((1, 1), 4)));
    let mut two = TileRegistry::new();
    two.insert(5, -3, 10);
    two.insert(-7, 9, 20);
    assert_eq!(get_middle(&two), Some(((5, -3), 10)));
    let mut column = TileRegistry::new();
    for z in [4, -2, 0, 9, -8] {
        column.insert(1, z, (z + 100) as u64);
    }
    assert_eq!(get_middle(&column), Some(((1, 0), 100)));
    assert_eq!(get_middle(&TileRegistry::new()), None);
}

#[test]
fn store_rejects_taken_identities_and_far_positions() {
    let mut tiles = TileStore::new();
    assert!(tiles.insert(1, Tile::at(0, 0), Position::new(0, 0, 0)));
    assert!(!tiles.insert(1, Tile::at(1, 1), Position::new(1, 1, 1)));
    assert!(!tiles.insert(2, Tile::at(1, 1), Position::new(POSITION_LIMIT + 1, 0, 0)));
    assert!(!tiles.insert(2, Tile::at(1, 1), Position::new(0, -POSITION_LIMIT - 1, 0)));
    assert!(tiles.insert(2, Tile::at(1, 1), Position::new(POSITION_LIMIT, -POSITION_LIMIT, 0)));
    assert_eq!(tiles.len(), 2);
    assert!(tiles.contains(2));
    assert!(!tiles.contains(3));
    assert_eq!(tiles.get(1).unwrap().tile.x, 0);
}

#[test]
fn store_changes_walkability_in_place() {
    let mut tiles = TileStore::new();
    assert!(tiles.insert(1, Tile::at(0, 0), Position::new(3, 4, 5)));
    assert!(tiles.set_walkable(1, false));
    assert!(!tiles.set_walkable(2, false));
    let entry = tiles.get(1).unwrap();
    assert!(!entry.tile.walkable);
    assert_eq!(entry.position, Position::new(3, 4, 5));
    assert_eq!(entry.id, 1);
}

#[test]
fn default_tile_is_walkable_and_unlinked() {
    let tile = Tile::default();
    assert_eq!((tile.x, tile.z), (0, 0));
    assert!(tile.walkable && !tile.selected && !tile.hovered);
    assert_eq!(tile.neighbor_entities, [None; 8]);
    assert_eq!(tile.idle_color, TileColor { red: 0, green: 0, blue: 0 });
    assert_eq!(tile.selected_color, TileColor { red: 255, green: 0, blue: 0 });
    assert_eq!(tile.hovered_color, TileColor { red: 0, green: 255, blue: 0 });
    assert_eq!(tile.display_color(), tile.idle_color);
}

#[test]
fn registry_lists_its_entries_once_each() {
    let (mut registry, _) = three_by_three();
    let mut entries = registry.entries();
    entries.sort();
    let expected: Vec<((i32, i32), u64)> =
        (0..3).flat_map(|x| (0..3).map(move |z| ((x, z), (x * 3 + z) as u64))).collect();
    assert_eq!(entries, expected);
    assert!(!registry.is_empty());
    registry.clear();
    assert!(registry.is_empty());
    assert_eq!(registry.len(), 0);
    assert!(registry.entries().is_empty());
    assert_eq!(registry.get(1, 1), None);
}

#[test]
fn registry_keeps_negative_and_extreme_coordinates_apart() {
    let mut registry = TileRegistry::new();
    let coords = [(0, 0), (-1, 0), (0, -1), (-1, -1), (i32::MIN, i32::MAX), (i32::MAX, i32::MIN), (1, 0)];
    for (i, (x, z)) in coords.iter().enumerate() {
        assert_eq!(registry.insert(*x, *z, i as u64), None);
    }
    assert_eq!(registry.len(), coords.len());
    for (i, (x, z)) in coords.iter().enumerate() {
        assert_eq!(registry.get(*x, *z), Some(i as u64));
    }
    assert_eq!(get_middle(&registry), Some(((0, -1), 2)));
}

#[test]
fn store_replaces_tiles_and_slots_in_place() {
    let mut tiles = TileStore::new();
    assert!(tiles.insert(10, Tile::at(0, 0), Position::new(1, 2, 3)));
    assert!(tiles.insert(20, Tile::at(0, 1), Position::new(4, 5, 6)));
    let mut changed = Tile::at(7, 8);
    changed.hovered = true;
    assert!(tiles.set_tile(20, changed));
    assert!(!tiles.set_tile(30, changed));
    let entry = tiles.entry_at(1);
    assert_eq!((entry.id, entry.tile.x, entry.tile.z, entry.tile.hovered), (20, 7, 8, true));
    assert_eq!(entry.position, Position::new(4, 5, 6));
    tiles.set_neighbors_at(0, [Some(20), None, None, None, None, None, None, Some(99)]);
    let first = tiles.get(10).unwrap();
    assert_eq!(first.tile.neighbor_entities[0], Some(20));
    assert_eq!(first.tile.neighbor_entities[7], Some(99));
    assert_eq!((first.tile.x, first.tile.z), (0, 0));
    assert_eq!(tiles.entry_at(1).tile.neighbor_entities, [None; 8]);
}

#[test]
fn built_world_is_ready() {
    let mut tiles = TileStore::new();
    for x in 0..2 {
        for z in 0..2 {
            assert!(tiles.insert((10 * x + z) as u64, Tile::at(x, z), Position::new(x, 0, z)));
        }
    }
    let mut world = TileWorld::build(tiles);
    assert_eq!(world.registry().len(), 4);
    assert_eq!(world.registry().get(1, 0), Some(10));
    assert_eq!(
        world.tiles().get(0).unwrap().tile.neighbor_entities,
        [Some(1), Some(11), Some(10), None, None, None, None, None]
    );
    assert!(world.set_walkable(11, false));
    assert!(!world.set_walkable(12, false));
    assert!(!world.tiles().get(11).unwrap().tile.walkable);
    assert_eq!(
        tile_movement::pathfinding::astar_pathfind(0, 11, world.tiles()),
        None
    );
    assert_eq!(
        tile_movement::pathfinding::astar_pathfind(0, 10, world.tiles()),
        Some(vec![0, 10])
    );

    let mut moved = Tile::at(40, 40);
    moved.selected = true;
    moved.neighbor_entities = [Some(77); 8];
    assert!(world.set_tile(1, moved));
    let entry = world.tiles().get(1).unwrap();
    assert_eq!((entry.tile.x, entry.tile.z, entry.tile.selected), (0, 1, true));
    assert_eq!(
        entry.tile.neighbor_entities,
        [None, None, Some(11), Some(10), Some(0), None, None, None]
    );
    assert_eq!(world.registry().get(0, 1), Some(1));

    let mut tiles = world.into_tiles();
    assert!(tiles.insert(99, Tile::at(2, 0), Position::new(2, 0, 0)));
    let world = TileWorld::build(tiles);
    assert_eq!(world.tiles().get(10).unwrap().tile.neighbor_entities[2], Some(99));
    assert!(TileWorld::build(TileStore::new()).registry().is_empty());
}
