use tile_movement::animation::{movement_state_to_animation, IDLE, RUN, WALK};
use tile_movement::enemy::{
    find_spawn_position, init_enemy, pick_spawn, spawn_candidates, update_enemy_movement, Enemy,
    EnemyConfig, EnemyLastMovementTime,
};
use tile_movement::geometry::{heuristic, isqrt, Position};
use tile_movement::movement::{MoveRequestEvent, MovementState, MovementType, TilePosition};
use tile_movement::open_set::{AStarNode, OpenSet};
use tile_movement::registry::TileRegistry;
use tile_movement::selection::{
    apply_pointer, chunk_local_coord, chunk_tile_coord, handle_chunk_clicks,
    handle_optimized_grid_clicks, handle_tile_selection, tile_selected_event_handle,
    LevelPlaneConfig, PlaneChunk, PointerAction, TileSelectedEvent,
};
use tile_movement::tiles::{Tile, TileColor, TileStore};

fn square_registry(side: i32) -> TileRegistry {
    let mut registry = TileRegistry::new();
    for x in 0..side {
        for z in 0..side {
            registry.insert(x, z, (x * 1000 + z) as u64);
        }
    }
    registry
}

fn distance_squared(a: (i32, i32), b: (i32, i32)) -> i64 {
    let (dx, dz) = ((a.0 - b.0) as i64, (a.1 - b.1) as i64);
    dx * dx + dz * dz
}

#[test]
fn click_on_another_tile_selects_it() {
    let mut tiles = TileStore::new();
    assert!(tiles.insert(1, Tile::at(0, 0), Position::new(0, 0, 0)));
    assert!(tiles.insert(2, Tile::at(0, 1), Position::new(0, 0, 1)));
    let standing = TilePosition::for_entity(1);
    assert_eq!(
        handle_tile_selection(&standing, 2, &tiles),
        Some(TileSelectedEvent { source_tile_entity: 1, target_tile_entity: 2 })
    );
    assert_eq!(handle_tile_selection(&standing, 1, &tiles), None);
    assert_eq!(handle_tile_selection(&standing, 3, &tiles), None);
    let unplaced = TilePosition { tile: None };
    assert_eq!(
        handle_tile_selection(&unplaced, 2, &tiles),
        Some(TileSelectedEvent { source_tile_entity: 2, target_tile_entity: 2 })
    );
}

#[test]
fn selection_becomes_a_search_request() {
    let event = TileSelectedEvent { source_tile_entity: 4, target_tile_entity: 9 };
    assert_eq!(
        tile_selected_event_handle(77, &event),
        MoveRequestEvent {
            entity: 77,
            movement_type: MovementType::ASTAR,
            source_tile_entity: 4,
            target_tile_entity: 9,
        }
    );
}

#[test]
fn grid_click_looks_both_tiles_up() {
    let registry = square_registry(30);
    let chunk = PlaneChunk { x: 1, z: 2, grid_size: 10, ..PlaneChunk::default() };
    assert_eq!(
        handle_optimized_grid_clicks(&chunk, (3, 4), Some((0, 0)), &registry),
        Some(TileSelectedEvent { source_tile_entity: 0, target_tile_entity: 13_024 })
    );
    assert_eq!(handle_optimized_grid_clicks(&chunk, (3, 4), Some((13, 24)), &registry), None);
    assert_eq!(handle_optimized_grid_clicks(&chunk, (3, 4), None, &registry), None);
    assert_eq!(handle_optimized_grid_clicks(&chunk, (3, 4), Some((40, 0)), &registry), None);
    assert_eq!(handle_optimized_grid_clicks(&chunk, (25, 4), Some((0, 0)), &registry), None);
    let far = PlaneChunk { x: i32::MAX, z: i32::MAX, grid_size: i32::MAX, ..PlaneChunk::default() };
    assert_eq!(handle_optimized_grid_clicks(&far, (3, 4), Some((0, 0)), &registry), None);
}

#[test]
fn chunk_defaults() {
    let chunk = PlaneChunk::default();
    assert_eq!((chunk.x, chunk.z, chunk.width, chunk.height, chunk.grid_size), (0, 0, 30, 30, 10));
    assert_eq!(chunk.color, TileColor { red: 0, green: 255, blue: 0 });
    let level = LevelPlaneConfig::default();
    assert_eq!((level.num_cols, level.num_rows), (3, 3));
    assert_eq!((level.chunk_width, level.chunk_height, level.grid_size), (30, 30, 15));
}

#[test]
fn pointer_sets_hover_and_selection() {
    let mut tiles = TileStore::new();
    assert!(tiles.insert(1, Tile::at(0, 0), Position::new(0, 0, 0)));
    assert!(handle_chunk_clicks(&mut tiles, 1, PointerAction::Over));
    let tile = tiles.get(1).unwrap().tile;
    assert!(tile.hovered && !tile.selected);
    assert_eq!(tile.display_color(), tile.hovered_color);
    assert!(handle_chunk_clicks(&mut tiles, 1, PointerAction::Click));
    let tile = tiles.get(1).unwrap().tile;
    assert!(!tile.hovered && tile.selected);
    assert_eq!(tile.display_color(), tile.selected_color);
    assert!(handle_chunk_clicks(&mut tiles, 1, PointerAction::Out));
    let tile = tiles.get(1).unwrap().tile;
    assert!(!tile.hovered && !tile.selected);
    assert_eq!(tile.display_color(), tile.idle_color);
    assert!(tile.walkable);
    assert!(!handle_chunk_clicks(&mut tiles, 2, PointerAction::Click));
    let mut both = tile;
    both.selected = true;
    both.hovered = true;
    assert_eq!(both.display_color(), both.selected_color);
}

#[test]
fn state_names_its_animation() {
    let idle = movement_state_to_animation(5, MovementState::Idle);
    assert_eq!((idle.animation_name.as_str(), idle.model_animation_graph), ("idle", 5));
    let walk = movement_state_to_animation(6, MovementState::Walking);
    assert_eq!((walk.animation_name.as_str(), walk.model_animation_graph), ("walk", 6));
    let run = movement_state_to_animation(7, MovementState::Running);
    assert_eq!((run.animation_name.as_str(), run.model_animation_graph), ("run", 7));
    assert_eq!((IDLE, WALK, RUN), ("idle", "walk", "run"));
}

#[test]
fn spawn_candidates_are_exactly_the_allowed_tiles() {
    let registry = square_registry(12);
    let player = (5, 5);
    let enemies = vec![(0, 0), (11, 11)];
    let mut found: Vec<(i32, i32)> =
        spawn_candidates(&registry, player, &enemies, 3, 6, 4).iter().map(|c| c.0).collect();
    found.sort();
    let mut expected = Vec::new();
    for x in 0..12 {
        for z in 0..12 {
            let d = distance_squared((x, z), player);
            if d >= 9 && d <= 36 && enemies.iter().all(|e| distance_squared((x, z), *e) >= 16) {
                expected.push((x, z));
            }
        }
    }
    assert!(!expected.is_empty());
    assert_eq!(found, expected);
    for (coord, tile) in spawn_candidates(&registry, player, &enemies, 3, 6, 4) {
        assert_eq!(tile, (coord.0 * 1000 + coord.1) as u64);
    }
}

#[test]
fn spawn_position_is_always_a_candidate() {
    let registry = square_registry(12);
    let enemies = vec![(8, 8)];
    for _ in 0..200 {
        let (coord, tile) = find_spawn_position(&registry, (5, 5), &enemies, 2, 4, 3).unwrap();
        assert_eq!(registry.get(coord.0, coord.1), Some(tile));
        let d = distance_squared(coord, (5, 5));
        assert!(d >= 4 && d <= 16);
        assert!(distance_squared(coord, (8, 8)) >= 9);
    }
}

#[test]
fn spawn_position_of_a_single_candidate_is_that_candidate() {
    let mut registry = TileRegistry::new();
    registry.insert(0, 0, 1);
    registry.insert(0, 3, 2);
    registry.insert(9, 9, 3);
    for _ in 0..50 {
        assert_eq!(find_spawn_position(&registry, (0, 0), &vec![], 2, 4, 0), Some(((0, 3), 2)));
    }
    assert_eq!(find_spawn_position(&registry, (0, 0), &vec![(0, 4)], 2, 4, 2), None);
    assert_eq!(find_spawn_position(&registry, (0, 0), &vec![], 4, 5, 0), None);
    assert_eq!(find_spawn_position(&TileRegistry::new(), (0, 0), &vec![], 0, 100, 0), None);
}

#[test]
fn picking_goes_by_index() {
    let candidates = vec![((0, 1), 5), ((2, 3), 6)];
    assert_eq!(pick_spawn(&candidates, 0), Some(((0, 1), 5)));
    assert_eq!(pick_spawn(&candidates, 1), Some(((2, 3), 6)));
    assert_eq!(pick_spawn(&candidates, 2), None);
    assert_eq!(pick_spawn(&vec![], 0), None);
}

#[test]
fn enemies_keep_their_distances() {
    let registry = square_registry(45);
    let config = EnemyConfig::default();
    assert_eq!(config.enemy_count, 10);
    assert_eq!(config.enemy_player_min_distance, 10);
    assert_eq!(config.enemy_player_max_distance, 30);
    assert_eq!(config.enemy_enemy_min_distance, 5);
    let player = (22, 22);
    let spawns = init_enemy(&registry, player, &config);
    assert_eq!(spawns.len(), 10);
    for (i, (coord, tile)) in spawns.iter().enumerate() {
        assert_eq!(registry.get(coord.0, coord.1), Some(*tile));
        let d = distance_squared(*coord, player);
        assert!(d >= 100 && d <= 900);
        for (other, _) in &spawns[..i] {
            assert!(distance_squared(*coord, *other) >= 25);
        }
    }
    let none = EnemyConfig { enemy_count: -3, ..config };
    assert!(init_enemy(&registry, player, &none).is_empty());
    let crowded = EnemyConfig { enemy_enemy_min_distance: 1000, ..config };
    assert_eq!(init_enemy(&registry, player, &crowded).len(), 1);
}

#[test]
fn enemy_defaults() {
    let enemy = Enemy::default();
    assert_eq!((enemy.health, enemy.max_health, enemy.attack_damage), (100, 100, 10));
    assert_eq!((enemy.speed, enemy.attack_range), (10_000, 10_000));
}

#[test]
fn enemy_asks_again_after_a_second() {
    let mut last = EnemyLastMovementTime { time: 5000 };
    assert_eq!(update_enemy_movement(3, 10, Some(20), &mut last, 6000), None);
    assert_eq!(last.time, 5000);
    assert_eq!(update_enemy_movement(3, 10, None, &mut last, 9000), None);
    assert_eq!(last.time, 5000);
    assert_eq!(update_enemy_movement(3, 10, Some(20), &mut last, 4000), None);
    assert_eq!(
        update_enemy_movement(3, 10, Some(20), &mut last, 6001),
        Some(MoveRequestEvent {
            entity: 3,
            movement_type: MovementType::ASTAR,
            source_tile_entity: 10,
            target_tile_entity: 20,
        })
    );
    assert_eq!(last.time, 6001);
    assert_eq!(update_enemy_movement(3, 10, Some(20), &mut last, 7001), None);
}

#[test]
fn heuristic_is_the_squared_distance() {
    assert_eq!(heuristic(Position::new(0, 0, 0), Position::new(3, 4, 12)), 169);
    assert_eq!(heuristic(Position::new(-1, 5, 2), Position::new(-1, 5, 2)), 0);
    assert_eq!(heuristic(Position::new(2000, 0, 0), Position::new(0, 0, 2000)), 8_000_000);
    assert_eq!(
        heuristic(Position::new(i32::MIN, i32::MIN, i32::MIN), Position::new(i32::MAX, i32::MAX, i32::MAX)),
        3 * (u32::MAX as u128) * (u32::MAX as u128)
    );
    assert!(Position::new(1 << 30, -(1 << 30), 0).is_in_bounds());
    assert!(!Position::new((1 << 30) + 1, 0, 0).is_in_bounds());
}

#[test]
fn integer_square_root_rounds_down() {
    assert_eq!(isqrt(0), 0);
    assert_eq!(isqrt(1), 1);
    assert_eq!(isqrt(3), 1);
    assert_eq!(isqrt(4), 2);
    assert_eq!(isqrt(8_000_000), 2828);
    assert_eq!(isqrt(999_999_999_999), 999_999);
    assert_eq!(isqrt(1_000_000_000_000), 1_000_000);
    assert_eq!(isqrt(u128::MAX), u64::MAX);
}

#[test]
fn open_set_hands_out_the_cheapest_first() {
    let mut open = OpenSet::new();
    assert!(open.is_empty());
    assert_eq!(open.pop(), None);
    for (entity, f_score) in [(1, 50), (2, 20), (3, 70), (4, 20), (5, 10), (6, 60)] {
        open.push(AStarNode { entity, f_score, g_score: entity as u128 });
    }
    assert_eq!(open.len(), 6);
    let mut order = Vec::new();
    while let Some(node) = open.pop() {
        assert_eq!(node.g_score, node.entity as u128);
        order.push(node.f_score);
    }
    assert_eq!(order, vec![10, 20, 20, 50, 60, 70]);
    assert!(open.is_empty());
    let cheap = AStarNode { entity: 1, f_score: 1, g_score: 9 };
    let dear = AStarNode { entity: 1, f_score: 2, g_score: 0 };
    assert!(cheap.precedes(&dear));
    assert!(!dear.precedes(&cheap));
    assert!(!cheap.precedes(&cheap));
}

#[test]
fn chunk_coordinates_go_both_ways() {
    let chunk = PlaneChunk { x: 2, z: -1, grid_size: 15, ..PlaneChunk::default() };
    assert_eq!(chunk_tile_coord(&chunk, (0, 0)), Some((30, -15)));
    assert_eq!(chunk_tile_coord(&chunk, (14, 14)), Some((44, -1)));
    assert_eq!(chunk_local_coord(&chunk, (30, -15)), Some((0, 0)));
    assert_eq!(chunk_local_coord(&chunk, (44, -1)), Some((14, 14)));
    assert_eq!(chunk_local_coord(&chunk, (45, -1)), None);
    assert_eq!(chunk_local_coord(&chunk, (44, 0)), None);
    assert_eq!(chunk_local_coord(&chunk, (29, -15)), None);
    let far = PlaneChunk { x: i32::MAX, z: 0, grid_size: 2, ..PlaneChunk::default() };
    assert_eq!(chunk_tile_coord(&far, (0, 0)), None);
    assert_eq!(chunk_local_coord(&far, (0, 0)), None);
    let edge = PlaneChunk { x: 1, z: 1, grid_size: i32::MAX, ..PlaneChunk::default() };
    assert_eq!(chunk_tile_coord(&edge, (0, 0)), Some((i32::MAX, i32::MAX)));
    assert_eq!(chunk_tile_coord(&edge, (1, 0)), None);
    assert_eq!(chunk_local_coord(&edge, (i32::MAX, i32::MAX)), Some((0, 0)));
    let empty = PlaneChunk { x: 0, z: 0, grid_size: 0, ..PlaneChunk::default() };
    assert_eq!(chunk_local_coord(&empty, (0, 0)), None);
}

#[test]
fn pointer_leaves_the_rest_of_the_tile_alone() {
    let mut tile = Tile::at(3, -4);
    tile.walkable = false;
    tile.neighbor_entities[2] = Some(9);
    for action in [PointerAction::Over, PointerAction::Click, PointerAction::Out] {
        let after = apply_pointer(tile, action);
        assert_eq!((after.x, after.z, after.walkable), (3, -4, false));
        assert_eq!(after.neighbor_entities, tile.neighbor_entities);
        assert_eq!(after.selected, action == PointerAction::Click);
        assert_eq!(after.hovered, action == PointerAction::Over);
    }
}

#[test]
fn open_set_orders_many_nodes() {
    let mut open = OpenSet::new();
    let mut seed: u64 = 12345;
    let mut pushed = Vec::new();
    for entity in 0..500u64 {
        seed = seed.wrapping_mul(6364136223846793005).wrapping_add(1442695040888963407);
        let f_score = ((seed >> 33) % 1000) as u128;
        pushed.push(f_score);
        open.push(AStarNode { entity, f_score, g_score: 0 });
        if entity % 7 == 6 {
            let least = *pushed.iter().min().unwrap();
            let node = open.pop().unwrap();
            assert_eq!(node.f_score, least);
            let at = pushed.iter().position(|f| *f == least).unwrap();
            pushed.remove(at);
        }
    }
    assert_eq!(open.len(), pushed.len());
    pushed.sort();
    let mut popped = Vec::new();
    while let Some(node) = open.pop() {
        popped.push(node.f_score);
    }
    assert_eq!(popped, pushed);
}
