use std::collections::VecDeque;
use tile_movement::geometry::Position;
use tile_movement::movement::{
    movement_request_handler, update_player_movement, CharacterType, Direction, MoveRequestEvent,
    Movement, MovementState, MovementType, RequestOutcome, TilePosition, PROGRESS_ONE,
};
use tile_movement::registry::{build_tile_registry, TileRegistry};
use tile_movement::tiles::{Tile, TileId, TileStore};

const SPACING: i32 = 2000;
const SPEED: u32 = 10_000;

fn tile_id(x: i32, z: i32) -> TileId {
    (10 * x + z + 1) as TileId
}

fn world(blocked: &[(i32, i32)]) -> TileStore {
    let mut tiles = TileStore::new();
    for x in 0..3 {
        for z in 0..3 {
            let mut tile = Tile::at(x, z);
            tile.walkable = !blocked.contains(&(x, z));
            assert!(tiles.insert(tile_id(x, z), tile, Position::new(x * SPACING, 0, z * SPACING)));
        }
    }
    let mut registry = TileRegistry::new();
    build_tile_registry(&mut registry, &mut tiles);
    tiles
}

struct Mover {
    translation: Position,
    movement: Movement,
    tile: TilePosition,
    state: MovementState,
}

fn mover_at(x: i32, z: i32) -> Mover {
    Mover {
        translation: Position::new(x * SPACING, 0, z * SPACING),
        movement: Movement::default(),
        tile: TilePosition::for_entity(tile_id(x, z)),
        state: MovementState::Idle,
    }
}

fn request(mover: &mut Mover, tiles: &TileStore, source: TileId, target: TileId) -> RequestOutcome {
    let event = MoveRequestEvent {
        entity: 1,
        movement_type: MovementType::ASTAR,
        source_tile_entity: source,
        target_tile_entity: target,
    };
    movement_request_handler(
        &event,
        mover.translation,
        &mut mover.movement,
        &mut mover.tile,
        &mut mover.state,
        tiles,
    )
}

fn tick(mover: &mut Mover, tiles: &TileStore, who: CharacterType, millis: u32) -> Option<Direction> {
    update_player_movement(
        &mut mover.translation,
        SPEED,
        &mut mover.movement,
        &mut mover.tile,
        &mut mover.state,
        who,
        tiles,
        millis.saturating_mul(1000),
    )
}

fn queued(mover: &Mover) -> Vec<TileId> {
    mover.movement.path.iter().copied().collect()
}

#[test]
fn default_movement_is_at_rest() {
    let movement = Movement::default();
    assert_eq!(movement.target_transform, None);
    assert!(movement.path.is_empty());
    assert_eq!(movement.segment_start, Position::new(0, 0, 0));
    assert_eq!(movement.translation_progress, 0);
    assert_eq!(movement.segment_distance, 0);
    assert_eq!(TilePosition::for_entity(7).tile, Some(7));
}

#[test]
fn scenario_request_to_own_tile() {
    let tiles = world(&[]);
    let mut mover = mover_at(1, 1);
    let outcome = request(&mut mover, &tiles, tile_id(1, 1), tile_id(1, 1));
    assert_eq!(outcome, RequestOutcome::Installed);
    assert_eq!(queued(&mover), vec![tile_id(1, 1)]);
    assert_eq!(mover.state, MovementState::Idle);
    assert_eq!(mover.translation, Position::new(SPACING, 0, SPACING));
    assert_eq!(mover.movement.target_transform, None);
    assert_eq!(mover.movement.translation_progress, 0);
    let facing = tick(&mut mover, &tiles, CharacterType::Player, 16);
    assert_eq!(facing, None);
    assert_eq!(mover.state, MovementState::Idle);
    assert_eq!(mover.translation, Position::new(SPACING, 0, SPACING));
    assert_eq!(mover.movement.segment_distance, 0);
    assert_eq!(mover.movement.translation_progress, PROGRESS_ONE);
    tick(&mut mover, &tiles, CharacterType::Player, 16);
    assert_eq!(mover.state, MovementState::Idle);
    assert_eq!(mover.translation, Position::new(SPACING, 0, SPACING));
    assert_eq!(mover.tile.tile, Some(tile_id(1, 1)));
}

#[test]
fn scenario_request_across_the_grid_starts_walking() {
    let tiles = world(&[]);
    let mut mover = mover_at(0, 0);
    let outcome = request(&mut mover, &tiles, tile_id(0, 0), tile_id(2, 2));
    assert_eq!(outcome, RequestOutcome::Installed);
    assert_eq!(queued(&mover), vec![tile_id(0, 0), tile_id(1, 1), tile_id(2, 2)]);
    assert_eq!(mover.state, MovementState::Walking);
    assert_eq!(mover.movement.target_transform, None);
    assert_eq!(mover.movement.translation_progress, 0);
    assert_eq!(mover.movement.segment_distance, 0);
    assert_eq!(mover.movement.segment_start, mover.translation);
}

#[test]
fn scenario_request_around_a_blocked_centre() {
    let tiles = world(&[(1, 1)]);
    let mut mover = mover_at(0, 0);
    assert_eq!(request(&mut mover, &tiles, tile_id(0, 0), tile_id(2, 2)), RequestOutcome::Installed);
    let path = queued(&mover);
    assert!(path.len() >= 3);
    assert!(!path.contains(&tile_id(1, 1)));
    assert_eq!(path.first(), Some(&tile_id(0, 0)));
    assert_eq!(path.last(), Some(&tile_id(2, 2)));
    assert_eq!(mover.state, MovementState::Walking);
}

#[test]
fn scenario_resting_walker_goes_idle() {
    let tiles = world(&[]);
    let mut mover = mover_at(1, 2);
    mover.state = MovementState::Walking;
    let before = mover.translation;
    assert_eq!(tick(&mut mover, &tiles, CharacterType::Player, 16), None);
    assert_eq!(mover.state, MovementState::Idle);
    assert_eq!(mover.translation, before);
    assert_eq!(mover.tile.tile, Some(tile_id(1, 2)));

    let mut done = mover_at(1, 2);
    done.state = MovementState::Running;
    done.movement.translation_progress = PROGRESS_ONE;
    tick(&mut done, &tiles, CharacterType::Player, 16);
    assert_eq!(done.state, MovementState::Idle);
    assert_eq!(done.translation, before);
}

#[test]
fn resting_enemy_keeps_its_state() {
    let tiles = world(&[]);
    let mut mover = mover_at(1, 2);
    mover.state = MovementState::Walking;
    tick(&mut mover, &tiles, CharacterType::Enemy, 16);
    assert_eq!(mover.state, MovementState::Walking);
}

#[test]
fn scenario_request_for_the_tile_the_path_ends_at_is_dropped() {
    let tiles = world(&[]);
    let mut mover = mover_at(0, 0);
    mover.movement.path = VecDeque::from(vec![tile_id(0, 1), tile_id(0, 0)]);
    mover.movement.translation_progress = 123;
    mover.movement.segment_distance = 77;
    mover.state = MovementState::Running;
    let outcome = request(&mut mover, &tiles, tile_id(0, 0), tile_id(0, 0));
    assert_eq!(outcome, RequestOutcome::Duplicate);
    assert_eq!(queued(&mover), vec![tile_id(0, 1), tile_id(0, 0)]);
    assert_eq!(mover.movement.translation_progress, 123);
    assert_eq!(mover.movement.segment_distance, 77);
    assert_eq!(mover.state, MovementState::Running);
}

#[test]
fn repeated_request_installs_once() {
    let tiles = world(&[]);
    let mut mover = mover_at(0, 0);
    assert_eq!(request(&mut mover, &tiles, tile_id(0, 0), tile_id(2, 1)), RequestOutcome::Installed);
    tick(&mut mover, &tiles, CharacterType::Player, 16);
    tick(&mut mover, &tiles, CharacterType::Player, 16);
    let path = queued(&mover);
    let target = mover.movement.target_transform;
    let start = mover.movement.segment_start;
    let progress = mover.movement.translation_progress;
    assert_eq!(request(&mut mover, &tiles, tile_id(0, 0), tile_id(2, 1)), RequestOutcome::Duplicate);
    assert_eq!(queued(&mover), path);
    assert_eq!(mover.movement.target_transform, target);
    assert_eq!(mover.movement.segment_start, start);
    assert_eq!(mover.movement.translation_progress, progress);
    assert_eq!(mover.state, MovementState::Walking);
}

#[test]
fn first_request_adopts_the_declared_source() {
    let tiles = world(&[]);
    let mut mover = mover_at(0, 0);
    mover.tile = TilePosition { tile: None };
    assert_eq!(request(&mut mover, &tiles, tile_id(2, 0), tile_id(2, 2)), RequestOutcome::Installed);
    assert_eq!(mover.tile.tile, Some(tile_id(2, 0)));
    assert_eq!(queued(&mover), vec![tile_id(2, 0), tile_id(2, 1), tile_id(2, 2)]);

    let mut placed = mover_at(0, 0);
    assert_eq!(request(&mut placed, &tiles, tile_id(2, 0), tile_id(0, 2)), RequestOutcome::Installed);
    assert_eq!(queued(&placed), vec![tile_id(0, 0), tile_id(0, 1), tile_id(0, 2)]);
}

#[test]
fn failed_request_leaves_the_movement_alone() {
    let tiles = world(&[(2, 2)]);
    let mut mover = mover_at(0, 0);
    assert_eq!(request(&mut mover, &tiles, tile_id(0, 0), tile_id(0, 2)), RequestOutcome::Installed);
    tick(&mut mover, &tiles, CharacterType::Player, 16);
    tick(&mut mover, &tiles, CharacterType::Player, 16);
    let path = queued(&mover);
    let progress = mover.movement.translation_progress;
    let target = mover.movement.target_transform;
    assert_eq!(request(&mut mover, &tiles, tile_id(0, 0), tile_id(2, 2)), RequestOutcome::NoPath);
    assert_eq!(request(&mut mover, &tiles, tile_id(0, 0), 4242), RequestOutcome::NoPath);
    assert_eq!(queued(&mover), path);
    assert_eq!(mover.movement.translation_progress, progress);
    assert_eq!(mover.movement.target_transform, target);
    assert_eq!(mover.state, MovementState::Walking);

    let mut idle = mover_at(0, 0);
    assert_eq!(request(&mut idle, &tiles, tile_id(0, 0), tile_id(2, 2)), RequestOutcome::NoPath);
    assert_eq!(idle.state, MovementState::Idle);
    assert!(idle.movement.path.is_empty());
}

#[test]
fn reserved_algorithm_finds_no_path() {
    let tiles = world(&[]);
    let mut mover = mover_at(0, 0);
    let event = MoveRequestEvent {
        entity: 1,
        movement_type: MovementType::SHORTEST,
        source_tile_entity: tile_id(0, 0),
        target_tile_entity: tile_id(2, 2),
    };
    let outcome = movement_request_handler(
        &event,
        mover.translation,
        &mut mover.movement,
        &mut mover.tile,
        &mut mover.state,
        &tiles,
    );
    assert_eq!(outcome, RequestOutcome::NoPath);
    assert!(mover.movement.path.is_empty());
    assert_eq!(mover.state, MovementState::Idle);
}

#[test]
fn interruption_restarts_from_the_current_position() {
    let tiles = world(&[]);
    let mut mover = mover_at(0, 0);
    assert_eq!(request(&mut mover, &tiles, tile_id(0, 0), tile_id(0, 2)), RequestOutcome::Installed);
    assert_eq!(queued(&mover), vec![tile_id(0, 0), tile_id(0, 1), tile_id(0, 2)]);
    for _ in 0..5 {
        tick(&mut mover, &tiles, CharacterType::Player, 20);
    }
    let midway = mover.translation;
    assert_eq!(midway, Position::new(0, 0, 600));
    assert_eq!(mover.tile.tile, Some(tile_id(0, 1)));
    assert_eq!(mover.movement.segment_start, Position::new(0, 0, 0));

    assert_eq!(request(&mut mover, &tiles, tile_id(0, 0), tile_id(2, 1)), RequestOutcome::Installed);
    assert_eq!(mover.movement.target_transform, None);
    assert_eq!(queued(&mover), vec![tile_id(0, 1), tile_id(1, 1), tile_id(2, 1)]);
    let facing = tick(&mut mover, &tiles, CharacterType::Player, 20);
    assert_eq!(mover.movement.segment_start, midway);
    assert_eq!(mover.movement.target_transform, Some(Position::new(0, 0, SPACING)));
    assert_eq!(mover.movement.segment_distance, 1400);
    assert_eq!(facing, Some(Direction { x: 0, y: 0, z: 1400 }));
    assert_eq!(mover.movement.translation_progress, 142_857);
    assert_eq!(mover.translation, Position::new(0, 0, 799));
}

#[test]
fn progress_and_position_follow_speed_and_frame_time() {
    let tiles = world(&[]);
    let mut mover = mover_at(0, 0);
    assert_eq!(request(&mut mover, &tiles, tile_id(0, 0), tile_id(1, 1)), RequestOutcome::Installed);
    assert_eq!(tick(&mut mover, &tiles, CharacterType::Player, 16), None);
    assert_eq!(mover.movement.translation_progress, PROGRESS_ONE);
    assert_eq!(mover.translation, Position::new(0, 0, 0));
    assert_eq!(mover.state, MovementState::Walking);

    tick(&mut mover, &tiles, CharacterType::Player, 16);
    assert_eq!(mover.movement.target_transform, None);
    assert_eq!(mover.translation, Position::new(0, 0, 0));

    let facing = tick(&mut mover, &tiles, CharacterType::Player, 16);
    assert_eq!(facing, Some(Direction { x: 2000, y: 0, z: 2000 }));
    assert_eq!(mover.movement.target_transform, Some(Position::new(SPACING, 0, SPACING)));
    assert_eq!(mover.movement.segment_distance, 2828);
    assert_eq!(mover.movement.translation_progress, 56_577);
    assert_eq!(mover.translation, Position::new(113, 0, 113));
    assert_eq!(mover.tile.tile, Some(tile_id(1, 1)));
    assert!(mover.movement.path.is_empty());
    assert_eq!(mover.state, MovementState::Walking);
}

#[test]
fn mover_arrives_and_goes_idle() {
    let tiles = world(&[]);
    let mut mover = mover_at(0, 0);
    assert_eq!(request(&mut mover, &tiles, tile_id(0, 0), tile_id(2, 2)), RequestOutcome::Installed);
    let mut frames = 0;
    while mover.state != MovementState::Idle {
        tick(&mut mover, &tiles, CharacterType::Player, 16);
        frames += 1;
        assert!(frames < 1000);
    }
    assert_eq!(mover.translation, Position::new(2 * SPACING, 0, 2 * SPACING));
    assert_eq!(mover.tile.tile, Some(tile_id(2, 2)));
    assert!(mover.movement.path.is_empty());
    assert_eq!(mover.movement.target_transform, None);
    assert_eq!(frames, 40);
}

#[test]
fn long_frame_completes_the_segment_at_once() {
    let tiles = world(&[]);
    let mut mover = mover_at(0, 0);
    mover.movement.path = VecDeque::from(vec![tile_id(2, 0)]);
    let facing = tick(&mut mover, &tiles, CharacterType::Enemy, u32::MAX);
    assert_eq!(facing, Some(Direction { x: 4000, y: 0, z: 0 }));
    assert_eq!(mover.movement.translation_progress, PROGRESS_ONE);
    assert_eq!(mover.translation, Position::new(4000, 0, 0));
}

#[test]
fn still_frame_does_not_move() {
    let tiles = world(&[]);
    let mut mover = mover_at(0, 0);
    mover.movement.path = VecDeque::from(vec![tile_id(2, 0)]);
    tick(&mut mover, &tiles, CharacterType::Player, 0);
    assert_eq!(mover.movement.translation_progress, 0);
    assert_eq!(mover.translation, Position::new(0, 0, 0));
    assert_eq!(mover.movement.segment_distance, 4000);
}

#[test]
fn tile_missing_from_the_store_is_dropped_from_the_path() {
    let tiles = world(&[]);
    let mut mover = mover_at(0, 0);
    mover.state = MovementState::Walking;
    mover.movement.path = VecDeque::from(vec![9000, tile_id(0, 1)]);
    assert_eq!(tick(&mut mover, &tiles, CharacterType::Player, 16), None);
    assert_eq!(queued(&mover), vec![tile_id(0, 1)]);
    assert_eq!(mover.movement.target_transform, None);
    assert_eq!(mover.tile.tile, Some(tile_id(0, 0)));
    assert_eq!(mover.translation, Position::new(0, 0, 0));
    assert_eq!(mover.state, MovementState::Walking);
    tick(&mut mover, &tiles, CharacterType::Player, 16);
    assert_eq!(mover.tile.tile, Some(tile_id(0, 1)));
    assert_eq!(mover.movement.target_transform, Some(Position::new(0, 0, SPACING)));
}

#[test]
fn short_hop_does_not_turn_the_mover() {
    let mut tiles = TileStore::new();
    assert!(tiles.insert(1, Tile::at(0, 0), Position::new(31, 0, 6)));
    assert!(tiles.insert(2, Tile::at(0, 1), Position::new(32, 0, 6)));
    let mut near = Mover {
        translation: Position::new(0, 0, 0),
        movement: Movement::default(),
        tile: TilePosition { tile: None },
        state: MovementState::Walking,
    };
    near.movement.path = VecDeque::from(vec![1]);
    assert_eq!(tick(&mut near, &tiles, CharacterType::Enemy, 0), None);
    assert_eq!(near.movement.segment_distance, 31);
    let mut far = Mover {
        translation: Position::new(0, 0, 0),
        movement: Movement::default(),
        tile: TilePosition { tile: None },
        state: MovementState::Walking,
    };
    far.movement.path = VecDeque::from(vec![2]);
    assert_eq!(tick(&mut far, &tiles, CharacterType::Enemy, 0), Some(Direction { x: 32, y: 0, z: 6 }));
    assert_eq!(far.movement.segment_distance, 32);
}

#[test]
fn movement_runs_backwards_along_an_axis_too() {
    let tiles = world(&[]);
    let mut mover = mover_at(2, 2);
    mover.movement.path = VecDeque::from(vec![tile_id(1, 2)]);
    let facing = tick(&mut mover, &tiles, CharacterType::Enemy, 50);
    assert_eq!(facing, Some(Direction { x: -2000, y: 0, z: 0 }));
    assert_eq!(mover.movement.translation_progress, 250_000);
    assert_eq!(mover.translation, Position::new(3500, 0, 4000));
}

#[test]
fn request_to_own_tile_keeps_the_state_of_a_walker() {
    let tiles = world(&[]);
    let mut mover = mover_at(1, 1);
    mover.state = MovementState::Walking;
    mover.movement.path = VecDeque::from(vec![tile_id(2, 1)]);
    assert_eq!(request(&mut mover, &tiles, tile_id(1, 1), tile_id(1, 1)), RequestOutcome::Installed);
    assert_eq!(queued(&mover), vec![tile_id(1, 1)]);
    assert_eq!(mover.state, MovementState::Walking);

    let mut runner = mover_at(1, 1);
    runner.state = MovementState::Running;
    assert_eq!(request(&mut runner, &tiles, tile_id(1, 1), tile_id(1, 1)), RequestOutcome::Installed);
    assert_eq!(runner.state, MovementState::Running);
    assert_eq!(request(&mut runner, &tiles, tile_id(1, 1), tile_id(1, 2)), RequestOutcome::Installed);
    assert_eq!(runner.state, MovementState::Walking);
    assert_eq!(queued(&runner), vec![tile_id(1, 1), tile_id(1, 2)]);
}

#[test]
fn request_mid_segment_replaces_the_movement() {
    let tiles = world(&[]);
    let midway = Position::new(SPACING / 2, 0, 0);
    let mut mover = Mover {
        translation: midway,
        movement: Movement::default(),
        tile: TilePosition::for_entity(tile_id(0, 0)),
        state: MovementState::Walking,
    };
    mover.movement.path = VecDeque::from(vec![tile_id(1, 0), tile_id(2, 0)]);
    mover.movement.target_transform = Some(Position::new(SPACING, 0, 0));
    mover.movement.segment_start = Position::new(0, 0, 0);
    mover.movement.translation_progress = PROGRESS_ONE / 2;
    mover.movement.segment_distance = SPACING as u64;

    assert_eq!(request(&mut mover, &tiles, tile_id(0, 0), tile_id(0, 2)), RequestOutcome::Installed);
    assert_eq!(queued(&mover), vec![tile_id(0, 0), tile_id(0, 1), tile_id(0, 2)]);
    assert_eq!(mover.movement.target_transform, None);
    assert_eq!(mover.movement.translation_progress, 0);
    assert_eq!(mover.movement.segment_start, midway);
    assert_eq!(mover.movement.segment_distance, 0);
    assert_eq!(mover.state, MovementState::Walking);
    assert_eq!(mover.translation, midway);
    assert_eq!(mover.tile.tile, Some(tile_id(0, 0)));

    let facing = tick(&mut mover, &tiles, CharacterType::Player, 16);
    assert_eq!(mover.movement.segment_start, midway);
    assert_eq!(mover.movement.target_transform, Some(Position::new(0, 0, 0)));
    assert_eq!(mover.movement.segment_distance, 1000);
    assert_eq!(facing, Some(Direction { x: -1000, y: 0, z: 0 }));
    assert_eq!(mover.movement.translation_progress, 160_000);
    assert_eq!(mover.translation, Position::new(840, 0, 0));
}

#[test]
fn first_step_of_a_segment_does_not_jump() {
    let tiles = world(&[]);
    for (from, millis) in [
        (Position::new(700, 0, 300), 16),
        (Position::new(-3, 0, 1), 1),
        (Position::new(3999, 0, 3999), 250),
        (Position::new(0, 900, 0), 33),
        (Position::new(4000, 0, 3998), 16),
    ] {
        let mut mover = Mover {
            translation: from,
            movement: Movement::default(),
            tile: TilePosition::for_entity(tile_id(0, 0)),
            state: MovementState::Walking,
        };
        mover.movement.path = VecDeque::from(vec![tile_id(2, 2)]);
        tick(&mut mover, &tiles, CharacterType::Enemy, millis);
        let moved = tile_movement::geometry::heuristic(from, mover.translation);
        let reach = (SPEED as u128) * (millis as u128) * 1000;
        let per: u128 = 1_000_000;
        assert!(moved * per * per <= (reach + per) * (reach + per));
        assert_eq!(mover.movement.segment_start, from);
    }
}
