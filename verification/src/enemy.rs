//! Enemies: where they may appear and when they ask to move.

use crate::movement::{MoveRequestEvent, MovementType, MoverId};
use crate::registry::{Coord, TileRegistry};
use crate::tiles::TileId;
use rand::Rng;
use vstd::prelude::*;

verus! {

/// An enemy's combat values. `speed` is in position units a second and
/// `attack_range` in position units.
#[derive(Clone, Copy, Debug, PartialEq, Eq, Structural)]
pub struct Enemy {
    pub health: i32,
    pub max_health: i32,
    pub speed: u32,
    pub attack_damage: i32,
    pub attack_range: u32,
}

impl Default for Enemy {
    fn default() -> (e: Enemy)
        ensures
            e == (Enemy {
                health: 100,
                max_health: 100,
                speed: 10_000,
                attack_damage: 10,
                attack_range: 10_000,
            }),
    {
        Enemy { health: 100, max_health: 100, speed: 10_000, attack_damage: 10, attack_range: 10_000 }
    }
}

/// How many enemies appear and how far, in tiles, they keep from the player
/// and from each other.
#[derive(Clone, Copy, Debug, PartialEq, Eq, Structural)]
pub struct EnemyConfig {
    pub enemy_count: i32,
    pub enemy_player_min_distance: u32,
    pub enemy_player_max_distance: u32,
    pub enemy_enemy_min_distance: u32,
}

impl Default for EnemyConfig {
    fn default() -> (c: EnemyConfig)
        ensures
            c == (EnemyConfig {
                enemy_count: 10,
                enemy_player_min_distance: 10,
                enemy_player_max_distance: 30,
                enemy_enemy_min_distance: 5,
            }),
    {
        EnemyConfig {
            enemy_count: 10,
            enemy_player_min_distance: 10,
            enemy_player_max_distance: 30,
            enemy_enemy_min_distance: 5,
        }
    }
}

/// Squared distance between two grid coordinates, in tiles.
pub open spec fn squared_tile_distance(a: Coord, b: Coord) -> int {
    (a.0 - b.0) * (a.0 - b.0) + (a.1 - b.1) * (a.1 - b.1)
}

/// `coord` is at least `min_distance_from_enemies` tiles from each of `enemies`.
pub open spec fn clear_of_enemies(coord: Coord, enemies: Seq<Coord>, min_distance_from_enemies: u32) -> bool {
    forall|i: int|
        0 <= i < enemies.len() ==> squared_tile_distance(coord, #[trigger] enemies[i])
            >= min_distance_from_enemies * min_distance_from_enemies
}

/// An enemy may appear at `coord`: its distance from the player is within
/// the two limits, and it keeps its distance from every enemy.
pub open spec fn spawn_allowed(
    coord: Coord,
    player: Coord,
    enemies: Seq<Coord>,
    min_distance_from_player: u32,
    max_distance_from_player: u32,
    min_distance_from_enemies: u32,
) -> bool {
    &&& min_distance_from_player * min_distance_from_player <= squared_tile_distance(coord, player)
    &&& squared_tile_distance(coord, player) <= max_distance_from_player
        * max_distance_from_player
    &&& clear_of_enemies(coord, enemies, min_distance_from_enemies)
}

/// Computes the squared distance between two grid coordinates.
fn tile_distance_squared(a: Coord, b: Coord) -> (d: u128)
    ensures
        d == squared_tile_distance(a, b),
{
    let dx: i64 = a.0 as i64 - b.0 as i64;
    let dz: i64 = a.1 as i64 - b.1 as i64;
    let mx: u64 = if dx < 0 {
        (-dx) as u64
    } else {
        dx as u64
    };
    let mz: u64 = if dz < 0 {
        (-dz) as u64
    } else {
        dz as u64
    };
    assert(mx * mx <= 0xFFFF_FFFF * 0xFFFF_FFFF && mx * mx == (a.0 - b.0) * (a.0 - b.0))
        by (nonlinear_arith)
        requires
            mx <= 0xFFFF_FFFF,
            mx == a.0 - b.0 || mx == -(a.0 - b.0),
    ;
    assert(mz * mz <= 0xFFFF_FFFF * 0xFFFF_FFFF && mz * mz == (a.1 - b.1) * (a.1 - b.1))
        by (nonlinear_arith)
        requires
            mz <= 0xFFFF_FFFF,
            mz == a.1 - b.1 || mz == -(a.1 - b.1),
    ;
    (mx * mx) as u128 + (mz * mz) as u128
}

/// The square of `n`.
fn square(n: u32) -> (s: u128)
    ensures
        s == n * n,
{
    assert(n * n <= 0xFFFF_FFFF * 0xFFFF_FFFF) by (nonlinear_arith)
        requires
            n <= 0xFFFF_FFFF,
    ;
    ((n as u64) * (n as u64)) as u128
}

/// Whether `coord` keeps its distance from every enemy.
fn is_clear_of_enemies(coord: Coord, enemies: &Vec<Coord>, min_distance_from_enemies: u32) -> (clear:
    bool)
    ensures
        clear == clear_of_enemies(coord, enemies@, min_distance_from_enemies),
{
    let limit = square(min_distance_from_enemies);
    let mut i: usize = 0;
    while i < enemies.len()
        invariant
            0 <= i <= enemies@.len(),
            limit == min_distance_from_enemies * min_distance_from_enemies,
            forall|j: int|
                0 <= j < i ==> squared_tile_distance(coord, #[trigger] enemies@[j]) >= limit,
        decreases enemies@.len() - i,
    {
        if tile_distance_squared(coord, enemies[i]) < limit {
            return false;
        }
        i += 1;
    }
    true
}

/// Whether an enemy may appear at `coord`.
fn is_spawn_allowed(
    coord: Coord,
    player: Coord,
    enemies: &Vec<Coord>,
    min_distance_from_player: u32,
    max_distance_from_player: u32,
    min_distance_from_enemies: u32,
) -> (allowed: bool)
    ensures
        allowed == spawn_allowed(
            coord,
            player,
            enemies@,
            min_distance_from_player,
            max_distance_from_player,
            min_distance_from_enemies,
        ),
{
    let distance_to_player = tile_distance_squared(coord, player);
    if distance_to_player < square(min_distance_from_player) || distance_to_player > square(
        max_distance_from_player,
    ) {
        return false;
    }
    is_clear_of_enemies(coord, enemies, min_distance_from_enemies)
}

/// The registered tiles at which an enemy may appear, each once, in no
/// particular order.
pub fn spawn_candidates(
    tile_registry: &TileRegistry,
    player_tile_pos: Coord,
    enemy_tile_positions: &Vec<Coord>,
    min_distance_from_player: u32,
    max_distance_from_player: u32,
    min_distance_from_enemies: u32,
) -> (valid_tiles: Vec<(Coord, TileId)>)
    ensures
        valid_tiles@.no_duplicates(),
        forall|i: int|
            0 <= i < valid_tiles@.len() ==> {
                &&& tile_registry@.contains_key((#[trigger] valid_tiles@[i]).0)
                &&& tile_registry@[valid_tiles@[i].0] == valid_tiles@[i].1
                &&& spawn_allowed(
                    valid_tiles@[i].0,
                    player_tile_pos,
                    enemy_tile_positions@,
                    min_distance_from_player,
                    max_distance_from_player,
                    min_distance_from_enemies,
                )
            },
        forall|c: Coord| #[trigger]
            tile_registry@.contains_key(c) && spawn_allowed(
                c,
                player_tile_pos,
                enemy_tile_positions@,
                min_distance_from_player,
                max_distance_from_player,
                min_distance_from_enemies,
            ) ==> valid_tiles@.contains((c, tile_registry@[c])),
{
    let entries = tile_registry.entries();
    let mut valid_tiles: Vec<(Coord, TileId)> = Vec::new();
    let ghost mut picked: Seq<int> = Seq::empty();
    let mut k: usize = 0;
    while k < entries.len()
        invariant
            0 <= k <= entries@.len(),
            entries@.no_duplicates(),
            picked.len() == valid_tiles@.len(),
            forall|i: int|
                0 <= i < picked.len() ==> 0 <= #[trigger] picked[i] < k && valid_tiles@[i]
                    == entries@[picked[i]],
            forall|i: int, j: int| 0 <= i < j < picked.len() ==> picked[i] < picked[j],
            forall|i: int|
                0 <= i < valid_tiles@.len() ==> spawn_allowed(
                    (#[trigger] valid_tiles@[i]).0,
                    player_tile_pos,
                    enemy_tile_positions@,
                    min_distance_from_player,
                    max_distance_from_player,
                    min_distance_from_enemies,
                ),
            forall|j: int|
                0 <= j < k && spawn_allowed(
                    (#[trigger] entries@[j]).0,
                    player_tile_pos,
                    enemy_tile_positions@,
                    min_distance_from_player,
                    max_distance_from_player,
                    min_distance_from_enemies,
                ) ==> valid_tiles@.contains(entries@[j]),
        decreases entries@.len() - k,
    {
        let entry = entries[k];
        if is_spawn_allowed(
            entry.0,
            player_tile_pos,
            enemy_tile_positions,
            min_distance_from_player,
            max_distance_from_player,
            min_distance_from_enemies,
        ) {
            let ghost before = valid_tiles@;
            valid_tiles.push(entry);
            proof {
                picked = picked.push(k as int);
                assert forall|j: int|
                    0 <= j < k + 1 && spawn_allowed(
                        (#[trigger] entries@[j]).0,
                        player_tile_pos,
                        enemy_tile_positions@,
                        min_distance_from_player,
                        max_distance_from_player,
                        min_distance_from_enemies,
                    ) implies valid_tiles@.contains(entries@[j]) by {
                    if j < k {
                        assert(before.contains(entries@[j]));
                        let i = choose|i: int| 0 <= i < before.len() && before[i] == entries@[j];
                        assert(valid_tiles@[i] == entries@[j]);
                    } else {
                        assert(valid_tiles@[before.len() as int] == entries@[j]);
                    }
                }
            }
        }
        k += 1;
    }
    proof {
        assert forall|i: int| 0 <= i < valid_tiles@.len() implies tile_registry@.contains_key(
            (#[trigger] valid_tiles@[i]).0,
        ) && tile_registry@[valid_tiles@[i].0] == valid_tiles@[i].1 by {
            let j = picked[i];
            assert(valid_tiles@[i] == entries@[j]);
            assert(tile_registry@.contains_key(entries@[j].0));
        }
        assert forall|i: int, j: int|
            0 <= i < valid_tiles@.len() && 0 <= j < valid_tiles@.len() && i != j implies valid_tiles@[i]
            != valid_tiles@[j] by {
            if i < j {
                assert(picked[i] < picked[j]);
            } else {
                assert(picked[j] < picked[i]);
            }
        }
        assert forall|c: Coord| #[trigger]
            tile_registry@.contains_key(c) && spawn_allowed(
                c,
                player_tile_pos,
                enemy_tile_positions@,
                min_distance_from_player,
                max_distance_from_player,
                min_distance_from_enemies,
            ) implies valid_tiles@.contains((c, tile_registry@[c])) by {
            assert(entries@.contains((c, tile_registry@[c])));
            let j = choose|j: int| 0 <= j < entries@.len() && entries@[j] == (c, tile_registry@[c]);
            assert(entries@[j].0 == c);
        }
    }
    valid_tiles
}

/// Draws a number below `len` with `rand::Rng::random_range` on the
/// generator of the current thread, `rand::rng()`.
///
/// The range `0..len` must not be empty. All that is claimed of the number
/// is that it lies in the range.
#[verifier::external_body]
fn random_index(len: usize) -> (index: usize)
    requires
        len > 0,
    ensures
        index < len,
{
    rand::rng().random_range(0..len)
}

/// The candidate at `index`, if there is one.
pub fn pick_spawn(valid_tiles: &Vec<(Coord, TileId)>, index: usize) -> (picked: Option<
    (Coord, TileId),
>)
    ensures
        picked == if index < valid_tiles@.len() {
            Some(valid_tiles@[index as int])
        } else {
            None
        },
{
    if index < valid_tiles.len() {
        Some(valid_tiles[index])
    } else {
        None
    }
}

/// Picks at random a registered tile at which an enemy may appear.
///
/// Which of the candidates is picked is left to chance. Some tile is
/// returned exactly when there is a candidate.
pub fn find_spawn_position(
    tile_registry: &TileRegistry,
    player_tile_pos: Coord,
    enemy_tile_positions: &Vec<Coord>,
    min_distance_from_player: u32,
    max_distance_from_player: u32,
    min_distance_from_enemies: u32,
) -> (spawn: Option<(Coord, TileId)>)
    ensures
        match spawn {
            Some((coord, tile)) => {
                &&& tile_registry@.contains_key(coord)
                &&& tile_registry@[coord] == tile
                &&& spawn_allowed(
                    coord,
                    player_tile_pos,
                    enemy_tile_positions@,
                    min_distance_from_player,
                    max_distance_from_player,
                    min_distance_from_enemies,
                )
            },
            None => forall|c: Coord| #[trigger]
                tile_registry@.contains_key(c) ==> !spawn_allowed(
                    c,
                    player_tile_pos,
                    enemy_tile_positions@,
                    min_distance_from_player,
                    max_distance_from_player,
                    min_distance_from_enemies,
                ),
        },
{
    let valid_tiles = spawn_candidates(
        tile_registry,
        player_tile_pos,
        enemy_tile_positions,
        min_distance_from_player,
        max_distance_from_player,
        min_distance_from_enemies,
    );
    if valid_tiles.len() == 0 {
        proof {
            assert forall|c: Coord| #[trigger] tile_registry@.contains_key(c) implies !spawn_allowed(
                c,
                player_tile_pos,
                enemy_tile_positions@,
                min_distance_from_player,
                max_distance_from_player,
                min_distance_from_enemies,
            ) by {
                if spawn_allowed(
                    c,
                    player_tile_pos,
                    enemy_tile_positions@,
                    min_distance_from_player,
                    max_distance_from_player,
                    min_distance_from_enemies,
                ) {
                    assert(valid_tiles@.contains((c, tile_registry@[c])));
                }
            }
        }
        None
    } else {
        let index = random_index(valid_tiles.len());
        pick_spawn(&valid_tiles, index)
    }
}

/// Chooses where the enemies of `config` appear around a player at
/// `player_tile_pos`: up to `enemy_count` registered tiles, each within the
/// limits from the player and at least the minimum distance from those chosen
/// before it.
pub fn init_enemy(tile_registry: &TileRegistry, player_tile_pos: Coord, config: &EnemyConfig) -> (spawns:
    Vec<(Coord, TileId)>)
    ensures
        spawns@.len() == 0 || spawns@.len() <= config.enemy_count,
        forall|i: int|
            0 <= i < spawns@.len() ==> {
                &&& tile_registry@.contains_key((#[trigger] spawns@[i]).0)
                &&& tile_registry@[spawns@[i].0] == spawns@[i].1
                &&& spawn_allowed(
                    spawns@[i].0,
                    player_tile_pos,
                    spawns@.take(i).map_values(|s: (Coord, TileId)| s.0),
                    config.enemy_player_min_distance,
                    config.enemy_player_max_distance,
                    config.enemy_enemy_min_distance,
                )
            },
        spawns@.len() < config.enemy_count ==> forall|c: Coord| #[trigger]
            tile_registry@.contains_key(c) ==> !spawn_allowed(
                c,
                player_tile_pos,
                spawns@.map_values(|s: (Coord, TileId)| s.0),
                config.enemy_player_min_distance,
                config.enemy_player_max_distance,
                config.enemy_enemy_min_distance,
            ),
{
    let mut spawns: Vec<(Coord, TileId)> = Vec::new();
    let mut enemies: Vec<Coord> = Vec::new();
    let mut round: i32 = 0;
    while round < config.enemy_count
        invariant
            0 <= round,
            round == 0 || round <= config.enemy_count,
            spawns@.len() <= round,
            enemies@ == spawns@.map_values(|s: (Coord, TileId)| s.0),
            spawns@.len() < round ==> forall|c: Coord| #[trigger]
                tile_registry@.contains_key(c) ==> !spawn_allowed(
                    c,
                    player_tile_pos,
                    enemies@,
                    config.enemy_player_min_distance,
                    config.enemy_player_max_distance,
                    config.enemy_enemy_min_distance,
                ),
            forall|i: int|
                0 <= i < spawns@.len() ==> {
                    &&& tile_registry@.contains_key((#[trigger] spawns@[i]).0)
                    &&& tile_registry@[spawns@[i].0] == spawns@[i].1
                    &&& spawn_allowed(
                        spawns@[i].0,
                        player_tile_pos,
                        spawns@.take(i).map_values(|s: (Coord, TileId)| s.0),
                        config.enemy_player_min_distance,
                        config.enemy_player_max_distance,
                        config.enemy_enemy_min_distance,
                    )
                },
        decreases config.enemy_count - round,
    {
        let found = find_spawn_position(
            tile_registry,
            player_tile_pos,
            &enemies,
            config.enemy_player_min_distance,
            config.enemy_player_max_distance,
            config.enemy_enemy_min_distance,
        );
        if let Some(enemy) = found {
            let ghost before = spawns@;
            enemies.push(enemy.0);
            spawns.push(enemy);
            proof {
                let first = |s: (Coord, TileId)| s.0;
                assert(enemies@ =~= spawns@.map_values(first));
                assert(spawns@.take(before.len() as int) =~= before);
                assert forall|i: int| 0 <= i < before.len() implies spawns@.take(i) =~= before.take(
                    i,
                ) by {}
            }
        }
        round += 1;
    }
    spawns
}

/// When an enemy last asked to move, in milliseconds of game time.
#[derive(Clone, Copy, Debug, PartialEq, Eq, Structural)]
pub struct EnemyLastMovementTime {
    pub time: u64,
}

/// Milliseconds an enemy waits between two requests.
pub const ENEMY_MOVE_INTERVAL: u64 = 1000;

/// An enemy asks to move when more than `ENEMY_MOVE_INTERVAL` has passed
/// since it last asked.
pub open spec fn enemy_move_due(elapsed_millis: u64, last: EnemyLastMovementTime) -> bool {
    elapsed_millis - last.time > ENEMY_MOVE_INTERVAL
}

/// Lets the enemy `entity`, standing on `source_tile`, ask for a route to the
/// player's tile when its waiting time is over, and notes the time of asking.
pub fn update_enemy_movement(
    entity: MoverId,
    source_tile: TileId,
    player_tile: Option<TileId>,
    last_movement_time: &mut EnemyLastMovementTime,
    elapsed_millis: u64,
) -> (request: Option<MoveRequestEvent>)
    ensures
        request == match player_tile {
            Some(target) => if enemy_move_due(elapsed_millis, *old(last_movement_time)) {
                Some(
                    MoveRequestEvent {
                        entity,
                        movement_type: MovementType::ASTAR,
                        source_tile_entity: source_tile,
                        target_tile_entity: target,
                    },
                )
            } else {
                None
            },
            None => None,
        },
        final(last_movement_time).time == if request.is_some() {
            elapsed_millis
        } else {
            old(last_movement_time).time
        },
{
    match player_tile {
        Some(player_tile_entity) => {
            if elapsed_millis > last_movement_time.time && elapsed_millis - last_movement_time.time
                > ENEMY_MOVE_INTERVAL {
                last_movement_time.time = elapsed_millis;
                Some(
                    MoveRequestEvent {
                        entity,
                        movement_type: MovementType::ASTAR,
                        source_tile_entity: source_tile,
                        target_tile_entity: player_tile_entity,
                    },
                )
            } else {
                None
            }
        },
        None => None,
    }
}

} // verus!
