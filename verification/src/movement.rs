//! Movers: the request that installs a route on a mover, and the per-frame
//! step that walks the mover along it.

use crate::geometry::{heuristic, isqrt, lerp_position, Position};
use crate::geometry::{integer_sqrt, lemma_lerp_axis_between, lerp, squared_distance};
use crate::geometry::{lemma_integer_sqrt_exists, lemma_lerp_moved, lemma_moved_within_reach};
use crate::geometry::lemma_squared_distance_bounds;
use crate::grid::{tile_chebyshev, tile_manhattan, uniform_grid, GridShape};
use crate::pathfinding::{astar_pathfind, is_route, reachable, route_cost};
use crate::tiles::{TileEntry, TileId, TileStore};
use std::collections::VecDeque;
use vstd::prelude::*;

verus! {

/// Progress along a segment is counted in parts of this: it stands for 1.
pub const PROGRESS_ONE: u32 = 1_000_000;

/// Frame time is counted in these parts of a second.
pub const MICROS_PER_SECOND: u32 = 1_000_000;

/// A travel direction whose squared length is not above this, a thousandth
/// of a squared world unit, does not turn the mover.
pub const FACING_EPSILON: u128 = 1000;

/// What a mover is seen to be doing.
#[derive(Clone, Copy, Debug, PartialEq, Eq, Structural)]
pub enum MovementState {
    Idle,
    Walking,
    Running,
}

/// How a route is to be found.
#[derive(Clone, Copy, Debug, PartialEq, Eq, Structural)]
pub enum MovementType {
    /// Best-first search over the neighbour slots.
    ASTAR,
    /// Reserved; finds no route.
    SHORTEST,
}

/// Who steers a mover.
#[derive(Clone, Copy, Debug, PartialEq, Eq, Structural)]
pub enum CharacterType {
    Player,
    Enemy,
}

/// Identity of a mover.
pub type MoverId = u64;

/// A request to move `entity` to `target_tile_entity`.
#[derive(Clone, Copy, Debug, PartialEq, Eq, Structural)]
pub struct MoveRequestEvent {
    pub entity: MoverId,
    pub movement_type: MovementType,
    pub source_tile_entity: TileId,
    pub target_tile_entity: TileId,
}

/// The tile a mover stands on; `None` until it is first placed.
#[derive(Clone, Copy, Debug, PartialEq, Eq, Structural)]
pub struct TilePosition {
    pub tile: Option<TileId>,
}

impl TilePosition {
    /// The position of a mover that stands on `entity`.
    pub fn for_entity(entity: TileId) -> (p: TilePosition)
        ensures
            p.tile == Some(entity),
    {
        TilePosition { tile: Some(entity) }
    }
}

/// A unit-free travel direction: the gap from segment start to waypoint on each axis.
#[derive(Clone, Copy, Debug, PartialEq, Eq, Structural)]
pub struct Direction {
    pub x: i64,
    pub y: i64,
    pub z: i64,
}

/// The movement of a mover along its route.
///
/// `path` holds the tiles still to visit, next first. While `target_transform`
/// is `Some`, the mover is on the segment from `segment_start` to it, and
/// `translation_progress` out of `PROGRESS_ONE` says how far.
pub struct Movement {
    pub target_transform: Option<Position>,
    pub path: VecDeque<TileId>,
    pub segment_start: Position,
    pub translation_progress: u32,
    pub segment_distance: u64,
}

/// What a `Movement` holds, as plain values.
pub struct MovementView {
    pub target_transform: Option<Position>,
    pub path: Seq<TileId>,
    pub segment_start: Position,
    pub translation_progress: u32,
    pub segment_distance: u64,
}

impl View for Movement {
    type V = MovementView;

    open spec fn view(&self) -> MovementView {
        MovementView {
            target_transform: self.target_transform,
            path: self.path@,
            segment_start: self.segment_start,
            translation_progress: self.translation_progress,
            segment_distance: self.segment_distance,
        }
    }
}

impl Default for Movement {
    fn default() -> (m: Movement)
        ensures
            m@ == (MovementView {
                target_transform: None,
                path: Seq::empty(),
                segment_start: Position { x: 0, y: 0, z: 0 },
                translation_progress: 0,
                segment_distance: 0,
            }),
    {
        Movement {
            target_transform: None,
            path: VecDeque::new(),
            segment_start: Position { x: 0, y: 0, z: 0 },
            translation_progress: 0,
            segment_distance: 0,
        }
    }
}

/// A mover as the request handler and the frame step see it.
pub struct MoverView {
    pub translation: Position,
    pub movement: MovementView,
    pub tile: Option<TileId>,
    pub state: MovementState,
}

/// What became of a request.
#[derive(Clone, Copy, Debug, PartialEq, Eq, Structural)]
pub enum RequestOutcome {
    /// A route was found and installed.
    Installed,
    /// The mover is already on its way to the target; nothing changed.
    Duplicate,
    /// No route was found; the movement is as it was.
    NoPath,
}

/// The tile a request starts from: the mover's tile, or the source the
/// request declares when the mover has none yet.
pub open spec fn request_origin(tile: Option<TileId>, event: MoveRequestEvent) -> TileId {
    match tile {
        Some(t) => t,
        None => event.source_tile_entity,
    }
}

/// The mover is under way and the last tile of its route is the requested target.
pub open spec fn is_duplicate_request(movement: MovementView, event: MoveRequestEvent) -> bool {
    movement.path.len() > 0 && movement.path[movement.path.len() - 1] == event.target_tile_entity
}

/// The outcome that is owed to a request.
pub open spec fn request_outcome(
    before: MoverView,
    event: MoveRequestEvent,
    tiles: Map<TileId, TileEntry>,
) -> RequestOutcome {
    if is_duplicate_request(before.movement, event) {
        RequestOutcome::Duplicate
    } else if event.movement_type == MovementType::ASTAR && reachable(
        tiles,
        request_origin(before.tile, event),
        event.target_tile_entity,
    ) {
        RequestOutcome::Installed
    } else {
        RequestOutcome::NoPath
    }
}

/// `after` is what handling `event` makes of the mover `before`.
///
/// The mover's tile is set from the request if it had none. A duplicate or a
/// request without a route changes nothing else. Otherwise the movement is
/// replaced: its path is a route from the mover's tile to the target, on a
/// uniform grid one of the fewest steps and the least cost, no waypoint is
/// targeted, and the next segment starts where the mover stands. The mover
/// walks if the route has more than one tile; a route that is the mover's own
/// tile alone leaves its state as it was, for the mover has arrived.
pub open spec fn request_applied(
    before: MoverView,
    event: MoveRequestEvent,
    tiles: Map<TileId, TileEntry>,
    after: MoverView,
    outcome: RequestOutcome,
) -> bool {
    &&& outcome == request_outcome(before, event, tiles)
    &&& after.translation == before.translation
    &&& after.tile == Some(request_origin(before.tile, event))
    &&& match outcome {
        RequestOutcome::Installed => {
            &&& is_route(
                tiles,
                after.movement.path,
                request_origin(before.tile, event),
                event.target_tile_entity,
            )
            &&& after.movement.path.no_duplicates()
            &&& forall|shape: GridShape| #[trigger]
                uniform_grid(tiles, shape) ==> {
                    &&& after.movement.path.len() == tile_chebyshev(
                        tiles,
                        request_origin(before.tile, event),
                        event.target_tile_entity,
                    ) + 1
                    &&& route_cost(tiles, after.movement.path) == shape.spacing * shape.spacing
                        * tile_manhattan(
                        tiles,
                        request_origin(before.tile, event),
                        event.target_tile_entity,
                    )
                }
            &&& after.movement.target_transform == None::<Position>
            &&& after.movement.segment_start == before.translation
            &&& after.movement.translation_progress == 0
            &&& after.movement.segment_distance == 0
            &&& after.state == if after.movement.path.len() > 1 {
                MovementState::Walking
            } else {
                before.state
            }
        },
        _ => after.movement == before.movement && after.state == before.state,
    }
}

/// Handles one move request for one mover standing at `translation`.
pub fn movement_request_handler(
    event: &MoveRequestEvent,
    translation: Position,
    movement: &mut Movement,
    tile_position: &mut TilePosition,
    movement_state: &mut MovementState,
    tiles: &TileStore,
) -> (outcome: RequestOutcome)
    requires
        tiles.wf(),
    ensures
        request_applied(
            MoverView {
                translation,
                movement: old(movement)@,
                tile: old(tile_position).tile,
                state: *old(movement_state),
            },
            *event,
            tiles.map(),
            MoverView {
                translation,
                movement: final(movement)@,
                tile: final(tile_position).tile,
                state: *final(movement_state),
            },
            outcome,
        ),
{
    let tile_entity = match tile_position.tile {
        Some(tile) => tile,
        None => event.source_tile_entity,
    };
    tile_position.tile = Some(tile_entity);

    let queued = movement.path.len();
    if queued > 0 {
        if movement.path[queued - 1] == event.target_tile_entity {
            return RequestOutcome::Duplicate;
        }
    }
    let paths = match event.movement_type {
        MovementType::ASTAR => astar_pathfind(tile_entity, event.target_tile_entity, tiles),
        MovementType::SHORTEST => None,
    };
    match paths {
        Some(path) => {
            let mut queue: VecDeque<TileId> = VecDeque::new();
            let n = path.len();
            let mut k: usize = 0;
            while k < n
                invariant
                    0 <= k <= n,
                    n == path@.len(),
                    queue@ == path@.take(k as int),
                decreases n - k,
            {
                queue.push_back(path[k]);
                assert(path@.take(k + 1) =~= path@.take(k as int).push(path@[k as int]));
                k += 1;
            }
            assert(path@.take(n as int) =~= path@);
            movement.path = queue;
            movement.segment_start = translation;
            movement.translation_progress = 0;
            movement.target_transform = None;
            movement.segment_distance = 0;
            if n > 1 {
                *movement_state = MovementState::Walking;
            }
            RequestOutcome::Installed
        },
        None => RequestOutcome::NoPath,
    }
}

/// The gap from `from` to `to` on each axis.
pub open spec fn direction_between(from: Position, to: Position) -> Direction {
    Direction {
        x: (to.x - from.x) as i64,
        y: (to.y - from.y) as i64,
        z: (to.z - from.z) as i64,
    }
}

/// Waypoint acquisition. A mover without a waypoint and with tiles left takes
/// the next tile off its path. If that tile is stored, its position becomes
/// the waypoint, the segment starts where the mover stands, progress starts
/// at nothing, the mover is on that tile, and it is turned to the travel
/// direction unless that is too short to tell. If the tile is not stored it
/// is dropped and nothing else changes.
pub open spec fn acquire_waypoint(mover: MoverView, tiles: Map<TileId, TileEntry>) -> (
    MoverView,
    Option<Direction>,
) {
    if mover.movement.target_transform is None && mover.movement.path.len() > 0 {
        let next = mover.movement.path[0];
        let rest = mover.movement.path.drop_first();
        if tiles.contains_key(next) {
            let target = tiles[next].position;
            let gap = squared_distance(mover.translation, target);
            (
                MoverView {
                    translation: mover.translation,
                    movement: MovementView {
                        target_transform: Some(target),
                        path: rest,
                        segment_start: mover.translation,
                        translation_progress: 0,
                        segment_distance: integer_sqrt(gap) as u64,
                    },
                    tile: Some(next),
                    state: mover.state,
                },
                if gap > FACING_EPSILON {
                    Some(direction_between(mover.translation, target))
                } else {
                    None
                },
            )
        } else {
            (
                MoverView { movement: MovementView { path: rest, ..mover.movement }, ..mover },
                None,
            )
        }
    } else {
        (mover, None)
    }
}

/// The progress that one frame adds on a segment of the given length: the
/// distance covered at `speed` units a second in `delta_micros`, as a part of
/// the segment. A segment of no length is done at once.
pub open spec fn progress_increment(speed: u32, delta_micros: u32, segment_distance: u64) -> int {
    if segment_distance > 0 {
        (speed * delta_micros * PROGRESS_ONE) / (MICROS_PER_SECOND * segment_distance)
    } else {
        PROGRESS_ONE as int
    }
}

/// Completion check and advance. A mover whose progress has reached
/// `PROGRESS_ONE` drops its waypoint and does not move. Otherwise a mover with
/// a waypoint gains this frame's progress, capped at `PROGRESS_ONE`, and
/// stands at that part of the way from segment start to waypoint.
pub open spec fn advance(mover: MoverView, speed: u32, delta_micros: u32) -> MoverView {
    if mover.movement.translation_progress >= PROGRESS_ONE {
        MoverView {
            movement: MovementView { target_transform: None, ..mover.movement },
            ..mover
        }
    } else {
        match mover.movement.target_transform {
            Some(target) => {
                let raised = mover.movement.translation_progress + progress_increment(
                    speed,
                    delta_micros,
                    mover.movement.segment_distance,
                );
                let progress = if raised >= PROGRESS_ONE {
                    PROGRESS_ONE
                } else {
                    raised as u32
                };
                MoverView {
                    translation: lerp(
                        mover.movement.segment_start,
                        target,
                        progress as int,
                        PROGRESS_ONE as int,
                    ),
                    movement: MovementView { translation_progress: progress, ..mover.movement },
                    ..mover
                }
            },
            None => mover,
        }
    }
}

/// Idle transition. A player's mover with no tiles left and no waypoint goes idle.
pub open spec fn settle(mover: MoverView, character_type: CharacterType) -> MoverView {
    if character_type == CharacterType::Player && mover.movement.path.len() == 0
        && mover.movement.target_transform is None && mover.state != MovementState::Idle {
        MoverView { state: MovementState::Idle, ..mover }
    } else {
        mover
    }
}

/// One frame of path following: waypoint acquisition, then completion check
/// and advance, then idle transition. The second part is the direction to
/// turn the mover to, if it is to be turned.
pub open spec fn follow_step(
    mover: MoverView,
    character_type: CharacterType,
    tiles: Map<TileId, TileEntry>,
    speed: u32,
    delta_micros: u32,
) -> (MoverView, Option<Direction>) {
    let (acquired, facing) = acquire_waypoint(mover, tiles);
    (settle(advance(acquired, speed, delta_micros), character_type), facing)
}

/// This frame's progress on a segment, capped at `PROGRESS_ONE`.
fn raised_progress(progress: u32, speed: u32, delta_micros: u32, segment_distance: u64) -> (raised:
    u32)
    requires
        progress < PROGRESS_ONE,
    ensures
        raised == if progress + progress_increment(speed, delta_micros, segment_distance)
            >= PROGRESS_ONE {
            PROGRESS_ONE as int
        } else {
            progress + progress_increment(speed, delta_micros, segment_distance)
        },
        raised <= PROGRESS_ONE,
{
    if segment_distance == 0 {
        return PROGRESS_ONE;
    }
    assert(speed * delta_micros <= 0xFFFF_FFFF * 0xFFFF_FFFF) by (nonlinear_arith)
        requires
            speed <= 0xFFFF_FFFF,
            delta_micros <= 0xFFFF_FFFF,
    ;
    let covered: u128 = (speed as u128) * (delta_micros as u128);
    assert(covered * PROGRESS_ONE == speed * delta_micros * PROGRESS_ONE) by (nonlinear_arith)
        requires
            covered == speed * delta_micros,
    ;
    let scaled: u128 = covered * (PROGRESS_ONE as u128);
    assert(MICROS_PER_SECOND * segment_distance <= 1_000_000 * 0xFFFF_FFFF_FFFF_FFFF)
        by (nonlinear_arith)
        requires
            MICROS_PER_SECOND == 1_000_000,
            segment_distance <= 0xFFFF_FFFF_FFFF_FFFF,
    ;
    let whole: u128 = (MICROS_PER_SECOND as u128) * (segment_distance as u128);
    let increment: u128 = scaled / whole;
    proof {
        vstd::arithmetic::div_mod::lemma_div_pos_is_pos(scaled as int, whole as int);
    }
    let room: u32 = PROGRESS_ONE - progress;
    if increment >= room as u128 {
        PROGRESS_ONE
    } else {
        progress + increment as u32
    }
}

/// Advances one mover by one frame of `delta_micros` microseconds at `speed`
/// position units a second, and returns the direction to turn it to, if any.
pub fn update_player_movement(
    translation: &mut Position,
    speed: u32,
    movement: &mut Movement,
    tile_position: &mut TilePosition,
    movement_state: &mut MovementState,
    character_type: CharacterType,
    tiles: &TileStore,
    delta_micros: u32,
) -> (facing: Option<Direction>)
    requires
        tiles.wf(),
    ensures
        (
            MoverView {
                translation: *final(translation),
                movement: final(movement)@,
                tile: final(tile_position).tile,
                state: *final(movement_state),
            },
            facing,
        ) == follow_step(
            MoverView {
                translation: *old(translation),
                movement: old(movement)@,
                tile: old(tile_position).tile,
                state: *old(movement_state),
            },
            character_type,
            tiles.map(),
            speed,
            delta_micros,
        ),
{
    let ghost before = MoverView {
        translation: *translation,
        movement: movement@,
        tile: tile_position.tile,
        state: *movement_state,
    };
    let mut facing: Option<Direction> = None;
    if movement.target_transform.is_none() && movement.path.len() > 0 {
        if let Some(next_entity) = movement.path.pop_front() {
            if let Some(target) = tiles.get(next_entity) {
                let target_pos = target.position;
                movement.segment_start = *translation;
                movement.target_transform = Some(target_pos);
                movement.translation_progress = 0;
                tile_position.tile = Some(next_entity);
                let gap = heuristic(movement.segment_start, target_pos);
                movement.segment_distance = isqrt(gap);
                if gap > FACING_EPSILON {
                    facing = Some(
                        Direction {
                            x: target_pos.x as i64 - movement.segment_start.x as i64,
                            y: target_pos.y as i64 - movement.segment_start.y as i64,
                            z: target_pos.z as i64 - movement.segment_start.z as i64,
                        },
                    );
                }
            }
        }
    }
    let ghost acquired = MoverView {
        translation: *translation,
        movement: movement@,
        tile: tile_position.tile,
        state: *movement_state,
    };
    assert((acquired, facing) == acquire_waypoint(before, tiles.map())) by {
        assert(acquired.movement.path =~= acquire_waypoint(before, tiles.map()).0.movement.path);
    }

    if movement.translation_progress >= PROGRESS_ONE {
        movement.target_transform = None;
    } else if let Some(target) = movement.target_transform {
        movement.translation_progress = raised_progress(
            movement.translation_progress,
            speed,
            delta_micros,
            movement.segment_distance,
        );
        *translation = lerp_position(
            movement.segment_start,
            target,
            movement.translation_progress,
            PROGRESS_ONE,
        );
    }
    let ghost advanced = MoverView {
        translation: *translation,
        movement: movement@,
        tile: tile_position.tile,
        state: *movement_state,
    };
    assert(advanced == advance(acquired, speed, delta_micros));

    let at_rest = movement.path.len() == 0 && movement.target_transform.is_none();
    match character_type {
        CharacterType::Player => {
            if at_rest {
                match *movement_state {
                    MovementState::Idle => {},
                    _ => {
                        *movement_state = MovementState::Idle;
                    },
                }
            }
        },
        CharacterType::Enemy => {},
    }
    facing
}

/// After a frame step a mover with a waypoint stands on its segment: its
/// progress is at most `PROGRESS_ONE`, it stands at that part of the way from
/// segment start to waypoint, and at the waypoint once progress is complete.
pub proof fn lemma_step_stays_on_segment(
    mover: MoverView,
    character_type: CharacterType,
    tiles: Map<TileId, TileEntry>,
    speed: u32,
    delta_micros: u32,
)
    ensures
        ({
            let stepped = follow_step(mover, character_type, tiles, speed, delta_micros).0;
            match stepped.movement.target_transform {
                Some(target) => {
                    &&& stepped.movement.translation_progress <= PROGRESS_ONE
                    &&& stepped.translation == lerp(
                        stepped.movement.segment_start,
                        target,
                        stepped.movement.translation_progress as int,
                        PROGRESS_ONE as int,
                    )
                    &&& stepped.movement.translation_progress == PROGRESS_ONE
                        ==> stepped.translation == target
                },
                None => true,
            }
        }),
{
    let acquired = acquire_waypoint(mover, tiles).0;
    let stepped = follow_step(mover, character_type, tiles, speed, delta_micros).0;
    match stepped.movement.target_transform {
        Some(target) => {
            let start = stepped.movement.segment_start;
            let one = PROGRESS_ONE as int;
            lemma_lerp_axis_between(start.x as int, target.x as int, one, one);
            lemma_lerp_axis_between(start.y as int, target.y as int, one, one);
            lemma_lerp_axis_between(start.z as int, target.z as int, one, one);
            assert(acquired.movement.translation_progress < PROGRESS_ONE);
        },
        None => {},
    }
}

/// What an installed route does to the state of the mover. A request for the
/// mover's own tile installs that tile alone and leaves the state as it was:
/// a mover that was idle remains idle. A request for another tile installs
/// more than one tile and makes the mover walk.
pub proof fn lemma_installed_state(
    before: MoverView,
    event: MoveRequestEvent,
    tiles: Map<TileId, TileEntry>,
    after: MoverView,
)
    requires
        request_applied(before, event, tiles, after, RequestOutcome::Installed),
    ensures
        request_origin(before.tile, event) == event.target_tile_entity ==> after.movement.path
            == seq![event.target_tile_entity] && after.state == before.state,
        request_origin(before.tile, event) != event.target_tile_entity ==> after.movement.path.len()
            > 1 && after.state == MovementState::Walking,
{
    let path = after.movement.path;
    if request_origin(before.tile, event) == event.target_tile_entity {
        if path.len() > 1 {
            assert(path[0] == path[path.len() - 1]);
        }
        assert(path =~= seq![event.target_tile_entity]);
    }
}

/// A mover without a waypoint does not jump: in the frame step that starts
/// its next segment it moves no further than its speed allows in the time of
/// the frame, to within one position unit.
pub proof fn lemma_fresh_step_does_not_jump(
    mover: MoverView,
    character_type: CharacterType,
    tiles: Map<TileId, TileEntry>,
    speed: u32,
    delta_micros: u32,
)
    requires
        mover.movement.target_transform is None,
    ensures
        squared_distance(
            mover.translation,
            follow_step(mover, character_type, tiles, speed, delta_micros).0.translation,
        ) * (MICROS_PER_SECOND * MICROS_PER_SECOND) <= (speed * delta_micros + MICROS_PER_SECOND)
            * (speed * delta_micros + MICROS_PER_SECOND),
{
    let stepped = follow_step(mover, character_type, tiles, speed, delta_micros).0;
    let acquired = acquire_waypoint(mover, tiles).0;
    let reach = speed * delta_micros;
    let per = MICROS_PER_SECOND as int;
    let one = PROGRESS_ONE as int;
    assert(0 <= reach) by (nonlinear_arith)
        requires
            reach == speed * delta_micros,
    ;
    assert(0 <= (reach + per) * (reach + per)) by (nonlinear_arith);
    lemma_squared_distance_bounds(mover.translation, mover.translation);
    match acquired.movement.target_transform {
        Some(target) => {
            let from = mover.translation;
            let gap = squared_distance(from, target);
            lemma_squared_distance_bounds(from, target);
            lemma_integer_sqrt_exists(gap);
            let whole = integer_sqrt(gap);
            assert(gap <= 3 * (0xFFFF_FFFF * 0xFFFF_FFFF)) by {
                crate::geometry::lemma_squared_distance_within(from, target);
            }
            assert(whole <= 0xFFFF_FFFF_FFFF) by (nonlinear_arith)
                requires
                    0 <= whole,
                    whole * whole <= gap,
                    gap <= 3 * (0xFFFF_FFFF * 0xFFFF_FFFF),
            ;
            assert(acquired.movement.segment_distance == whole);
            let progress = stepped.movement.translation_progress as int;
            assert(stepped.translation == lerp(from, target, progress, one));
            assert(0 <= progress <= one);
            lemma_lerp_moved(from, target, progress, one);
            if whole > 0 {
                let all = reach * one;
                let part = per * whole;
                let increment = all / part;
                assert(all == speed * delta_micros * PROGRESS_ONE);
                assert(part == MICROS_PER_SECOND * acquired.movement.segment_distance);
                assert(0 < part) by (nonlinear_arith)
                    requires
                        part == per * whole,
                        0 < per,
                        0 < whole,
                ;
                assert(increment * part <= all) by {
                    vstd::arithmetic::div_mod::lemma_fundamental_div_mod(all, part);
                    vstd::arithmetic::div_mod::lemma_mod_bound(all, part);
                    assert(part * increment == increment * part) by (nonlinear_arith);
                }
                assert(progress <= increment);
                assert(progress * part <= increment * part) by (nonlinear_arith)
                    requires
                        progress <= increment,
                        0 < part,
                ;
            }
            lemma_squared_distance_bounds(from, stepped.translation);
            lemma_moved_within_reach(
                squared_distance(from, stepped.translation),
                gap,
                whole,
                progress,
                one,
                reach,
                per,
            );
        },
        None => {
            assert(stepped.translation == mover.translation);
            assert(0 * (MICROS_PER_SECOND * MICROS_PER_SECOND) == 0) by (nonlinear_arith);
        },
    }
}

/// A request for the target that the mover is already under way to is
/// dropped: after a request that installed a route or was itself dropped as a
/// duplicate, a second request for the same target changes nothing, whatever
/// the tiles are by then.
pub proof fn lemma_repeated_request_dropped(
    before: MoverView,
    first: MoveRequestEvent,
    first_tiles: Map<TileId, TileEntry>,
    between: MoverView,
    first_outcome: RequestOutcome,
    second: MoveRequestEvent,
    second_tiles: Map<TileId, TileEntry>,
    after: MoverView,
    second_outcome: RequestOutcome,
)
    requires
        request_applied(before, first, first_tiles, between, first_outcome),
        first_outcome != RequestOutcome::NoPath,
        request_applied(between, second, second_tiles, after, second_outcome),
        second.target_tile_entity == first.target_tile_entity,
    ensures
        second_outcome == RequestOutcome::Duplicate,
        after == between,
{
    assert(is_duplicate_request(between.movement, second));
}

/// Interruption: when a request has installed a route, the next frame step
/// starts its segment where the mover stands at that step, wherever the
/// segment of the replaced route started, and heads for the first tile of
/// the new route. The mover does not jump: it moves no further in that step
/// than its speed allows in the time of the frame, to within one position
/// unit.
pub proof fn lemma_interruption_restarts_segment(
    before: MoverView,
    event: MoveRequestEvent,
    tiles: Map<TileId, TileEntry>,
    installed: MoverView,
    position: Position,
    character_type: CharacterType,
    speed: u32,
    delta_micros: u32,
)
    requires
        request_applied(before, event, tiles, installed, RequestOutcome::Installed),
    ensures
        ({
            let standing = MoverView { translation: position, ..installed };
            let stepped = follow_step(standing, character_type, tiles, speed, delta_micros).0;
            &&& stepped.movement.segment_start == position
            &&& stepped.movement.target_transform == Some(
                tiles[installed.movement.path[0]].position,
            )
            &&& stepped.tile == Some(request_origin(before.tile, event))
            &&& stepped.movement.path == installed.movement.path.drop_first()
            &&& squared_distance(position, stepped.translation) * (MICROS_PER_SECOND
                * MICROS_PER_SECOND) <= (speed * delta_micros + MICROS_PER_SECOND) * (speed
                * delta_micros + MICROS_PER_SECOND)
        }),
{
    let first = installed.movement.path[0];
    assert(crate::pathfinding::walkable_tile(tiles, first));
    let standing = MoverView { translation: position, ..installed };
    lemma_fresh_step_does_not_jump(standing, character_type, tiles, speed, delta_micros);
}

} // verus!
