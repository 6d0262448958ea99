//! From a pointer event on the grid to a selection, and from a selection to
//! a move request.

use crate::movement::{MoveRequestEvent, MovementType, MoverId, TilePosition};
use crate::registry::{Coord, TileRegistry};
use crate::tiles::{Tile, TileColor, TileEntry, TileId, TileStore};
use vstd::prelude::*;

verus! {

/// A tile was chosen as a destination.
#[derive(Clone, Copy, Debug, PartialEq, Eq, Structural)]
pub struct TileSelectedEvent {
    pub source_tile_entity: TileId,
    pub target_tile_entity: TileId,
}

/// A rectangular block of `grid_size` by `grid_size` tiles. `x` and `z`
/// number the chunk among the chunks of the level.
#[derive(Clone, Copy, Debug, PartialEq, Eq, Structural)]
pub struct PlaneChunk {
    pub x: i32,
    pub z: i32,
    pub width: i32,
    pub height: i32,
    pub color: TileColor,
    pub grid_size: i32,
}

impl Default for PlaneChunk {
    fn default() -> (c: PlaneChunk)
        ensures
            c == (PlaneChunk {
                x: 0,
                z: 0,
                width: 30,
                height: 30,
                color: TileColor { red: 0, green: 255, blue: 0 },
                grid_size: 10,
            }),
    {
        PlaneChunk {
            x: 0,
            z: 0,
            width: 30,
            height: 30,
            color: TileColor { red: 0, green: 255, blue: 0 },
            grid_size: 10,
        }
    }
}

/// How a level is cut into chunks.
#[derive(Clone, Copy, Debug, PartialEq, Eq, Structural)]
pub struct LevelPlaneConfig {
    pub num_cols: i32,
    pub num_rows: i32,
    pub chunk_width: i32,
    pub chunk_height: i32,
    pub grid_size: i32,
}

impl Default for LevelPlaneConfig {
    fn default() -> (c: LevelPlaneConfig)
        ensures
            c == (LevelPlaneConfig {
                num_cols: 3,
                num_rows: 3,
                chunk_width: 30,
                chunk_height: 30,
                grid_size: 15,
            }),
    {
        LevelPlaneConfig { num_cols: 3, num_rows: 3, chunk_width: 30, chunk_height: 30, grid_size: 15 }
    }
}

/// The selection that a click on the stored tile `clicked` makes. A click on
/// the mover's own tile selects nothing. A mover without a tile selects the
/// clicked tile as both source and target.
pub open spec fn tile_selection(
    tile: Option<TileId>,
    clicked: TileId,
    tiles: Map<TileId, TileEntry>,
) -> Option<TileSelectedEvent> {
    if !tiles.contains_key(clicked) {
        None
    } else {
        match tile {
            Some(own) => if own == clicked {
                None
            } else {
                Some(TileSelectedEvent { source_tile_entity: own, target_tile_entity: clicked })
            },
            None => Some(
                TileSelectedEvent { source_tile_entity: clicked, target_tile_entity: clicked },
            ),
        }
    }
}

/// Turns a click on `clicked` into a selection, for the mover at `tile_position`.
pub fn handle_tile_selection(tile_position: &TilePosition, clicked: TileId, tiles: &TileStore) -> (event:
    Option<TileSelectedEvent>)
    requires
        tiles.wf(),
    ensures
        event == tile_selection(tile_position.tile, clicked, tiles.map()),
{
    if !tiles.contains(clicked) {
        return None;
    }
    match tile_position.tile {
        Some(player_tile_entity) => {
            if player_tile_entity == clicked {
                None
            } else {
                Some(
                    TileSelectedEvent {
                        source_tile_entity: player_tile_entity,
                        target_tile_entity: clicked,
                    },
                )
            }
        },
        None => Some(TileSelectedEvent { source_tile_entity: clicked, target_tile_entity: clicked }),
    }
}

/// The move request that a selection makes for the mover `entity`.
pub fn tile_selected_event_handle(entity: MoverId, event: &TileSelectedEvent) -> (request:
    MoveRequestEvent)
    ensures
        request == (MoveRequestEvent {
            entity,
            movement_type: MovementType::ASTAR,
            source_tile_entity: event.source_tile_entity,
            target_tile_entity: event.target_tile_entity,
        }),
{
    MoveRequestEvent {
        entity,
        movement_type: MovementType::ASTAR,
        source_tile_entity: event.source_tile_entity,
        target_tile_entity: event.target_tile_entity,
    }
}

/// The grid coordinate of the tile at `local` within `chunk`, when it is a coordinate.
pub open spec fn chunk_global(chunk: PlaneChunk, local: Coord) -> Option<Coord> {
    let x = chunk.x * chunk.grid_size + local.0;
    let z = chunk.z * chunk.grid_size + local.1;
    if i32::MIN <= x <= i32::MAX && i32::MIN <= z <= i32::MAX {
        Some((x as i32, z as i32))
    } else {
        None
    }
}

/// The selection that a click on the tile at `local` within `chunk` makes
/// for a mover standing at the grid coordinate `player_coord`: from the tile
/// registered under the mover to the tile registered under the click, if both
/// are registered and differ.
pub open spec fn grid_click_selection(
    chunk: PlaneChunk,
    local: Coord,
    player_coord: Option<Coord>,
    registry: Map<Coord, TileId>,
) -> Option<TileSelectedEvent> {
    match (chunk_global(chunk, local), player_coord) {
        (Some(target), Some(source)) => {
            if registry.contains_key(target) && registry.contains_key(source) && registry[source]
                != registry[target] {
                Some(
                    TileSelectedEvent {
                        source_tile_entity: registry[source],
                        target_tile_entity: registry[target],
                    },
                )
            } else {
                None
            }
        },
        _ => None,
    }
}

/// One axis of `chunk_tile_coord`.
fn global_axis(chunk_index: i32, grid_size: i32, local: i32) -> (global: Option<i32>)
    ensures
        global == if i32::MIN <= chunk_index * grid_size + local <= i32::MAX {
            Some((chunk_index * grid_size + local) as i32)
        } else {
            None::<i32>
        },
{
    assert(-0x8000_0000 * 0x8000_0000 <= chunk_index * grid_size <= 0x8000_0000 * 0x8000_0000)
        by (nonlinear_arith)
        requires
            -0x8000_0000 <= chunk_index <= 0x8000_0000,
            -0x8000_0000 <= grid_size <= 0x8000_0000,
    ;
    let wide: i64 = (chunk_index as i64) * (grid_size as i64) + local as i64;
    if wide < i32::MIN as i64 || wide > i32::MAX as i64 {
        None
    } else {
        Some(wide as i32)
    }
}

/// The grid coordinate of the tile at `local` within `plane_chunk`.
pub fn chunk_tile_coord(plane_chunk: &PlaneChunk, local: Coord) -> (global: Option<Coord>)
    ensures
        global == chunk_global(*plane_chunk, local),
{
    match (
        global_axis(plane_chunk.x, plane_chunk.grid_size, local.0),
        global_axis(plane_chunk.z, plane_chunk.grid_size, local.1),
    ) {
        (Some(x), Some(z)) => Some((x, z)),
        _ => None,
    }
}

/// Where within `chunk` the grid coordinate `global` lies, when it lies in it.
pub open spec fn chunk_local(chunk: PlaneChunk, global: Coord) -> Option<Coord> {
    let x = global.0 - chunk.x * chunk.grid_size;
    let z = global.1 - chunk.z * chunk.grid_size;
    if 0 <= x < chunk.grid_size && 0 <= z < chunk.grid_size {
        Some((x as i32, z as i32))
    } else {
        None
    }
}

/// One axis of `chunk_local_coord`.
fn local_axis(chunk_index: i32, grid_size: i32, global: i32) -> (local: Option<i32>)
    ensures
        local == if 0 <= global - chunk_index * grid_size < grid_size {
            Some((global - chunk_index * grid_size) as i32)
        } else {
            None::<i32>
        },
{
    assert(-0x8000_0000 * 0x8000_0000 <= chunk_index * grid_size <= 0x8000_0000 * 0x8000_0000)
        by (nonlinear_arith)
        requires
            -0x8000_0000 <= chunk_index <= 0x8000_0000,
            -0x8000_0000 <= grid_size <= 0x8000_0000,
    ;
    let wide: i64 = global as i64 - (chunk_index as i64) * (grid_size as i64);
    if 0 <= wide && wide < grid_size as i64 {
        Some(wide as i32)
    } else {
        None
    }
}

/// Where within `plane_chunk` the grid coordinate `global` lies, when it lies in it.
pub fn chunk_local_coord(plane_chunk: &PlaneChunk, global: Coord) -> (local: Option<Coord>)
    ensures
        local == chunk_local(*plane_chunk, global),
{
    match (
        local_axis(plane_chunk.x, plane_chunk.grid_size, global.0),
        local_axis(plane_chunk.z, plane_chunk.grid_size, global.1),
    ) {
        (Some(x), Some(z)) => Some((x, z)),
        _ => None,
    }
}

/// Turns a click on the tile at `local` within `plane_chunk` into a selection.
pub fn handle_optimized_grid_clicks(
    plane_chunk: &PlaneChunk,
    local: Coord,
    player_coord: Option<Coord>,
    tile_registry: &TileRegistry,
) -> (event: Option<TileSelectedEvent>)
    ensures
        event == grid_click_selection(*plane_chunk, local, player_coord, tile_registry@),
{
    let (target_global_x, target_global_z) = match chunk_tile_coord(plane_chunk, local) {
        Some(target) => target,
        None => {
            return None;
        },
    };
    let target_tile_entity = match tile_registry.get(target_global_x, target_global_z) {
        Some(tile) => tile,
        None => {
            return None;
        },
    };
    let source = match player_coord {
        Some(source) => source,
        None => {
            return None;
        },
    };
    let source_tile_entity = match tile_registry.get(source.0, source.1) {
        Some(tile) => tile,
        None => {
            return None;
        },
    };
    if source_tile_entity != target_tile_entity {
        Some(TileSelectedEvent { source_tile_entity, target_tile_entity })
    } else {
        None
    }
}

/// What the pointer did to a tile.
#[derive(Clone, Copy, Debug, PartialEq, Eq, Structural)]
pub enum PointerAction {
    Over,
    Out,
    Click,
}

/// The tile after the pointer acted on it: hovering and selection exclude
/// each other, and leaving clears both.
pub open spec fn pointed(tile: Tile, action: PointerAction) -> Tile {
    match action {
        PointerAction::Over => Tile { selected: false, hovered: true, ..tile },
        PointerAction::Out => Tile { selected: false, hovered: false, ..tile },
        PointerAction::Click => Tile { selected: true, hovered: false, ..tile },
    }
}

/// The tile after the pointer acted on it.
pub fn apply_pointer(tile: Tile, action: PointerAction) -> (after: Tile)
    ensures
        after == pointed(tile, action),
{
    let mut after = tile;
    match action {
        PointerAction::Over => {
            after.selected = false;
            after.hovered = true;
        },
        PointerAction::Out => {
            after.hovered = false;
            after.selected = false;
        },
        PointerAction::Click => {
            after.selected = true;
            after.hovered = false;
        },
    }
    after
}

/// Applies a pointer action to the tile `id`. Returns whether there was such a tile.
pub fn handle_chunk_clicks(tiles: &mut TileStore, id: TileId, action: PointerAction) -> (found:
    bool)
    requires
        old(tiles).wf(),
    ensures
        final(tiles).wf(),
        found == old(tiles).map().contains_key(id),
        found ==> final(tiles)@ == old(tiles)@.update(
            crate::tiles::index_of(old(tiles)@, id),
            TileEntry {
                id,
                tile: pointed(old(tiles).map()[id].tile, action),
                position: old(tiles).map()[id].position,
            },
        ),
        !found ==> final(tiles)@ == old(tiles)@,
{
    match tiles.get(id) {
        Some(entry) => {
            let tile = apply_pointer(entry.tile, action);
            tiles.set_tile(id, tile)
        },
        None => false,
    }
}

} // verus!
