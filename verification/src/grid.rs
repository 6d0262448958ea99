//! Uniform grids: every cell of a rectangle holds one walkable tile, evenly
//! spaced, whose neighbour slots name the tiles around it.

use crate::geometry::{squared_distance, squared_gap};
use crate::pathfinding::{is_route, linked, neighbor_at, route_cost};
use crate::registry::{coord_map, entry_resolved, neighbor_slot, neighbors_resolved};
use crate::registry::{lemma_coord_map_holds, slot_dx, slot_dz, stands_at};
use crate::tiles::{distinct_ids, entry_map, lemma_entry_map_at, lemma_entry_map_key};
use crate::tiles::{TileEntry, TileId};
use vstd::prelude::*;

verus! {

/// A rectangle of grid coordinates and the positions of its cells: the cell
/// `(x, z)` lies at `(origin_x + spacing * x, origin_y, origin_z + spacing * z)`.
pub struct GridShape {
    pub min_x: int,
    pub max_x: int,
    pub min_z: int,
    pub max_z: int,
    pub origin_x: int,
    pub origin_y: int,
    pub origin_z: int,
    pub spacing: int,
}

/// The magnitude of `i`.
pub open spec fn magnitude(i: int) -> int {
    if i < 0 {
        -i
    } else {
        i
    }
}

/// Chebyshev distance between two grid coordinates: the number of steps a
/// walk between them needs when a step may change both coordinates by one.
pub open spec fn chebyshev(ax: int, az: int, bx: int, bz: int) -> int {
    if magnitude(ax - bx) >= magnitude(az - bz) {
        magnitude(ax - bx)
    } else {
        magnitude(az - bz)
    }
}

/// Steps of the walk between the cells of two stored tiles.
pub open spec fn tile_chebyshev(tiles: Map<TileId, TileEntry>, a: TileId, b: TileId) -> int {
    chebyshev(
        tiles[a].tile.x as int,
        tiles[a].tile.z as int,
        tiles[b].tile.x as int,
        tiles[b].tile.z as int,
    )
}

/// Manhattan distance between two grid coordinates.
pub open spec fn manhattan(ax: int, az: int, bx: int, bz: int) -> int {
    magnitude(ax - bx) + magnitude(az - bz)
}

/// Manhattan distance between the cells of two stored tiles.
pub open spec fn tile_manhattan(tiles: Map<TileId, TileEntry>, a: TileId, b: TileId) -> int {
    manhattan(
        tiles[a].tile.x as int,
        tiles[a].tile.z as int,
        tiles[b].tile.x as int,
        tiles[b].tile.z as int,
    )
}

/// `(x, z)` is a cell of the rectangle.
pub open spec fn in_shape(shape: GridShape, x: int, z: int) -> bool {
    shape.min_x <= x <= shape.max_x && shape.min_z <= z <= shape.max_z
}

/// The tile is walkable, stands on a cell of the rectangle, and lies where
/// that cell lies.
pub open spec fn tile_fits(entry: TileEntry, shape: GridShape) -> bool {
    &&& entry.tile.walkable
    &&& in_shape(shape, entry.tile.x as int, entry.tile.z as int)
    &&& entry.position.x == shape.origin_x + shape.spacing * entry.tile.x
    &&& entry.position.y == shape.origin_y
    &&& entry.position.z == shape.origin_z + shape.spacing * entry.tile.z
}

/// The `i`-th neighbour slot of the tile `id` names the tile one step away
/// in that direction, and is empty only where the rectangle ends.
pub open spec fn slot_fits(tiles: Map<TileId, TileEntry>, shape: GridShape, id: TileId, i: int) -> bool {
    let x = tiles[id].tile.x + slot_dx(i);
    let z = tiles[id].tile.z + slot_dz(i);
    match neighbor_at(tiles[id].tile, i) {
        Some(n) => tiles.contains_key(n) && tiles[n].tile.x == x && tiles[n].tile.z == z,
        None => !in_shape(shape, x, z),
    }
}

/// Some stored tile stands on the cell `(x, z)`.
pub open spec fn cell_taken(tiles: Map<TileId, TileEntry>, x: int, z: int) -> bool {
    exists|id: TileId| #[trigger]
        tiles.contains_key(id) && tiles[id].tile.x == x && tiles[id].tile.z == z
}

/// The tiles form a uniform grid of the given shape: all walkable, one on
/// each cell of the rectangle and none elsewhere, evenly spaced, with
/// neighbour slots that agree with the cells.
pub open spec fn uniform_grid(tiles: Map<TileId, TileEntry>, shape: GridShape) -> bool {
    &&& shape.spacing >= 1
    &&& forall|id: TileId| #[trigger] tiles.contains_key(id) ==> tile_fits(tiles[id], shape)
    &&& forall|a: TileId, b: TileId|
        #![trigger tiles.contains_key(a), tiles.contains_key(b)]
        tiles.contains_key(a) && tiles.contains_key(b) && tiles[a].tile.x == tiles[b].tile.x
            && tiles[a].tile.z == tiles[b].tile.z ==> a == b
    &&& forall|x: int, z: int| in_shape(shape, x, z) ==> #[trigger] cell_taken(tiles, x, z)
    &&& forall|id: TileId, i: int|
        #![trigger tiles.contains_key(id), neighbor_at(tiles[id].tile, i)]
        tiles.contains_key(id) && 0 <= i < 8 ==> slot_fits(tiles, shape, id, i)
}

/// The step towards zero from `a`: one down, one up, or none.
pub open spec fn toward(a: int) -> int {
    if a > 0 {
        -1
    } else if a < 0 {
        1
    } else {
        0
    }
}

/// The neighbour slot that lies in the direction `(dx, dz)`.
pub open spec fn slot_of(dx: int, dz: int) -> int {
    if dx == 0 && dz == 1 {
        0
    } else if dx == 1 && dz == 1 {
        1
    } else if dx == 1 && dz == 0 {
        2
    } else if dx == 1 && dz == -1 {
        3
    } else if dx == 0 && dz == -1 {
        4
    } else if dx == -1 && dz == -1 {
        5
    } else if dx == -1 && dz == 0 {
        6
    } else {
        7
    }
}

/// What a step by `(dx, dz)` from the offset `(a, b)` adds to cost so far
/// plus squared distance left, counted in squared spacings.
pub open spec fn step_score(a: int, b: int, dx: int, dz: int) -> int {
    magnitude(dx) + magnitude(dz) + squared_gap(a + dx, 0) + squared_gap(b + dz, 0) - squared_gap(
        a,
        0,
    ) - squared_gap(b, 0)
}

/// What one axis of a step adds to the score.
proof fn lemma_axis_score(a: int, d: int)
    requires
        -1 <= d <= 1,
    ensures
        magnitude(d) + squared_gap(a + d, 0) - squared_gap(a, 0) == if d == 0 {
            0
        } else if d == toward(a) {
            2 - 2 * magnitude(a)
        } else {
            2 + 2 * magnitude(a)
        },
{
    assert(squared_gap(a + 1, 0) == squared_gap(a, 0) + 2 * a + 1) by (nonlinear_arith);
    assert(squared_gap(a - 1, 0) == squared_gap(a, 0) - 2 * a + 1) by (nonlinear_arith);
}

/// The step towards the goal on both axes does not raise the score, and
/// brings the goal one step nearer in both measures.
pub proof fn lemma_step_toward(a: int, b: int)
    requires
        a != 0 || b != 0,
    ensures
        step_score(a, b, toward(a), toward(b)) <= 0,
        manhattan(a + toward(a), b + toward(b), 0, 0) < manhattan(a, b, 0, 0),
        chebyshev(a + toward(a), b + toward(b), 0, 0) == chebyshev(a, b, 0, 0) - 1,
        0 <= slot_of(toward(a), toward(b)) < 8,
        slot_dx(slot_of(toward(a), toward(b))) == toward(a),
        slot_dz(slot_of(toward(a), toward(b))) == toward(b),
{
    lemma_axis_score(a, toward(a));
    lemma_axis_score(b, toward(b));
}

/// A step that scores no worse than the step towards the goal on both axes
/// moves towards the goal on each axis or not at all on it. Two or more steps
/// from the goal it brings the goal one step nearer; one diagonal step from
/// the goal it reaches the goal or a cell beside it; beside the goal it
/// reaches the goal.
pub proof fn lemma_best_steps(a: int, b: int, dx: int, dz: int)
    requires
        a != 0 || b != 0,
        -1 <= dx <= 1,
        -1 <= dz <= 1,
        dx != 0 || dz != 0,
        step_score(a, b, dx, dz) <= step_score(a, b, toward(a), toward(b)),
    ensures
        dx == 0 || dx == toward(a),
        dz == 0 || dz == toward(b),
        chebyshev(a, b, 0, 0) >= 2 ==> chebyshev(a + dx, b + dz, 0, 0) == chebyshev(a, b, 0, 0) - 1,
        chebyshev(a, b, 0, 0) == 1 ==> (a + dx == 0 && b + dz == 0) || (manhattan(a, b, 0, 0) == 2
            && manhattan(a + dx, b + dz, 0, 0) == 1),
        manhattan(a, b, 0, 0) == 1 ==> a + dx == 0 && b + dz == 0,
{
    lemma_axis_score(a, dx);
    lemma_axis_score(b, dz);
    lemma_axis_score(a, toward(a));
    lemma_axis_score(b, toward(b));
}

/// The cost of the step in the direction of slot `i`, in squared spacings.
pub open spec fn slot_cost(i: int) -> int {
    magnitude(slot_dx(i)) + magnitude(slot_dz(i))
}

/// Squared distance between two tiles of a uniform grid, by their cells.
pub proof fn lemma_grid_distance(tiles: Map<TileId, TileEntry>, shape: GridShape, a: TileId, b: TileId)
    requires
        uniform_grid(tiles, shape),
        tiles.contains_key(a),
        tiles.contains_key(b),
    ensures
        squared_distance(tiles[a].position, tiles[b].position) == shape.spacing * shape.spacing * (
        squared_gap(tiles[a].tile.x as int, tiles[b].tile.x as int) + squared_gap(
            tiles[a].tile.z as int,
            tiles[b].tile.z as int,
        )),
{
    let s = shape.spacing;
    let ax = tiles[a].tile.x as int;
    let bx = tiles[b].tile.x as int;
    let az = tiles[a].tile.z as int;
    let bz = tiles[b].tile.z as int;
    assert(tile_fits(tiles[a], shape));
    assert(tile_fits(tiles[b], shape));
    assert(squared_gap(shape.origin_x + s * ax, shape.origin_x + s * bx) == s * s * squared_gap(
        ax,
        bx,
    )) by (nonlinear_arith);
    assert(squared_gap(shape.origin_z + s * az, shape.origin_z + s * bz) == s * s * squared_gap(
        az,
        bz,
    )) by (nonlinear_arith);
    assert(squared_gap(shape.origin_y, shape.origin_y) == 0) by (nonlinear_arith);
    assert(s * s * (squared_gap(ax, bx) + squared_gap(az, bz)) == s * s * squared_gap(ax, bx) + s
        * s * squared_gap(az, bz)) by (nonlinear_arith);
}

/// On a uniform grid the tile at place `k` of a route lies at most `k` steps
/// of the cells walk from the start.
pub proof fn lemma_route_reach(
    tiles: Map<TileId, TileEntry>,
    shape: GridShape,
    path: Seq<TileId>,
    start: TileId,
    goal: TileId,
    k: int,
)
    requires
        uniform_grid(tiles, shape),
        is_route(tiles, path, start, goal),
        0 <= k < path.len(),
    ensures
        tile_chebyshev(tiles, start, path[k]) <= k,
    decreases k,
{
    if k > 0 {
        lemma_route_reach(tiles, shape, path, start, goal, k - 1);
        let a = path[k - 1];
        let b = path[k];
        assert(linked(tiles, a, path[k - 1 + 1]));
        let i = choose|i: int| 0 <= i < 8 && #[trigger] neighbor_at(tiles[a].tile, i) == Some(b);
        assert(slot_fits(tiles, shape, a, i));
    }
}

/// On a uniform grid no route has fewer tiles than the one the search
/// returns: every route has at least one tile more than the Chebyshev
/// distance between the cells of its ends.
pub proof fn lemma_route_needs_steps(
    tiles: Map<TileId, TileEntry>,
    shape: GridShape,
    path: Seq<TileId>,
    start: TileId,
    goal: TileId,
)
    requires
        uniform_grid(tiles, shape),
        is_route(tiles, path, start, goal),
    ensures
        path.len() >= tile_chebyshev(tiles, start, goal) + 1,
{
    lemma_route_reach(tiles, shape, path, start, goal, path.len() - 1);
}

/// The squared distance between two tiles a step apart on a uniform grid is
/// the squared spacing for each axis the step moves on.
pub proof fn lemma_step_cost(
    tiles: Map<TileId, TileEntry>,
    shape: GridShape,
    a: TileId,
    b: TileId,
)
    requires
        uniform_grid(tiles, shape),
        tiles.contains_key(a),
        tiles.contains_key(b),
        -1 <= tiles[b].tile.x - tiles[a].tile.x <= 1,
        -1 <= tiles[b].tile.z - tiles[a].tile.z <= 1,
    ensures
        squared_distance(tiles[a].position, tiles[b].position) == shape.spacing * shape.spacing
            * tile_manhattan(tiles, a, b),
{
    lemma_grid_distance(tiles, shape, a, b);
    let dx = tiles[a].tile.x - tiles[b].tile.x;
    let dz = tiles[a].tile.z - tiles[b].tile.z;
    assert(squared_gap(tiles[a].tile.x as int, tiles[b].tile.x as int) == magnitude(dx)
        && squared_gap(tiles[a].tile.z as int, tiles[b].tile.z as int) == magnitude(dz))
        by (nonlinear_arith)
        requires
            dx == tiles[a].tile.x - tiles[b].tile.x,
            dz == tiles[a].tile.z - tiles[b].tile.z,
            -1 <= dx <= 1,
            -1 <= dz <= 1,
    ;
}

/// On a uniform grid walking a route as far as its place `k` costs at least
/// the squared spacing times the Manhattan distance covered.
pub proof fn lemma_route_cost_reach(
    tiles: Map<TileId, TileEntry>,
    shape: GridShape,
    path: Seq<TileId>,
    start: TileId,
    goal: TileId,
    k: int,
)
    requires
        uniform_grid(tiles, shape),
        is_route(tiles, path, start, goal),
        0 <= k < path.len(),
    ensures
        route_cost(tiles, path.take(k + 1)) >= shape.spacing * shape.spacing * tile_manhattan(
            tiles,
            start,
            path[k],
        ),
    decreases k,
{
    let s2 = shape.spacing * shape.spacing;
    assert(0 <= s2) by (nonlinear_arith)
        requires
            s2 == shape.spacing * shape.spacing,
    ;
    let walked = path.take(k + 1);
    if k == 0 {
        assert(s2 * 0 == 0) by (nonlinear_arith);
    } else {
        lemma_route_cost_reach(tiles, shape, path, start, goal, k - 1);
        let a = path[k - 1];
        let b = path[k];
        assert(walked.drop_last() =~= path.take(k));
        assert(walked[walked.len() - 2] == a && walked[walked.len() - 1] == b);
        assert(linked(tiles, a, path[k - 1 + 1]));
        let i = choose|i: int| 0 <= i < 8 && #[trigger] neighbor_at(tiles[a].tile, i) == Some(b);
        assert(slot_fits(tiles, shape, a, i));
        lemma_step_cost(tiles, shape, a, b);
        let far_a = tile_manhattan(tiles, start, a);
        let far_b = tile_manhattan(tiles, start, b);
        let step = tile_manhattan(tiles, a, b);
        assert(far_b <= far_a + step);
        assert(s2 * far_b <= s2 * far_a + s2 * step) by (nonlinear_arith)
            requires
                far_b <= far_a + step,
                0 <= s2,
        ;
    }
}

/// On a uniform grid no route costs less than the one the search returns:
/// every route costs at least the squared spacing times the Manhattan
/// distance between the cells of its ends.
pub proof fn lemma_route_costs(
    tiles: Map<TileId, TileEntry>,
    shape: GridShape,
    path: Seq<TileId>,
    start: TileId,
    goal: TileId,
)
    requires
        uniform_grid(tiles, shape),
        is_route(tiles, path, start, goal),
    ensures
        route_cost(tiles, path) >= shape.spacing * shape.spacing * tile_manhattan(
            tiles,
            start,
            goal,
        ),
{
    lemma_route_cost_reach(tiles, shape, path, start, goal, path.len() - 1);
    assert(path.take(path.len() as int) =~= path);
}

/// The cost of walking a route is the cost of walking it as far as any of
/// its places plus the cost of walking on from there.
pub proof fn lemma_route_cost_split(tiles: Map<TileId, TileEntry>, path: Seq<TileId>, k: int)
    requires
        0 <= k < path.len(),
    ensures
        route_cost(tiles, path) == route_cost(tiles, path.take(k + 1)) + route_cost(
            tiles,
            path.skip(k),
        ),
    decreases path.len(),
{
    let n = path.len() as int;
    if k == n - 1 {
        assert(path.take(k + 1) =~= path);
        assert(path.skip(k).len() == 1);
    } else {
        let shorter = path.drop_last();
        lemma_route_cost_split(tiles, shorter, k);
        assert(shorter.take(k + 1) =~= path.take(k + 1));
        let rest = path.skip(k);
        assert(rest.drop_last() =~= shorter.skip(k));
        assert(rest[rest.len() - 2] == path[n - 2] && rest[rest.len() - 1] == path[n - 1]);
    }
}

/// A route walked as far as its place `k`, and walked on from there, are routes.
pub proof fn lemma_route_parts(
    tiles: Map<TileId, TileEntry>,
    path: Seq<TileId>,
    start: TileId,
    goal: TileId,
    k: int,
)
    requires
        is_route(tiles, path, start, goal),
        0 <= k < path.len(),
    ensures
        is_route(tiles, path.take(k + 1), start, path[k]),
        is_route(tiles, path.skip(k), path[k], goal),
{
    let first = path.take(k + 1);
    let rest = path.skip(k);
    assert forall|i: int| 0 <= i < first.len() implies crate::pathfinding::walkable_tile(
        tiles,
        #[trigger] first[i],
    ) by {
        assert(first[i] == path[i]);
    }
    assert forall|i: int| 0 <= i < first.len() - 1 implies linked(
        tiles,
        #[trigger] first[i],
        first[i + 1],
    ) by {
        assert(first[i] == path[i] && first[i + 1] == path[i + 1]);
    }
    assert forall|i: int| 0 <= i < rest.len() implies crate::pathfinding::walkable_tile(
        tiles,
        #[trigger] rest[i],
    ) by {
        assert(rest[i] == path[k + i]);
    }
    assert forall|i: int| 0 <= i < rest.len() - 1 implies linked(
        tiles,
        #[trigger] rest[i],
        rest[i + 1],
    ) by {
        assert(rest[i] == path[k + i] && rest[i + 1] == path[k + i + 1]);
    }
}

/// On a uniform grid a route of the fewest steps and the least cost is
/// straight: its tile at place `k` lies `k` steps from the start and the rest
/// of the steps from the goal, and on each axis between the two, so that the
/// Manhattan distances to the ends add up to the distance between the ends.
pub proof fn lemma_best_route_is_straight(
    tiles: Map<TileId, TileEntry>,
    shape: GridShape,
    path: Seq<TileId>,
    start: TileId,
    goal: TileId,
    k: int,
)
    requires
        uniform_grid(tiles, shape),
        is_route(tiles, path, start, goal),
        path.len() == tile_chebyshev(tiles, start, goal) + 1,
        route_cost(tiles, path) == shape.spacing * shape.spacing * tile_manhattan(
            tiles,
            start,
            goal,
        ),
        0 <= k < path.len(),
    ensures
        tile_chebyshev(tiles, start, path[k]) == k,
        tile_chebyshev(tiles, path[k], goal) == path.len() - 1 - k,
        tile_manhattan(tiles, start, path[k]) + tile_manhattan(tiles, path[k], goal)
            == tile_manhattan(tiles, start, goal),
{
    let at = path[k];
    let first = path.take(k + 1);
    let rest = path.skip(k);
    lemma_route_parts(tiles, path, start, goal, k);
    lemma_route_needs_steps(tiles, shape, first, start, at);
    lemma_route_needs_steps(tiles, shape, rest, at, goal);
    lemma_route_costs(tiles, shape, first, start, at);
    lemma_route_costs(tiles, shape, rest, at, goal);
    lemma_route_cost_split(tiles, path, k);
    let s2 = shape.spacing * shape.spacing;
    let whole = tile_manhattan(tiles, start, goal);
    let near = tile_manhattan(tiles, start, at);
    let far = tile_manhattan(tiles, at, goal);
    assert(whole <= near + far);
    assert(whole == near + far) by (nonlinear_arith)
        requires
            s2 * whole >= s2 * near + s2 * far,
            whole <= near + far,
            s2 == shape.spacing * shape.spacing,
            shape.spacing >= 1,
    ;
}

/// Two shapes of one uniform grid of more than one tile have the same spacing.
pub proof fn lemma_spacing_agrees(
    tiles: Map<TileId, TileEntry>,
    shape: GridShape,
    other: GridShape,
    a: TileId,
    b: TileId,
)
    requires
        uniform_grid(tiles, shape),
        uniform_grid(tiles, other),
        tiles.contains_key(a),
        tiles.contains_key(b),
        a != b,
    ensures
        shape.spacing == other.spacing,
{
    lemma_grid_distance(tiles, shape, a, b);
    lemma_grid_distance(tiles, other, a, b);
    let cells = squared_gap(tiles[a].tile.x as int, tiles[b].tile.x as int) + squared_gap(
        tiles[a].tile.z as int,
        tiles[b].tile.z as int,
    );
    assert(cells >= 1) by {
        crate::geometry::lemma_squared_distance_bounds(tiles[a].position, tiles[b].position);
        assert(squared_gap(tiles[a].tile.x as int, tiles[b].tile.x as int) >= 0
            && squared_gap(tiles[a].tile.z as int, tiles[b].tile.z as int) >= 0)
            by (nonlinear_arith);
        if cells == 0 {
            assert(tiles[a].tile.x == tiles[b].tile.x && tiles[a].tile.z == tiles[b].tile.z)
                by (nonlinear_arith)
                requires
                    squared_gap(tiles[a].tile.x as int, tiles[b].tile.x as int) == 0,
                    squared_gap(tiles[a].tile.z as int, tiles[b].tile.z as int) == 0,
            ;
        }
    }
    let s = shape.spacing;
    let o = other.spacing;
    assert(s == o) by (nonlinear_arith)
        requires
            s * s * cells == o * o * cells,
            cells >= 1,
            s >= 1,
            o >= 1,
    ;
}

/// The tiles of `entries` fill a rectangle: identities are distinct, every
/// tile is walkable and lies where its cell lies, no two share a cell, and
/// every cell of the rectangle holds one.
pub open spec fn fills_shape(entries: Seq<TileEntry>, shape: GridShape) -> bool {
    &&& shape.spacing >= 1
    &&& distinct_ids(entries)
    &&& forall|k: int| 0 <= k < entries.len() ==> tile_fits(#[trigger] entries[k], shape)
    &&& forall|j: int, k: int|
        0 <= j < entries.len() && 0 <= k < entries.len() && (#[trigger] entries[j]).tile.x == (
        #[trigger] entries[k]).tile.x && entries[j].tile.z == entries[k].tile.z ==> j == k
    &&& forall|x: int, z: int|
        in_shape(shape, x, z) ==> exists|k: int|
            0 <= k < entries.len() && (#[trigger] entries[k]).tile.x == x && entries[k].tile.z
                == z
}

/// Tiles that fill a rectangle form a uniform grid once the registry has
/// been rebuilt from them and their neighbour slots set from it.
pub proof fn lemma_rebuilt_grid_is_uniform(
    before: Seq<TileEntry>,
    after: Seq<TileEntry>,
    shape: GridShape,
)
    requires
        fills_shape(before, shape),
        neighbors_resolved(coord_map(before), before, after),
    ensures
        uniform_grid(entry_map(after), shape),
{
    let registry = coord_map(before);
    let tiles = entry_map(after);
    assert forall|j: int, k: int|
        0 <= j < after.len() && 0 <= k < after.len() && j != k implies after[j].id
        != after[k].id by {
        assert(entry_resolved(registry, before[j], after[j]));
        assert(entry_resolved(registry, before[k], after[k]));
    }
    assert(distinct_ids(after));
    assert forall|id: TileId| #[trigger] tiles.contains_key(id) implies tile_fits(
        tiles[id],
        shape,
    ) by {
        lemma_entry_map_key(after, id);
        let k = crate::tiles::index_of(after, id);
        assert(entry_resolved(registry, before[k], after[k]));
        assert(tile_fits(before[k], shape));
    }
    assert forall|a: TileId, b: TileId|
        tiles.contains_key(a) && tiles.contains_key(b) && tiles[a].tile.x == tiles[b].tile.x
            && tiles[a].tile.z == tiles[b].tile.z implies a == b by {
        lemma_entry_map_key(after, a);
        lemma_entry_map_key(after, b);
        let j = crate::tiles::index_of(after, a);
        let k = crate::tiles::index_of(after, b);
        assert(entry_resolved(registry, before[j], after[j]));
        assert(entry_resolved(registry, before[k], after[k]));
        assert(before[j].tile.x == before[k].tile.x && before[j].tile.z == before[k].tile.z);
    }
    assert forall|x: int, z: int| in_shape(shape, x, z) implies #[trigger] cell_taken(
        tiles,
        x,
        z,
    ) by {
        let k = choose|k: int|
            0 <= k < before.len() && (#[trigger] before[k]).tile.x == x && before[k].tile.z == z;
        assert(entry_resolved(registry, before[k], after[k]));
        lemma_entry_map_at(after, k);
        assert(tiles.contains_key(after[k].id));
    }
    assert forall|id: TileId, i: int|
        #![trigger tiles.contains_key(id), neighbor_at(tiles[id].tile, i)]
        tiles.contains_key(id) && 0 <= i < 8 implies slot_fits(tiles, shape, id, i) by {
        lemma_entry_map_key(after, id);
        let k = crate::tiles::index_of(after, id);
        assert(entry_resolved(registry, before[k], after[k]));
        let x = before[k].tile.x;
        let z = before[k].tile.z;
        let nx = x + slot_dx(i);
        let nz = z + slot_dz(i);
        assert(neighbor_at(tiles[id].tile, i) == neighbor_slot(registry, x, z, i));
        if i32::MIN <= nx <= i32::MAX && i32::MIN <= nz <= i32::MAX {
            let c = (nx as i32, nz as i32);
            lemma_coord_map_holds(before, c);
            if registry.contains_key(c) {
                let n = registry[c];
                assert(stands_at(before, c, n));
                let m = choose|m: int|
                    0 <= m < before.len() && (#[trigger] before[m]).tile.x == c.0
                        && before[m].tile.z == c.1 && before[m].id == n;
                assert(entry_resolved(registry, before[m], after[m]));
                lemma_entry_map_at(after, m);
            } else {
                if in_shape(shape, nx, nz) {
                    let m = choose|m: int|
                        0 <= m < before.len() && (#[trigger] before[m]).tile.x == nx
                            && before[m].tile.z == nz;
                    assert(stands_at(before, c, before[m].id));
                }
            }
        } else {
            if in_shape(shape, nx, nz) {
                let m = choose|m: int|
                    0 <= m < before.len() && (#[trigger] before[m]).tile.x == nx
                        && before[m].tile.z == nz;
            }
        }
    }
}

} // verus!
