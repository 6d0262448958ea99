//! The search on a uniform grid: why the route it finds takes no more steps
//! and costs no more than the cells between its ends ask for.
//!
//! The frontier always holds a node that scores no worse than the step
//! towards the goal from any expanded tile. So the tile that is expanded next
//! was entered by such a step, and every expanded tile lies on a walk from the
//! start that wastes neither a step nor cost, but for tiles beside the goal,
//! which cannot improve on what the goal was entered with.

use crate::geometry::{lemma_squared_distance_bounds, max_squared_distance, squared_distance};
use crate::geometry::{squared_gap, Position};
use crate::grid::{chebyshev, magnitude, manhattan, slot_cost, slot_fits, slot_of, step_score};
use crate::grid::{in_shape, tile_chebyshev, tile_fits, tile_manhattan, toward, uniform_grid};
use crate::grid::{lemma_spacing_agrees, lemma_step_cost, GridShape};
use crate::grid::{lemma_best_steps, lemma_grid_distance, lemma_step_toward};
use crate::open_set::{is_minimal, AStarNode};
use crate::pathfinding::{is_chain, is_route, linked, neighbor_at, reachable, route_cost};
use crate::pathfinding::walkable_tile;
use crate::registry::{slot_dx, slot_dz};
use crate::search::{closed_ok, estimate, frontier_node, frontier_ok, parents_ok, scores_ok};
use crate::tiles::{TileEntry, TileId};
use vstd::multiset::Multiset;
use vstd::prelude::*;

verus! {

/// The column of the stored tile `id`.
spec fn cx(tiles: Map<TileId, TileEntry>, id: TileId) -> int {
    tiles[id].tile.x as int
}

/// The row of the stored tile `id`.
spec fn cz(tiles: Map<TileId, TileEntry>, id: TileId) -> int {
    tiles[id].tile.z as int
}

/// The cost of a straight step between neighbouring cells.
spec fn scale(shape: GridShape) -> int {
    shape.spacing * shape.spacing
}

/// `m` lies between `a` and `b`.
spec fn between(a: int, m: int, b: int) -> bool {
    (a <= m && m <= b) || (b <= m && m <= a)
}

/// Manhattan distance between the cells of `a` and `b`.
spec fn cell_manhattan(tiles: Map<TileId, TileEntry>, a: TileId, b: TileId) -> int {
    manhattan(cx(tiles, a), cz(tiles, a), cx(tiles, b), cz(tiles, b))
}

/// Squared distance, in squared spacings, from the cell of `id` to the cell of the goal.
spec fn cells_left(tiles: Map<TileId, TileEntry>, goal: TileId, id: TileId) -> int {
    squared_gap(cx(tiles, id) - cx(tiles, goal), 0) + squared_gap(cz(tiles, id) - cz(tiles, goal), 0)
}

/// What holds of an expanded tile on a uniform grid: it lies between start
/// and goal, was reached at the least possible cost, and either lies on a
/// walk of the fewest steps from start to goal, or lies beside a goal that
/// it cannot improve.
spec fn settled(
    tiles: Map<TileId, TileEntry>,
    shape: GridShape,
    start: TileId,
    goal: TileId,
    g: Map<TileId, u128>,
    hops: Map<TileId, nat>,
    c: TileId,
) -> bool {
    &&& between(cx(tiles, start), cx(tiles, c), cx(tiles, goal))
    &&& between(cz(tiles, start), cz(tiles, c), cz(tiles, goal))
    &&& g[c] == scale(shape) * cell_manhattan(tiles, start, c)
    &&& (hops[c] + tile_chebyshev(tiles, c, goal) == tile_chebyshev(tiles, start, goal) || (
    cell_manhattan(tiles, c, goal) == 1 && g.contains_key(goal) && g[goal] <= g[c] + scale(shape)))
}

/// The recorded cost and step count of `n` are those of its predecessor plus one step.
spec fn stepped(
    tiles: Map<TileId, TileEntry>,
    shape: GridShape,
    g: Map<TileId, u128>,
    parent: Map<TileId, TileId>,
    hops: Map<TileId, nat>,
    n: TileId,
) -> bool {
    let p = parent[n];
    &&& -1 <= cx(tiles, n) - cx(tiles, p) <= 1
    &&& -1 <= cz(tiles, n) - cz(tiles, p) <= 1
    &&& g[n] == g[p] + scale(shape) * (magnitude(cx(tiles, n) - cx(tiles, p)) + magnitude(
        cz(tiles, n) - cz(tiles, p),
    ))
    &&& hops[n] == hops[p] + 1
}

/// The tiles in the first `upto` neighbour slots of `c` have recorded costs
/// that the step from `c` would not improve.
spec fn edges_relaxed(
    tiles: Map<TileId, TileEntry>,
    shape: GridShape,
    g: Map<TileId, u128>,
    c: TileId,
    upto: int,
) -> bool {
    forall|i: int|
        0 <= i < upto ==> match #[trigger] neighbor_at(tiles[c].tile, i) {
            Some(n) => g.contains_key(n) && g[n] <= g[c] + scale(shape) * slot_cost(i),
            None => true,
        }
}

/// What the search keeps true on a uniform grid.
#[verifier::opaque]
pub(crate) closed spec fn grid_ok(
    tiles: Map<TileId, TileEntry>,
    shape: GridShape,
    start: TileId,
    goal: TileId,
    g: Map<TileId, u128>,
    parent: Map<TileId, TileId>,
    closed: Set<TileId>,
    hops: Map<TileId, nat>,
    current: TileId,
    upto: int,
) -> bool {
    &&& uniform_grid(tiles, shape)
    &&& hops[start] == 0
    &&& forall|c: TileId| #[trigger]
        closed.contains(c) ==> settled(tiles, shape, start, goal, g, hops, c) && edges_relaxed(
            tiles,
            shape,
            g,
            c,
            if c == current {
                upto
            } else {
                8
            },
        )
    &&& forall|n: TileId| #[trigger]
        parent.contains_key(n) ==> stepped(tiles, shape, g, parent, hops, n)
    &&& parent.contains_key(goal) ==> tile_chebyshev(tiles, parent[goal], goal) == 1
        && hops[parent[goal]] + 1 == tile_chebyshev(tiles, start, goal)
}

/// What the lemmas on uniform grids take from the search: the ends are
/// stored and apart, recorded costs belong to stored tiles and leave room
/// for an estimate, and the frontier and the expanded tiles are in order.
pub(crate) open spec fn search_ok(
    tiles: Map<TileId, TileEntry>,
    start: TileId,
    goal: TileId,
    goal_pos: Position,
    g: Map<TileId, u128>,
    parent: Map<TileId, TileId>,
    closed: Set<TileId>,
    rank: Map<TileId, nat>,
    open: Multiset<AStarNode>,
    bound: int,
) -> bool {
    &&& walkable_tile(tiles, start)
    &&& walkable_tile(tiles, goal)
    &&& start != goal
    &&& goal_pos == tiles[goal].position
    &&& forall|id: TileId| tiles.contains_key(id) ==> (#[trigger] tiles[id]).position.in_bounds()
    &&& bound + max_squared_distance() <= u128::MAX
    &&& scores_ok(tiles, start, g, bound)
    &&& parents_ok(tiles, start, g, parent, closed, rank)
    &&& closed_ok(goal, g, closed, rank)
    &&& frontier_ok(tiles, goal_pos, g, closed, open)
}

/// On a uniform grid the estimate of a stored tile is its squared distance
/// in cells from the goal, times the cost of a straight step.
proof fn lemma_grid_estimate(
    tiles: Map<TileId, TileEntry>,
    shape: GridShape,
    goal: TileId,
    goal_pos: Position,
    id: TileId,
)
    requires
        uniform_grid(tiles, shape),
        tiles.contains_key(goal),
        tiles.contains_key(id),
        goal_pos == tiles[goal].position,
    ensures
        estimate(tiles, goal_pos, id) == scale(shape) * cells_left(tiles, goal, id),
        0 <= cells_left(tiles, goal, id),
        1 <= scale(shape),
{
    lemma_grid_distance(tiles, shape, id, goal);
    let s = shape.spacing;
    assert(1 <= s * s) by (nonlinear_arith)
        requires
            1 <= s,
    ;
    let a = cx(tiles, id) - cx(tiles, goal);
    let b = cz(tiles, id) - cz(tiles, goal);
    assert(0 <= squared_gap(a, 0) && 0 <= squared_gap(b, 0)) by (nonlinear_arith);
}

/// The tile one step from the stored tile `c` in the direction of the goal.
proof fn lemma_step_to_goal(
    tiles: Map<TileId, TileEntry>,
    shape: GridShape,
    goal: TileId,
    c: TileId,
) -> (w: TileId)
    requires
        uniform_grid(tiles, shape),
        tiles.contains_key(goal),
        tiles.contains_key(c),
        c != goal,
    ensures
        tiles.contains_key(w),
        ({
            let a = cx(tiles, c) - cx(tiles, goal);
            let b = cz(tiles, c) - cz(tiles, goal);
            let slot = slot_of(toward(a), toward(b));
            &&& a != 0 || b != 0
            &&& 0 <= slot < 8
            &&& neighbor_at(tiles[c].tile, slot) == Some(w)
            &&& cx(tiles, w) == cx(tiles, c) + toward(a)
            &&& cz(tiles, w) == cz(tiles, c) + toward(b)
            &&& slot_cost(slot) == magnitude(toward(a)) + magnitude(toward(b))
        }),
{
    let a = cx(tiles, c) - cx(tiles, goal);
    let b = cz(tiles, c) - cz(tiles, goal);
    assert(tile_fits(tiles[c], shape));
    assert(tile_fits(tiles[goal], shape));
    lemma_step_toward(a, b);
    let slot = slot_of(toward(a), toward(b));
    assert(slot_fits(tiles, shape, c, slot));
    assert(in_shape(shape, cx(tiles, c) + toward(a), cz(tiles, c) + toward(b)));
    neighbor_at(tiles[c].tile, slot).unwrap()
}

/// On a uniform grid, while the search runs, the frontier holds a node whose
/// score is no more than what the step towards the goal from any expanded
/// tile would score.
proof fn lemma_low_frontier(
    tiles: Map<TileId, TileEntry>,
    shape: GridShape,
    start: TileId,
    goal: TileId,
    goal_pos: Position,
    g: Map<TileId, u128>,
    parent: Map<TileId, TileId>,
    closed: Set<TileId>,
    rank: Map<TileId, nat>,
    hops: Map<TileId, nat>,
    open: Multiset<AStarNode>,
    bound: int,
    c: TileId,
) -> (low: AStarNode)
    requires
        search_ok(tiles, start, goal, goal_pos, g, parent, closed, rank, open, bound),
        grid_ok(tiles, shape, start, goal, g, parent, closed, hops, goal, 8),
        closed.contains(c),
    ensures
        open.contains(low),
        low.f_score <= g[c] + scale(shape) * (cells_left(tiles, goal, c) + step_score(
            cx(tiles, c) - cx(tiles, goal),
            cz(tiles, c) - cz(tiles, goal),
            toward(cx(tiles, c) - cx(tiles, goal)),
            toward(cz(tiles, c) - cz(tiles, goal)),
        )),
    decreases cell_manhattan(tiles, c, goal),
{
    reveal(grid_ok);
    assert(g.contains_key(c));
    let w = lemma_step_to_goal(tiles, shape, goal, c);
    let a = cx(tiles, c) - cx(tiles, goal);
    let b = cz(tiles, c) - cz(tiles, goal);
    let slot = slot_of(toward(a), toward(b));
    lemma_step_toward(a, b);
    assert(edges_relaxed(tiles, shape, g, c, 8));
    assert(g.contains_key(w) && g[w] <= g[c] + scale(shape) * slot_cost(slot));
    lemma_grid_estimate(tiles, shape, goal, goal_pos, w);
    lemma_grid_estimate(tiles, shape, goal, goal_pos, c);
    let s2 = scale(shape);
    let left_c = cells_left(tiles, goal, c);
    let left_w = cells_left(tiles, goal, w);
    let cost = slot_cost(slot);
    let score = step_score(a, b, toward(a), toward(b));
    assert(left_w == left_c + score - cost);
    assert(s2 * (left_c + score) == s2 * cost + s2 * left_w) by (nonlinear_arith)
        requires
            left_w == left_c + score - cost,
    ;
    if !closed.contains(w) {
        let low = frontier_node(tiles, goal_pos, g, w);
        assert(open.contains(low));
        lemma_squared_distance_bounds(tiles[w].position, goal_pos);
        low
    } else {
        let low = lemma_low_frontier(
            tiles,
            shape,
            start,
            goal,
            goal_pos,
            g,
            parent,
            closed,
            rank,
            hops,
            open,
            bound,
            w,
        );
        let aw = cx(tiles, w) - cx(tiles, goal);
        let bw = cz(tiles, w) - cz(tiles, goal);
        assert(aw != 0 || bw != 0) by {
            if aw == 0 && bw == 0 {
                assert(tiles.contains_key(w) && tiles.contains_key(goal));
                assert(w == goal);
            }
        }
        lemma_step_toward(aw, bw);
        let score_w = step_score(aw, bw, toward(aw), toward(bw));
        assert(s2 * (left_w + score_w) <= s2 * left_w) by (nonlinear_arith)
            requires
                score_w <= 0,
                1 <= s2,
        ;
        low
    }
}

/// On a uniform grid a tile entered by a step that scores as well as the
/// step towards the goal is settled, if the tile it was entered from is.
proof fn lemma_grid_entered(
    tiles: Map<TileId, TileEntry>,
    shape: GridShape,
    start: TileId,
    goal: TileId,
    goal_pos: Position,
    g: Map<TileId, u128>,
    parent: Map<TileId, TileId>,
    hops: Map<TileId, nat>,
    v: TileId,
    score: int,
)
    requires
        uniform_grid(tiles, shape),
        tiles.contains_key(start),
        tiles.contains_key(goal),
        tiles.contains_key(v),
        tiles.contains_key(parent[v]),
        goal_pos == tiles[goal].position,
        v != goal,
        parent[v] != goal,
        parent[v] != v,
        stepped(tiles, shape, g, parent, hops, v),
        settled(tiles, shape, start, goal, g, hops, parent[v]),
        edges_relaxed(tiles, shape, g, parent[v], 8),
        score == g[v] + estimate(tiles, goal_pos, v),
        score <= g[parent[v]] + scale(shape) * (cells_left(tiles, goal, parent[v]) + step_score(
            cx(tiles, parent[v]) - cx(tiles, goal),
            cz(tiles, parent[v]) - cz(tiles, goal),
            toward(cx(tiles, parent[v]) - cx(tiles, goal)),
            toward(cz(tiles, parent[v]) - cz(tiles, goal)),
        )),
    ensures
        settled(tiles, shape, start, goal, g, hops, v),
{
    let p = parent[v];
    let s2 = scale(shape);
    let w = lemma_step_to_goal(tiles, shape, goal, p);
    let a = cx(tiles, p) - cx(tiles, goal);
    let b = cz(tiles, p) - cz(tiles, goal);
    let dx = cx(tiles, v) - cx(tiles, p);
    let dz = cz(tiles, v) - cz(tiles, p);
    assert(dx != 0 || dz != 0) by {
        if dx == 0 && dz == 0 {
            assert(tiles.contains_key(v) && tiles.contains_key(p));
            assert(v == p);
        }
    }
    lemma_grid_estimate(tiles, shape, goal, goal_pos, v);
    lemma_grid_estimate(tiles, shape, goal, goal_pos, p);
    let left_p = cells_left(tiles, goal, p);
    let left_v = cells_left(tiles, goal, v);
    let cost = magnitude(dx) + magnitude(dz);
    let best = step_score(a, b, toward(a), toward(b));
    let taken = step_score(a, b, dx, dz);
    assert(g[v] == g[p] + s2 * cost);
    assert(left_v == left_p + taken - cost);
    assert(taken <= best) by (nonlinear_arith)
        requires
            g[p] + s2 * cost + s2 * left_v <= g[p] + s2 * (left_p + best),
            left_v == left_p + taken - cost,
            1 <= s2,
    ;
    lemma_best_steps(a, b, dx, dz);
    lemma_step_toward(a, b);
    let sx = cx(tiles, start);
    let sz = cz(tiles, start);
    let gx = cx(tiles, goal);
    let gz = cz(tiles, goal);
    let px = cx(tiles, p);
    let pz = cz(tiles, p);
    assert(between(sx, px, gx) && between(sz, pz, gz));
    assert(between(sx, px + dx, gx));
    assert(between(sz, pz + dz, gz));
    assert(magnitude(sx - (px + dx)) == magnitude(sx - px) + magnitude(dx));
    assert(magnitude(sz - (pz + dz)) == magnitude(sz - pz) + magnitude(dz));
    let far_p = cell_manhattan(tiles, start, p);
    let far_v = cell_manhattan(tiles, start, v);
    assert(far_v == far_p + cost);
    assert(g[v] == s2 * far_v) by (nonlinear_arith)
        requires
            g[v] == g[p] + s2 * cost,
            g[p] == s2 * far_p,
            far_v == far_p + cost,
    ;
    if cell_manhattan(tiles, p, goal) == 1 {
        assert(cx(tiles, v) == gx && cz(tiles, v) == gz);
        assert(tiles.contains_key(v) && tiles.contains_key(goal));
        assert(v == goal);
    }
    assert(hops[p] + tile_chebyshev(tiles, p, goal) == tile_chebyshev(tiles, start, goal));
    assert(tile_chebyshev(tiles, p, goal) == chebyshev(a, b, 0, 0));
    assert(tile_chebyshev(tiles, v, goal) == chebyshev(a + dx, b + dz, 0, 0));
    if chebyshev(a, b, 0, 0) == 1 {
        if a + dx == 0 && b + dz == 0 {
            assert(tiles.contains_key(v) && tiles.contains_key(goal));
            assert(v == goal);
        }
        assert(cx(tiles, w) == gx && cz(tiles, w) == gz);
        assert(tiles.contains_key(w) && tiles.contains_key(goal));
        assert(w == goal);
        let slot = slot_of(toward(a), toward(b));
        assert(g.contains_key(goal) && g[goal] <= g[p] + s2 * slot_cost(slot));
        assert(cost == 1);
        assert(slot_cost(slot) == 2);
        assert(g[goal] <= g[v] + s2) by (nonlinear_arith)
            requires
                g[goal] <= g[p] + s2 * 2,
                g[v] == g[p] + s2 * 1,
        ;
        assert(cell_manhattan(tiles, v, goal) == 1);
    } else {
        assert(chebyshev(a, b, 0, 0) >= 2);
        assert(hops[v] + tile_chebyshev(tiles, v, goal) == tile_chebyshev(tiles, start, goal));
    }
}

/// On a uniform grid the tile that leaves the frontier to be expanded is
/// settled: it was entered by a step that scores as well as the step towards
/// the goal.
pub(crate) proof fn lemma_grid_close(
    tiles: Map<TileId, TileEntry>,
    shape: GridShape,
    start: TileId,
    goal: TileId,
    goal_pos: Position,
    g: Map<TileId, u128>,
    parent: Map<TileId, TileId>,
    closed: Set<TileId>,
    rank: Map<TileId, nat>,
    hops: Map<TileId, nat>,
    open: Multiset<AStarNode>,
    bound: int,
    node: AStarNode,
)
    requires
        search_ok(tiles, start, goal, goal_pos, g, parent, closed, rank, open, bound),
        grid_ok(tiles, shape, start, goal, g, parent, closed, hops, goal, 8),
        open.contains(node),
        is_minimal(open, node),
        node.g_score == g[node.entity],
        !closed.contains(node.entity),
        node.entity != goal,
        closed.contains(start) || closed =~= Set::<TileId>::empty(),
    ensures
        grid_ok(
            tiles,
            shape,
            start,
            goal,
            g,
            parent,
            closed.insert(node.entity),
            hops,
            node.entity,
            0,
        ),
{
    let v = node.entity;
    assert(g.contains_key(v));
    assert(walkable_tile(tiles, v));
    if v == start {
        reveal(grid_ok);
        assert(0 == scale(shape) * 0) by (nonlinear_arith);
        assert(settled(tiles, shape, start, goal, g, hops, v));
    } else {
        assert(parent.contains_key(v));
        let p = parent[v];
        assert(closed.contains(p));
        assert(g.contains_key(p));
        assert(walkable_tile(tiles, p));
        let low = lemma_low_frontier(
            tiles,
            shape,
            start,
            goal,
            goal_pos,
            g,
            parent,
            closed,
            rank,
            hops,
            open,
            bound,
            p,
        );
        assert(node.f_score <= low.f_score);
        assert(node.f_score == g[v] + estimate(tiles, goal_pos, v));
        reveal(grid_ok);
        assert(stepped(tiles, shape, g, parent, hops, v));
        assert(settled(tiles, shape, start, goal, g, hops, p));
        assert(edges_relaxed(tiles, shape, g, p, 8));
        lemma_grid_entered(
            tiles,
            shape,
            start,
            goal,
            goal_pos,
            g,
            parent,
            hops,
            v,
            node.f_score as int,
        );
    }
    reveal(grid_ok);
    let closed2 = closed.insert(v);
    assert forall|c: TileId| #[trigger] closed2.contains(c) implies settled(
        tiles,
        shape,
        start,
        goal,
        g,
        hops,
        c,
    ) && edges_relaxed(
        tiles,
        shape,
        g,
        c,
        if c == v {
            0
        } else {
            8
        },
    ) by {
        if c != v {
            assert(closed.contains(c));
        }
    }
}

/// What one neighbour slot of the tile under expansion does to the recorded
/// costs, predecessors and step counts: nothing, when the slot is empty or
/// names a tile that is expanded, not stored, not walkable or not reached
/// more cheaply; else the tile named is recorded as entered from the tile
/// under expansion.
pub(crate) open spec fn slot_outcome(
    tiles: Map<TileId, TileEntry>,
    closed: Set<TileId>,
    current: TileId,
    i: int,
    g: Map<TileId, u128>,
    parent: Map<TileId, TileId>,
    hops: Map<TileId, nat>,
    g2: Map<TileId, u128>,
    parent2: Map<TileId, TileId>,
    hops2: Map<TileId, nat>,
) -> bool {
    let unchanged = g2 == g && parent2 == parent && hops2 == hops;
    match neighbor_at(tiles[current].tile, i) {
        None => unchanged,
        Some(n) => {
            let tentative = g[current] + squared_distance(
                tiles[current].position,
                tiles[n].position,
            );
            if closed.contains(n) || !walkable_tile(tiles, n) {
                unchanged
            } else if g.contains_key(n) && g[n] <= tentative {
                unchanged
            } else {
                &&& g2 == g.insert(n, tentative as u128)
                &&& parent2 == parent.insert(n, current)
                &&& hops2 == hops.insert(n, hops[current] + 1)
                &&& tentative <= u128::MAX
            }
        },
    }
}

/// On a uniform grid, what holds before a neighbour slot of the tile under
/// expansion is looked at holds after it, with that slot covered.
pub(crate) proof fn lemma_grid_slot(
    tiles: Map<TileId, TileEntry>,
    shape: GridShape,
    start: TileId,
    goal: TileId,
    g: Map<TileId, u128>,
    parent: Map<TileId, TileId>,
    closed: Set<TileId>,
    rank: Map<TileId, nat>,
    hops: Map<TileId, nat>,
    current: TileId,
    i: int,
    g2: Map<TileId, u128>,
    parent2: Map<TileId, TileId>,
    hops2: Map<TileId, nat>,
    bound: int,
)
    requires
        0 <= i < 8,
        walkable_tile(tiles, start),
        walkable_tile(tiles, goal),
        start != goal,
        scores_ok(tiles, start, g, bound),
        parents_ok(tiles, start, g, parent, closed, rank),
        closed_ok(goal, g, closed, rank),
        closed.contains(current),
        closed.contains(start),
        grid_ok(tiles, shape, start, goal, g, parent, closed, hops, current, i),
        slot_outcome(tiles, closed, current, i, g, parent, hops, g2, parent2, hops2),
    ensures
        grid_ok(tiles, shape, start, goal, g2, parent2, closed, hops2, current, i + 1),
{
    reveal(grid_ok);
    let s2 = scale(shape);
    assert(g.contains_key(current));
    assert(walkable_tile(tiles, current));
    assert(settled(tiles, shape, start, goal, g, hops, current));
    assert(edges_relaxed(tiles, shape, g, current, i));
    assert(slot_fits(tiles, shape, current, i));
    assert(1 <= s2) by (nonlinear_arith)
        requires
            s2 == shape.spacing * shape.spacing,
            1 <= shape.spacing,
    ;
    match neighbor_at(tiles[current].tile, i) {
        None => {
            assert(edges_relaxed(tiles, shape, g2, current, i + 1));
        },
        Some(n) => {
            assert(tiles.contains_key(n));
            assert(tile_fits(tiles[n], shape));
            assert(walkable_tile(tiles, n));
            lemma_grid_distance(tiles, shape, current, n);
            let dx = slot_dx(i);
            let dz = slot_dz(i);
            assert(cx(tiles, n) == cx(tiles, current) + dx);
            assert(cz(tiles, n) == cz(tiles, current) + dz);
            assert(squared_gap(cx(tiles, current), cx(tiles, n)) == magnitude(dx)
                && squared_gap(cz(tiles, current), cz(tiles, n)) == magnitude(dz))
                by (nonlinear_arith)
                requires
                    cx(tiles, n) == cx(tiles, current) + dx,
                    cz(tiles, n) == cz(tiles, current) + dz,
                    -1 <= dx <= 1,
                    -1 <= dz <= 1,
            ;
            let tentative = g[current] + squared_distance(
                tiles[current].position,
                tiles[n].position,
            );
            assert(tentative == g[current] + s2 * slot_cost(i));
            assert(n != current) by {
                if n == current {
                    assert(dx == 0 && dz == 0);
                }
            }
            if closed.contains(n) {
                assert(settled(tiles, shape, start, goal, g, hops, n));
                assert(cell_manhattan(tiles, start, n) <= cell_manhattan(tiles, start, current)
                    + slot_cost(i));
                assert(g[n] <= g[current] + s2 * slot_cost(i)) by (nonlinear_arith)
                    requires
                        g[n] == s2 * cell_manhattan(tiles, start, n),
                        g[current] == s2 * cell_manhattan(tiles, start, current),
                        cell_manhattan(tiles, start, n) <= cell_manhattan(tiles, start, current)
                            + slot_cost(i),
                        1 <= s2,
                ;
                assert(edges_relaxed(tiles, shape, g2, current, i + 1));
            } else if g.contains_key(n) && g[n] <= tentative {
                assert(edges_relaxed(tiles, shape, g2, current, i + 1));
            } else {
                assert(n != start);
                assert(g2[n] == tentative);
                assert forall|c: TileId| #[trigger] closed.contains(c) implies settled(
                    tiles,
                    shape,
                    start,
                    goal,
                    g2,
                    hops2,
                    c,
                ) && edges_relaxed(
                    tiles,
                    shape,
                    g2,
                    c,
                    if c == current {
                        i + 1
                    } else {
                        8
                    },
                ) by {
                    assert(c != n);
                    assert(g.contains_key(c));
                    assert(settled(tiles, shape, start, goal, g, hops, c));
                    let upto = if c == current {
                        i
                    } else {
                        8
                    };
                    assert(edges_relaxed(tiles, shape, g, c, upto));
                    assert forall|j: int| 0 <= j < upto implies match #[trigger] neighbor_at(
                        tiles[c].tile,
                        j,
                    ) {
                        Some(m) => g2.contains_key(m) && g2[m] <= g2[c] + s2 * slot_cost(j),
                        None => true,
                    } by {
                        match neighbor_at(tiles[c].tile, j) {
                            Some(m) => {
                                assert(g.contains_key(m) && g[m] <= g[c] + s2 * slot_cost(j));
                            },
                            None => {},
                        }
                    }
                }
                assert forall|x: TileId| #[trigger] parent2.contains_key(x) implies stepped(
                    tiles,
                    shape,
                    g2,
                    parent2,
                    hops2,
                    x,
                ) by {
                    if x != n {
                        assert(parent.contains_key(x));
                        assert(closed.contains(parent[x]));
                        assert(stepped(tiles, shape, g, parent, hops, x));
                    }
                }
                if n == goal {
                    assert(tile_chebyshev(tiles, current, goal) == 1);
                    if cell_manhattan(tiles, current, goal) == 1 && g.contains_key(goal) && g[goal]
                        <= g[current] + s2 {
                        assert(s2 <= s2 * slot_cost(i)) by (nonlinear_arith)
                            requires
                                1 <= slot_cost(i),
                                1 <= s2,
                        ;
                    }
                } else {
                    if parent.contains_key(goal) {
                        assert(closed.contains(parent[goal]));
                    }
                }
            }
        },
    }
}

/// The tile at place `i` of a chain from the start has been entered in `i` steps.
proof fn lemma_hops_along(
    tiles: Map<TileId, TileEntry>,
    shape: GridShape,
    start: TileId,
    goal: TileId,
    g: Map<TileId, u128>,
    parent: Map<TileId, TileId>,
    closed: Set<TileId>,
    hops: Map<TileId, nat>,
    path: Seq<TileId>,
    i: int,
)
    requires
        grid_ok(tiles, shape, start, goal, g, parent, closed, hops, goal, 8),
        is_chain(parent, path, goal),
        path[0] == start,
        0 <= i < path.len(),
    ensures
        hops[path[i]] == i,
    decreases i,
{
    reveal(grid_ok);
    if i > 0 {
        lemma_hops_along(tiles, shape, start, goal, g, parent, closed, hops, path, i - 1);
        assert(parent.contains_key(path[i]));
        assert(stepped(tiles, shape, g, parent, hops, path[i]));
    }
}

/// On a uniform grid the chain that the search leaves from start to goal
/// has one tile more than the cells walk between them has steps.
proof fn lemma_grid_path_length(
    tiles: Map<TileId, TileEntry>,
    shape: GridShape,
    start: TileId,
    goal: TileId,
    g: Map<TileId, u128>,
    parent: Map<TileId, TileId>,
    closed: Set<TileId>,
    hops: Map<TileId, nat>,
    path: Seq<TileId>,
)
    requires
        grid_ok(tiles, shape, start, goal, g, parent, closed, hops, goal, 8),
        is_chain(parent, path, goal),
        path[0] == start,
        start != goal,
    ensures
        path.len() == tile_chebyshev(tiles, start, goal) + 1,
{
    let last = path.len() - 1;
    lemma_hops_along(tiles, shape, start, goal, g, parent, closed, hops, path, last);
    lemma_hops_along(tiles, shape, start, goal, g, parent, closed, hops, path, last - 1);
    reveal(grid_ok);
    assert(parent.contains_key(path[last]));
}

/// On a uniform grid the recorded cost of a tile is that of its predecessor
/// plus the squared distance between the two.
proof fn lemma_chain_step(
    tiles: Map<TileId, TileEntry>,
    shape: GridShape,
    start: TileId,
    goal: TileId,
    g: Map<TileId, u128>,
    parent: Map<TileId, TileId>,
    closed: Set<TileId>,
    rank: Map<TileId, nat>,
    hops: Map<TileId, nat>,
    bound: int,
    n: TileId,
)
    requires
        grid_ok(tiles, shape, start, goal, g, parent, closed, hops, goal, 8),
        scores_ok(tiles, start, g, bound),
        parents_ok(tiles, start, g, parent, closed, rank),
        closed_ok(goal, g, closed, rank),
        parent.contains_key(n),
    ensures
        g[n] == g[parent[n]] + squared_distance(tiles[parent[n]].position, tiles[n].position),
{
    let p = parent[n];
    assert(closed.contains(p));
    assert(g.contains_key(p) && g.contains_key(n));
    assert(walkable_tile(tiles, p) && walkable_tile(tiles, n));
    assert(stepped(tiles, shape, g, parent, hops, n) && uniform_grid(tiles, shape)) by {
        reveal(grid_ok);
    }
    lemma_step_cost(tiles, shape, p, n);
    assert(tile_manhattan(tiles, p, n) == magnitude(cx(tiles, n) - cx(tiles, p)) + magnitude(
        cz(tiles, n) - cz(tiles, p),
    ));
}

/// Walking the chain from the start as far as its place `i` costs what is
/// recorded for the tile there.
proof fn lemma_cost_along(
    tiles: Map<TileId, TileEntry>,
    shape: GridShape,
    start: TileId,
    goal: TileId,
    g: Map<TileId, u128>,
    parent: Map<TileId, TileId>,
    closed: Set<TileId>,
    rank: Map<TileId, nat>,
    hops: Map<TileId, nat>,
    path: Seq<TileId>,
    bound: int,
    i: int,
)
    requires
        grid_ok(tiles, shape, start, goal, g, parent, closed, hops, goal, 8),
        scores_ok(tiles, start, g, bound),
        parents_ok(tiles, start, g, parent, closed, rank),
        closed_ok(goal, g, closed, rank),
        is_chain(parent, path, goal),
        path[0] == start,
        0 <= i < path.len(),
    ensures
        route_cost(tiles, path.take(i + 1)) == g[path[i]],
    decreases i,
{
    let walked = path.take(i + 1);
    if i > 0 {
        lemma_cost_along(
            tiles,
            shape,
            start,
            goal,
            g,
            parent,
            closed,
            rank,
            hops,
            path,
            bound,
            i - 1,
        );
        let n = path[i];
        let p = path[i - 1];
        assert(parent.contains_key(n) && parent[n] == p);
        lemma_chain_step(tiles, shape, start, goal, g, parent, closed, rank, hops, bound, n);
        assert(walked.drop_last() =~= path.take(i));
        assert(walked[walked.len() - 2] == p && walked[walked.len() - 1] == n);
    } else {
        assert(walked.len() == 1);
    }
}

/// On a uniform grid walking the chain that the search leaves from start to
/// goal costs the squared spacing times the Manhattan distance between their
/// cells.
proof fn lemma_grid_path_cost(
    tiles: Map<TileId, TileEntry>,
    shape: GridShape,
    start: TileId,
    goal: TileId,
    g: Map<TileId, u128>,
    parent: Map<TileId, TileId>,
    closed: Set<TileId>,
    rank: Map<TileId, nat>,
    hops: Map<TileId, nat>,
    path: Seq<TileId>,
    bound: int,
)
    requires
        grid_ok(tiles, shape, start, goal, g, parent, closed, hops, goal, 8),
        scores_ok(tiles, start, g, bound),
        parents_ok(tiles, start, g, parent, closed, rank),
        closed_ok(goal, g, closed, rank),
        is_chain(parent, path, goal),
        path[0] == start,
        start != goal,
    ensures
        route_cost(tiles, path) == shape.spacing * shape.spacing * tile_manhattan(
            tiles,
            start,
            goal,
        ),
{
    let last = path.len() - 1;
    lemma_cost_along(
        tiles,
        shape,
        start,
        goal,
        g,
        parent,
        closed,
        rank,
        hops,
        path,
        bound,
        last,
    );
    assert(path.take(path.len() as int) =~= path);
    assert(parent.contains_key(goal));
    let p = parent[goal];
    assert(closed.contains(p));
    assert(settled(tiles, shape, start, goal, g, hops, p) && stepped(
        tiles,
        shape,
        g,
        parent,
        hops,
        goal,
    )) by {
        reveal(grid_ok);
    }
    let s2 = scale(shape);
    let far_p = cell_manhattan(tiles, start, p);
    let step = magnitude(cx(tiles, goal) - cx(tiles, p)) + magnitude(cz(tiles, goal) - cz(tiles, p));
    let far = tile_manhattan(tiles, start, goal);
    assert(far == cell_manhattan(tiles, start, goal));
    assert(far == far_p + step);
    assert(g[goal] == s2 * far) by (nonlinear_arith)
        requires
            g[goal] == g[p] + s2 * step,
            g[p] == s2 * far_p,
            far == far_p + step,
    ;
}

/// On a uniform grid the chain that the search leaves from start to goal
/// takes the fewest steps and costs the least that a route can.
pub(crate) proof fn lemma_grid_route(
    tiles: Map<TileId, TileEntry>,
    shape: GridShape,
    start: TileId,
    goal: TileId,
    g: Map<TileId, u128>,
    parent: Map<TileId, TileId>,
    closed: Set<TileId>,
    rank: Map<TileId, nat>,
    hops: Map<TileId, nat>,
    path: Seq<TileId>,
    bound: int,
)
    requires
        grid_ok(tiles, shape, start, goal, g, parent, closed, hops, goal, 8),
        walkable_tile(tiles, start),
        walkable_tile(tiles, goal),
        scores_ok(tiles, start, g, bound),
        parents_ok(tiles, start, g, parent, closed, rank),
        closed_ok(goal, g, closed, rank),
        is_chain(parent, path, goal),
        path[0] == start,
        start != goal,
    ensures
        path.len() == tile_chebyshev(tiles, start, goal) + 1,
        forall|other: GridShape| #[trigger]
            uniform_grid(tiles, other) ==> route_cost(tiles, path) == other.spacing * other.spacing
                * tile_manhattan(tiles, start, goal),
{
    lemma_grid_path_length(tiles, shape, start, goal, g, parent, closed, hops, path);
    lemma_grid_path_cost(tiles, shape, start, goal, g, parent, closed, rank, hops, path, bound);
    assert(uniform_grid(tiles, shape)) by {
        reveal(grid_ok);
    }
    assert forall|other: GridShape| #[trigger] uniform_grid(tiles, other) implies route_cost(
        tiles,
        path,
    ) == other.spacing * other.spacing * tile_manhattan(tiles, start, goal) by {
        lemma_spacing_agrees(tiles, shape, other, start, goal);
    }
}

/// On a uniform grid every tile can be reached from every tile.
pub proof fn lemma_grid_reachable(
    tiles: Map<TileId, TileEntry>,
    shape: GridShape,
    from: TileId,
    goal: TileId,
)
    requires
        uniform_grid(tiles, shape),
        tiles.contains_key(from),
        tiles.contains_key(goal),
    ensures
        reachable(tiles, from, goal),
    decreases manhattan(
        tiles[from].tile.x as int,
        tiles[from].tile.z as int,
        tiles[goal].tile.x as int,
        tiles[goal].tile.z as int,
    ),
{
    assert(tile_fits(tiles[from], shape));
    assert(tile_fits(tiles[goal], shape));
    if from == goal {
        assert(is_route(tiles, seq![from], from, goal));
    } else {
        let w = lemma_step_to_goal(tiles, shape, goal, from);
        let a = cx(tiles, from) - cx(tiles, goal);
        let b = cz(tiles, from) - cz(tiles, goal);
        lemma_step_toward(a, b);
        lemma_grid_reachable(tiles, shape, w, goal);
        let rest = choose|rest: Seq<TileId>| is_route(tiles, rest, w, goal);
        let path = seq![from] + rest;
        assert(linked(tiles, from, w));
        assert forall|k: int| 0 <= k < path.len() implies walkable_tile(
            tiles,
            #[trigger] path[k],
        ) by {
            if k > 0 {
                assert(path[k] == rest[k - 1]);
            }
        }
        assert forall|k: int| 0 <= k < path.len() - 1 implies linked(
            tiles,
            #[trigger] path[k],
            path[k + 1],
        ) by {
            if k > 0 {
                assert(path[k] == rest[k - 1]);
                assert(path[k + 1] == rest[k - 1 + 1]);
            } else {
                assert(path[1] == rest[0]);
            }
        }
        assert(is_route(tiles, path, from, goal));
    }
}

/// What the search starts from on a uniform grid.
pub(crate) proof fn lemma_grid_start(
    tiles: Map<TileId, TileEntry>,
    shape: GridShape,
    start: TileId,
    goal: TileId,
)
    requires
        uniform_grid(tiles, shape),
    ensures
        grid_ok(
            tiles,
            shape,
            start,
            goal,
            map![start => 0u128],
            Map::<TileId, TileId>::empty(),
            Set::<TileId>::empty(),
            map![start => 0nat],
            goal,
            8,
        ),
{
    reveal(grid_ok);
}

/// With every slot of the tile under expansion covered, no tile is singled out.
pub(crate) proof fn lemma_grid_expanded(
    tiles: Map<TileId, TileEntry>,
    shape: GridShape,
    start: TileId,
    goal: TileId,
    g: Map<TileId, u128>,
    parent: Map<TileId, TileId>,
    closed: Set<TileId>,
    hops: Map<TileId, nat>,
    current: TileId,
)
    requires
        grid_ok(tiles, shape, start, goal, g, parent, closed, hops, current, 8),
    ensures
        grid_ok(tiles, shape, start, goal, g, parent, closed, hops, goal, 8),
{
    reveal(grid_ok);
    assert forall|c: TileId| #[trigger] closed.contains(c) implies edges_relaxed(
        tiles,
        shape,
        g,
        c,
        if c == goal {
            8
        } else {
            8
        },
    ) by {
        assert(edges_relaxed(tiles, shape, g, c, if c == current {
            8
        } else {
            8
        }));
    }
}

} // verus!
