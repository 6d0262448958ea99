//! What the search keeps true of its frontier, its expanded tiles and its
//! recorded costs while it runs.

use crate::geometry::{max_squared_distance, squared_distance, Position};
use crate::open_set::AStarNode;
use crate::pathfinding::{is_chain, is_route, linked, neighbor_at, ranked, walkable_tile};
use crate::tiles::{TileEntry, TileId};
use vstd::multiset::Multiset;
use vstd::prelude::*;

verus! {

/// Estimated cost from the stored tile `id` to the goal position.
pub(crate) open spec fn estimate(tiles: Map<TileId, TileEntry>, goal_pos: Position, id: TileId) -> int {
    squared_distance(tiles[id].position, goal_pos)
}

/// The frontier entry that records the best known cost of `id`.
pub(crate) open spec fn frontier_node(
    tiles: Map<TileId, TileEntry>,
    goal_pos: Position,
    g: Map<TileId, u128>,
    id: TileId,
) -> AStarNode {
    AStarNode {
        entity: id,
        f_score: (g[id] + estimate(tiles, goal_pos, id)) as u128,
        g_score: g[id],
    }
}

/// Every tile with a recorded cost is walkable and its cost is at most `bound`;
/// the start costs nothing.
pub(crate) open spec fn scores_ok(tiles: Map<TileId, TileEntry>, start: TileId, g: Map<TileId, u128>, bound: int) -> bool {
    &&& g.contains_key(start)
    &&& g[start] == 0
    &&& forall|x: TileId| #[trigger] g.contains_key(x) ==> walkable_tile(tiles, x) && g[x] <= bound
}

/// Every tile with a recorded cost but the start has a predecessor: an
/// expanded tile that names it in a neighbour slot and was expanded earlier.
pub(crate) open spec fn parents_ok(
    tiles: Map<TileId, TileEntry>,
    start: TileId,
    g: Map<TileId, u128>,
    parent: Map<TileId, TileId>,
    closed: Set<TileId>,
    rank: Map<TileId, nat>,
) -> bool {
    &&& !parent.contains_key(start)
    &&& forall|x: TileId| #[trigger] g.contains_key(x) ==> x == start || parent.contains_key(x)
    &&& forall|x: TileId| #[trigger]
        parent.contains_key(x) ==> {
            &&& g.contains_key(x)
            &&& closed.contains(parent[x])
            &&& linked(tiles, parent[x], x)
            &&& (closed.contains(x) ==> rank[parent[x]] < rank[x])
        }
}

/// The expanded tiles have recorded costs, are ranked in the order of their
/// expansion, and the goal is not among them.
pub(crate) open spec fn closed_ok(goal: TileId, g: Map<TileId, u128>, closed: Set<TileId>, rank: Map<TileId, nat>) -> bool {
    &&& closed.finite()
    &&& !closed.contains(goal)
    &&& forall|c: TileId| #[trigger] closed.contains(c) ==> g.contains_key(c) && rank[c] < closed.len()
}

/// Each tile with a recorded cost that is not expanded waits on the frontier
/// with that cost, and no frontier entry undercuts a recorded cost.
pub(crate) open spec fn frontier_ok(
    tiles: Map<TileId, TileEntry>,
    goal_pos: Position,
    g: Map<TileId, u128>,
    closed: Set<TileId>,
    open: Multiset<AStarNode>,
) -> bool {
    &&& forall|x: TileId| #[trigger]
        g.contains_key(x) && !closed.contains(x) ==> open.contains(
            frontier_node(tiles, goal_pos, g, x),
        )
    &&& forall|e: AStarNode| #[trigger]
        open.contains(e) ==> {
            &&& g.contains_key(e.entity)
            &&& e.g_score >= g[e.entity]
            &&& e.f_score == e.g_score + estimate(tiles, goal_pos, e.entity)
        }
}

/// The walkable tiles named in the first `upto` neighbour slots of `c` have
/// recorded costs.
pub(crate) open spec fn expanded(tiles: Map<TileId, TileEntry>, g: Map<TileId, u128>, c: TileId, upto: int) -> bool {
    forall|i: int|
        0 <= i < upto ==> match #[trigger] neighbor_at(tiles[c].tile, i) {
            Some(n) => walkable_tile(tiles, n) ==> g.contains_key(n),
            None => true,
        }
}

/// Every expanded tile has all its slots covered, but `current`, which has
/// its first `upto` covered.
pub(crate) open spec fn closure_ok(
    tiles: Map<TileId, TileEntry>,
    g: Map<TileId, u128>,
    closed: Set<TileId>,
    current: TileId,
    upto: int,
) -> bool {
    forall|c: TileId| #[trigger]
        closed.contains(c) ==> expanded(
            tiles,
            g,
            c,
            if c == current {
                upto
            } else {
                8
            },
        )
}

/// A set that holds `start` and, with each of its tiles, the walkable tiles
/// in its neighbour slots, holds every tile of a route from `start`.
pub(crate) proof fn lemma_route_stays_inside(
    tiles: Map<TileId, TileEntry>,
    path: Seq<TileId>,
    start: TileId,
    goal: TileId,
    g: Map<TileId, u128>,
    closed: Set<TileId>,
    k: int,
)
    requires
        is_route(tiles, path, start, goal),
        closed.contains(start),
        closure_ok(tiles, g, closed, goal, 8),
        forall|x: TileId| #[trigger] g.contains_key(x) ==> closed.contains(x),
        0 <= k < path.len(),
    ensures
        closed.contains(path[k]),
    decreases k,
{
    if k > 0 {
        lemma_route_stays_inside(tiles, path, start, goal, g, closed, k - 1);
        let a = path[k - 1];
        let b = path[k];
        assert(linked(tiles, a, path[k - 1 + 1]));
        let i = choose|i: int| 0 <= i < 8 && #[trigger] neighbor_at(tiles[a].tile, i) == Some(b);
        assert(expanded(tiles, g, a, 8));
        assert(walkable_tile(tiles, b));
        assert(g.contains_key(b));
    }
}

/// Removing one copy of `v` keeps every other element, and adds none.
pub(crate) proof fn lemma_remove_keeps_others(m: Multiset<AStarNode>, v: AStarNode)
    requires
        m.contains(v),
    ensures
        forall|e: AStarNode| #[trigger] m.remove(v).contains(e) ==> m.contains(e),
        forall|e: AStarNode| e != v && m.contains(e) ==> #[trigger] m.remove(v).contains(e),
        m.remove(v).len() == m.len() - 1,
{
}

/// The product of a count that fits a machine word and the largest edge cost
/// fits 128 bits, with room for one more estimate.
pub(crate) proof fn lemma_cost_bound(n: int)
    requires
        0 <= n <= usize::MAX,
    ensures
        0 <= n * max_squared_distance(),
        n * max_squared_distance() + max_squared_distance() <= u128::MAX,
        (n + 1) * max_squared_distance() == n * max_squared_distance() + max_squared_distance(),
{
    let e = max_squared_distance();
    assert(e == 13835058055282163712) by (nonlinear_arith)
        requires
            e == 3 * (2 * 1_073_741_824) * (2 * 1_073_741_824),
    ;
    assert(0 <= n * e && n * e + e <= 0xFFFF_FFFF_FFFF_FFFF * 13835058055282163712
        + 13835058055282163712) by (nonlinear_arith)
        requires
            0 <= n <= 0xFFFF_FFFF_FFFF_FFFF,
            e == 13835058055282163712,
    ;
    assert((n + 1) * e == n * e + e) by (nonlinear_arith);
}

/// The expanded tiles are stored tiles, so there are no more of them than
/// tiles are stored.
pub(crate) proof fn lemma_expanded_are_stored(
    tiles: Map<TileId, TileEntry>,
    start: TileId,
    goal: TileId,
    g: Map<TileId, u128>,
    closed: Set<TileId>,
    rank: Map<TileId, nat>,
    bound: int,
)
    requires
        tiles.dom().finite(),
        scores_ok(tiles, start, g, bound),
        closed_ok(goal, g, closed, rank),
    ensures
        closed.subset_of(tiles.dom()),
        closed.len() <= tiles.dom().len(),
{
    assert forall|c: TileId| closed.contains(c) implies tiles.dom().contains(c) by {
        assert(g.contains_key(c));
    }
    vstd::set_lib::lemma_len_subset(closed, tiles.dom());
}

/// The chain that the predecessors leave from the goal is a route from the
/// start, on which no tile occurs twice.
pub(crate) proof fn lemma_chain_is_route(
    tiles: Map<TileId, TileEntry>,
    start: TileId,
    goal: TileId,
    g: Map<TileId, u128>,
    parent: Map<TileId, TileId>,
    closed: Set<TileId>,
    rank: Map<TileId, nat>,
    bound: int,
    rank_of: spec_fn(TileId) -> nat,
    path: Seq<TileId>,
)
    requires
        scores_ok(tiles, start, g, bound),
        parents_ok(tiles, start, g, parent, closed, rank),
        closed_ok(goal, g, closed, rank),
        g.contains_key(goal),
        is_chain(parent, path, goal),
        forall|i: int, j: int| 0 <= i < j < path.len() ==> rank_of(path[i]) < rank_of(path[j]),
    ensures
        is_route(tiles, path, start, goal),
        path.no_duplicates(),
{
    let n = path.len() as int;
    assert forall|i: int| 0 <= i < n implies g.contains_key(#[trigger] path[i]) by {
        if i < n - 1 {
            assert(parent.contains_key(path[i + 1]));
            assert(closed.contains(path[i]));
        }
    }
    assert(g.contains_key(path[0]));
    assert(path[0] == start);
    assert forall|i: int| 0 <= i < n - 1 implies linked(tiles, #[trigger] path[i], path[i + 1]) by {
        assert(parent.contains_key(path[i + 1]));
    }
    assert forall|i: int, j: int| 0 <= i < n && 0 <= j < n && i != j implies path[i] != path[j] by {
        if i < j {
            assert(rank_of(path[i]) < rank_of(path[j]));
        } else {
            assert(rank_of(path[j]) < rank_of(path[i]));
        }
    }
}

} // verus!
