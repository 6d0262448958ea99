//! Best-first search for a route between two tiles over their cached
//! neighbour slots.

use crate::geometry::{heuristic, max_squared_distance, squared_distance};
use crate::geometry::lemma_squared_distance_bounds;
use crate::grid::{tile_chebyshev, tile_manhattan, uniform_grid, GridShape};
use crate::grid_search::{grid_ok, lemma_grid_close, lemma_grid_expanded, lemma_grid_route};
use crate::grid_search::{lemma_grid_reachable, lemma_grid_slot, lemma_grid_start, slot_outcome};
use crate::open_set::{AStarNode, OpenSet};
use crate::search::{closed_ok, closure_ok, estimate, expanded, frontier_node, frontier_ok};
use crate::search::{lemma_chain_is_route, lemma_cost_bound, lemma_expanded_are_stored};
use crate::search::lemma_remove_keeps_others;
use crate::search::lemma_route_stays_inside;
use crate::search::{parents_ok, scores_ok};
use crate::tiles::{Tile, TileEntry, TileId, TileStore};
use std::collections::{HashMap, HashSet};
use vstd::prelude::*;

verus! {

broadcast use vstd::std_specs::hash::group_hash_axioms;

/// The `i`-th neighbour slot of `tile`.
pub open spec fn neighbor_at(tile: Tile, i: int) -> Option<TileId> {
    tile.neighbor_entities@[i]
}

/// `id` names a stored tile that can be walked on.
pub open spec fn walkable_tile(tiles: Map<TileId, TileEntry>, id: TileId) -> bool {
    tiles.contains_key(id) && tiles[id].tile.walkable
}

/// Some neighbour slot of the stored tile `a` names `b`.
pub open spec fn linked(tiles: Map<TileId, TileEntry>, a: TileId, b: TileId) -> bool {
    tiles.contains_key(a) && exists|i: int|
        0 <= i < 8 && #[trigger] neighbor_at(tiles[a].tile, i) == Some(b)
}

/// `path` leads from `start` to `goal`: it begins and ends there, every tile
/// on it is stored and walkable, and each tile names the next in one of its
/// neighbour slots.
pub open spec fn is_route(
    tiles: Map<TileId, TileEntry>,
    path: Seq<TileId>,
    start: TileId,
    goal: TileId,
) -> bool {
    &&& path.len() >= 1
    &&& path[0] == start
    &&& path[path.len() - 1] == goal
    &&& forall|i: int| 0 <= i < path.len() ==> walkable_tile(tiles, #[trigger] path[i])
    &&& forall|i: int| 0 <= i < path.len() - 1 ==> linked(tiles, #[trigger] path[i], path[i + 1])
}

/// Some route leads from `start` to `goal`.
pub open spec fn reachable(tiles: Map<TileId, TileEntry>, start: TileId, goal: TileId) -> bool {
    exists|path: Seq<TileId>| is_route(tiles, path, start, goal)
}

/// The cost of walking `path`: the squared distances from each tile to the
/// next, summed.
pub open spec fn route_cost(tiles: Map<TileId, TileEntry>, path: Seq<TileId>) -> int
    decreases path.len(),
{
    if path.len() <= 1 {
        0
    } else {
        route_cost(tiles, path.drop_last()) + squared_distance(
            tiles[path[path.len() - 2]].position,
            tiles[path[path.len() - 1]].position,
        )
    }
}

/// A route exists only between walkable tiles.
pub proof fn lemma_reachable_endpoints(tiles: Map<TileId, TileEntry>, start: TileId, goal: TileId)
    requires
        reachable(tiles, start, goal),
    ensures
        walkable_tile(tiles, start),
        walkable_tile(tiles, goal),
{
    let path = choose|path: Seq<TileId>| is_route(tiles, path, start, goal);
    assert(walkable_tile(tiles, path[0]));
    assert(walkable_tile(tiles, path[path.len() - 1]));
}

/// `path` follows `came_from` back from its last tile to a tile without a
/// predecessor.
pub(crate) open spec fn is_chain(came_from: Map<TileId, TileId>, path: Seq<TileId>, last: TileId) -> bool {
    &&& path.len() >= 1
    &&& path[path.len() - 1] == last
    &&& !came_from.contains_key(path[0])
    &&& forall|i: int|
        1 <= i < path.len() ==> came_from.contains_key(#[trigger] path[i]) && came_from[path[i]]
            == path[i - 1]
}

/// Every predecessor has a lower rank than its successor.
pub(crate) open spec fn ranked(came_from: Map<TileId, TileId>, rank: spec_fn(TileId) -> nat) -> bool {
    forall|k: TileId| #[trigger] came_from.contains_key(k) ==> rank(came_from[k]) < rank(k)
}

/// Walks the predecessor map back from `current` and returns the tiles met,
/// first to last.
fn reconstruct_path(
    came_from: &HashMap<u64, u64>,
    current: TileId,
    Ghost(rank): Ghost<spec_fn(TileId) -> nat>,
) -> (path: Vec<TileId>)
    requires
        ranked(came_from@, rank),
    ensures
        is_chain(came_from@, path@, current),
        forall|i: int, j: int| 0 <= i < j < path@.len() ==> rank(path@[i]) < rank(path@[j]),
{
    let mut backward: Vec<TileId> = Vec::new();
    backward.push(current);
    let mut at = current;
    loop
        invariant
            ranked(came_from@, rank),
            backward@.len() >= 1,
            backward@[0] == current,
            backward@[backward@.len() - 1] == at,
            forall|i: int|
                0 <= i < backward@.len() - 1 ==> came_from@.contains_key(#[trigger] backward@[i])
                    && came_from@[backward@[i]] == backward@[i + 1],
            forall|i: int, j: int|
                0 <= i < j < backward@.len() ==> rank(backward@[j]) < rank(backward@[i]),
        ensures
            !came_from@.contains_key(at),
        decreases rank(at),
    {
        match came_from.get(&at) {
            Some(previous) => {
                let ghost before = backward@;
                assert(came_from@.contains_key(at));
                at = *previous;
                backward.push(at);
                assert forall|i: int, j: int| 0 <= i < j < backward@.len() implies rank(
                    backward@[j],
                ) < rank(backward@[i]) by {
                    if j == backward@.len() - 1 {
                        let m = before.len() - 1;
                        assert(rank(backward@[j]) < rank(before[m]));
                        if i < m {
                            assert(rank(before[m]) < rank(before[i]));
                        }
                    } else {
                        assert(backward@[i] == before[i] && backward@[j] == before[j]);
                    }
                }
                assert forall|i: int| 0 <= i < backward@.len() - 1 implies came_from@.contains_key(
                    #[trigger] backward@[i],
                ) && came_from@[backward@[i]] == backward@[i + 1] by {
                    if i < before.len() - 1 {
                        assert(backward@[i] == before[i]);
                        assert(backward@[i + 1] == before[i + 1]);
                    }
                }
            },
            None => {
                break ;
            },
        }
    }
    let n = backward.len();
    let mut path: Vec<TileId> = Vec::new();
    let mut k: usize = n;
    while k > 0
        invariant
            n == backward@.len(),
            0 <= k <= n,
            path@.len() == n - k,
            forall|i: int| 0 <= i < path@.len() ==> path@[i] == backward@[n - 1 - i],
        decreases k,
    {
        k -= 1;
        path.push(backward[k]);
    }
    proof {
        assert forall|i: int| 1 <= i < path@.len() implies came_from@.contains_key(
            #[trigger] path@[i],
        ) && came_from@[path@[i]] == path@[i - 1] by {
            let b = n - 1 - i;
            assert(path@[i] == backward@[b]);
            assert(path@[i - 1] == backward@[b + 1]);
            assert(came_from@.contains_key(backward@[b]));
        }
        assert forall|i: int, j: int| 0 <= i < j < path@.len() implies rank(path@[i]) < rank(
            path@[j],
        ) by {
            assert(path@[i] == backward@[n - 1 - i]);
            assert(path@[j] == backward@[n - 1 - j]);
        }
    }
    path
}

/// Searches for a route from `start` to `goal`.
///
/// A tile is entered from a tile that names it in one of its neighbour slots;
/// tiles that are not stored or not walkable are never entered. The cost of a
/// step is the squared distance between the two positions, and the frontier
/// is ordered by cost so far plus squared distance to the goal.
///
/// Returns a route when one exists, and `None` when none does: in particular
/// when either end is missing or not walkable. From a walkable tile to itself
/// the route is that tile alone. No tile occurs twice on the route. Which of
/// several routes is returned is not specified, but on a uniform grid it is
/// one of the fewest steps, as many as the Chebyshev distance between the
/// cells of its ends, and of the least cost, the squared spacing times the
/// Manhattan distance between them.
pub fn astar_pathfind(start: TileId, goal: TileId, tiles: &TileStore) -> (found: Option<
    Vec<TileId>,
>)
    requires
        tiles.wf(),
    ensures
        found.is_some() <==> reachable(tiles.map(), start, goal),
        !walkable_tile(tiles.map(), start) || !walkable_tile(tiles.map(), goal) ==> found.is_none(),
        start == goal && walkable_tile(tiles.map(), start) ==> found.is_some(),
        match found {
            Some(path) => {
                &&& is_route(tiles.map(), path@, start, goal)
                &&& path@[0] == start
                &&& path@[path@.len() - 1] == goal
                &&& path@.no_duplicates()
                &&& start == goal ==> path@ == seq![start]
            },
            None => true,
        },
        forall|shape: GridShape| #[trigger]
            uniform_grid(tiles.map(), shape) && tiles.map().contains_key(start)
                && tiles.map().contains_key(goal) ==> {
                &&& found.is_some()
                &&& found.unwrap()@.len() == tile_chebyshev(tiles.map(), start, goal) + 1
                &&& route_cost(tiles.map(), found.unwrap()@) == shape.spacing * shape.spacing
                    * tile_manhattan(tiles.map(), start, goal)
            },
{
    let ghost t = tiles.map();
    let ghost uniform = exists|shape: GridShape| uniform_grid(t, shape);
    let ghost shape = choose|shape: GridShape| uniform_grid(t, shape);
    proof {
        tiles.lemma_wf();
        if reachable(t, start, goal) {
            lemma_reachable_endpoints(t, start, goal);
        }
        if start == goal && walkable_tile(t, start) {
            assert(is_route(t, seq![start], start, goal));
        }
        if uniform && t.contains_key(start) && t.contains_key(goal) {
            lemma_grid_reachable(t, shape, start, goal);
        }
    }
    let start_entry: TileEntry = match tiles.get(start) {
        Some(entry) => *entry,
        None => {
            return None;
        },
    };
    let goal_entry: TileEntry = match tiles.get(goal) {
        Some(entry) => *entry,
        None => {
            return None;
        },
    };
    if !start_entry.tile.walkable || !goal_entry.tile.walkable {
        return None;
    }
    if start == goal {
        let mut path: Vec<TileId> = Vec::new();
        path.push(start);
        proof {
            assert(path@ =~= seq![start]);
            assert(is_route(t, path@, start, goal));
            assert forall|other: GridShape| #[trigger] uniform_grid(t, other) implies route_cost(
                t,
                path@,
            ) == other.spacing * other.spacing * tile_manhattan(t, start, goal) by {
                assert(other.spacing * other.spacing * 0 == 0) by (nonlinear_arith);
            }
        }
        return Some(path);
    }
    let goal_pos = goal_entry.position;

    let mut open_set = OpenSet::new();
    let mut closed_set: HashSet<u64> = HashSet::new();
    let mut g_scores: HashMap<u64, u128> = HashMap::new();
    let mut came_from: HashMap<u64, u64> = HashMap::new();
    let ghost mut rank: Map<TileId, nat> = Map::empty();
    let ghost mut hops: Map<TileId, nat> = map![start => 0nat];

    g_scores.insert(start, 0);
    let h_start = heuristic(start_entry.position, goal_pos);
    open_set.push(AStarNode { entity: start, f_score: h_start, g_score: 0 });

    proof {
        lemma_cost_bound(0);
        assert(frontier_node(t, goal_pos, g_scores@, start) == (AStarNode {
            entity: start,
            f_score: h_start,
            g_score: 0,
        }));
        if uniform {
            lemma_grid_start(t, shape, start, goal);
            assert(g_scores@ =~= map![start => 0u128]);
            assert(came_from@ =~= Map::<TileId, TileId>::empty());
        }
    }

    loop
        invariant
            tiles.wf(),
            t == tiles.map(),
            t.dom().finite(),
            forall|id: TileId| t.contains_key(id) ==> (#[trigger] t[id]).position.in_bounds(),
            walkable_tile(t, start),
            walkable_tile(t, goal),
            start != goal,
            goal_pos == t[goal].position,
            scores_ok(t, start, g_scores@, closed_set@.len() * max_squared_distance()),
            parents_ok(t, start, g_scores@, came_from@, closed_set@, rank),
            closed_ok(goal, g_scores@, closed_set@, rank),
            open_set.wf(),
            frontier_ok(t, goal_pos, g_scores@, closed_set@, open_set@),
            closure_ok(t, g_scores@, closed_set@, goal, 8),
            closed_set@.contains(start) || closed_set@ =~= Set::<TileId>::empty(),
            uniform ==> grid_ok(
                t,
                shape,
                start,
                goal,
                g_scores@,
                came_from@,
                closed_set@,
                hops,
                goal,
                8,
            ),
            uniform ==> reachable(t, start, goal),
            forall|other: GridShape| #[trigger] uniform_grid(t, other) ==> uniform,
        decreases t.dom().len() - closed_set@.len(), open_set@.len(),
    {
        let ghost open_before = open_set@;
        let ghost closed_count = closed_set@.len();
        proof {
            lemma_expanded_are_stored(
                t,
                start,
                goal,
                g_scores@,
                closed_set@,
                rank,
                closed_count * max_squared_distance(),
            );
            assert(closed_set.len() == closed_count);
            lemma_cost_bound(closed_count as int);
        }
        let current_node = match open_set.pop() {
            Some(node) => node,
            None => {
                proof {
                    assert(g_scores@.contains_key(start));
                    assert(closed_set@.contains(start)) by {
                        if !closed_set@.contains(start) {
                            assert(open_before.contains(
                                frontier_node(t, goal_pos, g_scores@, start),
                            ));
                        }
                    }
                    assert forall|x: TileId| #[trigger]
                        g_scores@.contains_key(x) implies closed_set@.contains(x) by {
                        if !closed_set@.contains(x) {
                            assert(open_before.contains(frontier_node(t, goal_pos, g_scores@, x)));
                        }
                    }
                    if reachable(t, start, goal) {
                        let path = choose|path: Seq<TileId>| is_route(t, path, start, goal);
                        lemma_route_stays_inside(
                            t,
                            path,
                            start,
                            goal,
                            g_scores@,
                            closed_set@,
                            path.len() - 1,
                        );
                    }
                }
                return None;
            },
        };
        let current = current_node.entity;
        proof {
            lemma_remove_keeps_others(open_before, current_node);
            assert(g_scores@.contains_key(current));
        }

        if current == goal {
            let ghost closed = closed_set@;
            let ghost rank_of = |x: TileId| -> nat {
                if closed.contains(x) {
                    rank[x]
                } else {
                    closed.len()
                }
            };
            proof {
                assert forall|k: TileId| #[trigger]
                    came_from@.contains_key(k) implies rank_of(came_from@[k]) < rank_of(k) by {
                    assert(closed.contains(came_from@[k]));
                }
            }
            let path = reconstruct_path(&came_from, current, Ghost(rank_of));
            proof {
                lemma_chain_is_route(
                    t,
                    start,
                    goal,
                    g_scores@,
                    came_from@,
                    closed,
                    rank,
                    closed_count * max_squared_distance(),
                    rank_of,
                    path@,
                );
                if uniform {
                    lemma_grid_route(
                        t,
                        shape,
                        start,
                        goal,
                        g_scores@,
                        came_from@,
                        closed,
                        rank,
                        hops,
                        path@,
                        closed_count * max_squared_distance(),
                    );
                }
            }
            return Some(path);
        }
        if closed_set.contains(&current) {
            continue ;
        }
        proof {
            // The entry that left the frontier carries the recorded cost: the
            // entry with the recorded cost waited there too and is no cheaper.
            let best = frontier_node(t, goal_pos, g_scores@, current);
            assert(open_before.contains(best));
            assert(current_node.f_score <= best.f_score);
            lemma_squared_distance_bounds(t[current].position, goal_pos);
            assert(current_node.g_score == g_scores@[current]);
            if closed_set@ =~= Set::<TileId>::empty() {
                if current != start {
                    assert(came_from@.contains_key(current));
                    assert(closed_set@.contains(came_from@[current]));
                }
            }
            if uniform {
                lemma_grid_close(
                    t,
                    shape,
                    start,
                    goal,
                    goal_pos,
                    g_scores@,
                    came_from@,
                    closed_set@,
                    rank,
                    hops,
                    open_before,
                    closed_count * max_squared_distance(),
                    current_node,
                );
            }
        }
        closed_set.insert(current);
        proof {
            rank = rank.insert(current, closed_count);
            assert(closed_set@.len() == closed_count + 1);
            assert(closed_set.len() == closed_set@.len());
            lemma_cost_bound(closed_count as int + 1);
            assert(closed_count * max_squared_distance() <= (closed_count + 1)
                * max_squared_distance());
        }

        let recorded = match g_scores.get(&current) {
            Some(cost) => *cost,
            None => u128::MAX,
        };
        if current_node.g_score > recorded {
            // An entry that costs more than what is recorded is met only after
            // the cheaper one, when its tile is expanded already: none gets here.
            assert(false);
            continue ;
        }
        let current_entry: TileEntry = match tiles.get(current) {
            Some(entry) => *entry,
            None => {
                // Only stored tiles are put on the frontier.
                assert(false);
                continue ;
            },
        };
        let current_pos = current_entry.position;
        let current_g_score = current_node.g_score;
        let neighbors = current_entry.tile.neighbor_entities;

        let mut i: usize = 0;
        while i < 8
            invariant
                0 <= i <= 8,
                tiles.wf(),
                t == tiles.map(),
                forall|id: TileId| t.contains_key(id) ==> (#[trigger] t[id]).position.in_bounds(),
                walkable_tile(t, start),
                walkable_tile(t, goal),
                start != goal,
                current != goal,
                goal_pos == t[goal].position,
                t.contains_key(current),
                current_pos == t[current].position,
                neighbors == t[current].tile.neighbor_entities,
                closed_set@.contains(current),
                closed_set@.contains(start),
                closed_set@.len() == closed_count + 1,
                closed_count + 1 <= usize::MAX,
                current_g_score <= closed_count * max_squared_distance(),
                scores_ok(t, start, g_scores@, closed_set@.len() * max_squared_distance()),
                parents_ok(t, start, g_scores@, came_from@, closed_set@, rank),
                closed_ok(goal, g_scores@, closed_set@, rank),
                open_set.wf(),
                frontier_ok(t, goal_pos, g_scores@, closed_set@, open_set@),
                closure_ok(t, g_scores@, closed_set@, current, i as int),
                g_scores@.contains_key(current),
                g_scores@[current] == current_g_score,
                uniform ==> grid_ok(
                    t,
                    shape,
                    start,
                    goal,
                    g_scores@,
                    came_from@,
                    closed_set@,
                    hops,
                    current,
                    i as int,
                ),
            decreases 8 - i,
        {
            let slot = neighbors[i];
            proof {
                assert(neighbor_at(t[current].tile, i as int) == slot);
                lemma_cost_bound(closed_count as int);
                lemma_cost_bound(closed_count as int + 1);
            }
            let ghost g_before = g_scores@;
            let ghost parent_before = came_from@;
            let ghost hops_before = hops;
            if let Some(neighbor) = slot {
                if !closed_set.contains(&neighbor) {
                    if let Some(neighbor_entry) = tiles.get(neighbor) {
                        if neighbor_entry.tile.walkable {
                            let neighbor_pos = neighbor_entry.position;
                            proof {
                                lemma_squared_distance_bounds(current_pos, neighbor_pos);
                                lemma_squared_distance_bounds(neighbor_pos, goal_pos);
                            }
                            let edge_cost = heuristic(current_pos, neighbor_pos);
                            let tentative_g_score = current_g_score + edge_cost;
                            let better = match g_scores.get(&neighbor) {
                                Some(existing) => tentative_g_score < *existing,
                                None => true,
                            };
                            if better {
                                let ghost open_mid = open_set@;
                                came_from.insert(neighbor, current);
                                g_scores.insert(neighbor, tentative_g_score);
                                let h_score = heuristic(neighbor_pos, goal_pos);
                                let f_score = tentative_g_score + h_score;
                                let pushed = AStarNode {
                                    entity: neighbor,
                                    f_score,
                                    g_score: tentative_g_score,
                                };
                                open_set.push(pushed);
                                proof {
                                    hops = hops.insert(neighbor, hops[current] + 1);
                                    assert(linked(t, current, neighbor)) by {
                                        assert(neighbor_at(t[current].tile, i as int) == Some(
                                            neighbor,
                                        ));
                                    }
                                    assert(frontier_node(t, goal_pos, g_scores@, neighbor)
                                        == pushed);
                                    assert forall|x: TileId| #[trigger]
                                        g_scores@.contains_key(x) && !closed_set@.contains(
                                            x,
                                        ) implies open_set@.contains(
                                        frontier_node(t, goal_pos, g_scores@, x),
                                    ) by {
                                        if x != neighbor {
                                            assert(g_before.contains_key(x));
                                            assert(frontier_node(t, goal_pos, g_scores@, x)
                                                == frontier_node(t, goal_pos, g_before, x));
                                            assert(open_mid.contains(
                                                frontier_node(t, goal_pos, g_before, x),
                                            ));
                                        }
                                    }
                                    assert forall|e: AStarNode| #[trigger]
                                        open_set@.contains(e) implies {
                                        &&& g_scores@.contains_key(e.entity)
                                        &&& e.g_score >= g_scores@[e.entity]
                                        &&& e.f_score == e.g_score + estimate(
                                            t,
                                            goal_pos,
                                            e.entity,
                                        )
                                    } by {
                                        if e != pushed {
                                            assert(open_mid.contains(e));
                                        }
                                    }
                                }
                            }
                        }
                    }
                }
            }
            proof {
                assert forall|c: TileId| #[trigger] closed_set@.contains(c) implies expanded(
                    t,
                    g_scores@,
                    c,
                    if c == current {
                        i as int + 1
                    } else {
                        8
                    },
                ) by {
                    let upto = if c == current {
                        i as int
                    } else {
                        8
                    };
                    assert(expanded(t, g_before, c, upto));
                    assert forall|j: int| 0 <= j < upto implies match #[trigger] neighbor_at(
                        t[c].tile,
                        j,
                    ) {
                        Some(n) => walkable_tile(t, n) ==> g_scores@.contains_key(n),
                        None => true,
                    } by {
                        match neighbor_at(t[c].tile, j) {
                            Some(n) => {
                                if walkable_tile(t, n) {
                                    assert(g_before.contains_key(n));
                                }
                            },
                            None => {},
                        }
                    }
                }
                if uniform {
                    assert(slot_outcome(
                        t,
                        closed_set@,
                        current,
                        i as int,
                        g_before,
                        parent_before,
                        hops_before,
                        g_scores@,
                        came_from@,
                        hops,
                    ));
                    lemma_grid_slot(
                        t,
                        shape,
                        start,
                        goal,
                        g_before,
                        parent_before,
                        closed_set@,
                        rank,
                        hops_before,
                        current,
                        i as int,
                        g_scores@,
                        came_from@,
                        hops,
                        closed_set@.len() * max_squared_distance(),
                    );
                }
            }
            i += 1;
        }
        proof {
            assert forall|c: TileId| #[trigger] closed_set@.contains(c) implies expanded(
                t,
                g_scores@,
                c,
                8,
            ) by {
                assert(expanded(t, g_scores@, c, if c == current {
                    8
                } else {
                    8
                }));
            }
            if uniform {
                lemma_grid_expanded(
                    t,
                    shape,
                    start,
                    goal,
                    g_scores@,
                    came_from@,
                    closed_set@,
                    hops,
                    current,
                );
            }
            lemma_expanded_are_stored(
                t,
                start,
                goal,
                g_scores@,
                closed_set@,
                rank,
                closed_set@.len() * max_squared_distance(),
            );
        }
    }
}

} // verus!
