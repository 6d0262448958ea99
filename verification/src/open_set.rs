//! The frontier of a search: nodes waiting to be expanded, cheapest first.

use crate::tiles::TileId;
use vstd::multiset::Multiset;
use vstd::prelude::*;
use vstd::seq_lib::{group_to_multiset_ensures, to_multiset_update};

verus! {

/// A tile on the frontier with the cost of reaching it (`g_score`) and that
/// cost plus the estimate of what remains (`f_score`).
#[derive(Clone, Copy, Debug, PartialEq, Eq, Structural)]
pub struct AStarNode {
    pub entity: TileId,
    pub f_score: u128,
    pub g_score: u128,
}

impl AStarNode {
    /// Whether `self` leaves the frontier before `other`: the lower `f_score` goes first.
    pub fn precedes(&self, other: &AStarNode) -> (b: bool)
        ensures
            b == (self.f_score < other.f_score),
    {
        self.f_score < other.f_score
    }
}

/// A min-priority collection of nodes, ordered by ascending `f_score`.
///
/// The nodes are kept as a binary heap: the node at place `i` does not leave
/// after the nodes at places `2 * i + 1` and `2 * i + 2`. The same node may
/// be held more than once. Among nodes of equal `f_score` the order of
/// removal is not specified.
pub struct OpenSet {
    nodes: Vec<AStarNode>,
}

impl View for OpenSet {
    type V = Multiset<AStarNode>;

    /// The nodes held, each as often as it is held.
    closed spec fn view(&self) -> Multiset<AStarNode> {
        self.nodes@.to_multiset()
    }
}

/// No node held in `nodes` has a lower `f_score` than `node`.
pub open spec fn is_minimal(nodes: Multiset<AStarNode>, node: AStarNode) -> bool {
    forall|other: AStarNode| #[trigger] nodes.contains(other) ==> node.f_score <= other.f_score
}

/// The place above place `i` in the heap.
spec fn above(i: int) -> int {
    (i - 1) / 2
}

/// Every node but the one at `skip` is no cheaper than the node above it.
spec fn ordered_but(nodes: Seq<AStarNode>, skip: int) -> bool {
    forall|i: int|
        0 < i < nodes.len() && i != skip ==> nodes[above(i)].f_score <= (#[trigger] nodes[i]).f_score
}

/// Every node is no cheaper than the node above it, but those right below `skip`.
spec fn ordered_below(nodes: Seq<AStarNode>, skip: int) -> bool {
    forall|i: int|
        0 < i < nodes.len() && above(i) != skip ==> nodes[above(i)].f_score <= (
        #[trigger] nodes[i]).f_score
}

/// The nodes right below `at` are no cheaper than the node above `at`.
spec fn bridged(nodes: Seq<AStarNode>, at: int) -> bool {
    forall|i: int|
        0 < i < nodes.len() && above(i) == at && at > 0 ==> nodes[above(at)].f_score <= (
        #[trigger] nodes[i]).f_score
}

/// Every node is no cheaper than the node above it.
spec fn heap_ordered(nodes: Seq<AStarNode>) -> bool {
    ordered_but(nodes, -1)
}

/// In a heap no node is cheaper than the first.
proof fn lemma_first_is_cheapest(nodes: Seq<AStarNode>, i: int)
    requires
        heap_ordered(nodes),
        0 <= i < nodes.len(),
    ensures
        nodes[0].f_score <= nodes[i].f_score,
    decreases i,
{
    if i > 0 {
        lemma_first_is_cheapest(nodes, above(i));
        assert(nodes[above(i)].f_score <= nodes[i].f_score);
    }
}

/// Exchanging two nodes keeps what is held.
proof fn lemma_exchange(nodes: Seq<AStarNode>, i: int, j: int)
    requires
        0 <= i < nodes.len(),
        0 <= j < nodes.len(),
    ensures
        nodes.update(i, nodes[j]).update(j, nodes[i]).to_multiset() == nodes.to_multiset(),
{
    broadcast use group_to_multiset_ensures;

    let once = nodes.update(i, nodes[j]);
    to_multiset_update(nodes, i, nodes[j]);
    to_multiset_update(once, j, nodes[i]);
    assert(nodes.to_multiset().count(nodes[i]) > 0) by {
        assert(nodes.contains(nodes[i]));
    }
    assert(nodes.to_multiset().count(nodes[j]) > 0) by {
        assert(nodes.contains(nodes[j]));
    }
    assert(once[j] == nodes[j]);
    assert(nodes.to_multiset().insert(nodes[j]).remove(nodes[i]).insert(nodes[i]).remove(nodes[j])
        =~= nodes.to_multiset());
}

/// Exchanges the nodes at two places.
fn exchange(nodes: &mut Vec<AStarNode>, i: usize, j: usize)
    requires
        i < old(nodes)@.len(),
        j < old(nodes)@.len(),
    ensures
        final(nodes)@ == old(nodes)@.update(i as int, old(nodes)@[j as int]).update(
            j as int,
            old(nodes)@[i as int],
        ),
        final(nodes)@.to_multiset() == old(nodes)@.to_multiset(),
{
    proof {
        lemma_exchange(nodes@, i as int, j as int);
    }
    let first = nodes[i];
    let second = nodes[j];
    nodes[i] = second;
    nodes[j] = first;
}

/// Moves the last node up to its place.
fn sift_up(nodes: &mut Vec<AStarNode>)
    requires
        old(nodes)@.len() > 0,
        ordered_but(old(nodes)@, old(nodes)@.len() - 1),
    ensures
        heap_ordered(final(nodes)@),
        final(nodes)@.to_multiset() == old(nodes)@.to_multiset(),
{
    let mut at: usize = nodes.len() - 1;
    while at > 0
        invariant
            0 <= at < nodes@.len(),
            nodes@.len() == old(nodes)@.len(),
            nodes@.to_multiset() == old(nodes)@.to_multiset(),
            ordered_but(nodes@, at as int),
            bridged(nodes@, at as int),
        ensures
            heap_ordered(nodes@),
            nodes@.to_multiset() == old(nodes)@.to_multiset(),
        decreases at,
    {
        let up = (at - 1) / 2;
        if !nodes[at].precedes(&nodes[up]) {
            break ;
        }
        let ghost before = nodes@;
        exchange(nodes, at, up);
        proof {
            assert forall|i: int| 0 < i < nodes@.len() && i != up implies nodes@[above(i)].f_score
                <= (#[trigger] nodes@[i]).f_score by {
                if i == at {
                } else if above(i) == up {
                    assert(before[above(i)].f_score <= before[i].f_score);
                } else if above(i) == at {
                    assert(before[above(at as int)].f_score <= before[i].f_score);
                } else {
                    assert(before[above(i)].f_score <= before[i].f_score);
                }
            }
            assert forall|i: int|
                0 < i < nodes@.len() && above(i) == up && up > 0 implies nodes@[above(
                up as int,
            )].f_score <= (#[trigger] nodes@[i]).f_score by {
                assert(before[above(up as int)].f_score <= before[up as int].f_score);
                if i != at {
                    assert(before[above(i)].f_score <= before[i].f_score);
                }
            }
        }
        at = up;
    }
}

/// Moves the first node down to its place.
fn sift_down(nodes: &mut Vec<AStarNode>)
    requires
        ordered_below(old(nodes)@, 0),
    ensures
        heap_ordered(final(nodes)@),
        final(nodes)@.to_multiset() == old(nodes)@.to_multiset(),
{
    let n = nodes.len();
    let mut at: usize = 0;
    loop
        invariant
            n == nodes@.len(),
            n == old(nodes)@.len(),
            0 <= at < n || n == 0,
            nodes@.to_multiset() == old(nodes)@.to_multiset(),
            ordered_below(nodes@, at as int),
            bridged(nodes@, at as int),
        ensures
            heap_ordered(nodes@),
            nodes@.to_multiset() == old(nodes)@.to_multiset(),
        decreases n - at,
    {
        if n < 2 || at > (n - 2) / 2 {
            proof {
                assert forall|i: int| 0 < i < n implies above(i) != at by {}
            }
            break ;
        }
        let left = 2 * at + 1;
        let right = left + 1;
        let mut down = left;
        if right < n && nodes[right].precedes(&nodes[left]) {
            down = right;
        }
        if !nodes[down].precedes(&nodes[at]) {
            proof {
                assert forall|i: int| 0 < i < n && above(i) == at implies nodes@[at as int].f_score
                    <= (#[trigger] nodes@[i]).f_score by {
                    assert(i == left || i == right);
                }
            }
            break ;
        }
        let ghost before = nodes@;
        exchange(nodes, at, down);
        proof {
            assert forall|i: int| 0 < i < n && above(i) != down implies nodes@[above(i)].f_score
                <= (#[trigger] nodes@[i]).f_score by {
                if above(i) == at {
                    assert(i == left || i == right);
                } else if i == at {
                    assert(before[above(at as int)].f_score <= before[down as int].f_score);
                } else {
                    assert(before[above(i)].f_score <= before[i].f_score);
                }
            }
            assert forall|i: int|
                0 < i < n && above(i) == down && down > 0 implies nodes@[above(
                down as int,
            )].f_score <= (#[trigger] nodes@[i]).f_score by {
                assert(before[above(i)].f_score <= before[i].f_score);
            }
        }
        at = down;
    }
}

impl OpenSet {
    /// The nodes are in heap order.
    pub closed spec fn wf(&self) -> bool {
        heap_ordered(self.nodes@)
    }

    /// An empty frontier.
    pub fn new() -> (s: OpenSet)
        ensures
            s.wf(),
            s@ == Multiset::<AStarNode>::empty(),
    {
        let s = OpenSet { nodes: Vec::new() };
        proof {
            broadcast use group_to_multiset_ensures;

            assert(s.nodes@ =~= Seq::<AStarNode>::empty());
            assert(s@ =~= Multiset::<AStarNode>::empty()) by {
                assert forall|n: AStarNode| s@.count(n) == 0 by {
                    if s@.count(n) > 0 {
                        assert(s.nodes@.contains(n));
                    }
                }
            }
        }
        s
    }

    /// Number of nodes held, counting repetitions.
    pub fn len(&self) -> (n: usize)
        ensures
            n == self@.len(),
    {
        proof {
            broadcast use group_to_multiset_ensures;

        }
        self.nodes.len()
    }

    /// Whether no node is held.
    pub fn is_empty(&self) -> (b: bool)
        ensures
            b == (self@.len() == 0),
    {
        self.len() == 0
    }

    /// Adds `node`.
    pub fn push(&mut self, node: AStarNode)
        requires
            old(self).wf(),
        ensures
            final(self).wf(),
            final(self)@ == old(self)@.insert(node),
    {
        proof {
            broadcast use group_to_multiset_ensures;

        }
        self.nodes.push(node);
        sift_up(&mut self.nodes);
    }

    /// Removes and returns a node of least `f_score`; `None` when nothing is held.
    pub fn pop(&mut self) -> (r: Option<AStarNode>)
        requires
            old(self).wf(),
        ensures
            final(self).wf(),
            match r {
                Some(node) => {
                    &&& old(self)@.contains(node)
                    &&& is_minimal(old(self)@, node)
                    &&& final(self)@ == old(self)@.remove(node)
                },
                None => old(self)@.len() == 0 && final(self)@ == old(self)@,
            },
    {
        proof {
            broadcast use group_to_multiset_ensures;

        }
        let n = self.nodes.len();
        if n == 0 {
            return None;
        }
        let ghost before = self.nodes@;
        let node = self.nodes.swap_remove(0);
        proof {
            let moved = before.update(0, before.last());
            to_multiset_update(before, 0, before.last());
            assert(before.contains(node));
            assert(before.contains(before.last()));
            assert(self.nodes@ =~= moved.remove(n - 1));
            assert(moved[n - 1] == before.last());
            assert(self@ =~= before.to_multiset().remove(node));
            assert forall|other: AStarNode| #[trigger]
                before.to_multiset().contains(other) implies node.f_score <= other.f_score by {
                assert(before.contains(other));
                let j = choose|j: int| 0 <= j < before.len() && before[j] == other;
                lemma_first_is_cheapest(before, j);
            }
            assert forall|i: int| 0 < i < self.nodes@.len() && above(i) != 0 implies self.nodes@[above(
                i,
            )].f_score <= (#[trigger] self.nodes@[i]).f_score by {
                assert(before[above(i)].f_score <= before[i].f_score);
            }
        }
        sift_down(&mut self.nodes);
        Some(node)
    }
}

} // verus!
