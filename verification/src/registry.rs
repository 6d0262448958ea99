//! The coordinate registry and the neighbour slots derived from it.

use crate::tiles::{TileEntry, TileId, TileStore};
use std::collections::HashMap;
use vstd::prelude::*;
use vstd::std_specs::iter::IteratorSpec;

verus! {

broadcast use vstd::std_specs::hash::group_hash_axioms;

/// A grid coordinate `(x, z)`.
pub type Coord = (i32, i32);

/// The key under which a coordinate is filed. Keys order as coordinates do,
/// by `x` first and then by `z`.
spec fn coord_key(c: Coord) -> u64 {
    ((c.0 + 0x8000_0000) * 0x1_0000_0000 + (c.1 + 0x8000_0000)) as u64
}

/// Distinct coordinates have distinct keys, and the keys keep their order.
proof fn lemma_coord_key_ordered(a: Coord, b: Coord)
    ensures
        coord_key(a) == coord_key(b) <==> a == b,
        coord_key(a) < coord_key(b) <==> (a.0 < b.0 || (a.0 == b.0 && a.1 < b.1)),
{
}

/// The coordinate filed under `key`.
spec fn key_coord(key: u64) -> Coord {
    ((key / 0x1_0000_0000 - 0x8000_0000) as i32, (key % 0x1_0000_0000 - 0x8000_0000) as i32)
}

/// `key_coord` undoes `coord_key`, and the other way round.
proof fn lemma_key_coord_inverse(c: Coord, key: u64)
    ensures
        key_coord(coord_key(c)) == c,
        coord_key(key_coord(key)) == key,
{
}

/// Computes the key of `(x, z)`.
fn pack(x: i32, z: i32) -> (key: u64)
    ensures
        key == coord_key((x, z)),
{
    let hi: u64 = (x as i64 + 0x8000_0000) as u64;
    let lo: u64 = (z as i64 + 0x8000_0000) as u64;
    hi * 0x1_0000_0000 + lo
}

/// Computes the coordinate filed under `key`.
fn unpack(key: u64) -> (c: Coord)
    ensures
        c == key_coord(key),
{
    let hi: i64 = (key / 0x1_0000_0000) as i64;
    let lo: i64 = (key % 0x1_0000_0000) as i64;
    ((hi - 0x8000_0000) as i32, (lo - 0x8000_0000) as i32)
}

/// Which tile stands at which grid coordinate.
pub struct TileRegistry {
    pub(crate) tiles_by_coord: HashMap<u64, TileId>,
}

impl View for TileRegistry {
    type V = Map<Coord, TileId>;

    /// The tile registered at each coordinate.
    closed spec fn view(&self) -> Map<Coord, TileId> {
        Map::new(
            |c: Coord| self.tiles_by_coord@.contains_key(coord_key(c)),
            |c: Coord| self.tiles_by_coord@[coord_key(c)],
        )
    }
}

impl TileRegistry {
    /// An empty registry.
    pub fn new() -> (r: TileRegistry)
        ensures
            r@ == Map::<Coord, TileId>::empty(),
    {
        let r = TileRegistry { tiles_by_coord: HashMap::new() };
        assert(r@ =~= Map::<Coord, TileId>::empty());
        r
    }

    /// Forgets every coordinate.
    pub fn clear(&mut self)
        ensures
            final(self)@ == Map::<Coord, TileId>::empty(),
    {
        self.tiles_by_coord.clear();
        assert(self@ =~= Map::<Coord, TileId>::empty());
    }

    /// Files `id` under `(x, z)` and returns the tile that stood there before.
    pub fn insert(&mut self, x: i32, z: i32, id: TileId) -> (previous: Option<TileId>)
        ensures
            final(self)@ == old(self)@.insert((x, z), id),
            previous == if old(self)@.contains_key((x, z)) {
                Some(old(self)@[(x, z)])
            } else {
                None
            },
    {
        let key = pack(x, z);
        let previous = self.tiles_by_coord.insert(key, id);
        proof {
            assert forall|c: Coord| c != (x, z) implies coord_key(c) != key by {
                lemma_coord_key_ordered(c, (x, z));
            }
            assert(self@ =~= old(self)@.insert((x, z), id));
        }
        previous
    }

    /// The tile at `(x, z)`, if one is registered there.
    pub fn get(&self, x: i32, z: i32) -> (found: Option<TileId>)
        ensures
            found == if self@.contains_key((x, z)) {
                Some(self@[(x, z)])
            } else {
                None
            },
    {
        match self.tiles_by_coord.get(&pack(x, z)) {
            Some(id) => Some(*id),
            None => None,
        }
    }

    /// Number of registered coordinates.
    pub fn len(&self) -> (n: usize)
        ensures
            n == self@.dom().len(),
    {
        proof {
            self.lemma_keys();
        }
        self.tiles_by_coord.len()
    }

    /// Whether no coordinate is registered.
    pub fn is_empty(&self) -> (b: bool)
        ensures
            b == (self@.dom().len() == 0),
    {
        self.len() == 0
    }

    /// The filed keys, each once, in no particular order.
    fn keys(&self) -> (keys: Vec<u64>)
        ensures
            keys@.no_duplicates(),
            keys@.to_set() == self.tiles_by_coord@.dom(),
    {
        let mut keys: Vec<u64> = Vec::new();
        let ghost all = self.tiles_by_coord.keys().remaining();
        for key in iter: self.tiles_by_coord.keys()
            invariant
                iter.seq() == all,
                keys@.len() == iter.index(),
                forall|j: int| 0 <= j < keys@.len() ==> keys@[j] == *iter.seq()[j],
        {
            keys.push(*key);
        }
        proof {
            assert(keys@ =~= all.unref());
        }
        keys
    }

    /// The filed keys in ascending order.
    fn sorted_keys(&self) -> (sorted: Vec<u64>)
        ensures
            ascending(sorted@),
            sorted@.to_set() == self.tiles_by_coord@.dom(),
    {
        let keys = self.keys();
        let mut sorted: Vec<u64> = Vec::new();
        let n = keys.len();
        let mut k: usize = 0;
        while k < n
            invariant
                0 <= k <= n,
                n == keys@.len(),
                keys@.no_duplicates(),
                ascending(sorted@),
                sorted@.to_set() == keys@.take(k as int).to_set(),
            decreases n - k,
        {
            let key = keys[k];
            let ghost before = sorted@;
            proof {
                if before.contains(key) {
                    assert(keys@.take(k as int).to_set().contains(key));
                    let j = choose|j: int| 0 <= j < k && keys@.take(k as int)[j] == key;
                    assert(keys@[j] == keys@[k as int]);
                }
            }
            let mut at: usize = 0;
            while at < sorted.len() && sorted[at] < key
                invariant
                    0 <= at <= sorted@.len(),
                    sorted@ == before,
                    forall|j: int| 0 <= j < at ==> sorted@[j] < key,
                decreases sorted@.len() - at,
            {
                at += 1;
            }
            sorted.insert(at, key);
            proof {
                assert forall|i: int, j: int| 0 <= i < j < sorted@.len() implies sorted@[i]
                    < sorted@[j] by {
                    if at < before.len() {
                        assert(before.contains(before[at as int]));
                        assert(before[at as int] != key);
                    }
                    if j < at {
                        assert(sorted@[i] == before[i] && sorted@[j] == before[j]);
                    } else if j == at {
                        assert(sorted@[i] == before[i]);
                    } else if i < at {
                        assert(sorted@[i] == before[i] && sorted@[j] == before[j - 1]);
                        assert(before[i] < key);
                    } else if i == at {
                        assert(sorted@[j] == before[j - 1]);
                        assert(before[at as int] <= before[j - 1]);
                    } else {
                        assert(sorted@[i] == before[i - 1] && sorted@[j] == before[j - 1]);
                    }
                }
                let next = keys@.take(k + 1);
                assert(sorted@.to_set() =~= next.to_set()) by {
                    assert forall|x: u64| sorted@.to_set().contains(x) implies next.to_set().contains(
                        x,
                    ) by {
                        let i = choose|i: int| 0 <= i < sorted@.len() && sorted@[i] == x;
                        if i == at {
                            assert(next[k as int] == x);
                        } else {
                            let b = if i < at {
                                i
                            } else {
                                i - 1
                            };
                            assert(before[b] == x);
                            assert(before.to_set().contains(x));
                            let j = choose|j: int| 0 <= j < k && keys@.take(k as int)[j] == x;
                            assert(next[j] == x);
                        }
                    }
                    assert forall|x: u64| next.to_set().contains(x) implies sorted@.to_set().contains(
                        x,
                    ) by {
                        let j = choose|j: int| 0 <= j < k + 1 && next[j] == x;
                        if j == k {
                            assert(sorted@[at as int] == x);
                        } else {
                            assert(keys@.take(k as int)[j] == x);
                            assert(before.to_set().contains(x));
                            let i = choose|i: int| 0 <= i < before.len() && before[i] == x;
                            if i < at {
                                assert(sorted@[i] == x);
                            } else {
                                assert(sorted@[i + 1] == x);
                            }
                        }
                    }
                }
            }
            k += 1;
        }
        proof {
            assert(keys@.take(n as int) =~= keys@);
        }
        sorted
    }

    /// The registered coordinates and their tiles, each once, in no particular order.
    pub fn entries(&self) -> (entries: Vec<(Coord, TileId)>)
        ensures
            entries@.no_duplicates(),
            forall|i: int|
                0 <= i < entries@.len() ==> self@.contains_key((#[trigger] entries@[i]).0)
                    && self@[entries@[i].0] == entries@[i].1,
            forall|c: Coord| #[trigger]
                self@.contains_key(c) ==> entries@.contains((c, self@[c])),
    {
        let keys = self.keys();
        let mut entries: Vec<(Coord, TileId)> = Vec::new();
        let n = keys.len();
        let mut k: usize = 0;
        while k < n
            invariant
                0 <= k <= n,
                n == keys@.len(),
                keys@.no_duplicates(),
                keys@.to_set() == self.tiles_by_coord@.dom(),
                entries@.len() == k,
                forall|i: int|
                    0 <= i < k ==> (#[trigger] entries@[i]).0 == key_coord(keys@[i])
                        && entries@[i].1 == self.tiles_by_coord@[keys@[i]],
            decreases n - k,
        {
            let key = keys[k];
            proof {
                assert(keys@.to_set().contains(key));
            }
            let id = match self.tiles_by_coord.get(&key) {
                Some(id) => *id,
                None => 0,
            };
            entries.push((unpack(key), id));
            k += 1;
        }
        proof {
            assert forall|i: int, j: int|
                0 <= i < entries@.len() && 0 <= j < entries@.len() && i != j implies entries@[i]
                != entries@[j] by {
                lemma_key_coord_inverse((0, 0), keys@[i]);
                lemma_key_coord_inverse((0, 0), keys@[j]);
            }
            assert forall|i: int| 0 <= i < entries@.len() implies self@.contains_key(
                (#[trigger] entries@[i]).0,
            ) && self@[entries@[i].0] == entries@[i].1 by {
                lemma_key_coord_inverse((0, 0), keys@[i]);
                assert(keys@.to_set().contains(keys@[i]));
            }
            assert forall|c: Coord| #[trigger] self@.contains_key(c) implies entries@.contains(
                (c, self@[c]),
            ) by {
                let key = coord_key(c);
                assert(keys@.to_set().contains(key));
                let i = choose|i: int| 0 <= i < keys@.len() && keys@[i] == key;
                lemma_key_coord_inverse(c, 0);
                assert(entries@[i] == (c, self@[c]));
            }
        }
        entries
    }

    /// The registered coordinates are the filed keys, one for one.
    proof fn lemma_keys(&self)
        ensures
            self@.dom().finite(),
            self@.dom().len() == self.tiles_by_coord@.dom().len(),
            self@.dom() == self.tiles_by_coord@.dom().map(|k: u64| key_coord(k)),
    {
        let keys = self.tiles_by_coord@.dom();
        let coords = keys.map(|k: u64| key_coord(k));
        assert(self@.dom() =~= coords) by {
            assert forall|c: Coord| self@.dom().contains(c) implies coords.contains(c) by {
                lemma_key_coord_inverse(c, 0);
                assert(keys.contains(coord_key(c)));
            }
            assert forall|c: Coord| coords.contains(c) implies self@.dom().contains(c) by {
                let k = choose|k: u64| keys.contains(k) && c == key_coord(k);
                lemma_key_coord_inverse(c, k);
            }
        }
        assert(vstd::relations::injective(|k: u64| key_coord(k))) by {
            assert forall|a: u64, b: u64| key_coord(a) == key_coord(b) implies a == b by {
                lemma_key_coord_inverse((0, 0), a);
                lemma_key_coord_inverse((0, 0), b);
            }
        }
        vstd::set_lib::lemma_map_size(keys, coords, |k: u64| key_coord(k));
        keys.lemma_map_finite(|k: u64| key_coord(k));
    }
}

/// Each key is below the next.
spec fn ascending(keys: Seq<u64>) -> bool {
    forall|i: int, j: int| 0 <= i < j < keys.len() ==> keys[i] < keys[j]
}

/// The order of coordinates: by `x` first and then by `z`.
pub open spec fn coord_precedes(a: Coord, b: Coord) -> bool {
    a.0 < b.0 || (a.0 == b.0 && a.1 < b.1)
}

/// The coordinates of `coords` that come before `c`.
pub open spec fn coords_before(coords: Set<Coord>, c: Coord) -> Set<Coord> {
    coords.filter(|d: Coord| coord_precedes(d, c))
}

/// The middle entry of the registry: the coordinate that half of the
/// registered coordinates, rounded down, come before, and the tile there.
/// `None` when the registry is empty.
pub fn get_middle(tile_registry: &TileRegistry) -> (middle: Option<(Coord, TileId)>)
    ensures
        match middle {
            Some((c, id)) => {
                &&& tile_registry@.contains_key(c)
                &&& tile_registry@[c] == id
                &&& coords_before(tile_registry@.dom(), c).len() == tile_registry@.dom().len() / 2
            },
            None => tile_registry@.dom().len() == 0,
        },
{
    if tile_registry.is_empty() {
        return None;
    }
    let keys = tile_registry.sorted_keys();
    proof {
        tile_registry.lemma_keys();
        assert(keys@.no_duplicates());
        keys@.unique_seq_to_set();
    }
    let middle_index = keys.len() / 2;
    let key = keys[middle_index];
    let coord = unpack(key);
    proof {
        assert(keys@.to_set().contains(key));
        lemma_key_coord_inverse(coord, key);
        let below = keys@.take(middle_index as int);
        assert(below.no_duplicates());
        below.unique_seq_to_set();
        let before = coords_before(tile_registry@.dom(), coord);
        let image = below.to_set().map(|k: u64| key_coord(k));
        assert(before =~= image) by {
            assert forall|d: Coord| before.contains(d) implies image.contains(d) by {
                lemma_coord_key_ordered(d, coord);
                lemma_key_coord_inverse(d, 0);
                let dk = coord_key(d);
                assert(keys@.to_set().contains(dk));
                let j = choose|j: int| 0 <= j < keys@.len() && keys@[j] == dk;
                if j >= middle_index {
                    if j > middle_index {
                        assert(keys@[middle_index as int] < keys@[j]);
                    }
                }
                assert(below[j] == dk);
                assert(below.to_set().contains(dk));
            }
            assert forall|d: Coord| image.contains(d) implies before.contains(d) by {
                let k = choose|k: u64| below.to_set().contains(k) && d == key_coord(k);
                let j = choose|j: int| 0 <= j < below.len() && below[j] == k;
                assert(keys@[j] == k);
                assert(keys@[j] < keys@[middle_index as int]);
                assert(keys@.to_set().contains(k));
                lemma_key_coord_inverse(d, k);
                lemma_coord_key_ordered(d, coord);
            }
        }
        assert(vstd::relations::injective(|k: u64| key_coord(k))) by {
            assert forall|a: u64, b: u64| key_coord(a) == key_coord(b) implies a == b by {
                lemma_key_coord_inverse((0, 0), a);
                lemma_key_coord_inverse((0, 0), b);
            }
        }
        vstd::set_lib::lemma_map_size(below.to_set(), image, |k: u64| key_coord(k));
    }
    match tile_registry.get(coord.0, coord.1) {
        Some(id) => Some((coord, id)),
        None => None,
    }
}

/// The offset along `x` of the `i`-th neighbour slot.
pub open spec fn slot_dx(i: int) -> int {
    if i == 1 || i == 2 || i == 3 {
        1
    } else if i == 5 || i == 6 || i == 7 {
        -1
    } else {
        0
    }
}

/// The offset along `z` of the `i`-th neighbour slot.
pub open spec fn slot_dz(i: int) -> int {
    if i == 0 || i == 1 || i == 7 {
        1
    } else if i == 3 || i == 4 || i == 5 {
        -1
    } else {
        0
    }
}

/// What the `i`-th neighbour slot of a tile at `(x, z)` holds under
/// `registry`: the tile at the offset coordinate, or nothing when that
/// coordinate is not registered or not a coordinate at all.
pub open spec fn neighbor_slot(registry: Map<Coord, TileId>, x: i32, z: i32, i: int) -> Option<
    TileId,
> {
    let nx = x + slot_dx(i);
    let nz = z + slot_dz(i);
    if i32::MIN <= nx <= i32::MAX && i32::MIN <= nz <= i32::MAX && registry.contains_key(
        (nx as i32, nz as i32),
    ) {
        Some(registry[(nx as i32, nz as i32)])
    } else {
        None
    }
}

/// The registry that the tiles of `entries` give: each is filed under its
/// coordinate, a later one replacing an earlier one at the same coordinate.
pub open spec fn coord_map(entries: Seq<TileEntry>) -> Map<Coord, TileId>
    decreases entries.len(),
{
    if entries.len() == 0 {
        Map::empty()
    } else {
        coord_map(entries.drop_last()).insert(
            (entries.last().tile.x, entries.last().tile.z),
            entries.last().id,
        )
    }
}

/// `after` is the entry `before` with its neighbour slots set from
/// `registry`, and nothing else changed.
pub open spec fn entry_resolved(
    registry: Map<Coord, TileId>,
    before: TileEntry,
    after: TileEntry,
) -> bool {
    &&& after.id == before.id
    &&& after.position == before.position
    &&& after.tile.x == before.tile.x
    &&& after.tile.z == before.tile.z
    &&& after.tile.walkable == before.tile.walkable
    &&& after.tile.selected == before.tile.selected
    &&& after.tile.hovered == before.tile.hovered
    &&& after.tile.idle_color == before.tile.idle_color
    &&& after.tile.selected_color == before.tile.selected_color
    &&& after.tile.hovered_color == before.tile.hovered_color
    &&& forall|i: int|
        0 <= i < 8 ==> #[trigger] after.tile.neighbor_entities@[i] == neighbor_slot(
            registry,
            before.tile.x,
            before.tile.z,
            i,
        )
}

/// `after` is `before` with the neighbour slots of every tile set from
/// `registry`, and nothing else changed.
pub open spec fn neighbors_resolved(
    registry: Map<Coord, TileId>,
    before: Seq<TileEntry>,
    after: Seq<TileEntry>,
) -> bool {
    &&& after.len() == before.len()
    &&& forall|k: int|
        0 <= k < before.len() ==> entry_resolved(registry, before[k], #[trigger] after[k])
}

/// The coordinate one step from `(x, z)` in the direction of slot `i`, when
/// it is a coordinate.
fn offset_coord(x: i32, z: i32, i: usize) -> (c: Option<Coord>)
    requires
        i < 8,
    ensures
        c == if i32::MIN <= x + slot_dx(i as int) <= i32::MAX && i32::MIN <= z + slot_dz(
            i as int,
        ) <= i32::MAX {
            Some(((x + slot_dx(i as int)) as i32, (z + slot_dz(i as int)) as i32))
        } else {
            None::<Coord>
        },
{
    let dx: i32 = if i == 1 || i == 2 || i == 3 {
        1
    } else if i == 5 || i == 6 || i == 7 {
        -1
    } else {
        0
    };
    let dz: i32 = if i == 0 || i == 1 || i == 7 {
        1
    } else if i == 3 || i == 4 || i == 5 {
        -1
    } else {
        0
    };
    match (x.checked_add(dx), z.checked_add(dz)) {
        (Some(nx), Some(nz)) => Some((nx, nz)),
        _ => None,
    }
}

/// The neighbour slots of a tile at `(x, z)`: for each of the eight
/// directions N, NE, E, SE, S, SW, W, NW the tile registered one step away,
/// if any.
pub fn calculate_neighbors_for_tile(tile_registry: &TileRegistry, x: i32, z: i32) -> (neighbors:
    [Option<TileId>; 8])
    ensures
        forall|i: int| 0 <= i < 8 ==> neighbors@[i] == neighbor_slot(tile_registry@, x, z, i),
{
    let mut neighbors: [Option<TileId>; 8] = [None, None, None, None, None, None, None, None];
    let mut i: usize = 0;
    while i < 8
        invariant
            0 <= i <= 8,
            forall|j: int| 0 <= j < i ==> neighbors@[j] == neighbor_slot(tile_registry@, x, z, j),
        decreases 8 - i,
    {
        let found = match offset_coord(x, z, i) {
            Some((nx, nz)) => tile_registry.get(nx, nz),
            None => None,
        };
        neighbors[i] = found;
        i += 1;
    }
    neighbors
}

/// Sets the neighbour slots of every stored tile from the registry.
pub fn calculate_tile_neighbors(tile_registry: &TileRegistry, tiles: &mut TileStore)
    requires
        old(tiles).wf(),
    ensures
        final(tiles).wf(),
        neighbors_resolved(tile_registry@, old(tiles)@, final(tiles)@),
{
    let n = tiles.len();
    let mut k: usize = 0;
    while k < n
        invariant
            0 <= k <= n,
            n == old(tiles)@.len(),
            tiles.wf(),
            tiles@.len() == n,
            forall|j: int|
                0 <= j < k ==> entry_resolved(tile_registry@, old(tiles)@[j], #[trigger] tiles@[j]),
            forall|j: int| k <= j < n ==> tiles@[j] == old(tiles)@[j],
        decreases n - k,
    {
        let entry = tiles.entry_at(k);
        let neighbors = calculate_neighbors_for_tile(tile_registry, entry.tile.x, entry.tile.z);
        tiles.set_neighbors_at(k, neighbors);
        k += 1;
    }
}

/// Rebuilds the registry from the stored tiles and then every tile's
/// neighbour slots from the registry.
///
/// The registry is emptied first, so what it held before has no part in the
/// result.
pub fn build_tile_registry(tile_registry: &mut TileRegistry, tiles: &mut TileStore)
    requires
        old(tiles).wf(),
    ensures
        final(tiles).wf(),
        final(tile_registry)@ == coord_map(old(tiles)@),
        neighbors_resolved(final(tile_registry)@, old(tiles)@, final(tiles)@),
{
    tile_registry.clear();
    let n = tiles.len();
    let mut k: usize = 0;
    while k < n
        invariant
            0 <= k <= n,
            n == tiles@.len(),
            tile_registry@ == coord_map(tiles@.take(k as int)),
        decreases n - k,
    {
        let entry = tiles.entry_at(k);
        tile_registry.insert(entry.tile.x, entry.tile.z, entry.id);
        proof {
            let next = tiles@.take(k + 1);
            assert(next.drop_last() =~= tiles@.take(k as int));
            assert(next.last() == tiles@[k as int]);
        }
        k += 1;
    }
    proof {
        assert(tiles@.take(n as int) =~= tiles@);
    }
    calculate_tile_neighbors(tile_registry, tiles);
}

/// Some entry of `entries` stands at `c` and has identity `id`.
pub open spec fn stands_at(entries: Seq<TileEntry>, c: Coord, id: TileId) -> bool {
    exists|k: int|
        0 <= k < entries.len() && (#[trigger] entries[k]).tile.x == c.0 && entries[k].tile.z == c.1
            && entries[k].id == id
}

/// The registry that tiles give holds a coordinate exactly when a tile stands
/// there, and then names a tile that stands there.
pub proof fn lemma_coord_map_holds(entries: Seq<TileEntry>, c: Coord)
    ensures
        coord_map(entries).contains_key(c) <==> exists|id: TileId| stands_at(entries, c, id),
        coord_map(entries).contains_key(c) ==> stands_at(entries, c, coord_map(entries)[c]),
    decreases entries.len(),
{
    if entries.len() > 0 {
        let rest = entries.drop_last();
        let last = entries.last();
        lemma_coord_map_holds(rest, c);
        if (last.tile.x, last.tile.z) == c {
            assert(entries[entries.len() - 1] == last);
            assert(stands_at(entries, c, last.id));
        } else {
            if coord_map(rest).contains_key(c) {
                let id = coord_map(rest)[c];
                let k = choose|k: int|
                    0 <= k < rest.len() && (#[trigger] rest[k]).tile.x == c.0 && rest[k].tile.z
                        == c.1 && rest[k].id == id;
                assert(entries[k] == rest[k]);
                assert(stands_at(entries, c, id));
            }
            if exists|id: TileId| stands_at(entries, c, id) {
                let id = choose|id: TileId| stands_at(entries, c, id);
                let k = choose|k: int|
                    0 <= k < entries.len() && (#[trigger] entries[k]).tile.x == c.0
                        && entries[k].tile.z == c.1 && entries[k].id == id;
                assert(k < rest.len());
                assert(rest[k] == entries[k]);
                assert(stands_at(rest, c, id));
            }
        }
    }
}

/// The registry that tiles give depends only on their identities and coordinates.
pub proof fn lemma_coord_map_same(a: Seq<TileEntry>, b: Seq<TileEntry>)
    requires
        a.len() == b.len(),
        forall|k: int|
            0 <= k < a.len() ==> (#[trigger] a[k]).id == b[k].id && a[k].tile.x == b[k].tile.x
                && a[k].tile.z == b[k].tile.z,
    ensures
        coord_map(a) == coord_map(b),
    decreases a.len(),
{
    if a.len() > 0 {
        assert(a[a.len() - 1].id == b[b.len() - 1].id);
        lemma_coord_map_same(a.drop_last(), b.drop_last());
    }
}

/// Rebuilding is idempotent: a second rebuild of the same tiles leaves the
/// registry and every tile, neighbour slots included, as the first left them.
pub proof fn lemma_rebuild_idempotent(
    tiles: Seq<TileEntry>,
    registry_once: Map<Coord, TileId>,
    tiles_once: Seq<TileEntry>,
    registry_twice: Map<Coord, TileId>,
    tiles_twice: Seq<TileEntry>,
)
    requires
        registry_once == coord_map(tiles),
        neighbors_resolved(registry_once, tiles, tiles_once),
        registry_twice == coord_map(tiles_once),
        neighbors_resolved(registry_twice, tiles_once, tiles_twice),
    ensures
        registry_twice == registry_once,
        tiles_twice == tiles_once,
{
    assert forall|k: int| 0 <= k < tiles.len() implies (#[trigger] tiles[k]).id == tiles_once[k].id
        && tiles[k].tile.x == tiles_once[k].tile.x && tiles[k].tile.z
        == tiles_once[k].tile.z by {
        assert(entry_resolved(registry_once, tiles[k], tiles_once[k]));
    }
    lemma_coord_map_same(tiles, tiles_once);
    assert forall|k: int| 0 <= k < tiles_once.len() implies tiles_twice[k] == tiles_once[k] by {
        assert(entry_resolved(registry_once, tiles[k], tiles_once[k]));
        assert(entry_resolved(registry_twice, tiles_once[k], tiles_twice[k]));
        let once = tiles_once[k].tile.neighbor_entities;
        let twice = tiles_twice[k].tile.neighbor_entities;
        assert forall|i: int| 0 <= i < 8 implies once@[i] == twice@[i] by {
            assert(once@[i] == neighbor_slot(registry_once, tiles[k].tile.x, tiles[k].tile.z, i));
            assert(twice@[i] == neighbor_slot(
                registry_twice,
                tiles_once[k].tile.x,
                tiles_once[k].tile.z,
                i,
            ));
        }
        assert(once@ =~= twice@);
        assert(once == twice);
    }
    assert(tiles_twice =~= tiles_once);
}

} // verus!
