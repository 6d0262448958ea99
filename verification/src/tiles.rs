//! Tiles, their neighbour slots, and the store that holds them by identity.

use crate::geometry::Position;
use std::collections::HashMap;
use vstd::prelude::*;

verus! {

broadcast use vstd::std_specs::hash::group_hash_axioms;

/// Identity of a tile.
pub type TileId = u64;

/// A display colour, one byte for each channel.
#[derive(Clone, Copy, Debug, PartialEq, Eq, Structural)]
pub struct TileColor {
    pub red: u8,
    pub green: u8,
    pub blue: u8,
}

/// One cell of the grid.
///
/// `neighbor_entities` caches the adjacent tiles in the order N, NE, E, SE, S,
/// SW, W, NW. It is filled when the registry is rebuilt and may be stale after
/// a later change of the layout.
#[derive(Clone, Copy, Debug)]
pub struct Tile {
    pub x: i32,
    pub z: i32,
    pub walkable: bool,
    pub selected: bool,
    pub hovered: bool,
    pub idle_color: TileColor,
    pub selected_color: TileColor,
    pub hovered_color: TileColor,
    pub neighbor_entities: [Option<TileId>; 8],
}

impl Tile {
    /// A walkable tile at `(x, z)` with the default colours and no neighbours.
    pub fn at(x: i32, z: i32) -> (t: Tile)
        ensures
            t.x == x,
            t.z == z,
            t.walkable,
            !t.selected,
            !t.hovered,
            t.idle_color == (TileColor { red: 0, green: 0, blue: 0 }),
            t.selected_color == (TileColor { red: 255, green: 0, blue: 0 }),
            t.hovered_color == (TileColor { red: 0, green: 255, blue: 0 }),
            forall|i: int| 0 <= i < 8 ==> t.neighbor_entities[i] == None::<TileId>,
    {
        Tile {
            x,
            z,
            walkable: true,
            selected: false,
            hovered: false,
            idle_color: TileColor { red: 0, green: 0, blue: 0 },
            selected_color: TileColor { red: 255, green: 0, blue: 0 },
            hovered_color: TileColor { red: 0, green: 255, blue: 0 },
            neighbor_entities: [None, None, None, None, None, None, None, None],
        }
    }

    /// The colour to draw the tile in: selection wins over hovering.
    pub fn display_color(&self) -> (c: TileColor)
        ensures
            c == if self.selected {
                self.selected_color
            } else if self.hovered {
                self.hovered_color
            } else {
                self.idle_color
            },
    {
        if self.selected {
            self.selected_color
        } else if self.hovered {
            self.hovered_color
        } else {
            self.idle_color
        }
    }
}

impl Default for Tile {
    fn default() -> (t: Tile)
        ensures
            t.x == 0,
            t.z == 0,
            t.walkable,
            !t.selected,
            !t.hovered,
            t.idle_color == (TileColor { red: 0, green: 0, blue: 0 }),
            t.selected_color == (TileColor { red: 255, green: 0, blue: 0 }),
            t.hovered_color == (TileColor { red: 0, green: 255, blue: 0 }),
            forall|i: int| 0 <= i < 8 ==> t.neighbor_entities[i] == None::<TileId>,
    {
        Tile::at(0, 0)
    }
}

/// A tile together with its identity and its place in the world.
#[derive(Clone, Copy, Debug)]
pub struct TileEntry {
    pub id: TileId,
    pub tile: Tile,
    pub position: Position,
}

/// No two entries of `entries` share an identity.
pub open spec fn distinct_ids(entries: Seq<TileEntry>) -> bool {
    forall|i: int, j: int|
        0 <= i < entries.len() && 0 <= j < entries.len() && i != j ==> entries[i].id
            != entries[j].id
}

/// Some entry of `entries` has identity `id`.
pub open spec fn has_id(entries: Seq<TileEntry>, id: TileId) -> bool {
    exists|i: int| 0 <= i < entries.len() && #[trigger] entries[i].id == id
}

/// The index of an entry of `entries` with identity `id`.
pub open spec fn index_of(entries: Seq<TileEntry>, id: TileId) -> int {
    choose|i: int| 0 <= i < entries.len() && #[trigger] entries[i].id == id
}

/// The entries of a store, keyed by identity.
pub open spec fn entry_map(entries: Seq<TileEntry>) -> Map<TileId, TileEntry> {
    Map::new(|id: TileId| has_id(entries, id), |id: TileId| entries[index_of(entries, id)])
}

/// With distinct identities, each entry is what `entry_map` holds under its identity.
pub proof fn lemma_entry_map_at(entries: Seq<TileEntry>, i: int)
    requires
        distinct_ids(entries),
        0 <= i < entries.len(),
    ensures
        entry_map(entries).contains_key(entries[i].id),
        entry_map(entries)[entries[i].id] == entries[i],
        index_of(entries, entries[i].id) == i,
{
    let id = entries[i].id;
    assert(has_id(entries, id));
    let j = index_of(entries, id);
    assert(0 <= j < entries.len() && entries[j].id == id);
}

/// Whatever `entry_map` holds under `id` is an entry with that identity.
pub proof fn lemma_entry_map_key(entries: Seq<TileEntry>, id: TileId)
    requires
        entry_map(entries).contains_key(id),
    ensures
        0 <= index_of(entries, id) < entries.len(),
        entries[index_of(entries, id)].id == id,
        entry_map(entries)[id] == entries[index_of(entries, id)],
        entry_map(entries)[id].id == id,
{
    assert(has_id(entries, id));
}

/// The tiles of a world, each with an identity and a position.
///
/// Identities are unique and every position is in bounds. The order of the
/// entries is the order in which they were inserted.
pub struct TileStore {
    entries: Vec<TileEntry>,
    index: HashMap<u64, usize>,
}

impl View for TileStore {
    type V = Seq<TileEntry>;

    /// The entries in the order of their insertion.
    closed spec fn view(&self) -> Seq<TileEntry> {
        self.entries@
    }
}

impl TileStore {
    /// The store's invariant.
    pub closed spec fn wf(&self) -> bool {
        &&& forall|i: int|
            0 <= i < self.entries@.len() ==> {
                &&& self.index@.contains_key(#[trigger] self.entries@[i].id)
                &&& self.index@[self.entries@[i].id] == i
                &&& self.entries@[i].position.in_bounds()
            }
        &&& forall|id: u64| #[trigger]
            self.index@.contains_key(id) ==> {
                &&& 0 <= self.index@[id] < self.entries@.len()
                &&& self.entries@[self.index@[id] as int].id == id
            }
    }

    /// The entries keyed by identity.
    pub open spec fn map(&self) -> Map<TileId, TileEntry> {
        entry_map(self@)
    }

    /// What the invariant says of the view.
    pub proof fn lemma_wf(&self)
        requires
            self.wf(),
        ensures
            distinct_ids(self@),
            self@.len() <= usize::MAX,
            self.map().dom().finite(),
            forall|i: int| 0 <= i < self@.len() ==> (#[trigger] self@[i]).position.in_bounds(),
            forall|id: TileId|
                self.map().contains_key(id) ==> (#[trigger] self.map()[id]).position.in_bounds()
                    && self.map()[id].id == id,
    {
        assert(self.entries.len() == self@.len());
        assert(self.map().dom() =~= self.index@.dom()) by {
            assert forall|id: TileId| self.map().dom().contains(id) implies self.index@.dom()
                .contains(id) by {
                lemma_entry_map_key(self@, id);
                let i = index_of(self@, id);
                assert(self.index@.contains_key(self.entries@[i].id));
            }
            assert forall|id: TileId| self.index@.dom().contains(id) implies self.map().dom()
                .contains(id) by {
                assert(self.index@.contains_key(id));
                assert(self.entries@[self.index@[id] as int].id == id);
                assert(has_id(self@, id));
            }
        }
        assert forall|i: int| 0 <= i < self@.len() implies (#[trigger] self@[i])
            .position.in_bounds() by {
            assert(self.index@.contains_key(self.entries@[i].id));
        }
        assert forall|id: TileId| self.map().contains_key(id) implies (#[trigger] self.map()[id])
            .position.in_bounds() && self.map()[id].id == id by {
            lemma_entry_map_key(self@, id);
        }
    }

    /// The index knows exactly the stored identities, and where each is stored.
    proof fn lemma_index(&self, id: u64)
        requires
            self.wf(),
        ensures
            self.index@.contains_key(id) <==> self.map().contains_key(id),
            self.index@.contains_key(id) ==> self.map()[id] == self.entries@[self.index@[id] as int],
    {
        if self.index@.contains_key(id) {
            let i = self.index@[id] as int;
            assert(self.entries@[i].id == id);
            assert(has_id(self@, id));
            self.lemma_wf();
            lemma_entry_map_at(self@, i);
        }
        if self.map().contains_key(id) {
            lemma_entry_map_key(self@, id);
        }
    }

    /// An empty store.
    pub fn new() -> (s: TileStore)
        ensures
            s.wf(),
            s@ == Seq::<TileEntry>::empty(),
    {
        TileStore { entries: Vec::new(), index: HashMap::new() }
    }

    /// Number of tiles.
    pub fn len(&self) -> (n: usize)
        ensures
            n == self@.len(),
    {
        self.entries.len()
    }

    /// The `i`-th tile in insertion order.
    pub fn entry_at(&self, i: usize) -> (e: &TileEntry)
        requires
            i < self@.len(),
        ensures
            *e == self@[i as int],
    {
        &self.entries[i]
    }

    /// Whether a tile with identity `id` is stored.
    pub fn contains(&self, id: TileId) -> (b: bool)
        requires
            self.wf(),
        ensures
            b == self.map().contains_key(id),
    {
        proof {
            self.lemma_index(id);
        }
        self.index.contains_key(&id)
    }

    /// The tile with identity `id`, if there is one.
    pub fn get(&self, id: TileId) -> (r: Option<&TileEntry>)
        requires
            self.wf(),
        ensures
            match r {
                Some(e) => self.map().contains_key(id) && *e == self.map()[id] && e.id == id
                    && e.position.in_bounds(),
                None => !self.map().contains_key(id),
            },
    {
        proof {
            self.lemma_index(id);
            self.lemma_wf();
        }
        match self.index.get(&id) {
            Some(i) => Some(&self.entries[*i]),
            None => None,
        }
    }

    /// Adds a tile. Nothing is added, and `false` returned, when the identity
    /// is taken or the position is out of bounds.
    pub fn insert(&mut self, id: TileId, tile: Tile, position: Position) -> (added: bool)
        requires
            old(self).wf(),
        ensures
            final(self).wf(),
            added == (!old(self).map().contains_key(id) && position.in_bounds()),
            added ==> final(self)@ == old(self)@.push(TileEntry { id, tile, position }),
            !added ==> final(self)@ == old(self)@,
    {
        proof {
            self.lemma_index(id);
        }
        if self.index.contains_key(&id) || !position.is_in_bounds() {
            return false;
        }
        let at = self.entries.len();
        self.entries.push(TileEntry { id, tile, position });
        self.index.insert(id, at);
        true
    }

    /// Replaces the tile data of `id`, keeping identity and position. Returns
    /// whether there was such a tile.
    pub fn set_tile(&mut self, id: TileId, tile: Tile) -> (found: bool)
        requires
            old(self).wf(),
        ensures
            final(self).wf(),
            found == old(self).map().contains_key(id),
            found ==> final(self)@ == old(self)@.update(
                index_of(old(self)@, id),
                TileEntry { id, tile, position: old(self).map()[id].position },
            ),
            !found ==> final(self)@ == old(self)@,
    {
        proof {
            self.lemma_index(id);
            self.lemma_wf();
        }
        match self.index.get(&id) {
            Some(i) => {
                let at = *i;
                proof {
                    lemma_entry_map_at(self@, at as int);
                }
                let position = self.entries[at].position;
                self.entries[at] = TileEntry { id, tile, position };
                true
            },
            None => false,
        }
    }

    /// Replaces the neighbour slots of the `k`-th tile.
    pub fn set_neighbors_at(&mut self, k: usize, neighbors: [Option<TileId>; 8])
        requires
            old(self).wf(),
            k < old(self)@.len(),
        ensures
            final(self).wf(),
            final(self)@ == old(self)@.update(
                k as int,
                TileEntry {
                    id: old(self)@[k as int].id,
                    tile: Tile { neighbor_entities: neighbors, ..old(self)@[k as int].tile },
                    position: old(self)@[k as int].position,
                },
            ),
    {
        let mut entry = self.entries[k];
        entry.tile.neighbor_entities = neighbors;
        self.entries[k] = entry;
    }

    /// Marks the tile `id` walkable or not. Returns whether there was such a tile.
    pub fn set_walkable(&mut self, id: TileId, walkable: bool) -> (found: bool)
        requires
            old(self).wf(),
        ensures
            final(self).wf(),
            found == old(self).map().contains_key(id),
            found ==> final(self)@ == old(self)@.update(
                index_of(old(self)@, id),
                TileEntry {
                    id,
                    tile: Tile { walkable, ..old(self).map()[id].tile },
                    position: old(self).map()[id].position,
                },
            ),
            !found ==> final(self)@ == old(self)@,
    {
        match self.get(id) {
            Some(e) => {
                let mut tile = e.tile;
                tile.walkable = walkable;
                self.set_tile(id, tile)
            },
            None => false,
        }
    }
}

} // verus!
