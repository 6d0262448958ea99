//! A tile world that is ready for use: its registry and the neighbour slots
//! of its tiles are those that a rebuild gives.
//!
//! A `TileWorld` can only be had from `TileWorld::build`, and nothing that
//! can be done to it changes the layout. So a search on its tiles never
//! follows slots that are stale.

use crate::registry::{build_tile_registry, coord_map, entry_resolved, neighbors_resolved};
use crate::registry::{lemma_coord_map_same, Coord, TileRegistry};
use crate::tiles::{entry_map, index_of, lemma_entry_map_key, Tile, TileEntry, TileId, TileStore};
use vstd::prelude::*;

verus! {

/// Tiles together with the registry built from them.
pub struct TileWorld {
    tiles: TileStore,
    registry: TileRegistry,
}

/// The registry and the neighbour slots of `tiles` are what a rebuild of
/// `tiles` gives.
pub open spec fn is_ready(registry: Map<Coord, TileId>, tiles: Seq<TileEntry>) -> bool {
    registry == coord_map(tiles) && neighbors_resolved(registry, tiles, tiles)
}

impl TileWorld {
    /// The tiles, in the order of their insertion.
    pub closed spec fn tiles_view(&self) -> Seq<TileEntry> {
        self.tiles@
    }

    /// The tile registered at each coordinate.
    pub closed spec fn registry_view(&self) -> Map<Coord, TileId> {
        self.registry@
    }

    /// The tiles keyed by identity.
    pub open spec fn map(&self) -> Map<TileId, TileEntry> {
        entry_map(self.tiles_view())
    }

    /// The world's invariant: the store is in order and the world is ready.
    pub closed spec fn wf(&self) -> bool {
        self.tiles.wf() && is_ready(self.registry@, self.tiles@)
    }

    /// What the invariant says of the views.
    pub proof fn lemma_wf(&self)
        requires
            self.wf(),
        ensures
            is_ready(self.registry_view(), self.tiles_view()),
    {
    }

    /// Makes a world of `tiles`: builds the registry from them and sets
    /// their neighbour slots from it.
    pub fn build(tiles: TileStore) -> (world: TileWorld)
        requires
            tiles.wf(),
        ensures
            world.wf(),
            world.registry_view() == coord_map(tiles@),
            neighbors_resolved(coord_map(tiles@), tiles@, world.tiles_view()),
    {
        let mut tiles = tiles;
        let ghost before = tiles@;
        let mut registry = TileRegistry::new();
        build_tile_registry(&mut registry, &mut tiles);
        proof {
            assert forall|k: int| 0 <= k < before.len() implies (#[trigger] before[k]).id
                == tiles@[k].id && before[k].tile.x == tiles@[k].tile.x && before[k].tile.z
                == tiles@[k].tile.z by {
                assert(entry_resolved(registry@, before[k], tiles@[k]));
            }
            lemma_coord_map_same(before, tiles@);
            assert forall|k: int| 0 <= k < tiles@.len() implies entry_resolved(
                registry@,
                tiles@[k],
                #[trigger] tiles@[k],
            ) by {
                assert(entry_resolved(registry@, before[k], tiles@[k]));
            }
        }
        TileWorld { tiles, registry }
    }

    /// The tiles.
    pub fn tiles(&self) -> (tiles: &TileStore)
        requires
            self.wf(),
        ensures
            tiles.wf(),
            tiles@ == self.tiles_view(),
    {
        &self.tiles
    }

    /// The registry.
    pub fn registry(&self) -> (registry: &TileRegistry)
        ensures
            registry@ == self.registry_view(),
    {
        &self.registry
    }

    /// Gives the tiles back, to change their layout and build a world anew.
    pub fn into_tiles(self) -> (tiles: TileStore)
        requires
            self.wf(),
        ensures
            tiles.wf(),
            tiles@ == self.tiles_view(),
    {
        self.tiles
    }

    /// Replaces the tile data of `id`, but for its coordinate and its
    /// neighbour slots, which stay. Returns whether there was such a tile.
    pub fn set_tile(&mut self, id: TileId, tile: Tile) -> (found: bool)
        requires
            old(self).wf(),
        ensures
            final(self).wf(),
            final(self).registry_view() == old(self).registry_view(),
            found == old(self).map().contains_key(id),
            found ==> final(self).tiles_view() == old(self).tiles_view().update(
                index_of(old(self).tiles_view(), id),
                TileEntry {
                    id,
                    tile: Tile {
                        x: old(self).map()[id].tile.x,
                        z: old(self).map()[id].tile.z,
                        neighbor_entities: old(self).map()[id].tile.neighbor_entities,
                        ..tile
                    },
                    position: old(self).map()[id].position,
                },
            ),
            !found ==> final(self).tiles_view() == old(self).tiles_view(),
    {
        let ghost before = self.tiles@;
        let kept = match self.tiles.get(id) {
            Some(entry) => Tile {
                x: entry.tile.x,
                z: entry.tile.z,
                neighbor_entities: entry.tile.neighbor_entities,
                ..tile
            },
            None => {
                return false;
            },
        };
        let found = self.tiles.set_tile(id, kept);
        proof {
            lemma_entry_map_key(before, id);
            let at = index_of(before, id);
            assert forall|k: int| 0 <= k < before.len() implies (#[trigger] before[k]).id
                == self.tiles@[k].id && before[k].tile.x == self.tiles@[k].tile.x
                && before[k].tile.z == self.tiles@[k].tile.z by {}
            lemma_coord_map_same(before, self.tiles@);
            assert forall|k: int| 0 <= k < self.tiles@.len() implies entry_resolved(
                self.registry@,
                self.tiles@[k],
                #[trigger] self.tiles@[k],
            ) by {
                assert(entry_resolved(self.registry@, before[k], before[k]));
            }
        }
        found
    }

    /// Marks the tile `id` walkable or not. Returns whether there was such a tile.
    pub fn set_walkable(&mut self, id: TileId, walkable: bool) -> (found: bool)
        requires
            old(self).wf(),
        ensures
            final(self).wf(),
            final(self).registry_view() == old(self).registry_view(),
            found == old(self).map().contains_key(id),
            found ==> final(self).tiles_view() == old(self).tiles_view().update(
                index_of(old(self).tiles_view(), id),
                TileEntry {
                    id,
                    tile: Tile { walkable, ..old(self).map()[id].tile },
                    position: old(self).map()[id].position,
                },
            ),
            !found ==> final(self).tiles_view() == old(self).tiles_view(),
    {
        match self.tiles.get(id) {
            Some(entry) => {
                let mut tile = entry.tile;
                tile.walkable = walkable;
                self.set_tile(id, tile)
            },
            None => false,
        }
    }
}

} // verus!
