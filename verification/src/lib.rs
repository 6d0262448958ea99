//! Tile-graph pathfinding and path-following movement on fixed-point positions.
//!
//! Tiles live in a [`tiles::TileStore`], are found by grid coordinate through a
//! [`registry::TileRegistry`], and are linked by cached neighbour slots; a
//! [`world::TileWorld`] holds the two in step. A search over the slots yields
//! a route ([`pathfinding`]), a request installs it on a mover, and a
//! per-frame step walks the mover along it ([`movement`]).
//!
//! Positions, distances, speed and progress are integers: positions count
//! [`geometry::UNITS_PER_WORLD`] units to the world unit, frame time counts
//! microseconds, and progress along a segment counts parts of
//! [`movement::PROGRESS_ONE`].

pub mod animation;
pub mod enemy;
pub mod geometry;
pub mod grid;
pub mod grid_search;
pub mod movement;
pub mod open_set;
pub mod pathfinding;
pub mod registry;
mod search;
pub mod selection;
pub mod tiles;
pub mod world;
