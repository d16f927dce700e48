//! Terrain collision core for a 2D top-down exploration game.
//!
//! A multi-layer stream of spawned tile observations is flattened into a
//! single walkability grid; circle-vs-grid collision queries and swept,
//! tunneling-safe movement then run against that grid. World space is
//! measured in integer fixed-point units, so every geometric computation
//! here is exact.

pub mod builder;
pub mod dump;
pub mod grid;
pub mod lifecycle;
pub mod math;
pub mod query;
pub mod spawn;
pub mod sweep;
pub mod tile;

pub use builder::{build_collision_map, BuildError, SpawnedTileObservation};
pub use grid::{CollisionMap, WorldPos};
pub use lifecycle::MapBuildState;
pub use tile::TileType;
