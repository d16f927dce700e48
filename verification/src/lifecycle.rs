//! One-shot deferred construction of the collision grid: the build is
//! retried every tick until the terrain generator has produced at least one
//! observation, and the transition to the built state is one-way for the
//! session.

use vstd::prelude::*;
use crate::builder::{build_collision_map, grid_span_x, grid_span_y, is_built_from,
    obs_in_limits, SpawnedTileObservation};
use crate::grid::{CollisionMap, CELL_LIMIT, WORLD_LIMIT};

verus! {

/// The build lifecycle: `Pending` accepts repeated build attempts (a no-op
/// until observations arrive); `Built` holds the finished grid and never
/// changes again.
pub enum MapBuildState {
    Pending,
    Built(CollisionMap),
}

impl MapBuildState {
    /// Well-formedness: a built state holds a well-formed grid.
    pub open spec fn wf(&self) -> bool {
        match self {
            MapBuildState::Pending => true,
            MapBuildState::Built(g) => g.wf(),
        }
    }

    /// A fresh lifecycle, before any build attempt.
    pub fn new() -> (s: Self)
        ensures
            s is Pending,
    {
        MapBuildState::Pending
    }

    /// Whether the grid has been built.
    pub fn is_built(&self) -> (r: bool)
        ensures
            r == (self is Built),
    {
        match self {
            MapBuildState::Built(_) => true,
            MapBuildState::Pending => false,
        }
    }

    /// The built grid, if the one-shot build has happened.
    pub fn grid(&self) -> (r: Option<&CollisionMap>)
        ensures
            self is Pending ==> r is None,
            forall|g: CollisionMap| *self == MapBuildState::Built(g) ==> r == Some(&g),
    {
        match self {
            MapBuildState::Built(g) => Some(g),
            MapBuildState::Pending => None,
        }
    }

    /// One tick of the deferred build: once built, nothing changes; while
    /// pending with no observations, stay pending; otherwise build the grid
    /// and move to `Built` for good.
    pub fn try_build(&mut self, observations: &Vec<SpawnedTileObservation>, tile_size: i64,
        origin_x: i64, origin_y: i64)
        requires
            old(self).wf(),
            1 <= tile_size <= WORLD_LIMIT,
            -WORLD_LIMIT <= origin_x <= WORLD_LIMIT,
            -WORLD_LIMIT <= origin_y <= WORLD_LIMIT,
            forall|i: int|
                0 <= i < observations@.len()
                    ==> obs_in_limits(#[trigger] observations@[i], tile_size as int),
            observations@.len() > 0
                ==> grid_span_x(observations@, tile_size as int, origin_x as int)
                    * grid_span_y(observations@, tile_size as int, origin_y as int)
                    <= CELL_LIMIT as int,
        ensures
            final(self).wf(),
            (*old(self)) is Built ==> *final(self) == *old(self),
            (*old(self)) is Pending && observations@.len() == 0 ==> (*final(self)) is Pending,
            (*old(self)) is Pending && observations@.len() > 0 ==> match *final(self) {
                MapBuildState::Built(g) => is_built_from(g, observations@, tile_size as int,
                    origin_x as int, origin_y as int),
                MapBuildState::Pending => false,
            },
    {
        match self {
            MapBuildState::Built(_) => {},
            MapBuildState::Pending => {
                match build_collision_map(observations, tile_size, origin_x, origin_y) {
                    Ok(g) => {
                        *self = MapBuildState::Built(g);
                    },
                    Err(_) => {},
                }
            },
        }
    }
}

} // verus!
