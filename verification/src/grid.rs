//! The collision grid: a flattened, row-major array of tile categories with
//! origin, size and cell-size metadata, plus bounds and coordinate-transform
//! queries.
//!
//! World space is measured in integer fixed-point units. A cell `(x, y)`
//! covers the world-space square
//! `[origin + x * tile_size, origin + (x + 1) * tile_size)` on each axis.

use vstd::prelude::*;
use crate::math::{floor_div, lemma_div_bounded_dividend};
use crate::tile::{walkable, TileType};

verus! {

/// Greatest magnitude, in fixed-point world units, of any coordinate the
/// collision core handles. Keeps every squared distance and every
/// grid-extent computation inside `i64`.
pub const WORLD_LIMIT: i64 = 1_000_000_000;

/// Greatest number of cells a grid may hold, so that flattened indices fit
/// `usize` on every target and a grid is always cheap to allocate.
pub const CELL_LIMIT: i64 = 16_777_216;

/// A world-space point in fixed-point units.
#[derive(Clone, Copy, Debug, PartialEq, Eq, Structural)]
pub struct WorldPos {
    pub x: i64,
    pub y: i64,
}

/// Whether a point lies within the coordinate range the core accepts.
pub open spec fn in_world_limits(p: WorldPos) -> bool {
    &&& -WORLD_LIMIT <= p.x <= WORLD_LIMIT
    &&& -WORLD_LIMIT <= p.y <= WORLD_LIMIT
}

/// Walkability grid for the whole game map. Built once from spawned tile
/// observations, then shared read-only by every collision query.
pub struct CollisionMap {
    pub tiles: Vec<TileType>,
    pub width: i32,
    pub height: i32,
    pub tile_size: i64,
    pub grid_origin_x: i64,
    pub grid_origin_y: i64,
}

impl CollisionMap {
    /// Well-formedness: positive extents, one tile per cell, and a world
    /// extent that stays inside the coordinate range the core accepts.
    pub open spec fn wf(&self) -> bool {
        &&& 0 < self.width
        &&& 0 < self.height
        &&& self.width as int * self.height as int <= CELL_LIMIT as int
        &&& self.tiles@.len() == self.width as int * self.height as int
        &&& 1 <= self.tile_size
        &&& -WORLD_LIMIT <= self.grid_origin_x
        &&& self.grid_origin_x + self.width as int * self.tile_size as int <= WORLD_LIMIT
        &&& -WORLD_LIMIT <= self.grid_origin_y
        &&& self.grid_origin_y + self.height as int * self.tile_size as int <= WORLD_LIMIT
    }

    /// Whether grid coordinates lie inside the grid.
    pub open spec fn spec_in_bounds(&self, x: int, y: int) -> bool {
        &&& 0 <= x < self.width
        &&& 0 <= y < self.height
    }

    /// The flattened row-major index of cell `(x, y)`.
    pub open spec fn spec_idx(&self, x: int, y: int) -> int {
        y * self.width + x
    }

    /// The category stored at cell `(x, y)`.
    pub open spec fn cell_at(&self, x: int, y: int) -> TileType {
        self.tiles@[self.spec_idx(x, y)]
    }

    /// Whether cell `(x, y)` is inside the grid and walkable.
    pub open spec fn spec_walkable_at(&self, x: int, y: int) -> bool {
        &&& self.spec_in_bounds(x, y)
        &&& walkable(self.cell_at(x, y))
    }

    /// The grid column of world coordinate `wx` (may lie outside the grid).
    pub open spec fn grid_x_of(&self, wx: int) -> int {
        (wx - self.grid_origin_x) / self.tile_size as int
    }

    /// The grid row of world coordinate `wy` (may lie outside the grid).
    pub open spec fn grid_y_of(&self, wy: int) -> int {
        (wy - self.grid_origin_y) / self.tile_size as int
    }

    /// Whether the world point `(px, py)` falls on a walkable in-bounds cell.
    pub open spec fn point_walkable(&self, px: int, py: int) -> bool {
        self.spec_walkable_at(self.grid_x_of(px), self.grid_y_of(py))
    }

    /// The world-space coordinate of the centre of cell `(x, y)`, x axis.
    pub open spec fn spec_cell_center_x(&self, x: int) -> int {
        self.grid_origin_x + x * self.tile_size + self.tile_size as int / 2
    }

    /// The world-space coordinate of the centre of cell `(x, y)`, y axis.
    pub open spec fn spec_cell_center_y(&self, y: int) -> int {
        self.grid_origin_y + y * self.tile_size + self.tile_size as int / 2
    }

    /// Create a grid of the given extents with every cell `Empty`.
    ///
    /// Rejects (with `None`) a zero-area or negative-area grid, a
    /// non-positive cell size, extents whose world span leaves the accepted
    /// coordinate range, and a grid with more than `CELL_LIMIT` cells.
    pub fn with_origin(width: i32, height: i32, tile_size: i64, origin_x: i64, origin_y: i64)
        -> (r: Option<CollisionMap>)
        ensures
            r is Some <==> {
                &&& 0 < width
                &&& 0 < height
                &&& width as int * height as int <= CELL_LIMIT as int
                &&& 1 <= tile_size <= WORLD_LIMIT
                &&& -WORLD_LIMIT <= origin_x
                &&& origin_x + width as int * tile_size as int <= WORLD_LIMIT
                &&& -WORLD_LIMIT <= origin_y
                &&& origin_y + height as int * tile_size as int <= WORLD_LIMIT
            },
            r matches Some(g) ==> {
                &&& g.wf()
                &&& g.width == width
                &&& g.height == height
                &&& g.tile_size == tile_size
                &&& g.grid_origin_x == origin_x
                &&& g.grid_origin_y == origin_y
                &&& forall|i: int| 0 <= i < g.tiles@.len() ==> g.tiles@[i] == TileType::Empty
            },
    {
        if width <= 0 || height <= 0 || tile_size <= 0 || tile_size > WORLD_LIMIT {
            return None;
        }
        proof {
            assert(width as int * height as int <= 0x7fff_ffff * 0x7fff_ffff)
                by (nonlinear_arith)
                requires
                    0 < width as int <= 0x7fff_ffff,
                    0 < height as int <= 0x7fff_ffff;
        }
        let area: i64 = width as i64 * height as i64;
        if area > CELL_LIMIT {
            return None;
        }
        proof {
            assert(width as int <= width as int * height as int
                && height as int <= width as int * height as int) by (nonlinear_arith)
                requires 0 < width as int, 0 < height as int;
            assert(width as int * tile_size as int <= CELL_LIMIT as int * WORLD_LIMIT as int
                && 0 < width as int * tile_size as int) by (nonlinear_arith)
                requires
                    0 < width as int <= CELL_LIMIT as int,
                    0 < tile_size as int <= WORLD_LIMIT as int;
            assert(height as int * tile_size as int <= CELL_LIMIT as int * WORLD_LIMIT as int
                && 0 < height as int * tile_size as int) by (nonlinear_arith)
                requires
                    0 < height as int <= CELL_LIMIT as int,
                    0 < tile_size as int <= WORLD_LIMIT as int;
        }
        let span_x: i64 = width as i64 * tile_size;
        let span_y: i64 = height as i64 * tile_size;
        if origin_x < -WORLD_LIMIT || origin_x > WORLD_LIMIT - span_x
            || origin_y < -WORLD_LIMIT || origin_y > WORLD_LIMIT - span_y
        {
            return None;
        }
        let n: usize = area as usize;
        let mut tiles: Vec<TileType> = Vec::new();
        let mut i: usize = 0;
        while i < n
            invariant
                i <= n,
                tiles@.len() == i as int,
                forall|j: int| 0 <= j < i as int ==> tiles@[j] == TileType::Empty,
            decreases n - i,
        {
            tiles.push(TileType::Empty);
            i = i + 1;
        }
        Some(CollisionMap {
            tiles,
            width,
            height,
            tile_size,
            grid_origin_x: origin_x,
            grid_origin_y: origin_y,
        })
    }

    /// Convert in-bounds grid coordinates to the flattened array index.
    pub fn xy_idx(&self, x: i64, y: i64) -> (idx: usize)
        requires
            self.wf(),
            self.spec_in_bounds(x as int, y as int),
        ensures
            idx == self.spec_idx(x as int, y as int),
            idx < self.tiles@.len(),
    {
        proof {
            assert(y * self.width as int + x < self.height as int * self.width as int)
                by (nonlinear_arith)
                requires
                    0 <= x < self.width as int,
                    0 <= y < self.height as int;
            assert(self.height as int * self.width as int
                == self.width as int * self.height as int) by (nonlinear_arith);
            assert(0 <= y * self.width as int) by (nonlinear_arith)
                requires 0 <= y, 0 < self.width as int;
        }
        (y as usize) * (self.width as usize) + (x as usize)
    }

    /// Whether grid coordinates are within bounds.
    pub fn in_bounds(&self, x: i64, y: i64) -> (r: bool)
        ensures
            r == self.spec_in_bounds(x as int, y as int),
    {
        x >= 0 && x < self.width as i64 && y >= 0 && y < self.height as i64
    }

    /// The category at grid coordinates, or `None` out of bounds.
    pub fn get_tile(&self, x: i64, y: i64) -> (r: Option<TileType>)
        requires
            self.wf(),
        ensures
            r == if self.spec_in_bounds(x as int, y as int) {
                Some(self.cell_at(x as int, y as int))
            } else {
                None::<TileType>
            },
    {
        if self.in_bounds(x, y) {
            let idx = self.xy_idx(x, y);
            Some(self.tiles[idx])
        } else {
            None
        }
    }

    /// Whether the cell at grid coordinates is in bounds and walkable.
    pub fn is_walkable(&self, x: i64, y: i64) -> (r: bool)
        requires
            self.wf(),
        ensures
            r == self.spec_walkable_at(x as int, y as int),
    {
        if !self.in_bounds(x, y) {
            return false;
        }
        let idx = self.xy_idx(x, y);
        self.tiles[idx].is_walkable()
    }

    /// Overwrite the cell at grid coordinates; out-of-bounds writes are
    /// ignored.
    pub fn set_tile(&mut self, x: i64, y: i64, tile_type: TileType)
        requires
            old(self).wf(),
        ensures
            final(self).wf(),
            final(self).width == old(self).width,
            final(self).height == old(self).height,
            final(self).tile_size == old(self).tile_size,
            final(self).grid_origin_x == old(self).grid_origin_x,
            final(self).grid_origin_y == old(self).grid_origin_y,
            final(self).tiles@ == if old(self).spec_in_bounds(x as int, y as int) {
                old(self).tiles@.update(old(self).spec_idx(x as int, y as int), tile_type)
            } else {
                old(self).tiles@
            },
    {
        if self.in_bounds(x, y) {
            let idx = self.xy_idx(x, y);
            self.tiles[idx] = tile_type;
        }
    }

    /// Convert a world position to the grid coordinates of the cell whose
    /// square contains it (coordinates may lie outside the grid).
    pub fn world_to_grid(&self, world_pos: WorldPos) -> (g: (i64, i64))
        requires
            self.wf(),
            in_world_limits(world_pos),
        ensures
            g.0 == self.grid_x_of(world_pos.x as int),
            g.1 == self.grid_y_of(world_pos.y as int),
            -2 * WORLD_LIMIT <= g.0 <= 2 * WORLD_LIMIT,
            -2 * WORLD_LIMIT <= g.1 <= 2 * WORLD_LIMIT,
    {
        proof {
            lemma_div_bounded_dividend(world_pos.x - self.grid_origin_x, self.tile_size as int,
                2 * WORLD_LIMIT as int);
            lemma_div_bounded_dividend(world_pos.y - self.grid_origin_y, self.tile_size as int,
                2 * WORLD_LIMIT as int);
        }
        let gx = floor_div(world_pos.x - self.grid_origin_x, self.tile_size);
        let gy = floor_div(world_pos.y - self.grid_origin_y, self.tile_size);
        (gx, gy)
    }

    /// Whether the cell containing the world position is walkable; any
    /// point outside the grid is not walkable.
    pub fn is_world_pos_walkable(&self, world_pos: WorldPos) -> (r: bool)
        requires
            self.wf(),
            in_world_limits(world_pos),
        ensures
            r == self.point_walkable(world_pos.x as int, world_pos.y as int),
    {
        let grid_pos = self.world_to_grid(world_pos);
        self.is_walkable(grid_pos.0, grid_pos.1)
    }

    /// The world-space centre of an in-bounds cell; always inside the
    /// grid's world extent.
    pub fn cell_center(&self, x: i64, y: i64) -> (p: WorldPos)
        requires
            self.wf(),
            self.spec_in_bounds(x as int, y as int),
        ensures
            p.x == self.spec_cell_center_x(x as int),
            p.y == self.spec_cell_center_y(y as int),
            in_world_limits(p),
    {
        proof {
            assert(0 <= x as int * self.tile_size as int
                && x as int * self.tile_size as int + self.tile_size as int
                    <= self.width as int * self.tile_size as int)
                by (nonlinear_arith)
                requires 0 <= x as int, x as int + 1 <= self.width as int, 1 <= self.tile_size as int;
            assert(0 <= y as int * self.tile_size as int
                && y as int * self.tile_size as int + self.tile_size as int
                    <= self.height as int * self.tile_size as int)
                by (nonlinear_arith)
                requires 0 <= y as int, y as int + 1 <= self.height as int, 1 <= self.tile_size as int;
        }
        let half: i64 = self.tile_size / 2;
        WorldPos {
            x: self.grid_origin_x + x * self.tile_size + half,
            y: self.grid_origin_y + y * self.tile_size + half,
        }
    }
}

/// An in-bounds cell's flattened index lies inside the tile array.
pub proof fn lemma_idx_in_range(g: CollisionMap, gx: int, gy: int)
    requires
        g.wf(),
        g.spec_in_bounds(gx, gy),
    ensures
        0 <= g.spec_idx(gx, gy) < g.tiles@.len(),
{
    assert(0 <= gy * g.width as int) by (nonlinear_arith)
        requires 0 <= gy, 0 < g.width as int;
    assert(gy * g.width as int + gx < g.height as int * g.width as int) by (nonlinear_arith)
        requires 0 <= gx < g.width as int, 0 <= gy < g.height as int;
    assert(g.height as int * g.width as int == g.width as int * g.height as int)
        by (nonlinear_arith);
}

} // verus!
