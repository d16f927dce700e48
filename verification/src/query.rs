//! Circle-vs-grid collision queries: a broad-phase bounding-square check
//! against the grid's world extent, then a narrow-phase circle-vs-cell
//! overlap test for every candidate cell, with per-category buffer
//! tolerances widening the effective radius near blocking cells.

use vstd::prelude::*;
use vstd::arithmetic::div_mod::{
    lemma_div_is_ordered, lemma_div_multiples_vanish, lemma_div_pos_is_pos,
};
use crate::grid::{in_world_limits, lemma_idx_in_range, CollisionMap, WorldPos, WORLD_LIMIT};
use crate::math::floor_div;
use crate::tile::{spec_buffer, walkable, TileType};

verus! {

/// Whether the disc's bounding square (centre `(px, py)`, half-width `r`)
/// lies entirely inside the grid's world-space extent.
pub open spec fn within_world_bounds(g: CollisionMap, px: int, py: int, r: int) -> bool {
    &&& g.grid_origin_x <= px - r
    &&& px + r <= g.grid_origin_x + g.width as int * g.tile_size as int
    &&& g.grid_origin_y <= py - r
    &&& py + r <= g.grid_origin_y + g.height as int * g.tile_size as int
}

/// The radius a query uses against a blocking cell of category `t`: the
/// query radius widened by the category's collision buffer.
pub open spec fn effective_radius(t: TileType, r: int, tile_size: int) -> int {
    r + spec_buffer(t, tile_size)
}

/// `v` clamped to the closed interval `[lo, hi]`.
pub open spec fn clamp_to(v: int, lo: int, hi: int) -> int {
    if v < lo {
        lo
    } else if v > hi {
        hi
    } else {
        v
    }
}

/// Whether a disc of radius `er` centred at `(px, py)` overlaps the
/// world-space square of cell `(gx, gy)`: clamp the centre to the square to
/// find the nearest point, then compare squared distances.
pub open spec fn circle_hits_cell(g: CollisionMap, px: int, py: int, er: int, gx: int, gy: int)
    -> bool {
    let min_x = g.grid_origin_x + gx * g.tile_size;
    let min_y = g.grid_origin_y + gy * g.tile_size;
    let cx = clamp_to(px, min_x, min_x + g.tile_size);
    let cy = clamp_to(py, min_y, min_y + g.tile_size);
    (px - cx) * (px - cx) + (py - cy) * (py - cy) <= er * er
}

/// Whether candidate cell `(gx, gy)` defeats the query at `(px, py)` with
/// radius `r`: an out-of-bounds candidate fails closed; a blocking cell
/// fails if the disc, widened to the category's effective radius, overlaps
/// its square.
pub open spec fn cell_blocks(g: CollisionMap, px: int, py: int, r: int, gx: int, gy: int) -> bool {
    ||| !g.spec_in_bounds(gx, gy)
    ||| {
        &&& !walkable(g.cell_at(gx, gy))
        &&& circle_hits_cell(g, px, py,
            effective_radius(g.cell_at(gx, gy), r, g.tile_size as int), gx, gy)
    }
}

/// Whether a disc of radius `r` centred at `(px, py)` sits clear of all
/// blocking terrain: its bounding square must lie inside the grid's world
/// extent, a non-positive radius degenerates to the point-walkability test,
/// and otherwise no candidate cell under the bounding square may block.
pub open spec fn circle_clear(g: CollisionMap, px: int, py: int, r: int) -> bool {
    &&& within_world_bounds(g, px, py, r)
    &&& if r <= 0 {
        g.point_walkable(px, py)
    } else {
        forall|gx: int, gy: int|
            g.grid_x_of(px - r) <= gx <= g.grid_x_of(px + r)
                && g.grid_y_of(py - r) <= gy <= g.grid_y_of(py + r)
                ==> !cell_blocks(g, px, py, r, gx, gy)
    }
}

impl CollisionMap {
    /// Whether the disc's bounding square stays inside the map's world
    /// extent; map edges are impassable walls.
    pub fn is_world_pos_within_bounds(&self, world_pos: WorldPos, radius_world: i64) -> (b: bool)
        requires
            self.wf(),
            in_world_limits(world_pos),
            -WORLD_LIMIT <= radius_world <= WORLD_LIMIT,
        ensures
            b == within_world_bounds(*self, world_pos.x as int, world_pos.y as int,
                radius_world as int),
    {
        let left = self.grid_origin_x;
        let right = self.grid_origin_x + self.width as i64 * self.tile_size;
        let bottom = self.grid_origin_y;
        let top = self.grid_origin_y + self.height as i64 * self.tile_size;

        world_pos.x - radius_world >= left && world_pos.x + radius_world <= right
            && world_pos.y - radius_world >= bottom && world_pos.y + radius_world <= top
    }

    /// Whether the disc of the given radius overlaps the world-space square
    /// of cell `(gx, gy)`.
    pub fn circle_intersects_tile(&self, center: WorldPos, radius: i64, gx: i64, gy: i64)
        -> (hit: bool)
        requires
            self.wf(),
            in_world_limits(center),
            0 <= radius <= 2 * WORLD_LIMIT,
            self.spec_in_bounds(gx as int, gy as int),
        ensures
            hit == circle_hits_cell(*self, center.x as int, center.y as int, radius as int,
                gx as int, gy as int),
    {
        proof {
            assert(0 <= gx as int * self.tile_size as int
                && gx as int * self.tile_size as int + self.tile_size as int
                    <= self.width as int * self.tile_size as int) by (nonlinear_arith)
                requires
                    0 <= gx as int,
                    gx as int + 1 <= self.width as int,
                    1 <= self.tile_size as int;
            assert(0 <= gy as int * self.tile_size as int
                && gy as int * self.tile_size as int + self.tile_size as int
                    <= self.height as int * self.tile_size as int) by (nonlinear_arith)
                requires
                    0 <= gy as int,
                    gy as int + 1 <= self.height as int,
                    1 <= self.tile_size as int;
        }
        let min_x = self.grid_origin_x + gx * self.tile_size;
        let min_y = self.grid_origin_y + gy * self.tile_size;
        let max_x = min_x + self.tile_size;
        let max_y = min_y + self.tile_size;

        let cx = if center.x < min_x {
            min_x
        } else if center.x > max_x {
            max_x
        } else {
            center.x
        };
        let cy = if center.y < min_y {
            min_y
        } else if center.y > max_y {
            max_y
        } else {
            center.y
        };

        let dx = center.x - cx;
        let dy = center.y - cy;
        proof {
            assert(dx * dx <= 4 * WORLD_LIMIT as int * WORLD_LIMIT as int
                && dx * dx >= 0) by (nonlinear_arith)
                requires -2 * WORLD_LIMIT as int <= dx as int <= 2 * WORLD_LIMIT as int;
            assert(dy * dy <= 4 * WORLD_LIMIT as int * WORLD_LIMIT as int
                && dy * dy >= 0) by (nonlinear_arith)
                requires -2 * WORLD_LIMIT as int <= dy as int <= 2 * WORLD_LIMIT as int;
            assert(radius * radius <= 4 * WORLD_LIMIT as int * WORLD_LIMIT as int
                && radius * radius >= 0) by (nonlinear_arith)
                requires 0 <= radius as int <= 2 * WORLD_LIMIT as int;
        }
        dx * dx + dy * dy <= radius * radius
    }

    /// Robust circle-based collision test: false whenever the disc's
    /// bounding square leaves the map (fail closed), the point-walkability
    /// test for a non-positive radius, and otherwise a scan of every cell
    /// under the bounding square for a blocking overlap.
    #[verifier::loop_isolation(false)]
    pub fn is_world_pos_clear_circle(&self, world_pos: WorldPos, radius_world: i64) -> (c: bool)
        requires
            self.wf(),
            in_world_limits(world_pos),
            -WORLD_LIMIT <= radius_world <= WORLD_LIMIT,
        ensures
            c == circle_clear(*self, world_pos.x as int, world_pos.y as int, radius_world as int),
            !within_world_bounds(*self, world_pos.x as int, world_pos.y as int,
                radius_world as int) ==> !c,
    {
        if !self.is_world_pos_within_bounds(world_pos, radius_world) {
            return false;
        }

        if radius_world <= 0 {
            return self.is_world_pos_walkable(world_pos);
        }

        let min_gx = floor_div(world_pos.x - radius_world - self.grid_origin_x, self.tile_size);
        let max_gx = floor_div(world_pos.x + radius_world - self.grid_origin_x, self.tile_size);
        let min_gy = floor_div(world_pos.y - radius_world - self.grid_origin_y, self.tile_size);
        let max_gy = floor_div(world_pos.y + radius_world - self.grid_origin_y, self.tile_size);

        proof {
            lemma_candidate_range_in_grid(*self, world_pos.x as int, world_pos.y as int,
                radius_world as int);
            lemma_div_is_ordered(world_pos.x - radius_world - self.grid_origin_x,
                world_pos.x + radius_world - self.grid_origin_x, self.tile_size as int);
            lemma_div_is_ordered(world_pos.y - radius_world - self.grid_origin_y,
                world_pos.y + radius_world - self.grid_origin_y, self.tile_size as int);
        }

        let mut gy = min_gy;
        while gy <= max_gy
            invariant
                min_gy <= gy <= max_gy + 1,
                forall|ux: int, uy: int|
                    min_gx <= ux <= max_gx && min_gy <= uy < gy
                        ==> !cell_blocks(*self, world_pos.x as int, world_pos.y as int,
                            radius_world as int, ux, uy),
            decreases max_gy + 1 - gy,
        {
            let mut gx = min_gx;
            while gx <= max_gx
                invariant
                    min_gx <= gx <= max_gx + 1,
                    min_gy <= gy <= max_gy,
                    forall|ux: int, uy: int|
                        min_gx <= ux <= max_gx && min_gy <= uy < gy
                            ==> !cell_blocks(*self, world_pos.x as int, world_pos.y as int,
                                radius_world as int, ux, uy),
                    forall|ux: int|
                        min_gx <= ux < gx
                            ==> !cell_blocks(*self, world_pos.x as int, world_pos.y as int,
                                radius_world as int, ux, gy as int),
                decreases max_gx + 1 - gx,
            {
                if !self.in_bounds(gx, gy) {
                    proof {
                        assert(cell_blocks(*self, world_pos.x as int, world_pos.y as int,
                            radius_world as int, gx as int, gy as int));
                    }
                    return false;
                }
                let idx = self.xy_idx(gx, gy);
                let t = self.tiles[idx];
                if !t.is_walkable() {
                    proof {
                        assert(self.tile_size as int <= self.width as int * self.tile_size as int)
                            by (nonlinear_arith)
                            requires 1 <= self.width as int, 1 <= self.tile_size as int;
                    }
                    let er = radius_world + t.collision_buffer(self.tile_size);
                    if self.circle_intersects_tile(world_pos, er, gx, gy) {
                        proof {
                            assert(cell_blocks(*self, world_pos.x as int, world_pos.y as int,
                                radius_world as int, gx as int, gy as int));
                        }
                        return false;
                    }
                }
                gx = gx + 1;
            }
            gy = gy + 1;
        }
        true
    }
}

/// With the bounding square inside the world extent and a positive radius,
/// the candidate cell range computed from the square's corners spans only
/// columns `0..=width` and rows `0..=height`.
proof fn lemma_candidate_range_in_grid(g: CollisionMap, px: int, py: int, r: int)
    requires
        g.wf(),
        within_world_bounds(g, px, py, r),
        0 < r,
    ensures
        0 <= g.grid_x_of(px - r),
        g.grid_x_of(px + r) <= g.width,
        0 <= g.grid_y_of(py - r),
        g.grid_y_of(py + r) <= g.height,
{
    let ts = g.tile_size as int;
    lemma_div_pos_is_pos(px - r - g.grid_origin_x, ts);
    lemma_div_pos_is_pos(py - r - g.grid_origin_y, ts);
    lemma_div_is_ordered(px + r - g.grid_origin_x, g.width as int * ts, ts);
    lemma_div_is_ordered(py + r - g.grid_origin_y, g.height as int * ts, ts);
    lemma_div_multiples_vanish(g.width as int, ts);
    lemma_div_multiples_vanish(g.height as int, ts);
    assert(g.width as int * ts == ts * g.width as int) by (nonlinear_arith);
    assert(g.height as int * ts == ts * g.height as int) by (nonlinear_arith);
}

/// Turning `Water` cells into `Shore` never makes a clear query blocked:
/// `Shore` is walkable, so it stops constraining the query entirely, while
/// every other cell is unchanged.
pub proof fn lemma_water_to_shore_monotone(g1: CollisionMap, g2: CollisionMap, px: int, py: int,
    r: int)
    requires
        g1.wf(),
        g2.width == g1.width,
        g2.height == g1.height,
        g2.tile_size == g1.tile_size,
        g2.grid_origin_x == g1.grid_origin_x,
        g2.grid_origin_y == g1.grid_origin_y,
        g2.tiles@.len() == g1.tiles@.len(),
        forall|i: int|
            0 <= i < g1.tiles@.len()
                ==> g2.tiles@[i] == g1.tiles@[i]
                    || (g1.tiles@[i] == TileType::Water && g2.tiles@[i] == TileType::Shore),
        circle_clear(g1, px, py, r),
    ensures
        circle_clear(g2, px, py, r),
{
    assert(within_world_bounds(g2, px, py, r));
    if r <= 0 {
        let gx = g1.grid_x_of(px);
        let gy = g1.grid_y_of(py);
        assert(g1.spec_in_bounds(gx, gy));
        assert(0 <= g1.spec_idx(gx, gy) < g1.tiles@.len()) by {
            lemma_idx_in_range(g1, gx, gy);
        }
        assert(walkable(g2.cell_at(gx, gy)));
    } else {
        assert forall|gx: int, gy: int|
            g2.grid_x_of(px - r) <= gx <= g2.grid_x_of(px + r)
                && g2.grid_y_of(py - r) <= gy <= g2.grid_y_of(py + r)
                implies !cell_blocks(g2, px, py, r, gx, gy) by {
            assert(!cell_blocks(g1, px, py, r, gx, gy));
            assert(g1.spec_in_bounds(gx, gy));
            lemma_idx_in_range(g1, gx, gy);
            if !walkable(g2.cell_at(gx, gy)) {
                assert(g2.cell_at(gx, gy) == g1.cell_at(gx, gy));
            }
        }
    }
}

} // verus!
