//! Swept movement resolver: a desired displacement is subdivided into
//! sub-steps no longer than a quarter of a cell edge, each sub-step is
//! attempted through the collision query, and a blocked step falls back to
//! sliding along one axis before the walk stops. The short stride is what
//! makes the walk tunneling-safe: no sub-step can jump a blocking cell.

use vstd::prelude::*;
use vstd::arithmetic::div_mod::{
    lemma_div_is_ordered, lemma_div_multiples_vanish, lemma_div_pos_is_pos,
    lemma_fundamental_div_mod, lemma_fundamental_div_mod_converse_div,
    lemma_hoist_over_denominator, lemma_multiply_divide_lt,
};
use crate::grid::{in_world_limits, CollisionMap, WorldPos, WORLD_LIMIT};
use crate::math::{ceil_sqrt, floor_div};
use crate::query::circle_clear;
use crate::tile::walkable;

verus! {

/// Longest world-unit length of one movement sub-step: a quarter of a cell
/// edge, at least one unit.
pub open spec fn step_limit(tile_size: int) -> int {
    if tile_size / 4 >= 1 {
        tile_size / 4
    } else {
        1
    }
}

/// The squared Euclidean length of the displacement from `(sx, sy)` to
/// `(ex, ey)`.
pub open spec fn dist_sq(sx: int, sy: int, ex: int, ey: int) -> int {
    (ex - sx) * (ex - sx) + (ey - sy) * (ey - sy)
}

/// Whether `s` is the sub-step count the resolver uses for a displacement
/// of squared length `d2` under step bound `q`: the least positive count
/// whose combined stride covers the whole displacement.
pub open spec fn valid_step_count(d2: int, q: int, s: int) -> bool {
    &&& 1 <= s
    &&& d2 <= (s * q) * (s * q)
    &&& s > 1 ==> ((s - 1) * q) * ((s - 1) * q) < d2
}

/// The coordinate reached `k` sub-steps of `s` along the way from `c0` to
/// `c1`, rounding down.
pub open spec fn sub_target(c0: int, c1: int, s: int, k: int) -> int {
    c0 + ((c1 - c0) * k) / s
}

/// One resolver step from `(px, py)` toward candidate `(cx, cy)`: the full
/// step if it is clear, else a slide along x only, else along y only, else
/// stuck.
pub open spec fn walk_step(g: CollisionMap, px: int, py: int, cx: int, cy: int, r: int)
    -> Option<(int, int)> {
    if circle_clear(g, cx, cy, r) {
        Some((cx, cy))
    } else if circle_clear(g, cx, py, r) {
        Some((cx, py))
    } else if circle_clear(g, px, cy, r) {
        Some((px, cy))
    } else {
        None
    }
}

/// The position the resolver reaches from `(px, py)` by attempting
/// sub-steps `k..s` of the walk from `(sx, sy)` toward `(ex, ey)`.
pub open spec fn move_walk(g: CollisionMap, sx: int, sy: int, ex: int, ey: int, r: int, s: int,
    k: int, px: int, py: int) -> (int, int)
    decreases s - k,
{
    if k >= s {
        (px, py)
    } else {
        let cx = px + (sub_target(sx, ex, s, k + 1) - sub_target(sx, ex, s, k));
        let cy = py + (sub_target(sy, ey, s, k + 1) - sub_target(sy, ey, s, k));
        match walk_step(g, px, py, cx, cy, r) {
            Some(p2) => move_walk(g, sx, sy, ex, ey, r, s, k + 1, p2.0, p2.1),
            None => (px, py),
        }
    }
}

/// The resolver's result for a whole movement request, given the sub-step
/// count `s`: no motion for a degenerate request, otherwise the full walk.
pub open spec fn move_circle_result(g: CollisionMap, start: WorldPos, desired_end: WorldPos,
    r: int, s: int) -> (int, int) {
    if start == desired_end {
        (start.x as int, start.y as int)
    } else {
        move_walk(g, start.x as int, start.y as int, desired_end.x as int, desired_end.y as int,
            r, s, 0, start.x as int, start.y as int)
    }
}

/// Whether every cell of grid column `wx` blocks movement.
pub open spec fn blocking_column(g: CollisionMap, wx: int) -> bool {
    forall|gy: int| 0 <= gy < g.height as int ==> !walkable(#[trigger] g.cell_at(wx, gy))
}

/// Whether every cell of grid row `wy` blocks movement.
pub open spec fn blocking_row(g: CollisionMap, wy: int) -> bool {
    forall|gx: int| 0 <= gx < g.width as int ==> !walkable(#[trigger] g.cell_at(gx, wy))
}

/// The world coordinate of the left edge of grid column `wx`.
pub open spec fn column_left(g: CollisionMap, wx: int) -> int {
    g.grid_origin_x + wx * g.tile_size
}

/// The world coordinate of the bottom edge of grid row `wy`.
pub open spec fn row_bottom(g: CollisionMap, wy: int) -> int {
    g.grid_origin_y + wy * g.tile_size
}

/// A quarter of a cell is at least one unit and at most a cell.
proof fn lemma_step_limit_bounds(tile_size: int)
    requires
        1 <= tile_size,
    ensures
        1 <= step_limit(tile_size) <= tile_size,
{
    lemma_fundamental_div_mod(tile_size, 4);
    let q: int = tile_size / 4;
    let r: int = tile_size % 4;
    assert(4 * q == tile_size - r);
    if q >= 1 {
        assert(q <= 4 * q) by (nonlinear_arith)
            requires q >= 0;
    }
}

/// A clear disc never overlaps a fully blocking column: its centre stays a
/// full radius to the left of the column, or at least a full radius past
/// its right edge.
pub proof fn lemma_clear_avoids_column(g: CollisionMap, px: int, py: int, r: int, wx: int)
    requires
        g.wf(),
        0 <= r,
        0 <= wx < g.width as int,
        blocking_column(g, wx),
        circle_clear(g, px, py, r),
    ensures
        px + r < column_left(g, wx) || px >= column_left(g, wx) + g.tile_size + r,
{
    let ts = g.tile_size as int;
    let ox = g.grid_origin_x as int;
    let oy = g.grid_origin_y as int;
    let ll = column_left(g, wx);
    if r == 0 {
        if ll <= px < ll + ts {
            assert(px - ox == wx * ts + (px - ox - wx * ts));
            lemma_fundamental_div_mod_converse_div(px - ox, ts, wx, px - ox - wx * ts);
            assert(g.grid_x_of(px) == wx);
            assert(!walkable(g.cell_at(wx, g.grid_y_of(py))));
            assert(false);
        }
    } else {
        if px + r >= ll && px < ll + ts + r {
            let gy = (py - oy) / ts;
            lemma_div_pos_is_pos(py - oy, ts);
            assert(ts * g.height as int == g.height as int * ts) by (nonlinear_arith);
            lemma_multiply_divide_lt(py - oy, ts, g.height as int);
            lemma_div_is_ordered(py - r - oy, py - oy, ts);
            lemma_div_is_ordered(py - oy, py + r - oy, ts);
            // The wall column is among the candidate columns.
            assert(wx * ts + (ts - 1) == (px - r - ox) + (ll + ts - 1 - (px - r))) by {
                assert(ll == ox + wx * ts);
            }
            lemma_fundamental_div_mod_converse_div(wx * ts + ts - 1, ts, wx, ts - 1);
            lemma_div_is_ordered(px - r - ox, wx * ts + ts - 1, ts);
            assert(wx * ts == ts * wx) by (nonlinear_arith);
            lemma_div_multiples_vanish(wx, ts);
            lemma_div_is_ordered(wx * ts, px + r - ox, ts);
            assert(g.grid_x_of(px - r) <= wx <= g.grid_x_of(px + r));
            // So the query must have tested it and found no overlap.
            assert(!crate::query::cell_blocks(g, px, py, r, wx, gy));
            assert(g.spec_in_bounds(wx, gy));
            assert(!walkable(g.cell_at(wx, gy)));
            let er = crate::query::effective_radius(g.cell_at(wx, gy), r, ts);
            assert(0 <= crate::tile::spec_buffer(g.cell_at(wx, gy), ts)) by {
                lemma_div_pos_is_pos(ts, 10);
                lemma_div_pos_is_pos(ts, 20);
            }
            // The disc centre sits level with the cell vertically.
            lemma_fundamental_div_mod(py - oy, ts);
            assert(ts * gy == gy * ts) by (nonlinear_arith);
            assert(row_bottom(g, gy) <= py < row_bottom(g, gy) + ts);
            let cy = crate::query::clamp_to(py, row_bottom(g, gy), row_bottom(g, gy) + ts);
            assert(cy == py);
            assert((py - cy) * (py - cy) == 0) by (nonlinear_arith)
                requires cy == py;
            // Horizontally the clamped distance is below the radius.
            let cx = crate::query::clamp_to(px, ll, ll + ts);
            let dx = px - cx;
            assert(dx * dx <= r * r) by (nonlinear_arith)
                requires -r <= dx <= r, 0 <= r;
            assert(r * r <= er * er) by (nonlinear_arith)
                requires 0 <= r <= er;
            assert((px - cx) * (px - cx) + (py - cy) * (py - cy) <= er * er);
            assert(crate::query::circle_hits_cell(g, px, py, er, wx, gy));
            assert(false);
        }
    }
}

/// A clear disc never overlaps a fully blocking row: its centre stays a
/// full radius below the row, or at least a full radius past its top edge.
pub proof fn lemma_clear_avoids_row(g: CollisionMap, px: int, py: int, r: int, wy: int)
    requires
        g.wf(),
        0 <= r,
        0 <= wy < g.height as int,
        blocking_row(g, wy),
        circle_clear(g, px, py, r),
    ensures
        py + r < row_bottom(g, wy) || py >= row_bottom(g, wy) + g.tile_size + r,
{
    let ts = g.tile_size as int;
    let ox = g.grid_origin_x as int;
    let oy = g.grid_origin_y as int;
    let bb = row_bottom(g, wy);
    if r == 0 {
        if bb <= py < bb + ts {
            assert(py - oy == wy * ts + (py - oy - wy * ts));
            lemma_fundamental_div_mod_converse_div(py - oy, ts, wy, py - oy - wy * ts);
            assert(g.grid_y_of(py) == wy);
            assert(!walkable(g.cell_at(g.grid_x_of(px), wy)));
            assert(false);
        }
    } else {
        if py + r >= bb && py < bb + ts + r {
            let gx = (px - ox) / ts;
            lemma_div_pos_is_pos(px - ox, ts);
            assert(ts * g.width as int == g.width as int * ts) by (nonlinear_arith);
            lemma_multiply_divide_lt(px - ox, ts, g.width as int);
            lemma_div_is_ordered(px - r - ox, px - ox, ts);
            lemma_div_is_ordered(px - ox, px + r - ox, ts);
            // The wall row is among the candidate rows.
            assert(wy * ts + (ts - 1) == (py - r - oy) + (bb + ts - 1 - (py - r))) by {
                assert(bb == oy + wy * ts);
            }
            lemma_fundamental_div_mod_converse_div(wy * ts + ts - 1, ts, wy, ts - 1);
            lemma_div_is_ordered(py - r - oy, wy * ts + ts - 1, ts);
            assert(wy * ts == ts * wy) by (nonlinear_arith);
            lemma_div_multiples_vanish(wy, ts);
            lemma_div_is_ordered(wy * ts, py + r - oy, ts);
            assert(g.grid_y_of(py - r) <= wy <= g.grid_y_of(py + r));
            // So the query must have tested it and found no overlap.
            assert(!crate::query::cell_blocks(g, px, py, r, gx, wy));
            assert(g.spec_in_bounds(gx, wy));
            assert(!walkable(g.cell_at(gx, wy)));
            let er = crate::query::effective_radius(g.cell_at(gx, wy), r, ts);
            assert(0 <= crate::tile::spec_buffer(g.cell_at(gx, wy), ts)) by {
                lemma_div_pos_is_pos(ts, 10);
                lemma_div_pos_is_pos(ts, 20);
            }
            // The disc centre sits level with the cell horizontally.
            lemma_fundamental_div_mod(px - ox, ts);
            assert(ts * gx == gx * ts) by (nonlinear_arith);
            assert(column_left(g, gx) <= px < column_left(g, gx) + ts);
            let cx = crate::query::clamp_to(px, column_left(g, gx), column_left(g, gx) + ts);
            assert(cx == px);
            assert((px - cx) * (px - cx) == 0) by (nonlinear_arith)
                requires cx == px;
            // Vertically the clamped distance is below the radius.
            let cy = crate::query::clamp_to(py, bb, bb + ts);
            let dy = py - cy;
            assert(dy * dy <= r * r) by (nonlinear_arith)
                requires -r <= dy <= r, 0 <= r;
            assert(r * r <= er * er) by (nonlinear_arith)
                requires 0 <= r <= er;
            assert((px - cx) * (px - cx) + (py - cy) * (py - cy) <= er * er);
            assert(crate::query::circle_hits_cell(g, px, py, er, gx, wy));
            assert(false);
        }
    }
}

/// The interpolated walk targets start at `c0`, end at `c1`, and stay
/// between the two.
proof fn lemma_sub_target_bounds(c0: int, c1: int, s: int, k: int)
    requires
        1 <= s,
        0 <= k <= s,
    ensures
        c0 <= c1 ==> c0 <= sub_target(c0, c1, s, k) <= c1,
        c1 <= c0 ==> c1 <= sub_target(c0, c1, s, k) <= c0,
        k == 0 ==> sub_target(c0, c1, s, k) == c0,
        k == s ==> sub_target(c0, c1, s, k) == c1,
{
    let d = c1 - c0;
    assert(d * s == s * d) by (nonlinear_arith);
    lemma_div_multiples_vanish(d, s);
    if k == 0 {
        assert(d * 0 == 0) by (nonlinear_arith);
        assert((0int) / s == 0) by {
            lemma_div_pos_is_pos(0, s);
            lemma_div_is_ordered(0, 0, s);
            lemma_fundamental_div_mod(0, s);
            assert(s * ((0int) / s) + (0int) % s == 0);
            assert((0int) / s <= 0) by (nonlinear_arith)
                requires s * ((0int) / s) <= 0, s >= 1;
        }
    }
    if d >= 0 {
        assert(0 <= d * k <= d * s) by (nonlinear_arith)
            requires 0 <= k <= s, d >= 0;
        lemma_div_pos_is_pos(d * k, s);
        lemma_div_is_ordered(d * k, d * s, s);
    } else {
        assert(d * s <= d * k <= 0) by (nonlinear_arith)
            requires 0 <= k <= s, d < 0;
        lemma_div_is_ordered(d * s, d * k, s);
        lemma_div_is_ordered(d * k, 0, s);
        assert((0int) / s == 0) by {
            lemma_fundamental_div_mod(0, s);
            lemma_div_pos_is_pos(0, s);
            assert((0int) / s <= 0) by (nonlinear_arith)
                requires s * ((0int) / s) <= 0, s >= 1;
        }
    }
}

/// Consecutive walk targets differ by at most the step bound `q`, provided
/// `s` sub-steps of stride `q` cover the displacement.
proof fn lemma_sub_target_step(c0: int, c1: int, s: int, k: int, q: int)
    requires
        1 <= s,
        0 <= k < s,
        1 <= q,
        (c1 - c0) * (c1 - c0) <= (s * q) * (s * q),
    ensures
        -q <= sub_target(c0, c1, s, k + 1) - sub_target(c0, c1, s, k) <= q,
        c0 <= c1 ==> sub_target(c0, c1, s, k) <= sub_target(c0, c1, s, k + 1),
        c1 <= c0 ==> sub_target(c0, c1, s, k + 1) <= sub_target(c0, c1, s, k),
{
    let d = c1 - c0;
    assert(1 <= s * q) by (nonlinear_arith)
        requires 1 <= s, 1 <= q;
    assert(-(s * q) <= d <= s * q) by (nonlinear_arith)
        requires d * d <= (s * q) * (s * q), 1 <= s * q;
    assert(d * (k + 1) == d * k + d) by (nonlinear_arith);
    assert(q * s == s * q) by (nonlinear_arith);
    assert((-q) * s == -(q * s)) by (nonlinear_arith);
    lemma_div_is_ordered(d * k + d, d * k + q * s, s);
    lemma_div_is_ordered(d * k + (-q) * s, d * k + d, s);
    lemma_hoist_over_denominator(d * k, q, s as nat);
    lemma_hoist_over_denominator(d * k, -q, s as nat);
    if d >= 0 {
        assert(d * k <= d * (k + 1)) by (nonlinear_arith)
            requires d >= 0, k < k + 1;
        lemma_div_is_ordered(d * k, d * (k + 1), s);
    } else {
        assert(d * (k + 1) <= d * k) by (nonlinear_arith)
            requires d < 0, k < k + 1;
        lemma_div_is_ordered(d * (k + 1), d * k, s);
    }
}

/// The ceiling division `(c + q - 1) / q` is the least sub-step count that
/// covers a displacement whose length rounds up to `c`.
proof fn lemma_step_count(d2: int, q: int, c: int, s: int)
    requires
        1 <= d2,
        1 <= q,
        c * c >= d2,
        1 <= c,
        (c - 1) * (c - 1) < d2,
        s == (c + q - 1) / q,
    ensures
        valid_step_count(d2, q, s),
        s <= c,
{
    lemma_fundamental_div_mod(c + q - 1, q);
    let rem: int = (c + q - 1) % q;
    assert(q * s == c + q - 1 - rem);
    assert(s * q == q * s) by (nonlinear_arith);
    // The stride covers the displacement: s * q >= c.
    assert(s * q >= c);
    assert(1 <= s) by (nonlinear_arith)
        requires s * q >= c, 1 <= c, 1 <= q;
    assert((s * q) * (s * q) >= c * c) by (nonlinear_arith)
        requires s * q >= c, c >= 1;
    // Minimality: one step fewer would fall short.
    if s > 1 {
        assert((s - 1) * q == s * q - q) by (nonlinear_arith);
        assert((s - 1) * q <= c - 1);
        assert(0 <= (s - 1) * q) by (nonlinear_arith)
            requires s >= 1, q >= 1;
        assert(((s - 1) * q) * ((s - 1) * q) <= (c - 1) * (c - 1)) by (nonlinear_arith)
            requires 0 <= (s - 1) * q <= c - 1;
    }
    // And the count never exceeds the rounded-up length itself.
    assert(s * q - q <= c - 1);
    assert(s - 1 <= (s - 1) * q) by (nonlinear_arith)
        requires s >= 1, q >= 1;
    assert((s - 1) * q == s * q - q) by (nonlinear_arith);
}

/// The sub-step count of the movement model is unique: together with the
/// model equation in `try_move_circle`'s contract this pins the resolved
/// position to exactly one value per request.
pub proof fn lemma_step_count_unique(d2: int, q: int, s1: int, s2: int)
    requires
        1 <= q,
        valid_step_count(d2, q, s1),
        valid_step_count(d2, q, s2),
    ensures
        s1 == s2,
{
    if s1 < s2 {
        assert((s1 * q) * (s1 * q) <= ((s2 - 1) * q) * ((s2 - 1) * q)) by (nonlinear_arith)
            requires 1 <= s1 <= s2 - 1, 1 <= q;
    }
    if s2 < s1 {
        assert((s2 * q) * (s2 * q) <= ((s1 - 1) * q) * ((s1 - 1) * q)) by (nonlinear_arith)
            requires 1 <= s2 <= s1 - 1, 1 <= q;
    }
}

/// Stepping to a clear position at most `q` away preserves both column
/// wall barriers: a walk that started a full radius away from a fully
/// blocking column stays a full radius away from it.
proof fn lemma_column_walls_step(g: CollisionMap, sx: int, px: int, px2: int, py2: int, r: int,
    q: int)
    requires
        g.wf(),
        circle_clear(g, px2, py2, r),
        -q <= px2 - px <= q,
        1 <= q <= g.tile_size as int,
        forall|wx: int|
            0 <= wx < g.width as int && blocking_column(g, wx) && 0 <= r
                && sx + r < #[trigger] column_left(g, wx) ==> px + r < column_left(g, wx),
        forall|wx: int|
            0 <= wx < g.width as int && blocking_column(g, wx) && 0 <= r
                && sx >= #[trigger] column_left(g, wx) + g.tile_size + r
                ==> px >= column_left(g, wx) + g.tile_size + r,
    ensures
        forall|wx: int|
            0 <= wx < g.width as int && blocking_column(g, wx) && 0 <= r
                && sx + r < #[trigger] column_left(g, wx) ==> px2 + r < column_left(g, wx),
        forall|wx: int|
            0 <= wx < g.width as int && blocking_column(g, wx) && 0 <= r
                && sx >= #[trigger] column_left(g, wx) + g.tile_size + r
                ==> px2 >= column_left(g, wx) + g.tile_size + r,
{
    assert forall|wx: int|
        0 <= wx < g.width as int && blocking_column(g, wx) && 0 <= r
            && sx + r < #[trigger] column_left(g, wx) implies px2 + r < column_left(g, wx) by {
        lemma_clear_avoids_column(g, px2, py2, r, wx);
    }
    assert forall|wx: int|
        0 <= wx < g.width as int && blocking_column(g, wx) && 0 <= r
            && sx >= #[trigger] column_left(g, wx) + g.tile_size + r
            implies px2 >= column_left(g, wx) + g.tile_size + r by {
        lemma_clear_avoids_column(g, px2, py2, r, wx);
    }
}

/// Stepping to a clear position at most `q` away preserves both row wall
/// barriers.
proof fn lemma_row_walls_step(g: CollisionMap, sy: int, py: int, px2: int, py2: int, r: int,
    q: int)
    requires
        g.wf(),
        circle_clear(g, px2, py2, r),
        -q <= py2 - py <= q,
        1 <= q <= g.tile_size as int,
        forall|wy: int|
            0 <= wy < g.height as int && blocking_row(g, wy) && 0 <= r
                && sy + r < #[trigger] row_bottom(g, wy) ==> py + r < row_bottom(g, wy),
        forall|wy: int|
            0 <= wy < g.height as int && blocking_row(g, wy) && 0 <= r
                && sy >= #[trigger] row_bottom(g, wy) + g.tile_size + r
                ==> py >= row_bottom(g, wy) + g.tile_size + r,
    ensures
        forall|wy: int|
            0 <= wy < g.height as int && blocking_row(g, wy) && 0 <= r
                && sy + r < #[trigger] row_bottom(g, wy) ==> py2 + r < row_bottom(g, wy),
        forall|wy: int|
            0 <= wy < g.height as int && blocking_row(g, wy) && 0 <= r
                && sy >= #[trigger] row_bottom(g, wy) + g.tile_size + r
                ==> py2 >= row_bottom(g, wy) + g.tile_size + r,
{
    assert forall|wy: int|
        0 <= wy < g.height as int && blocking_row(g, wy) && 0 <= r
            && sy + r < #[trigger] row_bottom(g, wy) implies py2 + r < row_bottom(g, wy) by {
        lemma_clear_avoids_row(g, px2, py2, r, wy);
    }
    assert forall|wy: int|
        0 <= wy < g.height as int && blocking_row(g, wy) && 0 <= r
            && sy >= #[trigger] row_bottom(g, wy) + g.tile_size + r
            implies py2 >= row_bottom(g, wy) + g.tile_size + r by {
        lemma_clear_avoids_row(g, px2, py2, r, wy);
    }
}

impl CollisionMap {
    /// Swept movement with axis sliding: walk from `start` toward
    /// `desired_end` in sub-steps no longer than a quarter cell, keeping
    /// the last clear position when a step is blocked.
    ///
    /// The contract pins the result to the `move_walk` model, and states
    /// the headline consequences directly: a degenerate request returns
    /// `start` unchanged; the result is `start` or a clear position; the
    /// result stays inside the displacement's bounding box; and the walk
    /// never crosses a fully blocking column or row of the grid that it
    /// started a full radius away from (no tunneling).
    #[verifier::loop_isolation(false)]
    #[verifier::rlimit(100)]
    pub fn try_move_circle(&self, start: WorldPos, desired_end: WorldPos, radius_world: i64)
        -> (p: WorldPos)
        requires
            self.wf(),
            in_world_limits(start),
            in_world_limits(desired_end),
            -WORLD_LIMIT <= radius_world <= WORLD_LIMIT,
        ensures
            exists|s: int|
                valid_step_count(
                    dist_sq(start.x as int, start.y as int, desired_end.x as int,
                        desired_end.y as int),
                    step_limit(self.tile_size as int),
                    s,
                ) && (p.x as int, p.y as int) == move_circle_result(*self, start, desired_end,
                    radius_world as int, s),
            desired_end == start ==> p == start,
            p == start || circle_clear(*self, p.x as int, p.y as int, radius_world as int),
            start.x <= desired_end.x ==> start.x <= p.x <= desired_end.x,
            desired_end.x <= start.x ==> desired_end.x <= p.x <= start.x,
            start.y <= desired_end.y ==> start.y <= p.y <= desired_end.y,
            desired_end.y <= start.y ==> desired_end.y <= p.y <= start.y,
            forall|wx: int|
                0 <= wx < self.width as int && blocking_column(*self, wx) && 0 <= radius_world
                    && start.x + radius_world < #[trigger] column_left(*self, wx)
                    ==> p.x + radius_world < column_left(*self, wx),
            forall|wx: int|
                0 <= wx < self.width as int && blocking_column(*self, wx) && 0 <= radius_world
                    && start.x >= #[trigger] column_left(*self, wx) + self.tile_size
                        + radius_world
                    ==> p.x >= column_left(*self, wx) + self.tile_size + radius_world,
            forall|wy: int|
                0 <= wy < self.height as int && blocking_row(*self, wy) && 0 <= radius_world
                    && start.y + radius_world < #[trigger] row_bottom(*self, wy)
                    ==> p.y + radius_world < row_bottom(*self, wy),
            forall|wy: int|
                0 <= wy < self.height as int && blocking_row(*self, wy) && 0 <= radius_world
                    && start.y >= #[trigger] row_bottom(*self, wy) + self.tile_size
                        + radius_world
                    ==> p.y >= row_bottom(*self, wy) + self.tile_size + radius_world,
    {
        let ghost g: CollisionMap = *self;
        let ghost ts: int = self.tile_size as int;
        let ghost sx: int = start.x as int;
        let ghost sy: int = start.y as int;
        let ghost ex: int = desired_end.x as int;
        let ghost ey: int = desired_end.y as int;
        let ghost r: int = radius_world as int;

        let dx = desired_end.x - start.x;
        let dy = desired_end.y - start.y;
        if dx == 0 && dy == 0 {
            proof {
                lemma_step_limit_bounds(ts);
                let q0: int = step_limit(ts);
                assert(dist_sq(sx, sy, ex, ey) == 0);
                assert(0 <= (1 * q0) * (1 * q0)) by (nonlinear_arith)
                    requires 1 <= q0;
                assert(valid_step_count(dist_sq(sx, sy, ex, ey), q0, 1));
                assert(start == desired_end);
                assert((start.x as int, start.y as int) == move_circle_result(g, start,
                    desired_end, r, 1));
            }
            return start;
        }

        proof {
            assert(dx * dx <= 4 * WORLD_LIMIT as int * WORLD_LIMIT as int && dx * dx >= 0)
                by (nonlinear_arith)
                requires -2 * WORLD_LIMIT as int <= dx as int <= 2 * WORLD_LIMIT as int;
            assert(dy * dy <= 4 * WORLD_LIMIT as int * WORLD_LIMIT as int && dy * dy >= 0)
                by (nonlinear_arith)
                requires -2 * WORLD_LIMIT as int <= dy as int <= 2 * WORLD_LIMIT as int;
            assert(dx as int * dx as int + dy as int * dy as int >= 1) by (nonlinear_arith)
                requires dx as int != 0 || dy as int != 0;
        }
        let d2 = dx * dx + dy * dy;
        let c64 = ceil_sqrt(d2 as u64);
        proof {
            assert(c64 as int >= 1) by (nonlinear_arith)
                requires
                    c64 as int * c64 as int >= d2 as int,
                    d2 as int >= 1,
                    c64 as int >= 0;
            assert(c64 as int - 1 <= 3_000_000_000) by (nonlinear_arith)
                requires
                    (c64 as int - 1) * (c64 as int - 1) < d2 as int,
                    d2 as int <= 8 * WORLD_LIMIT as int * WORLD_LIMIT as int,
                    c64 as int >= 1;
        }
        let c = c64 as i64;
        let q = if self.tile_size / 4 >= 1 {
            self.tile_size / 4
        } else {
            1
        };
        proof {
            lemma_step_limit_bounds(ts);
            assert(q as int == step_limit(ts));
        }
        let steps = (c + q - 1) / q;
        proof {
            lemma_step_count(d2 as int, q as int, c as int, steps as int);
            // Bound on the interpolation products: |delta| * steps stays
            // well inside i64.
            assert(c as int * c as int <= d2 as int + 2 * c as int) by (nonlinear_arith)
                requires (c as int - 1) * (c as int - 1) < d2 as int, c as int >= 1;
        }

        let mut px = start.x;
        let mut py = start.y;
        let mut k: i64 = 0;
        let mut blocked = false;
        proof {
            lemma_sub_target_bounds(sx, ex, steps as int, 0);
            lemma_sub_target_bounds(sy, ey, steps as int, 0);
        }
        while k < steps && !blocked
            invariant
                0 <= k <= steps,
                valid_step_count(d2 as int, q as int, steps as int),
                steps <= c,
                move_walk(g, sx, sy, ex, ey, r, steps as int, 0, sx, sy)
                    == move_walk(g, sx, sy, ex, ey, r, steps as int, k as int, px as int,
                        py as int),
                blocked ==> move_walk(g, sx, sy, ex, ey, r, steps as int, k as int, px as int,
                    py as int) == (px as int, py as int),
                sx <= ex ==> sx <= px as int <= sub_target(sx, ex, steps as int, k as int),
                ex <= sx ==> sub_target(sx, ex, steps as int, k as int) <= px as int <= sx,
                sy <= ey ==> sy <= py as int <= sub_target(sy, ey, steps as int, k as int),
                ey <= sy ==> sub_target(sy, ey, steps as int, k as int) <= py as int <= sy,
                (px as int == sx && py as int == sy) || circle_clear(g, px as int, py as int, r),
                forall|wx: int|
                    0 <= wx < g.width as int && blocking_column(g, wx) && 0 <= r
                        && sx + r < #[trigger] column_left(g, wx)
                        ==> px as int + r < column_left(g, wx),
                forall|wx: int|
                    0 <= wx < g.width as int && blocking_column(g, wx) && 0 <= r
                        && sx >= #[trigger] column_left(g, wx) + ts + r
                        ==> px as int >= column_left(g, wx) + ts + r,
                forall|wy: int|
                    0 <= wy < g.height as int && blocking_row(g, wy) && 0 <= r
                        && sy + r < #[trigger] row_bottom(g, wy)
                        ==> py as int + r < row_bottom(g, wy),
                forall|wy: int|
                    0 <= wy < g.height as int && blocking_row(g, wy) && 0 <= r
                        && sy >= #[trigger] row_bottom(g, wy) + ts + r
                        ==> py as int >= row_bottom(g, wy) + ts + r,
            decreases steps - k, (if blocked { 0int } else { 1int }),
        {
            proof {
                assert(dx as int * dx as int <= d2 as int) by (nonlinear_arith)
                    requires
                        d2 as int == dx as int * dx as int + dy as int * dy as int,
                        dy as int * dy as int >= 0;
                assert(dy as int * dy as int <= d2 as int) by (nonlinear_arith)
                    requires
                        d2 as int == dx as int * dx as int + dy as int * dy as int,
                        dx as int * dx as int >= 0;
                assert(-(c as int) <= dx as int <= c as int) by (nonlinear_arith)
                    requires
                        dx as int * dx as int <= d2 as int,
                        d2 as int <= c as int * c as int,
                        c as int >= 1;
                assert(-(c as int) <= dy as int <= c as int) by (nonlinear_arith)
                    requires
                        dy as int * dy as int <= d2 as int,
                        d2 as int <= c as int * c as int,
                        c as int >= 1;
                assert forall|j: int| 0 <= j <= steps as int implies
                    -(c as int * c as int) <= #[trigger] (dx as int * j)
                        <= c as int * c as int
                        && -(c as int * c as int) <= dy as int * j <= c as int * c as int by {
                    assert(-(c as int * c as int) <= dx as int * j <= c as int * c as int
                        && -(c as int * c as int) <= dy as int * j <= c as int * c as int)
                        by (nonlinear_arith)
                        requires
                            -(c as int) <= dx as int <= c as int,
                            -(c as int) <= dy as int <= c as int,
                            0 <= j <= c as int;
                }
            }
            proof {
                lemma_sub_target_bounds(sx, ex, steps as int, k as int);
                lemma_sub_target_bounds(sx, ex, steps as int, k as int + 1);
                lemma_sub_target_bounds(sy, ey, steps as int, k as int);
                lemma_sub_target_bounds(sy, ey, steps as int, k as int + 1);
                lemma_sub_target_step(sx, ex, steps as int, k as int, q as int);
                lemma_sub_target_step(sy, ey, steps as int, k as int, q as int);
            }
            let t_cur_x = start.x + floor_div(dx * k, steps);
            let t_nxt_x = start.x + floor_div(dx * (k + 1), steps);
            let t_cur_y = start.y + floor_div(dy * k, steps);
            let t_nxt_y = start.y + floor_div(dy * (k + 1), steps);
            proof {
                assert(t_cur_x as int == sub_target(sx, ex, steps as int, k as int));
                assert(t_nxt_x as int == sub_target(sx, ex, steps as int, k as int + 1));
                assert(t_cur_y as int == sub_target(sy, ey, steps as int, k as int));
                assert(t_nxt_y as int == sub_target(sy, ey, steps as int, k as int + 1));
            }
            let cand_x = px + (t_nxt_x - t_cur_x);
            let cand_y = py + (t_nxt_y - t_cur_y);
            let ghost old_px: int = px as int;
            let ghost old_py: int = py as int;
            proof {
                // The candidate stays inside the displacement's bounding
                // box, hence inside the accepted world range.
                if sx <= ex {
                    assert(sx <= cand_x as int <= sub_target(sx, ex, steps as int, k as int + 1));
                } else {
                    assert(sub_target(sx, ex, steps as int, k as int + 1) <= cand_x as int <= sx);
                }
                if sy <= ey {
                    assert(sy <= cand_y as int <= sub_target(sy, ey, steps as int, k as int + 1));
                } else {
                    assert(sub_target(sy, ey, steps as int, k as int + 1) <= cand_y as int <= sy);
                }
            }

            let cand = WorldPos { x: cand_x, y: cand_y };
            if self.is_world_pos_clear_circle(cand, radius_world) {
                proof {
                    lemma_column_walls_step(g, sx, old_px, cand_x as int, cand_y as int, r,
                        q as int);
                    lemma_row_walls_step(g, sy, old_py, cand_x as int, cand_y as int, r,
                        q as int);
                    assert(walk_step(g, old_px, old_py, cand_x as int, cand_y as int, r)
                        == Some((cand_x as int, cand_y as int)));
                    assert(move_walk(g, sx, sy, ex, ey, r, steps as int, k as int, old_px,
                        old_py) == move_walk(g, sx, sy, ex, ey, r, steps as int, k as int + 1,
                        cand_x as int, cand_y as int));
                }
                px = cand_x;
                py = cand_y;
            } else {
                let slide_x = WorldPos { x: cand_x, y: py };
                if self.is_world_pos_clear_circle(slide_x, radius_world) {
                    proof {
                        lemma_column_walls_step(g, sx, old_px, cand_x as int, old_py, r,
                            q as int);
                        lemma_row_walls_step(g, sy, old_py, cand_x as int, old_py, r, q as int);
                        assert(walk_step(g, old_px, old_py, cand_x as int, cand_y as int, r)
                            == Some((cand_x as int, old_py)));
                        assert(move_walk(g, sx, sy, ex, ey, r, steps as int, k as int, old_px,
                            old_py) == move_walk(g, sx, sy, ex, ey, r, steps as int,
                            k as int + 1, cand_x as int, old_py));
                    }
                    px = cand_x;
                } else {
                    let slide_y = WorldPos { x: px, y: cand_y };
                    if self.is_world_pos_clear_circle(slide_y, radius_world) {
                        proof {
                            lemma_column_walls_step(g, sx, old_px, old_px, cand_y as int, r,
                                q as int);
                            lemma_row_walls_step(g, sy, old_py, old_px, cand_y as int, r,
                                q as int);
                            assert(walk_step(g, old_px, old_py, cand_x as int, cand_y as int, r)
                                == Some((old_px, cand_y as int)));
                            assert(move_walk(g, sx, sy, ex, ey, r, steps as int, k as int,
                                old_px, old_py) == move_walk(g, sx, sy, ex, ey, r, steps as int,
                                k as int + 1, old_px, cand_y as int));
                        }
                        py = cand_y;
                    } else {
                        proof {
                            assert(walk_step(g, old_px, old_py, cand_x as int, cand_y as int, r)
                                is None);
                            assert(move_walk(g, sx, sy, ex, ey, r, steps as int, k as int,
                                old_px, old_py) == (old_px, old_py));
                        }
                        blocked = true;
                    }
                }
            }
            if !blocked {
                k = k + 1;
            }
        }
        proof {
            assert((px as int, py as int) == move_circle_result(g, start, desired_end, r,
                steps as int));
            lemma_sub_target_bounds(sx, ex, steps as int, k as int);
            lemma_sub_target_bounds(sy, ey, steps as int, k as int);
        }
        WorldPos { x: px, y: py }
    }
}

} // verus!
