//! Grid builder: reduces a stream of layered tile observations to one
//! category per cell (topmost z wins), then reclassifies water edges as
//! walkable shore in a single post-pass.

use vstd::prelude::*;
use vstd::arithmetic::div_mod::{
    lemma_div_pos_is_pos, lemma_fundamental_div_mod, lemma_mod_bound, lemma_multiply_divide_lt,
};
use crate::grid::{lemma_idx_in_range, CollisionMap, CELL_LIMIT, WORLD_LIMIT};
use crate::math::{floor_div, lemma_div_bounded_dividend};
use crate::tile::{walkable, TileType};

verus! {

/// One record per rendered tile instance handed over by the terrain
/// generator: a world position (several stacked layers may share one
/// footprint at different z heights) and the instance's category.
#[derive(Clone, Copy, Debug, PartialEq, Eq, Structural)]
pub struct SpawnedTileObservation {
    pub world_x: i64,
    pub world_y: i64,
    pub world_z: i64,
    pub tile_type: TileType,
}

/// Failures of the grid builder.
#[derive(Clone, Copy, Debug, PartialEq, Eq, Structural)]
pub enum BuildError {
    /// No observation has arrived yet; the caller retries next tick.
    NotReady,
}

/// Whether cell `(x, y)` has a walkable in-bounds cell among its eight
/// neighbours (four orthogonal, four diagonal).
pub open spec fn has_walkable_neighbor(g: CollisionMap, x: int, y: int) -> bool {
    ||| g.spec_walkable_at(x - 1, y)
    ||| g.spec_walkable_at(x + 1, y)
    ||| g.spec_walkable_at(x, y - 1)
    ||| g.spec_walkable_at(x, y + 1)
    ||| g.spec_walkable_at(x - 1, y - 1)
    ||| g.spec_walkable_at(x + 1, y - 1)
    ||| g.spec_walkable_at(x - 1, y + 1)
    ||| g.spec_walkable_at(x + 1, y + 1)
}

/// What the shoreline pass leaves in cell `(x, y)` of grid `g`: a `Water`
/// cell that touches walkable terrain becomes `Shore`; every other cell is
/// unchanged.
pub open spec fn shore_fixed(g: CollisionMap, x: int, y: int) -> TileType {
    if g.cell_at(x, y) == TileType::Water && has_walkable_neighbor(g, x, y) {
        TileType::Shore
    } else {
        g.cell_at(x, y)
    }
}

impl CollisionMap {
    /// Whether cell `(x, y)` touches walkable in-bounds terrain through any
    /// of its eight neighbours.
    pub fn walkable_neighbor_exists(&self, x: i64, y: i64) -> (r: bool)
        requires
            self.wf(),
            -1 <= x <= self.width,
            -1 <= y <= self.height,
        ensures
            r == has_walkable_neighbor(*self, x as int, y as int),
    {
        self.is_walkable(x - 1, y) || self.is_walkable(x + 1, y) || self.is_walkable(x, y - 1)
            || self.is_walkable(x, y + 1) || self.is_walkable(x - 1, y - 1)
            || self.is_walkable(x + 1, y - 1) || self.is_walkable(x - 1, y + 1)
            || self.is_walkable(x + 1, y + 1)
    }

    /// Shoreline post-pass: every `Water` cell with a walkable in-bounds
    /// neighbour is reclassified as `Shore`.
    ///
    /// The pass is evaluated against the original grid state in one sweep:
    /// the reclassified cells are computed before any of them is written
    /// back, so a fresh shore never promotes its own water neighbours.
    pub fn convert_water_edges_to_shore(&mut self)
        requires
            old(self).wf(),
        ensures
            final(self).wf(),
            final(self).width == old(self).width,
            final(self).height == old(self).height,
            final(self).tile_size == old(self).tile_size,
            final(self).grid_origin_x == old(self).grid_origin_x,
            final(self).grid_origin_y == old(self).grid_origin_y,
            forall|x: int, y: int|
                0 <= x < old(self).width && 0 <= y < old(self).height
                    ==> final(self).cell_at(x, y) == shore_fixed(*old(self), x, y),
    {
        let width = self.width as i64;
        let height = self.height as i64;
        let ghost orig: CollisionMap = *self;
        let mut reclassified: Vec<TileType> = Vec::new();
        let mut y: i64 = 0;
        while y < height
            invariant
                *self == orig,
                orig.wf(),
                width == orig.width as int,
                height == orig.height as int,
                0 <= y <= height,
                reclassified@.len() == y * width,
                forall|ux: int, uy: int|
                    0 <= ux < width && 0 <= uy < y
                        ==> reclassified@[uy * width + ux] == shore_fixed(orig, ux, uy),
            decreases height - y,
        {
            let mut x: i64 = 0;
            while x < width
                invariant
                    *self == orig,
                    orig.wf(),
                    width == orig.width as int,
                    height == orig.height as int,
                    0 <= y < height,
                    0 <= x <= width,
                    reclassified@.len() == y * width + x,
                    forall|ux: int, uy: int|
                        0 <= ux < width && 0 <= uy < y
                            ==> reclassified@[uy * width + ux] == shore_fixed(orig, ux, uy),
                    forall|ux: int|
                        0 <= ux < x ==> reclassified@[y * width + ux] == shore_fixed(orig, ux, y as int),
                decreases width - x,
            {
                let idx = self.xy_idx(x, y);
                let cell = self.tiles[idx];
                let keep: TileType =
                    if matches!(cell, TileType::Water) && self.walkable_neighbor_exists(x, y) {
                        TileType::Shore
                    } else {
                        cell
                    };
                proof {
                    lemma_row_major_extend(width as int, x as int, y as int);
                    assert(0 <= y as int * width as int) by (nonlinear_arith)
                        requires 0 <= y as int, 0 <= width as int;
                    assert forall|ux: int, uy: int|
                        0 <= ux < width as int && 0 <= uy < y as int
                            implies #[trigger] (uy * width as int + ux) < y as int * width as int
                                && 0 <= uy * width as int + ux by {
                        assert(uy * width as int + ux < y as int * width as int
                            && 0 <= uy * width as int + ux) by (nonlinear_arith)
                            requires 0 <= ux < width as int, 0 <= uy, uy + 1 <= y as int;
                    }
                }
                reclassified.push(keep);
                x = x + 1;
            }
            proof {
                lemma_row_major_extend_row(width as int, y as int);
            }
            y = y + 1;
        }
        proof {
            assert(reclassified@.len() == orig.tiles@.len()) by (nonlinear_arith)
                requires
                    reclassified@.len() == height * width,
                    orig.tiles@.len() == orig.width as int * orig.height as int,
                    width == orig.width as int,
                    height == orig.height as int;
        }
        self.tiles = reclassified;
    }
}

/// Appending one element to a row-major buffer of `y` full rows and `x`
/// cells moves the write position one cell to the right.
proof fn lemma_row_major_extend(w: int, x: int, y: int)
    requires
        0 <= x < w,
        0 <= y,
    ensures
        y * w + x + 1 <= (y + 1) * w,
        0 <= y * w + x,
{
    assert(y * w + x + 1 <= (y + 1) * w && 0 <= y * w + x) by (nonlinear_arith)
        requires 0 <= x < w, 0 <= y;
}

/// A full row later, the write position advances exactly one row.
proof fn lemma_row_major_extend_row(w: int, y: int)
    requires
        0 <= w,
        0 <= y,
    ensures
        y * w + w == (y + 1) * w,
{
    assert(y * w + w == (y + 1) * w) by (nonlinear_arith);
}

/// The grid column of an observation's footprint, for cells of edge
/// `tile_size` laid out from `origin_x`.
pub open spec fn obs_gx(o: SpawnedTileObservation, tile_size: int, origin_x: int) -> int {
    (o.world_x - origin_x) / tile_size
}

/// The grid row of an observation's footprint.
pub open spec fn obs_gy(o: SpawnedTileObservation, tile_size: int, origin_y: int) -> int {
    (o.world_y - origin_y) / tile_size
}

/// Whether an observation's coordinates leave room for one cell of margin
/// inside the accepted world range, so that a grid hugging the observations
/// keeps a well-formed extent.
pub open spec fn obs_in_limits(o: SpawnedTileObservation, tile_size: int) -> bool {
    &&& -WORLD_LIMIT + tile_size <= o.world_x <= WORLD_LIMIT - tile_size
    &&& -WORLD_LIMIT + tile_size <= o.world_y <= WORLD_LIMIT - tile_size
}

/// The observation that governs footprint `(gx, gy)`: the one with the
/// greatest z height among all observations on that footprint. At equal z
/// the earlier observation wins.
pub open spec fn top_at(obs: Seq<SpawnedTileObservation>, tile_size: int, origin_x: int,
    origin_y: int, gx: int, gy: int) -> Option<SpawnedTileObservation>
    decreases obs.len(),
{
    if obs.len() == 0 {
        None
    } else {
        let prev = top_at(obs.drop_last(), tile_size, origin_x, origin_y, gx, gy);
        let o = obs.last();
        if obs_gx(o, tile_size, origin_x) == gx && obs_gy(o, tile_size, origin_y) == gy && (
        match prev {
            None => true,
            Some(p) => o.world_z > p.world_z,
        }) {
            Some(o)
        } else {
            prev
        }
    }
}

/// The category the flatten pass writes into footprint `(gx, gy)`: the
/// topmost observation's category, or `Empty` for an unoccupied footprint.
pub open spec fn built_cell(obs: Seq<SpawnedTileObservation>, tile_size: int, origin_x: int,
    origin_y: int, gx: int, gy: int) -> TileType {
    match top_at(obs, tile_size, origin_x, origin_y, gx, gy) {
        None => TileType::Empty,
        Some(o) => o.tile_type,
    }
}

/// The least footprint column among the observations (nonempty input).
pub open spec fn bb_min_gx(obs: Seq<SpawnedTileObservation>, tile_size: int, origin_x: int) -> int
    decreases obs.len(),
{
    if obs.len() <= 1 {
        obs_gx(obs[0], tile_size, origin_x)
    } else {
        let rest = bb_min_gx(obs.drop_last(), tile_size, origin_x);
        let last = obs_gx(obs.last(), tile_size, origin_x);
        if last < rest {
            last
        } else {
            rest
        }
    }
}

/// The greatest footprint column among the observations (nonempty input).
pub open spec fn bb_max_gx(obs: Seq<SpawnedTileObservation>, tile_size: int, origin_x: int) -> int
    decreases obs.len(),
{
    if obs.len() <= 1 {
        obs_gx(obs[0], tile_size, origin_x)
    } else {
        let rest = bb_max_gx(obs.drop_last(), tile_size, origin_x);
        let last = obs_gx(obs.last(), tile_size, origin_x);
        if last > rest {
            last
        } else {
            rest
        }
    }
}

/// The least footprint row among the observations (nonempty input).
pub open spec fn bb_min_gy(obs: Seq<SpawnedTileObservation>, tile_size: int, origin_y: int) -> int
    decreases obs.len(),
{
    if obs.len() <= 1 {
        obs_gy(obs[0], tile_size, origin_y)
    } else {
        let rest = bb_min_gy(obs.drop_last(), tile_size, origin_y);
        let last = obs_gy(obs.last(), tile_size, origin_y);
        if last < rest {
            last
        } else {
            rest
        }
    }
}

/// The greatest footprint row among the observations (nonempty input).
pub open spec fn bb_max_gy(obs: Seq<SpawnedTileObservation>, tile_size: int, origin_y: int) -> int
    decreases obs.len(),
{
    if obs.len() <= 1 {
        obs_gy(obs[0], tile_size, origin_y)
    } else {
        let rest = bb_max_gy(obs.drop_last(), tile_size, origin_y);
        let last = obs_gy(obs.last(), tile_size, origin_y);
        if last > rest {
            last
        } else {
            rest
        }
    }
}

/// How many columns the built grid spans (nonempty input).
pub open spec fn grid_span_x(obs: Seq<SpawnedTileObservation>, tile_size: int, origin_x: int)
    -> int {
    bb_max_gx(obs, tile_size, origin_x) - bb_min_gx(obs, tile_size, origin_x) + 1
}

/// How many rows the built grid spans (nonempty input).
pub open spec fn grid_span_y(obs: Seq<SpawnedTileObservation>, tile_size: int, origin_y: int)
    -> int {
    bb_max_gy(obs, tile_size, origin_y) - bb_min_gy(obs, tile_size, origin_y) + 1
}

/// The flattened (pre-shoreline) category at local grid cell `(lx, ly)` of
/// the built grid, whose cell `(0, 0)` sits at the observations' least
/// footprint.
pub open spec fn built_local(obs: Seq<SpawnedTileObservation>, tile_size: int, origin_x: int,
    origin_y: int, lx: int, ly: int) -> TileType {
    built_cell(obs, tile_size, origin_x, origin_y, bb_min_gx(obs, tile_size, origin_x) + lx,
        bb_min_gy(obs, tile_size, origin_y) + ly)
}

/// Whether local cell `(lx, ly)` lies inside the built grid and its
/// flattened category is walkable.
pub open spec fn walkable_built_at(obs: Seq<SpawnedTileObservation>, tile_size: int,
    origin_x: int, origin_y: int, lx: int, ly: int) -> bool {
    &&& 0 <= lx < grid_span_x(obs, tile_size, origin_x)
    &&& 0 <= ly < grid_span_y(obs, tile_size, origin_y)
    &&& walkable(built_local(obs, tile_size, origin_x, origin_y, lx, ly))
}

/// The category the finished build leaves at local cell `(lx, ly)`: the
/// flattened category, except that `Water` touching walkable terrain
/// becomes `Shore`.
pub open spec fn final_built_cell(obs: Seq<SpawnedTileObservation>, tile_size: int,
    origin_x: int, origin_y: int, lx: int, ly: int) -> TileType {
    if built_local(obs, tile_size, origin_x, origin_y, lx, ly) == TileType::Water && {
        ||| walkable_built_at(obs, tile_size, origin_x, origin_y, lx - 1, ly)
        ||| walkable_built_at(obs, tile_size, origin_x, origin_y, lx + 1, ly)
        ||| walkable_built_at(obs, tile_size, origin_x, origin_y, lx, ly - 1)
        ||| walkable_built_at(obs, tile_size, origin_x, origin_y, lx, ly + 1)
        ||| walkable_built_at(obs, tile_size, origin_x, origin_y, lx - 1, ly - 1)
        ||| walkable_built_at(obs, tile_size, origin_x, origin_y, lx + 1, ly - 1)
        ||| walkable_built_at(obs, tile_size, origin_x, origin_y, lx - 1, ly + 1)
        ||| walkable_built_at(obs, tile_size, origin_x, origin_y, lx + 1, ly + 1)
    } {
        TileType::Shore
    } else {
        built_local(obs, tile_size, origin_x, origin_y, lx, ly)
    }
}

/// Everything `build_collision_map` promises of a successful result: the
/// grid hugs the observations' bounding box, keeps the caller's cell size,
/// and every cell carries the flattened, shoreline-fixed category. The
/// result is a function of the observation sequence and the configuration
/// alone.
pub open spec fn is_built_from(g: CollisionMap, obs: Seq<SpawnedTileObservation>,
    tile_size: int, origin_x: int, origin_y: int) -> bool {
    &&& g.width as int == grid_span_x(obs, tile_size, origin_x)
    &&& g.height as int == grid_span_y(obs, tile_size, origin_y)
    &&& g.tile_size as int == tile_size
    &&& g.grid_origin_x as int == origin_x + bb_min_gx(obs, tile_size, origin_x) * tile_size
    &&& g.grid_origin_y as int == origin_y + bb_min_gy(obs, tile_size, origin_y) * tile_size
    &&& forall|lx: int, ly: int|
        0 <= lx < g.width && 0 <= ly < g.height
            ==> g.cell_at(lx, ly) == final_built_cell(obs, tile_size, origin_x, origin_y, lx, ly)
}

/// Relates the tracked per-cell state of the flatten pass (current
/// category and best z height seen) to the topmost observation so far.
pub open spec fn layer_state_ok(top: Option<SpawnedTileObservation>, cell: TileType,
    z: Option<i64>) -> bool {
    match top {
        None => cell == TileType::Empty && z is None,
        Some(o) => cell == o.tile_type && z == Some(o.world_z),
    }
}

/// Every observation's footprint lies inside the observations' bounding
/// box.
pub proof fn lemma_bb_contains(obs: Seq<SpawnedTileObservation>, tile_size: int, origin_x: int,
    origin_y: int, i: int)
    requires
        0 <= i < obs.len(),
    ensures
        bb_min_gx(obs, tile_size, origin_x) <= obs_gx(obs[i], tile_size, origin_x)
            <= bb_max_gx(obs, tile_size, origin_x),
        bb_min_gy(obs, tile_size, origin_y) <= obs_gy(obs[i], tile_size, origin_y)
            <= bb_max_gy(obs, tile_size, origin_y),
    decreases obs.len(),
{
    if obs.len() > 1 && i < obs.len() - 1 {
        lemma_bb_contains(obs.drop_last(), tile_size, origin_x, origin_y, i);
        assert(obs.drop_last()[i] == obs[i]);
    }
}

/// Distinct in-bounds cells have distinct flattened row-major indices.
pub proof fn lemma_idx_distinct(w: int, x1: int, y1: int, x2: int, y2: int)
    requires
        0 < w,
        0 <= x1 < w,
        0 <= x2 < w,
        x1 != x2 || y1 != y2,
    ensures
        y1 * w + x1 != y2 * w + x2,
{
    if y1 == y2 {
        assert(y1 * w + x1 != y2 * w + x2);
    } else {
        assert(y1 * w + x1 != y2 * w + x2) by (nonlinear_arith)
            requires
                0 <= x1 < w,
                0 <= x2 < w,
                0 < w,
                y1 != y2;
    }
}

/// The world coordinate of the left edge of the cell containing `wx` lies
/// within one cell of `wx`, hence safely inside the accepted world range.
pub proof fn lemma_cell_base_bounds(wx: int, ox: int, ts: int)
    requires
        1 <= ts,
        -WORLD_LIMIT + ts <= wx <= WORLD_LIMIT - ts,
        -WORLD_LIMIT <= ox <= WORLD_LIMIT,
    ensures
        -WORLD_LIMIT <= ox + ((wx - ox) / ts) * ts <= WORLD_LIMIT - ts,
{
    vstd::arithmetic::div_mod::lemma_fundamental_div_mod(wx - ox, ts);
    let q: int = (wx - ox) / ts;
    let r: int = (wx - ox) % ts;
    assert(q * ts == ts * q) by (nonlinear_arith);
    assert(ox + q * ts == wx - r);
}

/// Build a collision grid from the spawned tile observations.
///
/// The grid's extents hug the observations' footprint bounding box; each
/// occupied footprint keeps only its topmost (greatest z) observation,
/// unoccupied cells stay `Empty`, and the shoreline pass then turns water
/// edges into walkable `Shore`. With no observations at all the builder is
/// not ready and the caller retries later.
#[verifier::loop_isolation(false)]
pub fn build_collision_map(observations: &Vec<SpawnedTileObservation>, tile_size: i64,
    origin_x: i64, origin_y: i64) -> (r: Result<CollisionMap, BuildError>)
    requires
        1 <= tile_size <= WORLD_LIMIT,
        -WORLD_LIMIT <= origin_x <= WORLD_LIMIT,
        -WORLD_LIMIT <= origin_y <= WORLD_LIMIT,
        forall|i: int|
            0 <= i < observations@.len()
                ==> obs_in_limits(#[trigger] observations@[i], tile_size as int),
        observations@.len() > 0
            ==> grid_span_x(observations@, tile_size as int, origin_x as int)
                * grid_span_y(observations@, tile_size as int, origin_y as int)
                <= CELL_LIMIT as int,
    ensures
        r is Err <==> observations@.len() == 0,
        r matches Err(e) ==> e == BuildError::NotReady,
        r matches Ok(g) ==> g.wf()
            && is_built_from(g, observations@, tile_size as int, origin_x as int,
                origin_y as int),
{
    let ghost ts: int = tile_size as int;
    let ghost ox: int = origin_x as int;
    let ghost oy: int = origin_y as int;
    let ghost obs: Seq<SpawnedTileObservation> = observations@;

    let n = observations.len();
    if n == 0 {
        return Err(BuildError::NotReady);
    }

    // Pass 1: the footprint bounding box of all observations.
    let o0 = observations[0];
    let gx0 = floor_div(o0.world_x - origin_x, tile_size);
    let gy0 = floor_div(o0.world_y - origin_y, tile_size);
    proof {
        lemma_div_bounded_dividend(o0.world_x - ox, ts, 2 * WORLD_LIMIT as int);
        lemma_div_bounded_dividend(o0.world_y - oy, ts, 2 * WORLD_LIMIT as int);
        lemma_cell_base_bounds(o0.world_x as int, ox, ts);
        lemma_cell_base_bounds(o0.world_y as int, oy, ts);
        assert(obs.take(1)[0] == obs[0]);
    }
    let mut min_gx = gx0;
    let mut max_gx = gx0;
    let mut min_gy = gy0;
    let mut max_gy = gy0;

    let mut i: usize = 1;
    while i < n
        invariant
            1 <= i <= n,
            min_gx as int == bb_min_gx(obs.take(i as int), ts, ox),
            max_gx as int == bb_max_gx(obs.take(i as int), ts, ox),
            min_gy as int == bb_min_gy(obs.take(i as int), ts, oy),
            max_gy as int == bb_max_gy(obs.take(i as int), ts, oy),
            min_gx <= max_gx,
            min_gy <= max_gy,
            -2 * WORLD_LIMIT <= min_gx <= 2 * WORLD_LIMIT,
            -2 * WORLD_LIMIT <= max_gx <= 2 * WORLD_LIMIT,
            -2 * WORLD_LIMIT <= min_gy <= 2 * WORLD_LIMIT,
            -2 * WORLD_LIMIT <= max_gy <= 2 * WORLD_LIMIT,
            -WORLD_LIMIT <= ox + min_gx as int * ts <= WORLD_LIMIT - ts,
            -WORLD_LIMIT <= ox + max_gx as int * ts <= WORLD_LIMIT - ts,
            -WORLD_LIMIT <= oy + min_gy as int * ts <= WORLD_LIMIT - ts,
            -WORLD_LIMIT <= oy + max_gy as int * ts <= WORLD_LIMIT - ts,
        decreases n - i,
    {
        let o = observations[i];
        let gx = floor_div(o.world_x - origin_x, tile_size);
        let gy = floor_div(o.world_y - origin_y, tile_size);
        proof {
            lemma_div_bounded_dividend(o.world_x - ox, ts, 2 * WORLD_LIMIT as int);
            lemma_div_bounded_dividend(o.world_y - oy, ts, 2 * WORLD_LIMIT as int);
            lemma_cell_base_bounds(o.world_x as int, ox, ts);
            lemma_cell_base_bounds(o.world_y as int, oy, ts);
            assert(obs.take(i as int + 1).drop_last() =~= obs.take(i as int));
            assert(obs.take(i as int + 1).last() == obs[i as int]);
        }
        if gx < min_gx {
            min_gx = gx;
        }
        if gx > max_gx {
            max_gx = gx;
        }
        if gy < min_gy {
            min_gy = gy;
        }
        if gy > max_gy {
            max_gy = gy;
        }
        i = i + 1;
    }
    proof {
        assert(obs.take(n as int) =~= obs);
    }

    let w = max_gx - min_gx + 1;
    let h = max_gy - min_gy + 1;
    proof {
        assert(w as int <= w as int * h as int && h as int <= w as int * h as int)
            by (nonlinear_arith)
            requires 1 <= w as int, 1 <= h as int;
        assert(min_gx as int * ts + w as int * ts == max_gx as int * ts + ts)
            by (nonlinear_arith)
            requires w as int == max_gx as int - min_gx as int + 1;
        assert(min_gy as int * ts + h as int * ts == max_gy as int * ts + ts)
            by (nonlinear_arith)
            requires h as int == max_gy as int - min_gy as int + 1;
    }
    let grid_origin_x = origin_x + min_gx * tile_size;
    let grid_origin_y = origin_y + min_gy * tile_size;
    let mut grid = match CollisionMap::with_origin(w as i32, h as i32, tile_size, grid_origin_x,
        grid_origin_y) {
        Some(g) => g,
        None => {
            proof {
                assert(false);
            }
            return Err(BuildError::NotReady);
        },
    };

    let total: usize = grid.tiles.len();
    let mut best_z: Vec<Option<i64>> = Vec::new();
    let mut k: usize = 0;
    while k < total
        invariant
            k <= total,
            best_z@.len() == k as int,
            forall|j: int| 0 <= j < k as int ==> best_z@[j] is None,
        decreases total - k,
    {
        best_z.push(None);
        k = k + 1;
    }

    // Pass 2: keep only the topmost observation per footprint.
    proof {
        assert forall|lx: int, ly: int|
            0 <= lx < grid.width as int && 0 <= ly < grid.height as int
                implies layer_state_ok(
                    top_at(obs.take(0), ts, ox, oy, min_gx as int + lx, min_gy as int + ly),
                    grid.cell_at(lx, ly),
                    best_z@[grid.spec_idx(lx, ly)],
                ) by {
            lemma_idx_in_range(grid, lx, ly);
        }
    }
    let mut i: usize = 0;
    while i < n
        invariant
            i <= n,
            grid.wf(),
            grid.width == w as i32,
            grid.height == h as i32,
            grid.tile_size == tile_size,
            grid.grid_origin_x == grid_origin_x,
            grid.grid_origin_y == grid_origin_y,
            best_z@.len() == grid.tiles@.len(),
            forall|lx: int, ly: int|
                0 <= lx < grid.width as int && 0 <= ly < grid.height as int
                    ==> layer_state_ok(
                        top_at(obs.take(i as int), ts, ox, oy, min_gx as int + lx,
                            min_gy as int + ly),
                        grid.cell_at(lx, ly),
                        best_z@[grid.spec_idx(lx, ly)],
                    ),
        decreases n - i,
    {
        let o = observations[i];
        let gx = floor_div(o.world_x - origin_x, tile_size);
        let gy = floor_div(o.world_y - origin_y, tile_size);
        proof {
            lemma_bb_contains(obs, ts, ox, oy, i as int);
            assert(obs.take(i as int + 1).drop_last() =~= obs.take(i as int));
            assert(obs.take(i as int + 1).last() == obs[i as int]);
        }
        let lx = gx - min_gx;
        let ly = gy - min_gy;
        let li = grid.xy_idx(lx, ly);
        let ghost pre_grid: CollisionMap = grid;
        let ghost pre_z: Seq<Option<i64>> = best_z@;
        let replace: bool = match best_z[li] {
            None => true,
            Some(z) => o.world_z > z,
        };
        if replace {
            grid.set_tile(lx, ly, o.tile_type);
            best_z[li] = Some(o.world_z);
        }
        proof {
            assert forall|ux: int, uy: int|
                0 <= ux < grid.width as int && 0 <= uy < grid.height as int
                    implies layer_state_ok(
                        top_at(obs.take(i as int + 1), ts, ox, oy, min_gx as int + ux,
                            min_gy as int + uy),
                        grid.cell_at(ux, uy),
                        best_z@[grid.spec_idx(ux, uy)],
                    ) by {
                lemma_idx_in_range(pre_grid, ux, uy);
                if ux != lx as int || uy != ly as int {
                    lemma_idx_distinct(grid.width as int, ux, uy, lx as int, ly as int);
                    assert(grid.cell_at(ux, uy) == pre_grid.cell_at(ux, uy));
                    assert(best_z@[grid.spec_idx(ux, uy)] == pre_z[grid.spec_idx(ux, uy)]);
                }
            }
        }
        i = i + 1;
    }

    let ghost flat_grid: CollisionMap = grid;

    // Shoreline post-pass over the flattened grid.
    grid.convert_water_edges_to_shore();

    proof {
        assert forall|lx: int, ly: int|
            0 <= lx < grid.width as int && 0 <= ly < grid.height as int
                implies grid.cell_at(lx, ly) == final_built_cell(obs, ts, ox, oy, lx, ly) by {
            assert(grid.cell_at(lx, ly) == shore_fixed(flat_grid, lx, ly));
        }
    }
    Ok(grid)
}

/// Building from a fixed observation sequence is deterministic: any two
/// grids that satisfy the builder's contract for the same observations and
/// configuration agree on every field and on every cell.
pub proof fn lemma_build_deterministic(g1: CollisionMap, g2: CollisionMap,
    obs: Seq<SpawnedTileObservation>, tile_size: int, origin_x: int, origin_y: int)
    requires
        g1.wf(),
        g2.wf(),
        is_built_from(g1, obs, tile_size, origin_x, origin_y),
        is_built_from(g2, obs, tile_size, origin_x, origin_y),
    ensures
        g1.width == g2.width,
        g1.height == g2.height,
        g1.tile_size == g2.tile_size,
        g1.grid_origin_x == g2.grid_origin_x,
        g1.grid_origin_y == g2.grid_origin_y,
        g1.tiles@ == g2.tiles@,
{
    let w = g1.width as int;
    let h = g1.height as int;
    assert(g1.tiles@.len() == g2.tiles@.len());
    assert forall|i: int| 0 <= i < g1.tiles@.len() implies g1.tiles@[i] == g2.tiles@[i] by {
        let x = i % w;
        let y = i / w;
        lemma_mod_bound(i, w);
        lemma_div_pos_is_pos(i, w);
        lemma_multiply_divide_lt(i, w, h);
        assert(w * h == h * w) by (nonlinear_arith);
        lemma_fundamental_div_mod(i, w);
        assert(w * (i / w) == (i / w) * w) by (nonlinear_arith);
        assert(i == y * w + x);
        assert(g1.cell_at(x, y) == final_built_cell(obs, tile_size, origin_x, origin_y, x, y));
        assert(g2.cell_at(x, y) == final_built_cell(obs, tile_size, origin_x, origin_y, x, y));
    }
    assert(g1.tiles@ =~= g2.tiles@);
}

/// What the topmost-layer reduction guarantees: `None` means no observation
/// sits on the footprint; `Some(o)` means `o` is one of the observations,
/// sits on the footprint, and no observation there is higher.
pub proof fn lemma_top_at_props(obs: Seq<SpawnedTileObservation>, tile_size: int, origin_x: int,
    origin_y: int, gx: int, gy: int)
    ensures
        top_at(obs, tile_size, origin_x, origin_y, gx, gy) is None
            ==> forall|j: int|
                0 <= j < obs.len()
                    ==> !(obs_gx(#[trigger] obs[j], tile_size, origin_x) == gx
                        && obs_gy(obs[j], tile_size, origin_y) == gy),
        top_at(obs, tile_size, origin_x, origin_y, gx, gy) matches Some(o) ==> {
            &&& obs_gx(o, tile_size, origin_x) == gx
            &&& obs_gy(o, tile_size, origin_y) == gy
            &&& exists|j: int| 0 <= j < obs.len() && obs[j] == o
            &&& forall|k: int|
                0 <= k < obs.len()
                    && obs_gx(#[trigger] obs[k], tile_size, origin_x) == gx
                    && obs_gy(obs[k], tile_size, origin_y) == gy
                    ==> obs[k].world_z <= o.world_z
        },
    decreases obs.len(),
{
    if obs.len() > 0 {
        lemma_top_at_props(obs.drop_last(), tile_size, origin_x, origin_y, gx, gy);
        assert(forall|j: int| 0 <= j < obs.len() - 1 ==> obs.drop_last()[j] == #[trigger] obs[j]);
        let last = obs.last();
        assert(obs[obs.len() - 1] == last);
        match top_at(obs, tile_size, origin_x, origin_y, gx, gy) {
            None => {},
            Some(o) => {
                if o == last && top_at(obs.drop_last(), tile_size, origin_x, origin_y, gx, gy)
                    != Some(o) {
                    assert(obs[obs.len() - 1] == o);
                } else {
                    // The governing observation came from the prefix; its
                    // index there is an index into the full sequence too.
                    let j = choose|j: int| 0 <= j < obs.len() - 1 && obs.drop_last()[j] == o;
                    assert(obs[j] == o);
                }
            },
        }
    }
}

/// Layer precedence: an observation strictly above every other observation
/// on its footprint is the one that determines the built cell there.
pub proof fn lemma_topmost_layer_wins(obs: Seq<SpawnedTileObservation>, tile_size: int,
    origin_x: int, origin_y: int, i: int)
    requires
        0 <= i < obs.len(),
        forall|j: int|
            0 <= j < obs.len() && j != i
                && obs_gx(#[trigger] obs[j], tile_size, origin_x)
                    == obs_gx(obs[i], tile_size, origin_x)
                && obs_gy(obs[j], tile_size, origin_y) == obs_gy(obs[i], tile_size, origin_y)
                ==> obs[j].world_z < obs[i].world_z,
    ensures
        top_at(obs, tile_size, origin_x, origin_y, obs_gx(obs[i], tile_size, origin_x),
            obs_gy(obs[i], tile_size, origin_y)) == Some(obs[i]),
        built_cell(obs, tile_size, origin_x, origin_y, obs_gx(obs[i], tile_size, origin_x),
            obs_gy(obs[i], tile_size, origin_y)) == obs[i].tile_type,
{
    let gx = obs_gx(obs[i], tile_size, origin_x);
    let gy = obs_gy(obs[i], tile_size, origin_y);
    lemma_top_at_props(obs, tile_size, origin_x, origin_y, gx, gy);
    match top_at(obs, tile_size, origin_x, origin_y, gx, gy) {
        None => {
            assert(false);
        },
        Some(o) => {
            let j = choose|j: int| 0 <= j < obs.len() && obs[j] == o;
            if j != i {
                assert(obs[j].world_z < obs[i].world_z);
                assert(obs[i].world_z <= o.world_z);
                assert(false);
            }
        },
    }
}

/// Input order does not matter: on any footprint where no two observations
/// share a z height, building from the reversed sequence gives the same
/// cell as building from the original sequence.
pub proof fn lemma_flatten_order_irrelevant(obs: Seq<SpawnedTileObservation>, tile_size: int,
    origin_x: int, origin_y: int, gx: int, gy: int)
    requires
        forall|i: int, j: int|
            0 <= i < obs.len() && 0 <= j < obs.len() && i != j
                && obs_gx(#[trigger] obs[i], tile_size, origin_x) == gx
                && obs_gy(obs[i], tile_size, origin_y) == gy
                && obs_gx(#[trigger] obs[j], tile_size, origin_x) == gx
                && obs_gy(obs[j], tile_size, origin_y) == gy
                ==> obs[i].world_z != obs[j].world_z,
    ensures
        built_cell(obs.reverse(), tile_size, origin_x, origin_y, gx, gy)
            == built_cell(obs, tile_size, origin_x, origin_y, gx, gy),
{
    let rev = obs.reverse();
    let n = obs.len() as int;
    assert(rev.len() == n);
    assert(forall|k: int| 0 <= k < n ==> #[trigger] rev[k] == obs[n - 1 - k]);
    lemma_top_at_props(obs, tile_size, origin_x, origin_y, gx, gy);
    lemma_top_at_props(rev, tile_size, origin_x, origin_y, gx, gy);
    match top_at(obs, tile_size, origin_x, origin_y, gx, gy) {
        None => {
            match top_at(rev, tile_size, origin_x, origin_y, gx, gy) {
                None => {},
                Some(o2) => {
                    let k = choose|k: int| 0 <= k < n && rev[k] == o2;
                    assert(obs[n - 1 - k] == o2);
                    assert(false);
                },
            }
        },
        Some(o1) => {
            let i1 = choose|j: int| 0 <= j < n && obs[j] == o1;
            match top_at(rev, tile_size, origin_x, origin_y, gx, gy) {
                None => {
                    assert(rev[n - 1 - i1] == o1);
                    assert(false);
                },
                Some(o2) => {
                    let k2 = choose|k: int| 0 <= k < n && rev[k] == o2;
                    let i2 = n - 1 - k2;
                    assert(obs[i2] == o2);
                    // o2 sits on the footprint, so it is no higher than o1.
                    assert(o2.world_z <= o1.world_z);
                    // o1 appears in the reversed sequence, so it is no
                    // higher than o2 either.
                    assert(rev[n - 1 - i1] == o1);
                    assert(o1.world_z <= o2.world_z);
                    // Equal heights on one footprint force one observation.
                    if i1 != i2 {
                        assert(obs[i1].world_z != obs[i2].world_z);
                        assert(false);
                    }
                },
            }
        },
    }
}

/// Every bounding-box extreme is attained by some observation.
pub proof fn lemma_bb_attained(obs: Seq<SpawnedTileObservation>, tile_size: int, origin_x: int,
    origin_y: int)
    requires
        obs.len() > 0,
    ensures
        exists|i: int|
            0 <= i < obs.len() && obs_gx(#[trigger] obs[i], tile_size, origin_x)
                == bb_min_gx(obs, tile_size, origin_x),
        exists|i: int|
            0 <= i < obs.len() && obs_gx(#[trigger] obs[i], tile_size, origin_x)
                == bb_max_gx(obs, tile_size, origin_x),
        exists|i: int|
            0 <= i < obs.len() && obs_gy(#[trigger] obs[i], tile_size, origin_y)
                == bb_min_gy(obs, tile_size, origin_y),
        exists|i: int|
            0 <= i < obs.len() && obs_gy(#[trigger] obs[i], tile_size, origin_y)
                == bb_max_gy(obs, tile_size, origin_y),
    decreases obs.len(),
{
    if obs.len() == 1 {
        assert(obs_gx(obs[0], tile_size, origin_x) == bb_min_gx(obs, tile_size, origin_x));
        assert(obs_gx(obs[0], tile_size, origin_x) == bb_max_gx(obs, tile_size, origin_x));
        assert(obs_gy(obs[0], tile_size, origin_y) == bb_min_gy(obs, tile_size, origin_y));
        assert(obs_gy(obs[0], tile_size, origin_y) == bb_max_gy(obs, tile_size, origin_y));
    } else {
        let rest = obs.drop_last();
        lemma_bb_attained(rest, tile_size, origin_x, origin_y);
        assert(forall|j: int| 0 <= j < obs.len() - 1 ==> rest[j] == #[trigger] obs[j]);
        let n = obs.len() as int;
        assert(obs[n - 1] == obs.last());
        if obs_gx(obs.last(), tile_size, origin_x) < bb_min_gx(rest, tile_size, origin_x) {
            assert(obs_gx(obs[n - 1], tile_size, origin_x)
                == bb_min_gx(obs, tile_size, origin_x));
        } else {
            let j = choose|j: int|
                0 <= j < rest.len() && obs_gx(#[trigger] rest[j], tile_size, origin_x)
                    == bb_min_gx(rest, tile_size, origin_x);
            assert(obs_gx(obs[j], tile_size, origin_x) == bb_min_gx(obs, tile_size, origin_x));
        }
        if obs_gx(obs.last(), tile_size, origin_x) > bb_max_gx(rest, tile_size, origin_x) {
            assert(obs_gx(obs[n - 1], tile_size, origin_x)
                == bb_max_gx(obs, tile_size, origin_x));
        } else {
            let j = choose|j: int|
                0 <= j < rest.len() && obs_gx(#[trigger] rest[j], tile_size, origin_x)
                    == bb_max_gx(rest, tile_size, origin_x);
            assert(obs_gx(obs[j], tile_size, origin_x) == bb_max_gx(obs, tile_size, origin_x));
        }
        if obs_gy(obs.last(), tile_size, origin_y) < bb_min_gy(rest, tile_size, origin_y) {
            assert(obs_gy(obs[n - 1], tile_size, origin_y)
                == bb_min_gy(obs, tile_size, origin_y));
        } else {
            let j = choose|j: int|
                0 <= j < rest.len() && obs_gy(#[trigger] rest[j], tile_size, origin_y)
                    == bb_min_gy(rest, tile_size, origin_y);
            assert(obs_gy(obs[j], tile_size, origin_y) == bb_min_gy(obs, tile_size, origin_y));
        }
        if obs_gy(obs.last(), tile_size, origin_y) > bb_max_gy(rest, tile_size, origin_y) {
            assert(obs_gy(obs[n - 1], tile_size, origin_y)
                == bb_max_gy(obs, tile_size, origin_y));
        } else {
            let j = choose|j: int|
                0 <= j < rest.len() && obs_gy(#[trigger] rest[j], tile_size, origin_y)
                    == bb_max_gy(rest, tile_size, origin_y);
            assert(obs_gy(obs[j], tile_size, origin_y) == bb_max_gy(obs, tile_size, origin_y));
        }
    }
}

/// Reversing the observations leaves the footprint bounding box unchanged:
/// the extremes depend only on which observations occur, not their order.
pub proof fn lemma_bb_reverse(obs: Seq<SpawnedTileObservation>, tile_size: int, origin_x: int,
    origin_y: int)
    requires
        obs.len() > 0,
    ensures
        bb_min_gx(obs.reverse(), tile_size, origin_x) == bb_min_gx(obs, tile_size, origin_x),
        bb_max_gx(obs.reverse(), tile_size, origin_x) == bb_max_gx(obs, tile_size, origin_x),
        bb_min_gy(obs.reverse(), tile_size, origin_y) == bb_min_gy(obs, tile_size, origin_y),
        bb_max_gy(obs.reverse(), tile_size, origin_y) == bb_max_gy(obs, tile_size, origin_y),
{
    let rev = obs.reverse();
    let n = obs.len() as int;
    assert(rev.len() == n);
    assert(forall|k: int| 0 <= k < n ==> #[trigger] rev[k] == obs[n - 1 - k]);
    lemma_bb_attained(obs, tile_size, origin_x, origin_y);
    lemma_bb_attained(rev, tile_size, origin_x, origin_y);
    // Each extreme of one sequence is attained by an observation that also
    // occurs in the other, where the other's extreme bounds it.
    let i1 = choose|i: int|
        0 <= i < n && obs_gx(#[trigger] obs[i], tile_size, origin_x)
            == bb_min_gx(obs, tile_size, origin_x);
    lemma_bb_contains(rev, tile_size, origin_x, origin_y, n - 1 - i1);
    let k1 = choose|k: int|
        0 <= k < n && obs_gx(#[trigger] rev[k], tile_size, origin_x)
            == bb_min_gx(rev, tile_size, origin_x);
    lemma_bb_contains(obs, tile_size, origin_x, origin_y, n - 1 - k1);
    let i2 = choose|i: int|
        0 <= i < n && obs_gx(#[trigger] obs[i], tile_size, origin_x)
            == bb_max_gx(obs, tile_size, origin_x);
    lemma_bb_contains(rev, tile_size, origin_x, origin_y, n - 1 - i2);
    let k2 = choose|k: int|
        0 <= k < n && obs_gx(#[trigger] rev[k], tile_size, origin_x)
            == bb_max_gx(rev, tile_size, origin_x);
    lemma_bb_contains(obs, tile_size, origin_x, origin_y, n - 1 - k2);
    let i3 = choose|i: int|
        0 <= i < n && obs_gy(#[trigger] obs[i], tile_size, origin_y)
            == bb_min_gy(obs, tile_size, origin_y);
    lemma_bb_contains(rev, tile_size, origin_x, origin_y, n - 1 - i3);
    let k3 = choose|k: int|
        0 <= k < n && obs_gy(#[trigger] rev[k], tile_size, origin_y)
            == bb_min_gy(rev, tile_size, origin_y);
    lemma_bb_contains(obs, tile_size, origin_x, origin_y, n - 1 - k3);
    let i4 = choose|i: int|
        0 <= i < n && obs_gy(#[trigger] obs[i], tile_size, origin_y)
            == bb_max_gy(obs, tile_size, origin_y);
    lemma_bb_contains(rev, tile_size, origin_x, origin_y, n - 1 - i4);
    let k4 = choose|k: int|
        0 <= k < n && obs_gy(#[trigger] rev[k], tile_size, origin_y)
            == bb_max_gy(rev, tile_size, origin_y);
    lemma_bb_contains(obs, tile_size, origin_x, origin_y, n - 1 - k4);
}

/// The finished cell at local coordinates does not depend on input order:
/// on a tie-free input, the reversed sequence flattens and shore-fixes to
/// the same category everywhere.
proof fn lemma_final_built_cell_reverse(obs: Seq<SpawnedTileObservation>, tile_size: int,
    origin_x: int, origin_y: int, lx: int, ly: int)
    requires
        obs.len() > 0,
        forall|i: int, j: int|
            0 <= i < obs.len() && 0 <= j < obs.len() && i != j
                && obs_gx(#[trigger] obs[i], tile_size, origin_x)
                    == obs_gx(#[trigger] obs[j], tile_size, origin_x)
                && obs_gy(obs[i], tile_size, origin_y) == obs_gy(obs[j], tile_size, origin_y)
                ==> obs[i].world_z != obs[j].world_z,
    ensures
        final_built_cell(obs.reverse(), tile_size, origin_x, origin_y, lx, ly)
            == final_built_cell(obs, tile_size, origin_x, origin_y, lx, ly),
{
    let rev = obs.reverse();
    lemma_bb_reverse(obs, tile_size, origin_x, origin_y);
    let minx = bb_min_gx(obs, tile_size, origin_x);
    let miny = bb_min_gy(obs, tile_size, origin_y);
    assert forall|a: int, b: int| lx - 1 <= a <= lx + 1 && ly - 1 <= b <= ly + 1 implies
        built_local(rev, tile_size, origin_x, origin_y, a, b)
            == #[trigger] built_local(obs, tile_size, origin_x, origin_y, a, b) by {
        lemma_flatten_order_irrelevant(obs, tile_size, origin_x, origin_y, minx + a, miny + b);
    }
    assert(built_local(rev, tile_size, origin_x, origin_y, lx, ly)
        == built_local(obs, tile_size, origin_x, origin_y, lx, ly));
}

/// Input order does not matter for the whole build: on an input where no
/// two observations share a footprint and a z height, a grid built from
/// the reversed sequence agrees with a grid built from the original in
/// every field and every cell.
pub proof fn lemma_build_order_independent(g1: CollisionMap, g2: CollisionMap,
    obs: Seq<SpawnedTileObservation>, tile_size: int, origin_x: int, origin_y: int)
    requires
        g1.wf(),
        g2.wf(),
        obs.len() > 0,
        forall|i: int, j: int|
            0 <= i < obs.len() && 0 <= j < obs.len() && i != j
                && obs_gx(#[trigger] obs[i], tile_size, origin_x)
                    == obs_gx(#[trigger] obs[j], tile_size, origin_x)
                && obs_gy(obs[i], tile_size, origin_y) == obs_gy(obs[j], tile_size, origin_y)
                ==> obs[i].world_z != obs[j].world_z,
        is_built_from(g1, obs, tile_size, origin_x, origin_y),
        is_built_from(g2, obs.reverse(), tile_size, origin_x, origin_y),
    ensures
        g1.width == g2.width,
        g1.height == g2.height,
        g1.tile_size == g2.tile_size,
        g1.grid_origin_x == g2.grid_origin_x,
        g1.grid_origin_y == g2.grid_origin_y,
        g1.tiles@ == g2.tiles@,
{
    lemma_bb_reverse(obs, tile_size, origin_x, origin_y);
    let w = g1.width as int;
    let h = g1.height as int;
    assert(g1.tiles@.len() == g2.tiles@.len());
    assert forall|i: int| 0 <= i < g1.tiles@.len() implies g1.tiles@[i] == g2.tiles@[i] by {
        let x = i % w;
        let y = i / w;
        lemma_mod_bound(i, w);
        lemma_div_pos_is_pos(i, w);
        lemma_multiply_divide_lt(i, w, h);
        assert(w * h == h * w) by (nonlinear_arith);
        lemma_fundamental_div_mod(i, w);
        assert(w * (i / w) == (i / w) * w) by (nonlinear_arith);
        assert(i == y * w + x);
        lemma_final_built_cell_reverse(obs, tile_size, origin_x, origin_y, x, y);
        assert(g1.cell_at(x, y) == final_built_cell(obs, tile_size, origin_x, origin_y, x, y));
        assert(g2.cell_at(x, y) == final_built_cell(obs.reverse(), tile_size, origin_x,
            origin_y, x, y));
    }
    assert(g1.tiles@ =~= g2.tiles@);
}

/// A `Water` cell becomes `Shore` exactly when one of its eight neighbours
/// is walkable and in bounds; surrounded entirely by blocking terrain it
/// stays `Water`.
pub proof fn lemma_shoreline(g: CollisionMap, x: int, y: int)
    requires
        g.spec_in_bounds(x, y),
        g.cell_at(x, y) == TileType::Water,
    ensures
        has_walkable_neighbor(g, x, y) ==> shore_fixed(g, x, y) == TileType::Shore,
        !has_walkable_neighbor(g, x, y) ==> shore_fixed(g, x, y) == TileType::Water,
{
}

} // verus!
