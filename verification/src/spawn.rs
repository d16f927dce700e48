//! Spawn-point search: test the grid's centre cell, then expanding square
//! rings around it, then a bounded number of random cells, and fall back to
//! the centre position as a documented degraded last resort.

use vstd::prelude::*;
use rand::Rng;
use crate::grid::{CollisionMap, WorldPos, WORLD_LIMIT};
use crate::query::circle_clear;

verus! {

/// The world position of the centre of the grid's geometric centre cell.
pub open spec fn grid_center_pos(g: CollisionMap) -> WorldPos {
    WorldPos {
        x: (g.spec_cell_center_x(g.width as int / 2)) as i64,
        y: (g.spec_cell_center_y(g.height as int / 2)) as i64,
    }
}

/// How far out, in Chebyshev cell distance from the centre cell, the ring
/// search reaches: half the smaller grid extent.
pub open spec fn spawn_ring_limit(g: CollisionMap) -> int {
    if g.width < g.height {
        g.width as int / 2
    } else {
        g.height as int / 2
    }
}

/// Whether an agent of radius `r` can stand at the centre of cell
/// `(x, y)`: the position every stage of the spawn search actually tests.
pub open spec fn spawn_candidate_clear(g: CollisionMap, x: int, y: int, r: int) -> bool {
    circle_clear(g, g.spec_cell_center_x(x), g.spec_cell_center_y(y), r)
}

/// The rest of one column of a ring scan: walking `dy` upward through
/// `-ring..=ring` at fixed `dx`, the first perimeter cell that is in
/// bounds and whose centre is clear.
pub open spec fn scan_ring_column(g: CollisionMap, cx: int, cy: int, ring: int, dx: int,
    dy: int, r: int) -> Option<(int, int)>
    decreases ring + 1 - dy,
{
    if dy > ring {
        None
    } else {
        let x = cx + dx;
        let y = cy + dy;
        if (dx == -ring || dx == ring || dy == -ring || dy == ring) && g.spec_in_bounds(x, y)
            && spawn_candidate_clear(g, x, y, r) {
            Some((x, y))
        } else {
            scan_ring_column(g, cx, cy, ring, dx, dy + 1, r)
        }
    }
}

/// The rest of one ring scan: walking `dx` rightward through
/// `-ring..=ring`, the first hit among the remaining columns.
pub open spec fn scan_ring(g: CollisionMap, cx: int, cy: int, ring: int, dx: int, r: int)
    -> Option<(int, int)>
    decreases ring + 1 - dx,
{
    if dx > ring {
        None
    } else {
        match scan_ring_column(g, cx, cy, ring, dx, -ring, r) {
            Some(c) => Some(c),
            None => scan_ring(g, cx, cy, ring, dx + 1, r),
        }
    }
}

/// The rest of the whole ring search: rings `ring..=max_ring` outward from
/// the centre, the first hit in the fixed scan order.
pub open spec fn scan_rings(g: CollisionMap, cx: int, cy: int, ring: int, max_ring: int, r: int)
    -> Option<(int, int)>
    decreases max_ring + 1 - ring,
{
    if ring > max_ring {
        None
    } else {
        match scan_ring(g, cx, cy, ring, -ring, r) {
            Some(c) => Some(c),
            None => scan_rings(g, cx, cy, ring + 1, max_ring, r),
        }
    }
}

/// The deterministic phase of the spawn search as one function of the grid
/// and radius: the centre cell if its centre is clear, else the first
/// clear in-bounds cell centre in the fixed ring scan order (rings
/// outward, columns left to right, cells bottom to top, perimeter only),
/// or `None` when that whole phase fails and the randomized fallback runs.
pub open spec fn spawn_search_result(g: CollisionMap, r: int) -> Option<(int, int)> {
    let cx = g.width as int / 2;
    let cy = g.height as int / 2;
    if spawn_candidate_clear(g, cx, cy, r) {
        Some((cx, cy))
    } else {
        scan_rings(g, cx, cy, 1, spawn_ring_limit(g), r)
    }
}

/// Relies on rand's `Rng::gen_range` over `0..n`: for a nonempty range the
/// sample lies in the range (and the call cannot panic).
#[verifier::external_body]
fn random_below(n: i64) -> (r: i64)
    requires
        0 < n,
    ensures
        0 <= r < n,
{
    rand::thread_rng().gen_range(0..n)
}

impl CollisionMap {
    /// Find a world position where an agent of the given radius can stand.
    ///
    /// The centre cell is tried first, then the perimeter cells of square
    /// rings of growing radius around it (nearest-to-centre bias), then up
    /// to one hundred uniformly random in-bounds cells. Every position
    /// found by the search is clear; if the whole search fails, the centre
    /// position is returned unconditionally as a documented degraded
    /// fallback, never an error.
    ///
    /// The contract pins the search down from every side: the result is
    /// always the centre of an in-bounds cell; whenever the deterministic
    /// phase succeeds, the result is exactly `spawn_search_result` — the
    /// first clear candidate in the fixed scan order, so a clear centre is
    /// returned as such and nearer rings beat farther ones; an unclear
    /// result means no cell centre within the ring search's whole reach
    /// was clear; and when no cell centre of the grid is clear at all, the
    /// centre fallback is the result.
    #[verifier::loop_isolation(false)]
    pub fn find_walkable_spawn_position(&self, agent_radius: i64) -> (pos: WorldPos)
        requires
            self.wf(),
            -WORLD_LIMIT <= agent_radius <= WORLD_LIMIT,
        ensures
            pos == grid_center_pos(*self) || circle_clear(*self, pos.x as int, pos.y as int,
                agent_radius as int),
            exists|x: int, y: int|
                #![trigger self.spec_cell_center_x(x), self.spec_cell_center_y(y)]
                self.spec_in_bounds(x, y) && pos.x == self.spec_cell_center_x(x)
                    && pos.y == self.spec_cell_center_y(y),
            circle_clear(*self, grid_center_pos(*self).x as int, grid_center_pos(*self).y as int,
                agent_radius as int) ==> pos == grid_center_pos(*self)
                && circle_clear(*self, pos.x as int, pos.y as int, agent_radius as int),
            spawn_search_result(*self, agent_radius as int) matches Some(c)
                ==> pos.x == self.spec_cell_center_x(c.0) && pos.y == self.spec_cell_center_y(c.1),
            !circle_clear(*self, pos.x as int, pos.y as int, agent_radius as int)
                ==> forall|x: int, y: int|
                    self.spec_in_bounds(x, y)
                        && self.width as int / 2 - spawn_ring_limit(*self) <= x
                            <= self.width as int / 2 + spawn_ring_limit(*self)
                        && self.height as int / 2 - spawn_ring_limit(*self) <= y
                            <= self.height as int / 2 + spawn_ring_limit(*self)
                        ==> !spawn_candidate_clear(*self, x, y, agent_radius as int),
            (forall|x: int, y: int|
                self.spec_in_bounds(x, y)
                    ==> !spawn_candidate_clear(*self, x, y, agent_radius as int))
                ==> pos == grid_center_pos(*self),
    {
        let ghost g: CollisionMap = *self;
        let ghost r: int = agent_radius as int;
        let center_x: i64 = self.width as i64 / 2;
        let center_y: i64 = self.height as i64 / 2;
        let ghost cxi: int = center_x as int;
        let ghost cyi: int = center_y as int;
        let center_pos = self.cell_center(center_x, center_y);
        proof {
            assert(center_pos == grid_center_pos(g));
        }

        if self.is_world_pos_clear_circle(center_pos, agent_radius) {
            proof {
                assert(spawn_candidate_clear(g, cxi, cyi, r));
                assert(spawn_search_result(g, r) == Some((cxi, cyi)));
            }
            return center_pos;
        }

        // Expanding square rings around the centre, perimeter cells only.
        let max_ring: i64 = if self.width < self.height {
            self.width as i64 / 2
        } else {
            self.height as i64 / 2
        };
        let ghost mri: int = max_ring as int;
        let mut ring: i64 = 1;
        while ring <= max_ring
            invariant
                self.wf(),
                1 <= ring <= max_ring + 1,
                0 <= center_x < self.width,
                0 <= center_y < self.height,
                cxi == self.width as int / 2,
                cyi == self.height as int / 2,
                mri == spawn_ring_limit(g),
                -WORLD_LIMIT <= agent_radius <= WORLD_LIMIT,
                !spawn_candidate_clear(g, cxi, cyi, r),
                scan_rings(g, cxi, cyi, 1, mri, r) == scan_rings(g, cxi, cyi, ring as int, mri, r),
                forall|x: int, y: int|
                    self.spec_in_bounds(x, y)
                        && center_x - (ring - 1) <= x <= center_x + (ring - 1)
                        && center_y - (ring - 1) <= y <= center_y + (ring - 1)
                        ==> !spawn_candidate_clear(g, x, y, r),
            decreases max_ring + 1 - ring,
        {
            let mut dx: i64 = -ring;
            while dx <= ring
                invariant
                    self.wf(),
                    1 <= ring <= max_ring,
                    -ring <= dx <= ring + 1,
                    0 <= center_x < self.width,
                    0 <= center_y < self.height,
                    cxi == self.width as int / 2,
                    cyi == self.height as int / 2,
                    mri == spawn_ring_limit(g),
                    -WORLD_LIMIT <= agent_radius <= WORLD_LIMIT,
                    !spawn_candidate_clear(g, cxi, cyi, r),
                    scan_rings(g, cxi, cyi, 1, mri, r) == match scan_ring(g, cxi, cyi,
                        ring as int, dx as int, r) {
                        Some(c) => Some(c),
                        None => scan_rings(g, cxi, cyi, ring as int + 1, mri, r),
                    },
                    forall|x: int, y: int|
                        self.spec_in_bounds(x, y)
                            && center_x - (ring - 1) <= x <= center_x + (ring - 1)
                            && center_y - (ring - 1) <= y <= center_y + (ring - 1)
                            ==> !spawn_candidate_clear(g, x, y, r),
                    forall|x: int, y: int|
                        self.spec_in_bounds(x, y)
                            && center_x - ring <= x < center_x + dx
                            && center_y - ring <= y <= center_y + ring
                            && (x == center_x - ring || x == center_x + ring
                                || y == center_y - ring || y == center_y + ring)
                            ==> !spawn_candidate_clear(g, x, y, r),
                decreases ring + 1 - dx,
            {
                let mut dy: i64 = -ring;
                while dy <= ring
                    invariant
                        self.wf(),
                        1 <= ring <= max_ring,
                        -ring <= dx <= ring,
                        -ring <= dy <= ring + 1,
                        0 <= center_x < self.width,
                        0 <= center_y < self.height,
                        cxi == self.width as int / 2,
                        cyi == self.height as int / 2,
                        mri == spawn_ring_limit(g),
                        -WORLD_LIMIT <= agent_radius <= WORLD_LIMIT,
                        !spawn_candidate_clear(g, cxi, cyi, r),
                        scan_rings(g, cxi, cyi, 1, mri, r) == match scan_ring_column(g, cxi, cyi,
                            ring as int, dx as int, dy as int, r) {
                            Some(c) => Some(c),
                            None => match scan_ring(g, cxi, cyi, ring as int, dx as int + 1, r) {
                                Some(c) => Some(c),
                                None => scan_rings(g, cxi, cyi, ring as int + 1, mri, r),
                            },
                        },
                        forall|x: int, y: int|
                            self.spec_in_bounds(x, y)
                                && center_x - (ring - 1) <= x <= center_x + (ring - 1)
                                && center_y - (ring - 1) <= y <= center_y + (ring - 1)
                                ==> !spawn_candidate_clear(g, x, y, r),
                        forall|x: int, y: int|
                            self.spec_in_bounds(x, y)
                                && center_x - ring <= x < center_x + dx
                                && center_y - ring <= y <= center_y + ring
                                && (x == center_x - ring || x == center_x + ring
                                    || y == center_y - ring || y == center_y + ring)
                                ==> !spawn_candidate_clear(g, x, y, r),
                        forall|y: int|
                            self.spec_in_bounds(center_x as int + dx, y)
                                && center_y - ring <= y < center_y + dy
                                && (dx == -ring || dx == ring || y == center_y - ring
                                    || y == center_y + ring)
                                ==> !#[trigger] spawn_candidate_clear(g,
                                    center_x as int + dx, y, r),
                    decreases ring + 1 - dy,
                {
                    // Only the perimeter of the current ring.
                    let on_perimeter = dx == -ring || dx == ring || dy == -ring || dy == ring;
                    if on_perimeter {
                        let x = center_x + dx;
                        let y = center_y + dy;
                        if self.in_bounds(x, y) {
                            let candidate = self.cell_center(x, y);
                            if self.is_world_pos_clear_circle(candidate, agent_radius) {
                                proof {
                                    assert(spawn_candidate_clear(g, x as int, y as int, r));
                                    assert(scan_ring_column(g, cxi, cyi, ring as int, dx as int,
                                        dy as int, r) == Some((x as int, y as int)));
                                    assert(spawn_search_result(g, r)
                                        == Some((x as int, y as int)));
                                }
                                return candidate;
                            }
                        }
                    }
                    proof {
                        assert(scan_ring_column(g, cxi, cyi, ring as int, dx as int, dy as int, r)
                            == scan_ring_column(g, cxi, cyi, ring as int, dx as int,
                                dy as int + 1, r));
                    }
                    dy = dy + 1;
                }
                proof {
                    assert(scan_ring_column(g, cxi, cyi, ring as int, dx as int, dy as int, r)
                        is None);
                }
                dx = dx + 1;
            }
            proof {
                assert(scan_ring(g, cxi, cyi, ring as int, dx as int, r) is None);
            }
            ring = ring + 1;
        }
        proof {
            assert(scan_rings(g, cxi, cyi, ring as int, mri, r) is None);
            assert(spawn_search_result(g, r) is None);
        }

        // Random fallback: up to one hundred uniformly random cells.
        let mut attempt: u32 = 0;
        while attempt < 100
            invariant
                self.wf(),
                -WORLD_LIMIT <= agent_radius <= WORLD_LIMIT,
                cxi == self.width as int / 2,
                cyi == self.height as int / 2,
                mri == spawn_ring_limit(g),
                !spawn_candidate_clear(g, cxi, cyi, r),
                spawn_search_result(g, r) is None,
                forall|x: int, y: int|
                    self.spec_in_bounds(x, y)
                        && center_x - max_ring <= x <= center_x + max_ring
                        && center_y - max_ring <= y <= center_y + max_ring
                        ==> !spawn_candidate_clear(g, x, y, r),
            decreases 100 - attempt,
        {
            let x = random_below(self.width as i64);
            let y = random_below(self.height as i64);
            let candidate = self.cell_center(x, y);
            if self.is_world_pos_clear_circle(candidate, agent_radius) {
                proof {
                    assert(self.spec_in_bounds(x as int, y as int)
                        && spawn_candidate_clear(*self, x as int, y as int, r));
                }
                return candidate;
            }
            attempt = attempt + 1;
        }

        // Degraded last resort: the centre, whether clear or not.
        center_pos
    }
}

} // verus!
