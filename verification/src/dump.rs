//! Diagnostic export: render the grid's walkability as one glyph per cell,
//! top row first, for inspection outside the core. This is a best-effort
//! side channel, not part of the functional contract.

use vstd::prelude::*;
use crate::grid::{lemma_idx_in_range, CollisionMap};
use crate::tile::{walkable, TileType};

verus! {

/// The glyph for an empty cell: `?`.
pub const GLYPH_EMPTY: u8 = 63;

/// The glyph for a walkable cell: `.`.
pub const GLYPH_WALKABLE: u8 = 46;

/// The glyph for a blocking cell: `#`.
pub const GLYPH_BLOCKED: u8 = 35;

/// The line feed that closes each rendered row.
pub const GLYPH_NEWLINE: u8 = 10;

/// The glyph a cell prints as: `?` for an empty cell, `.` for walkable
/// terrain, `#` for a blocking cell.
pub open spec fn glyph_of(t: TileType) -> u8 {
    if t == TileType::Empty {
        GLYPH_EMPTY
    } else if walkable(t) {
        GLYPH_WALKABLE
    } else {
        GLYPH_BLOCKED
    }
}

impl CollisionMap {
    /// Render the grid as text: `height` lines of `width` glyphs each,
    /// every line closed by a newline, with the top row (greatest y) first.
    #[verifier::loop_isolation(false)]
    pub fn walkability_glyphs(&self) -> (out: Vec<u8>)
        requires
            self.wf(),
        ensures
            out@.len() == self.height as int * (self.width as int + 1),
            forall|x: int, y: int|
                0 <= x < self.width as int && 0 <= y < self.height as int
                    ==> out@[(self.height as int - 1 - y) * (self.width as int + 1) + x]
                        == glyph_of(self.cell_at(x, y)),
            forall|row: int|
                0 <= row < self.height as int
                    ==> out@[#[trigger] (row * (self.width as int + 1)) + self.width as int]
                        == GLYPH_NEWLINE,
    {
        let width = self.width as i64;
        let height = self.height as i64;
        let ghost stride: int = width as int + 1;
        let mut out: Vec<u8> = Vec::new();
        let mut row: i64 = 0;
        while row < height
            invariant
                0 <= row <= height,
                out@.len() == row * stride,
                forall|x: int, uy: int|
                    0 <= x < width as int && height as int - row <= uy < height as int
                        ==> out@[(height as int - 1 - uy) * stride + x]
                            == glyph_of(self.cell_at(x, uy)),
                forall|ur: int|
                    0 <= ur < row ==> out@[#[trigger] (ur * stride) + width as int]
                        == GLYPH_NEWLINE,
            decreases height - row,
        {
            let y = height - 1 - row;
            let mut x: i64 = 0;
            while x < width
                invariant
                    0 <= row < height,
                    y == height - 1 - row,
                    0 <= x <= width,
                    out@.len() == row * stride + x,
                    forall|ux: int, uy: int|
                        0 <= ux < width as int && height as int - row <= uy < height as int
                            ==> out@[(height as int - 1 - uy) * stride + ux]
                                == glyph_of(self.cell_at(ux, uy)),
                    forall|ur: int|
                        0 <= ur < row ==> out@[#[trigger] (ur * stride) + width as int]
                            == GLYPH_NEWLINE,
                    forall|ux: int|
                        0 <= ux < x ==> out@[row * stride + ux]
                            == glyph_of(self.cell_at(ux, y as int)),
                decreases width - x,
            {
                proof {
                    lemma_glyph_indices(stride, row as int, x as int, width as int);
                }
                let idx = self.xy_idx(x, y);
                let cell = self.tiles[idx];
                let glyph: u8 = match cell {
                    TileType::Empty => GLYPH_EMPTY,
                    _ => {
                        if cell.is_walkable() {
                            GLYPH_WALKABLE
                        } else {
                            GLYPH_BLOCKED
                        }
                    },
                };
                out.push(glyph);
                x = x + 1;
            }
            proof {
                lemma_glyph_indices(stride, row as int, width as int, width as int);
            }
            out.push(GLYPH_NEWLINE);
            row = row + 1;
        }
        out
    }
}

/// Index facts for the row-major glyph buffer with its newline column.
proof fn lemma_glyph_indices(stride: int, row: int, x: int, w: int)
    requires
        stride == w + 1,
        0 <= row,
        0 <= x <= w,
    ensures
        0 <= row * stride,
        row * stride + x + 1 <= (row + 1) * stride,
        (row + 1) * stride == row * stride + stride,
        forall|ur: int, ux: int|
            0 <= ur < row && 0 <= ux <= w
                ==> #[trigger] (ur * stride + ux) < row * stride,
{
    assert(0 <= row * stride && row * stride + x + 1 <= (row + 1) * stride
        && (row + 1) * stride == row * stride + stride) by (nonlinear_arith)
        requires stride == w + 1, 0 <= row, 0 <= x <= w;
    assert forall|ur: int, ux: int|
        0 <= ur < row && 0 <= ux <= w implies #[trigger] (ur * stride + ux) < row * stride by {
        assert(ur * stride + ux < row * stride) by (nonlinear_arith)
            requires stride == w + 1, 0 <= ur, ur + 1 <= row, 0 <= ux <= w;
    }
}

} // verus!
