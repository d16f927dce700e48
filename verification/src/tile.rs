//! Terrain categories and their collision policy.
//!
//! Each category carries a fixed walkability flag and a per-category
//! collision buffer that widens the effective radius used when a circle is
//! tested against a blocking cell of that category.

use vstd::prelude::*;

verus! {

/// A terrain or prop category occupying one grid cell.
///
/// `Water`, `Tree` and `Rock` block movement; every other category is
/// walkable. `Shore` is never authored directly: it is derived from `Water`
/// cells that touch walkable terrain.
#[derive(Clone, Copy, Debug, PartialEq, Eq, Structural)]
pub enum TileType {
    Empty,
    Dirt,
    Grass,
    YellowGrass,
    Water,
    Shore,
    Tree,
    Rock,
}

/// Walkability policy: `Water`, `Tree` and `Rock` block; all else walks.
pub open spec fn walkable(t: TileType) -> bool {
    match t {
        TileType::Water | TileType::Tree | TileType::Rock => false,
        _ => true,
    }
}

/// Collision buffer added to a query radius when testing against a blocking
/// cell of category `t`, for a cell edge of `tile_size` world units:
/// a tenth of a cell for `Shore`, a twentieth for props (`Tree`, `Rock`),
/// nothing for the strict categories (open `Water`).
pub open spec fn spec_buffer(t: TileType, tile_size: int) -> int {
    match t {
        TileType::Shore => tile_size / 10,
        TileType::Tree | TileType::Rock => tile_size / 20,
        _ => 0,
    }
}

impl TileType {
    /// Whether an agent may stand on a cell of this category.
    pub fn is_walkable(&self) -> (r: bool)
        ensures
            r == walkable(*self),
    {
        match self {
            TileType::Water | TileType::Tree | TileType::Rock => false,
            _ => true,
        }
    }

    /// The collision buffer for this category, in world units.
    pub fn collision_buffer(&self, tile_size: i64) -> (r: i64)
        requires
            0 <= tile_size,
        ensures
            r == spec_buffer(*self, tile_size as int),
            0 <= r <= tile_size,
    {
        match self {
            TileType::Shore => tile_size / 10,
            TileType::Tree | TileType::Rock => tile_size / 20,
            _ => 0,
        }
    }
}

} // verus!
