use collision_grid::{CollisionMap, TileType, WorldPos};

fn pos(x: i64, y: i64) -> WorldPos {
    WorldPos { x, y }
}

/// A 4x4 grid of 16-unit cells at origin (0, 0); every cell starts Empty
/// (walkable).
fn open_grid() -> CollisionMap {
    CollisionMap::with_origin(4, 4, 16, 0, 0).unwrap()
}

#[test]
fn with_origin_rejects_degenerate_grids() {
    assert!(CollisionMap::with_origin(0, 4, 16, 0, 0).is_none());
    assert!(CollisionMap::with_origin(4, -1, 16, 0, 0).is_none());
    assert!(CollisionMap::with_origin(4, 4, 0, 0, 0).is_none());
    assert!(CollisionMap::with_origin(4, 4, 16, 0, 0).is_some());
}

#[test]
fn walkability_policy_per_category() {
    assert!(TileType::Empty.is_walkable());
    assert!(TileType::Dirt.is_walkable());
    assert!(TileType::Grass.is_walkable());
    assert!(TileType::YellowGrass.is_walkable());
    assert!(TileType::Shore.is_walkable());
    assert!(!TileType::Water.is_walkable());
    assert!(!TileType::Tree.is_walkable());
    assert!(!TileType::Rock.is_walkable());
}

#[test]
fn collision_buffers_per_category() {
    // A tenth of a cell for Shore, a twentieth for props, nothing else.
    assert_eq!(TileType::Shore.collision_buffer(64), 6);
    assert_eq!(TileType::Tree.collision_buffer(64), 3);
    assert_eq!(TileType::Rock.collision_buffer(64), 3);
    assert_eq!(TileType::Water.collision_buffer(64), 0);
    assert_eq!(TileType::Grass.collision_buffer(64), 0);
}

#[test]
fn world_to_grid_floors_toward_negative() {
    let g = CollisionMap::with_origin(4, 4, 16, -32, -32).unwrap();
    assert_eq!(g.world_to_grid(pos(-1, -1)), (1, 1));
    assert_eq!(g.world_to_grid(pos(-32, -32)), (0, 0));
    assert_eq!(g.world_to_grid(pos(-33, -33)), (-1, -1));
    assert_eq!(g.world_to_grid(pos(31, 31)), (3, 3));
    assert_eq!(g.world_to_grid(pos(32, 0)), (4, 2));
}

#[test]
fn grid_indexing_round_trip() {
    let g = open_grid();
    assert!(g.in_bounds(0, 0));
    assert!(g.in_bounds(3, 3));
    assert!(!g.in_bounds(4, 0));
    assert!(!g.in_bounds(0, -1));
    assert_eq!(g.xy_idx(0, 0), 0);
    assert_eq!(g.xy_idx(3, 0), 3);
    assert_eq!(g.xy_idx(0, 1), 4);
    assert_eq!(g.xy_idx(2, 3), 14);
}

#[test]
fn point_walkability_follows_cells_and_bounds() {
    let mut g = open_grid();
    g.set_tile(1, 1, TileType::Water);
    assert!(g.is_world_pos_walkable(pos(8, 8)));
    assert!(!g.is_world_pos_walkable(pos(24, 24)));
    // Outside the grid is never walkable.
    assert!(!g.is_world_pos_walkable(pos(-1, 8)));
    assert!(!g.is_world_pos_walkable(pos(8, 65)));
}

#[test]
fn bounding_square_outside_is_rejected() {
    // The grid spans [0, 64) on each axis; any query whose bounding square
    // leaves it fails, whatever the terrain (here: all walkable).
    let g = open_grid();
    assert!(!g.is_world_pos_clear_circle(pos(4, 32), 8));
    assert!(!g.is_world_pos_clear_circle(pos(60, 32), 8));
    assert!(!g.is_world_pos_clear_circle(pos(32, 2), 4));
    assert!(!g.is_world_pos_clear_circle(pos(32, 63), 4));
    assert!(!g.is_world_pos_clear_circle(pos(100, 100), 1));
    // The same centres succeed once the square fits.
    assert!(g.is_world_pos_clear_circle(pos(32, 32), 8));
    assert!(g.is_world_pos_clear_circle(pos(8, 32), 8));
}

#[test]
fn circle_clear_blocked_by_water_overlap() {
    let mut g = open_grid();
    g.set_tile(2, 2, TileType::Water); // world square [32, 48) x [32, 48)
    // Overlapping the water square fails.
    assert!(!g.is_world_pos_clear_circle(pos(28, 40), 8));
    // Touching at exactly the effective radius still fails (inclusive).
    assert!(!g.is_world_pos_clear_circle(pos(24, 40), 8));
    // One unit further is clear.
    assert!(g.is_world_pos_clear_circle(pos(23, 40), 8));
}

#[test]
fn radius_zero_reduces_to_point_test() {
    let mut g = open_grid();
    g.set_tile(1, 1, TileType::Water);
    assert!(g.is_world_pos_clear_circle(pos(8, 8), 0));
    assert!(!g.is_world_pos_clear_circle(pos(20, 20), 0));
    // A negative radius clamps to the point test as well.
    assert!(g.is_world_pos_clear_circle(pos(8, 8), -5));
    assert!(!g.is_world_pos_clear_circle(pos(20, 20), -5));
}

#[test]
fn prop_buffer_widens_blocking_zone() {
    // Identical geometry, the blocking cell once Water and once Tree: on a
    // diagonal approach to the cell's corner, the tree's buffer (a
    // twentieth of a 64-unit cell = 3) rejects a centre that open water
    // accepts.
    let mut water = CollisionMap::with_origin(4, 4, 64, 0, 0).unwrap();
    water.set_tile(2, 2, TileType::Water); // square [128, 192) x [128, 192)
    let mut tree = CollisionMap::with_origin(4, 4, 64, 0, 0).unwrap();
    tree.set_tile(2, 2, TileType::Tree);

    // Corner distance: 12 units on each axis, squared distance 288.
    let probe = pos(116, 116);
    let radius = 16; // water: 288 > 256 clear; tree: 288 <= 19 * 19 blocked
    assert!(water.is_world_pos_clear_circle(probe, radius));
    assert!(!tree.is_world_pos_clear_circle(probe, radius));
}

#[test]
fn shore_clears_where_water_rejects() {
    // Identical geometry, the blocking cell once Water and once Shore: the
    // shore cell is walkable, so a query the water rejects is clear.
    let mut water = CollisionMap::with_origin(4, 4, 16, 0, 0).unwrap();
    water.set_tile(2, 1, TileType::Water);
    let mut shore = CollisionMap::with_origin(4, 4, 16, 0, 0).unwrap();
    shore.set_tile(2, 1, TileType::Shore);

    let probe = pos(28, 24);
    let radius = 6;
    assert!(!water.is_world_pos_clear_circle(probe, radius));
    assert!(shore.is_world_pos_clear_circle(probe, radius));
}

#[test]
fn circle_intersects_tile_clamps_to_cell_box() {
    let g = open_grid();
    // Cell (1, 1) spans [16, 32) x [16, 32).
    assert!(g.circle_intersects_tile(pos(24, 24), 0, 1, 1)); // centre inside
    assert!(g.circle_intersects_tile(pos(36, 24), 4, 1, 1)); // touching edge
    assert!(!g.circle_intersects_tile(pos(37, 24), 4, 1, 1));
    assert!(g.circle_intersects_tile(pos(36, 36), 6, 1, 1)); // corner: 4*4+4*4 <= 36
    assert!(!g.circle_intersects_tile(pos(36, 36), 5, 1, 1)); // 32 > 25
}
