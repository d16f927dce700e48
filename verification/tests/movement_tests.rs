use collision_grid::{CollisionMap, TileType, WorldPos};

fn pos(x: i64, y: i64) -> WorldPos {
    WorldPos { x, y }
}

/// An 8x4 grid of 16-unit cells spanning x in [-8, 120) and y in [-24, 40),
/// all Grass, with a full-height Water wall on column 3 (x in [40, 56)).
fn walled_grid() -> CollisionMap {
    let mut g = CollisionMap::with_origin(8, 4, 16, -8, -24).unwrap();
    for y in 0..4 {
        for x in 0..8 {
            g.set_tile(x, y, TileType::Grass);
        }
    }
    for y in 0..4 {
        g.set_tile(3, y, TileType::Water);
    }
    g
}

#[test]
fn move_in_place_returns_start() {
    let g = walled_grid();
    let here = pos(0, 0);
    assert!(g.is_world_pos_clear_circle(here, 8));
    assert_eq!(g.try_move_circle(here, here, 8), here);
    // Holds even where the position is not clear.
    let inside_wall = pos(48, 0);
    assert_eq!(g.try_move_circle(inside_wall, inside_wall, 8), inside_wall);
}

#[test]
fn wall_stops_horizontal_sweep() {
    // Marching from (0, 0) to (100, 0) across the wall at x in [40, 56):
    // sub-steps of 4 units stall at x = 28 (x = 32 would touch the wall at
    // the 8-unit radius), far from the requested 100.
    let g = walled_grid();
    let out = g.try_move_circle(pos(0, 0), pos(100, 0), 8);
    assert_eq!(out, pos(28, 0));
    // Never on the far side of the wall.
    assert!(out.x + 8 < 40);
}

#[test]
fn wall_stops_long_jump() {
    // One frame asking to cross the wall in a single bound: the subdivision
    // still catches it.
    let g = walled_grid();
    let out = g.try_move_circle(pos(10, 5), pos(110, 5), 8);
    assert!(out.x + 8 < 40);
}

#[test]
fn clear_path_reaches_desired_end_exactly() {
    let g = walled_grid();
    let out = g.try_move_circle(pos(0, 0), pos(20, 8), 8);
    assert_eq!(out, pos(20, 8));
}

#[test]
fn blocked_x_slides_along_y() {
    // Aiming diagonally into the wall: x stalls short of it while y keeps
    // its full displacement.
    let g = walled_grid();
    let out = g.try_move_circle(pos(20, 0), pos(60, 20), 8);
    assert_eq!(out.y, 20);
    assert!(out.x + 8 < 40);
    assert!(g.is_world_pos_clear_circle(out, 8));
}

#[test]
fn fully_blocked_start_stays_put() {
    // A start already overlapping the wall finds no clear candidate at all.
    let g = walled_grid();
    let start = pos(44, 0);
    let out = g.try_move_circle(start, pos(100, 0), 8);
    assert_eq!(out, start);
}

#[test]
fn zero_radius_sweep_respects_cells() {
    let g = walled_grid();
    let out = g.try_move_circle(pos(0, 0), pos(100, 0), 0);
    // The point walk stalls just before the wall cells begin at x = 40.
    assert!(out.x < 40);
    assert!(g.is_world_pos_walkable(out));
}

#[test]
fn horizontal_wall_stops_vertical_sweep() {
    // A full-width Water wall on row 2 (y in [8, 24)) of a 4x8 grid
    // spanning y in [-24, 104): climbing from below never crosses it.
    let mut g = CollisionMap::with_origin(4, 8, 16, -8, -24).unwrap();
    for y in 0..8 {
        for x in 0..4 {
            g.set_tile(x, y, TileType::Grass);
        }
    }
    for x in 0..4 {
        g.set_tile(x, 2, TileType::Water);
    }
    let out = g.try_move_circle(pos(20, -10), pos(20, 90), 6);
    assert!(out.y + 6 < 8);
    assert_eq!(out.x, 20);
}

#[test]
fn built_map_lets_agents_brush_past_shore() {
    // Build a map whose lake edge turns to Shore, then walk along it: the
    // shore cell is walkable terrain, while the remaining open water still
    // blocks.
    let mut obs = Vec::new();
    for cy in 0..3 {
        for cx in 0..5 {
            obs.push(collision_grid::SpawnedTileObservation {
                world_x: cx * 16 + 8,
                world_y: cy * 16 + 8,
                world_z: 0,
                tile_type: TileType::Grass,
            });
        }
    }
    // A two-cell lake; only its left cell touches grass on the far side...
    for cx in 3..5 {
        obs.push(collision_grid::SpawnedTileObservation {
            world_x: cx * 16 + 8,
            world_y: 16 + 8,
            world_z: 3,
            tile_type: TileType::Water,
        });
    }
    let g = collision_grid::build_collision_map(&obs, 16, 0, 0).ok().unwrap();
    // ... so both lake cells touch walkable terrain and become Shore here.
    assert_eq!(g.get_tile(3, 1), Some(TileType::Shore));
    assert_eq!(g.get_tile(4, 1), Some(TileType::Shore));
    // Walking across the former lake edge now succeeds.
    let out = g.try_move_circle(pos(40, 24), pos(70, 24), 4);
    assert_eq!(out, pos(70, 24));
}

#[test]
fn sweep_result_stays_in_displacement_box() {
    let g = walled_grid();
    let out = g.try_move_circle(pos(30, -10), pos(-6, 30), 2);
    assert!(out.x <= 30 && out.x >= -6);
    assert!(out.y >= -10 && out.y <= 30);
}
