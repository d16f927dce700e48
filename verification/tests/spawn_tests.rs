use collision_grid::{CollisionMap, TileType, WorldPos};

/// A 5x5 grid of 16-unit cells at origin (0, 0), all Grass.
fn grass_grid() -> CollisionMap {
    let mut g = CollisionMap::with_origin(5, 5, 16, 0, 0).unwrap();
    for y in 0..5 {
        for x in 0..5 {
            g.set_tile(x, y, TileType::Grass);
        }
    }
    g
}

#[test]
fn spawn_on_open_grid_is_center() {
    let g = grass_grid();
    let out = g.find_walkable_spawn_position(4);
    // The grid centre cell is (2, 2); its centre is (40, 40).
    assert_eq!(out, WorldPos { x: 40, y: 40 });
    assert!(g.is_world_pos_clear_circle(out, 4));
}

#[test]
fn spawn_ring_search_avoids_blocked_center() {
    let mut g = grass_grid();
    g.set_tile(2, 2, TileType::Water);
    let radius = 2;
    let out = g.find_walkable_spawn_position(radius);
    assert_ne!(out, WorldPos { x: 40, y: 40 });
    assert!(g.is_world_pos_clear_circle(out, radius));
    // The fixed scan order makes the choice deterministic: the first ring-1
    // perimeter cell is (1, 1), whose centre is (24, 24).
    assert_eq!(out, WorldPos { x: 24, y: 24 });
}

#[test]
fn spawn_falls_back_to_center_when_nothing_clear() {
    let mut g = grass_grid();
    for y in 0..5 {
        for x in 0..5 {
            g.set_tile(x, y, TileType::Water);
        }
    }
    // Nowhere is clear, so after the rings and the random draws the centre
    // comes back as the documented degraded answer.
    let out = g.find_walkable_spawn_position(2);
    assert_eq!(out, WorldPos { x: 40, y: 40 });
    assert!(!g.is_world_pos_clear_circle(out, 2));
}

#[test]
fn spawn_second_ring_when_first_is_blocked() {
    // A 7x7 grid whose centre 3x3 block is Water: ring 1 is fully blocked,
    // ring 2 holds the nearest clear cells.
    let mut g = CollisionMap::with_origin(7, 7, 16, 0, 0).unwrap();
    for y in 0..7 {
        for x in 0..7 {
            g.set_tile(x, y, TileType::Grass);
        }
    }
    for y in 2..5 {
        for x in 2..5 {
            g.set_tile(x, y, TileType::Water);
        }
    }
    let radius = 2;
    let out = g.find_walkable_spawn_position(radius);
    assert!(g.is_world_pos_clear_circle(out, radius));
    // Ring 2 around the centre cell (3, 3) starts at cell (1, 1).
    assert_eq!(out, WorldPos { x: 24, y: 24 });
}

#[test]
fn spawn_result_is_clear_or_center() {
    // Rings exhaust on a wide flat grid (one ring only), leaving the random
    // fallback to look for the single walkable column; whatever it draws,
    // the contract holds: the result is clear or it is the centre.
    let mut g = CollisionMap::with_origin(21, 3, 16, 0, 0).unwrap();
    for y in 0..3 {
        for x in 1..21 {
            g.set_tile(x, y, TileType::Water);
        }
    }
    for y in 0..3 {
        g.set_tile(0, y, TileType::Grass);
    }
    let radius = 2;
    let center = WorldPos { x: 10 * 16 + 8, y: 16 + 8 };
    let out = g.find_walkable_spawn_position(radius);
    assert!(g.is_world_pos_clear_circle(out, radius) || out == center);
}
