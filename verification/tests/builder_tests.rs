use collision_grid::builder::build_collision_map;
use collision_grid::{BuildError, CollisionMap, MapBuildState, SpawnedTileObservation, TileType};

fn obs(x: i64, y: i64, z: i64, t: TileType) -> SpawnedTileObservation {
    SpawnedTileObservation { world_x: x, world_y: y, world_z: z, tile_type: t }
}

/// Observations at the centre of each cell of a 3x3 patch, all `Grass`
/// except `Water` in the middle, with 16-unit cells at origin (0, 0).
fn three_by_three_with_center_water() -> Vec<SpawnedTileObservation> {
    let mut v = Vec::new();
    for cy in 0..3 {
        for cx in 0..3 {
            let t = if cx == 1 && cy == 1 { TileType::Water } else { TileType::Grass };
            v.push(obs(cx * 16 + 8, cy * 16 + 8, 0, t));
        }
    }
    v
}

#[test]
fn build_not_ready_when_empty() {
    let v: Vec<SpawnedTileObservation> = Vec::new();
    let r = build_collision_map(&v, 16, 0, 0);
    assert_eq!(r.err(), Some(BuildError::NotReady));
}

#[test]
fn build_single_tile_grid() {
    let v = vec![obs(8, 8, 0, TileType::Grass)];
    let g = build_collision_map(&v, 16, 0, 0).ok().unwrap();
    assert_eq!(g.width, 1);
    assert_eq!(g.height, 1);
    assert_eq!(g.tile_size, 16);
    assert_eq!(g.grid_origin_x, 0);
    assert_eq!(g.grid_origin_y, 0);
    assert_eq!(g.get_tile(0, 0), Some(TileType::Grass));
}

#[test]
fn build_origin_hugs_negative_footprints() {
    // A tile left and below the nominal origin pulls cell (0, 0) there.
    let v = vec![obs(-24, -24, 0, TileType::Dirt), obs(8, 8, 0, TileType::Grass)];
    let g = build_collision_map(&v, 16, 0, 0).ok().unwrap();
    assert_eq!(g.grid_origin_x, -32);
    assert_eq!(g.grid_origin_y, -32);
    assert_eq!(g.width, 3);
    assert_eq!(g.height, 3);
    assert_eq!(g.get_tile(0, 0), Some(TileType::Dirt));
    assert_eq!(g.get_tile(2, 2), Some(TileType::Grass));
    // Footprints nobody observed stay Empty.
    assert_eq!(g.get_tile(1, 1), Some(TileType::Empty));
}

#[test]
fn build_is_deterministic() {
    let v = three_by_three_with_center_water();
    let g1 = build_collision_map(&v, 16, 0, 0).ok().unwrap();
    let g2 = build_collision_map(&v, 16, 0, 0).ok().unwrap();
    assert_eq!(g1.width, g2.width);
    assert_eq!(g1.height, g2.height);
    assert_eq!(g1.tile_size, g2.tile_size);
    assert_eq!(g1.grid_origin_x, g2.grid_origin_x);
    assert_eq!(g1.grid_origin_y, g2.grid_origin_y);
    assert_eq!(g1.tiles, g2.tiles);
}

#[test]
fn topmost_layer_wins() {
    // Dirt at z = 1 under Water at z = 3 on the same footprint.
    let v = vec![obs(8, 8, 1, TileType::Dirt), obs(8, 8, 3, TileType::Water)];
    let g = build_collision_map(&v, 16, 0, 0).ok().unwrap();
    // A lone water cell has no walkable neighbour, so it stays Water.
    assert_eq!(g.get_tile(0, 0), Some(TileType::Water));
}

#[test]
fn input_order_does_not_matter() {
    let forward = vec![obs(8, 8, 1, TileType::Dirt), obs(8, 8, 3, TileType::Water)];
    let backward = vec![obs(8, 8, 3, TileType::Water), obs(8, 8, 1, TileType::Dirt)];
    let g1 = build_collision_map(&forward, 16, 0, 0).ok().unwrap();
    let g2 = build_collision_map(&backward, 16, 0, 0).ok().unwrap();
    assert_eq!(g1.tiles, g2.tiles);
    assert_eq!(g1.get_tile(0, 0), Some(TileType::Water));
}

#[test]
fn equal_z_keeps_earlier_observation() {
    // Documented tie-break: at exactly equal z the earlier observation wins.
    let v = vec![obs(8, 8, 5, TileType::Dirt), obs(8, 8, 5, TileType::Grass)];
    let g = build_collision_map(&v, 16, 0, 0).ok().unwrap();
    assert_eq!(g.get_tile(0, 0), Some(TileType::Dirt));
}

#[test]
fn deep_stack_keeps_topmost() {
    let v = vec![
        obs(8, 8, 0, TileType::Dirt),
        obs(8, 8, 2, TileType::Grass),
        obs(8, 8, 4, TileType::Rock),
        obs(8, 8, 1, TileType::YellowGrass),
    ];
    let g = build_collision_map(&v, 16, 0, 0).ok().unwrap();
    assert_eq!(g.get_tile(0, 0), Some(TileType::Rock));
}

#[test]
fn shoreline_scenario() {
    // 3x3, all Grass except the centre Water: the centre touches walkable
    // terrain on all sides, so the build yields 8 Grass, 1 Shore, 0 Water.
    let v = three_by_three_with_center_water();
    let g = build_collision_map(&v, 16, 0, 0).ok().unwrap();
    let mut grass = 0;
    let mut shore = 0;
    let mut water = 0;
    for t in &g.tiles {
        match t {
            TileType::Grass => grass += 1,
            TileType::Shore => shore += 1,
            TileType::Water => water += 1,
            _ => {}
        }
    }
    assert_eq!(grass, 8);
    assert_eq!(shore, 1);
    assert_eq!(water, 0);
    assert_eq!(g.get_tile(1, 1), Some(TileType::Shore));
}

#[test]
fn surrounded_water_stays_water() {
    // All nine cells Water: nothing walkable anywhere, so no Shore appears.
    let mut v = Vec::new();
    for cy in 0..3 {
        for cx in 0..3 {
            v.push(obs(cx * 16 + 8, cy * 16 + 8, 0, TileType::Water));
        }
    }
    let g = build_collision_map(&v, 16, 0, 0).ok().unwrap();
    for t in &g.tiles {
        assert_eq!(*t, TileType::Water);
    }
}

#[test]
fn shoreline_pass_direct() {
    // Applying the pass by hand on a built grid: water against the Empty
    // background becomes Shore (Empty counts as walkable).
    let mut g = CollisionMap::with_origin(3, 1, 16, 0, 0).unwrap();
    g.set_tile(1, 0, TileType::Water);
    g.convert_water_edges_to_shore();
    assert_eq!(g.get_tile(0, 0), Some(TileType::Empty));
    assert_eq!(g.get_tile(1, 0), Some(TileType::Shore));
    assert_eq!(g.get_tile(2, 0), Some(TileType::Empty));
}

#[test]
fn shoreline_diagonal_neighbor_counts() {
    let mut g = CollisionMap::with_origin(2, 2, 16, 0, 0).unwrap();
    g.set_tile(0, 0, TileType::Water);
    g.set_tile(1, 0, TileType::Tree);
    g.set_tile(0, 1, TileType::Rock);
    // Only the diagonal neighbour (1, 1) is walkable (Empty).
    g.convert_water_edges_to_shore();
    assert_eq!(g.get_tile(0, 0), Some(TileType::Shore));
}

#[test]
fn lifecycle_builds_once() {
    let mut state = MapBuildState::new();
    assert!(!state.is_built());

    // No observations yet: stays pending.
    let empty: Vec<SpawnedTileObservation> = Vec::new();
    state.try_build(&empty, 16, 0, 0);
    assert!(!state.is_built());
    assert!(state.grid().is_none());

    // First real build.
    let v = vec![obs(8, 8, 0, TileType::Grass)];
    state.try_build(&v, 16, 0, 0);
    assert!(state.is_built());
    assert_eq!(state.grid().unwrap().get_tile(0, 0), Some(TileType::Grass));

    // The transition is one-way: later observations change nothing.
    let other = vec![obs(8, 8, 0, TileType::Rock), obs(40, 8, 0, TileType::Water)];
    state.try_build(&other, 16, 0, 0);
    assert!(state.is_built());
    let g = state.grid().unwrap();
    assert_eq!(g.width, 1);
    assert_eq!(g.get_tile(0, 0), Some(TileType::Grass));
}

#[test]
fn glyph_dump_renders_rows_top_down() {
    let mut g = CollisionMap::with_origin(2, 2, 16, 0, 0).unwrap();
    g.set_tile(0, 0, TileType::Grass);
    g.set_tile(1, 0, TileType::Water);
    g.set_tile(1, 1, TileType::Tree);
    // (0, 1) stays Empty.
    let glyphs = g.walkability_glyphs();
    assert_eq!(glyphs, vec![b'?', b'#', b'\n', b'.', b'#', b'\n']);
}
