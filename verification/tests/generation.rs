use tile_world::generate_map::{
    determine_biome, generate_chunk, sample_noise, tile_for_fraction, BiomeType, ChunkPosition,
    TileType,
};

#[test]
fn tile_thresholds_exact() {
    // Summer: [0, 0.05) water, [0.05, 0.3) dirt, the rest grass.
    assert_eq!(tile_for_fraction(BiomeType::Summer, 0), TileType::Water);
    assert_eq!(tile_for_fraction(BiomeType::Summer, 49), TileType::Water);
    assert_eq!(tile_for_fraction(BiomeType::Summer, 50), TileType::Dirt);
    assert_eq!(tile_for_fraction(BiomeType::Summer, 299), TileType::Dirt);
    assert_eq!(tile_for_fraction(BiomeType::Summer, 300), TileType::Grass { rotation: 0 });
    assert_eq!(tile_for_fraction(BiomeType::Summer, 999), TileType::Grass { rotation: 0 });
    // Winter: [0, 0.05) water, the rest grass.
    assert_eq!(tile_for_fraction(BiomeType::Winter, 0), TileType::Water);
    assert_eq!(tile_for_fraction(BiomeType::Winter, 49), TileType::Water);
    assert_eq!(tile_for_fraction(BiomeType::Winter, 50), TileType::Grass { rotation: 0 });
    assert_eq!(tile_for_fraction(BiomeType::Winter, 999), TileType::Grass { rotation: 0 });
}

#[test]
fn classify_boundaries() {
    // In thousandths: 700 stands for 0.7, and so on.  Summer needs a
    // temperature strictly greater than half the scale.
    assert_eq!(determine_biome(700, 500), BiomeType::Summer);
    assert_eq!(determine_biome(300, 300), BiomeType::Winter);
    assert_eq!(determine_biome(500, 300), BiomeType::Winter);
    assert_eq!(determine_biome(501, 0), BiomeType::Summer);
    assert_eq!(determine_biome(0, 1000), BiomeType::Winter);
}

#[test]
fn climate_constants() {
    assert_eq!(BiomeType::Summer.get_temperature(), 700);
    assert_eq!(BiomeType::Summer.get_humidity(), 500);
    assert_eq!(BiomeType::Winter.get_temperature(), 300);
    assert_eq!(BiomeType::Winter.get_humidity(), 300);
}

#[test]
fn classify_roundtrip_of_biome_temperatures() {
    // Each biome's own temperature classifies back to that biome.
    for b in [BiomeType::Summer, BiomeType::Winter] {
        assert_eq!(determine_biome(b.get_temperature(), b.get_humidity()), b);
    }
}

#[test]
fn chunk_has_256_tiles_covering_grid() {
    let tiles = generate_chunk(ChunkPosition(0, 0), 42);
    assert_eq!(tiles.len(), 256);
    for (i, t) in tiles.iter().enumerate() {
        let lx = (i % 16) as i32;
        let ly = (i / 16) as i32;
        assert_eq!(t.position, (lx, ly));
    }
    for i in 0..256 {
        for j in (i + 1)..256 {
            assert_ne!(tiles[i].position, tiles[j].position);
        }
    }
}

#[test]
fn chunk_positions_offset_by_chunk_coordinate() {
    let tiles = generate_chunk(ChunkPosition(-3, 7), 99);
    assert_eq!(tiles.len(), 256);
    for (i, t) in tiles.iter().enumerate() {
        let lx = (i % 16) as i32;
        let ly = (i / 16) as i32;
        assert_eq!(t.position, (-3 * 16 + lx, 7 * 16 + ly));
    }
}

#[test]
fn road_columns_every_32_world_units() {
    for &(cx, cy) in &[(0i32, 0i32), (1, 0), (2, 5), (-1, -1), (-2, 3)] {
        let tiles = generate_chunk(ChunkPosition(cx, cy), 7);
        for t in &tiles {
            if t.position.0 % 32 == 0 {
                assert!(matches!(t.tile_type, TileType::Road));
            } else {
                assert!(!matches!(t.tile_type, TileType::Road));
            }
        }
    }
}

#[test]
fn biome_uniform_and_matches_noise() {
    for seed in [0u64, 1, 42, 100002, u64::MAX] {
        let tiles = generate_chunk(ChunkPosition(3, -4), seed);
        let noise = sample_noise(3, -4, seed);
        let expected = if noise > 500 { BiomeType::Summer } else { BiomeType::Winter };
        for t in &tiles {
            assert_eq!(t.biome, expected);
        }
    }
}

#[test]
fn noise_is_deterministic_and_bounded() {
    for &(cx, cy, seed) in &[(0i32, 0i32, 0u64), (5, -9, 123), (-100, 100, 987654321)] {
        let a = sample_noise(cx, cy, seed);
        let b = sample_noise(cx, cy, seed);
        assert_eq!(a, b);
        assert!(a < 1000);
    }
}

#[test]
fn tile_types_drawn_from_biome_set() {
    let mut summer_seed = None;
    let mut winter_seed = None;
    for s in 0..2000u64 {
        if sample_noise(0, 0, s) > 500 {
            summer_seed = Some(s);
        } else {
            winter_seed = Some(s);
        }
    }
    let tiles = generate_chunk(ChunkPosition(0, 0), summer_seed.unwrap());
    for t in &tiles {
        if t.position.0 % 32 != 0 {
            assert!(matches!(
                t.tile_type,
                TileType::Water | TileType::Dirt | TileType::Grass { rotation: 0 }
            ));
        }
    }
    let tiles = generate_chunk(ChunkPosition(0, 0), winter_seed.unwrap());
    for t in &tiles {
        if t.position.0 % 32 != 0 {
            assert!(matches!(
                t.tile_type,
                TileType::Water | TileType::Grass { rotation: 0 }
            ));
        }
    }
}
