use tile_world::generate_map::ChunkPosition;
use tile_world::streaming::MapState;

#[test]
fn first_reconcile_loads_5x5_window() {
    let mut m = MapState::new(77);
    assert_eq!(m.len(), 0);
    let report = m.reconcile(0, 0);
    assert!(report.to_unload.is_empty());
    assert_eq!(report.to_load.len(), 25);
    let mut k = 0;
    for dy in -2..=2i32 {
        for dx in -2..=2i32 {
            assert_eq!(report.to_load[k].pos, ChunkPosition(dx, dy));
            assert_eq!(report.to_load[k].tiles.len(), 256);
            k += 1;
        }
    }
    assert_eq!(m.len(), 25);
    for dy in -2..=2i32 {
        for dx in -2..=2i32 {
            assert!(m.is_loaded(ChunkPosition(dx, dy)));
        }
    }
    assert!(!m.is_loaded(ChunkPosition(3, 0)));
    assert!(!m.is_loaded(ChunkPosition(0, -3)));
}

#[test]
fn reconcile_is_idempotent() {
    let mut m = MapState::new(1);
    m.reconcile(100, -200);
    let second = m.reconcile(100, -200);
    assert!(second.to_load.is_empty());
    assert!(second.to_unload.is_empty());
    assert_eq!(m.len(), 25);
}

#[test]
fn moving_one_chunk_swaps_one_column() {
    let mut m = MapState::new(5);
    m.reconcile(0, 0);
    assert_eq!(m.len(), 25);
    let report = m.reconcile(512, 0);
    let unload: Vec<(i32, i32)> = report.to_unload.iter().map(|e| (e.0 .0, e.0 .1)).collect();
    let load: Vec<(i32, i32)> = report.to_load.iter().map(|lc| (lc.pos.0, lc.pos.1)).collect();
    let expected_unload: Vec<(i32, i32)> = (-2..=2).map(|y| (-2, y)).collect();
    let expected_load: Vec<(i32, i32)> = (-2..=2).map(|y| (3, y)).collect();
    assert_eq!(unload, expected_unload);
    assert_eq!(load, expected_load);
    assert_eq!(m.len(), 25);
    for dy in -2..=2i32 {
        for dx in -1..=3i32 {
            assert!(m.is_loaded(ChunkPosition(dx, dy)));
        }
    }
}

#[test]
fn observer_chunk_uses_floor_division() {
    let mut m = MapState::new(9);
    m.reconcile(-1, -1);
    assert!(m.is_loaded(ChunkPosition(-3, -3)));
    assert!(m.is_loaded(ChunkPosition(1, 1)));
    assert!(!m.is_loaded(ChunkPosition(2, 2)));

    let mut m2 = MapState::new(9);
    m2.reconcile(511, 511);
    assert!(m2.is_loaded(ChunkPosition(2, 2)));
    assert!(!m2.is_loaded(ChunkPosition(3, 3)));

    let mut m3 = MapState::new(9);
    m3.reconcile(-513, 0);
    assert!(m3.is_loaded(ChunkPosition(-4, -2)));
    assert!(!m3.is_loaded(ChunkPosition(1, 0)));
}

#[test]
fn handles_recorded_and_returned_on_unload() {
    let mut m = MapState::new(3);
    let report = m.reconcile(0, 0);
    for (i, lc) in report.to_load.iter().enumerate() {
        assert!(m.set_handle(lc.pos, 1000 + i as u64));
    }
    assert!(!m.set_handle(ChunkPosition(50, 50), 1));
    let report2 = m.reconcile(100 * 512, 100 * 512);
    assert_eq!(report2.to_unload.len(), 25);
    for e in &report2.to_unload {
        assert!(e.1.is_some());
        let h = e.1.unwrap();
        assert!((1000..1025).contains(&h));
    }
    assert_eq!(report2.to_load.len(), 25);
    assert_eq!(m.len(), 25);
}

#[test]
fn kept_chunks_keep_their_handles() {
    let mut m = MapState::new(11);
    let report = m.reconcile(0, 0);
    for (i, lc) in report.to_load.iter().enumerate() {
        assert!(m.set_handle(lc.pos, 500 + i as u64));
    }
    // One chunk over: the overlapping 5 x 4 block keeps its handles.
    let report2 = m.reconcile(0, 512);
    for e in &report2.to_unload {
        assert!(e.1.is_some());
    }
    for lc in &report2.to_load {
        assert_eq!(lc.pos.1, 3);
    }
    assert_eq!(m.len(), 25);
}

#[test]
fn seed_is_fixed_for_session() {
    let m = MapState::new(123456789);
    assert_eq!(m.seed(), 123456789);
    let mut m2 = MapState::new(42);
    m2.reconcile(0, 0);
    m2.reconcile(512, 512);
    assert_eq!(m2.seed(), 42);
}
