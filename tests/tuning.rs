use nbodysim::tuning::{CellSizeTuner, CELL_SIZE_INITIAL, CELL_SIZE_MAX, CELL_SIZE_MIN};

#[test]
fn tuner_starts_at_initial_size() {
    let t = CellSizeTuner::new();
    assert_eq!(t.cell_size(), CELL_SIZE_INITIAL);
    assert_eq!(t.cell_size(), 20);
    assert_eq!(t.smoothed_micros(), 0);
    assert_eq!(t.previous_micros(), 0);
}

#[test]
fn record_halves_towards_sample() {
    let mut t = CellSizeTuner::new();
    t.record(100);
    assert_eq!(t.smoothed_micros(), 50);
    t.record(51);
    assert_eq!(t.smoothed_micros(), 50);
    t.record(u64::MAX);
    assert_eq!(t.smoothed_micros(), u64::MAX / 2 + 25);
}

#[test]
fn growing_cost_grows_cells() {
    let mut t = CellSizeTuner::new();
    t.record(100);
    t.adapt();
    assert_eq!(t.cell_size(), 22);
    assert_eq!(t.previous_micros(), 50);
}

#[test]
fn steady_cost_shrinks_cells() {
    let mut t = CellSizeTuner::new();
    t.adapt();
    assert_eq!(t.cell_size(), 18);
    t.record(0);
    t.adapt();
    assert_eq!(t.cell_size(), 16);
}

#[test]
fn cell_size_stays_within_bounds_over_many_ticks() {
    let mut t = CellSizeTuner::new();
    for _ in 0..100 {
        t.adapt();
        assert!(t.cell_size() >= CELL_SIZE_MIN && t.cell_size() <= CELL_SIZE_MAX);
    }
    assert_eq!(t.cell_size(), 2);
    let mut sample: u64 = 1000;
    for _ in 0..100 {
        sample = sample + 1000;
        t.record(sample);
        t.adapt();
        assert!(t.cell_size() >= CELL_SIZE_MIN && t.cell_size() <= CELL_SIZE_MAX);
    }
    assert_eq!(t.cell_size(), 48);
}
