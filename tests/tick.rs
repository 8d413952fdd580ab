use nbodysim::tick::{TickControl, SUB_STEPS};

#[test]
fn ticks_are_counted() {
    let mut c = TickControl::new(10, 100);
    assert_eq!(c.step(), 0);
    c.begin_tick();
    c.begin_tick();
    assert_eq!(c.step(), 2);
    assert_eq!(c.sub_steps(), SUB_STEPS);
    assert_eq!(c.sub_steps(), 10);
}

#[test]
fn begin_tick_adapts_cell_size() {
    let mut c = TickControl::new(10, 100);
    assert_eq!(c.cell_size(), 20);
    c.record_collision_time(300);
    c.begin_tick();
    assert_eq!(c.cell_size(), 22);
    assert_eq!(c.tuner().previous_micros(), 150);
    c.begin_tick();
    assert_eq!(c.cell_size(), 20);
}

#[test]
fn growth_closes_at_ceiling_and_reopens_below() {
    let mut c = TickControl::new(10, 100);
    assert!(c.fill_allowed());
    assert_eq!(c.spawn_quota(false), 10);
    c.end_tick(100);
    assert!(!c.fill_allowed());
    assert_eq!(c.spawn_quota(false), 0);
    assert_eq!(c.spawn_quota(true), 0);
    c.end_tick(150);
    assert!(!c.fill_allowed());
    c.end_tick(99);
    assert!(c.fill_allowed());
    assert_eq!(c.spawn_quota(false), 10);
}

#[test]
fn circled_layout_spawns_one_fewer() {
    let c = TickControl::new(10, 100);
    assert_eq!(c.spawn_quota(true), 9);
    let none = TickControl::new(0, 100);
    assert_eq!(none.spawn_quota(true), 0);
    assert_eq!(none.spawn_quota(false), 0);
    assert_eq!(none.spawn_count(), 0);
    assert_eq!(none.max_objects(), 100);
}
