use nbody_core::scheduler::{Scheduler, SystemKind};
use nbody_core::store::Store;
use nbody_core::vec2::Vec2;

fn two_body_store() -> Store {
    let mut store = Store::new();
    store.create(Some(Vec2::new(0, 0)), Some(100), Some(Vec2::zero()), true);
    store.create(Some(Vec2::new(10, 0)), Some(100), Some(Vec2::zero()), true);
    store
}

#[test]
fn tick_with_one_gravity_system() {
    let mut store = two_body_store();
    let mut scheduler = Scheduler::new(10_000);
    scheduler.register(SystemKind::Gravity);
    assert_eq!(scheduler.system_count(), 1);
    scheduler.run_tick(&mut store, 1);
    assert_eq!(store.get_impulse(0).unwrap(), Vec2::new(20_000, 0));
    assert_eq!(store.get_impulse(1).unwrap(), Vec2::new(-20_000, 0));
}

#[test]
fn tick_with_no_systems_changes_nothing() {
    let mut store = two_body_store();
    store.set_impulse(0, Vec2::new(8, 8));
    let scheduler = Scheduler::new(10_000);
    scheduler.run_tick(&mut store, 1);
    assert_eq!(store.get_impulse(0).unwrap(), Vec2::new(8, 8));
    assert_eq!(store.get_impulse(1).unwrap(), Vec2::zero());
}

#[test]
fn systems_run_once_each_in_order() {
    // two gravity systems registered: positions are unchanged within the
    // tick, so the second run adds the same impulses again
    let mut store = two_body_store();
    let mut scheduler = Scheduler::new(10_000);
    scheduler.register(SystemKind::Gravity);
    scheduler.register(SystemKind::Gravity);
    scheduler.run_tick(&mut store, 1);
    assert_eq!(store.get_impulse(0).unwrap(), Vec2::new(40_000, 0));
    assert_eq!(store.get_impulse(1).unwrap(), Vec2::new(-40_000, 0));
}

#[test]
fn consecutive_ticks_accumulate() {
    let mut store = two_body_store();
    let mut scheduler = Scheduler::new(10_000);
    scheduler.register(SystemKind::Gravity);
    scheduler.run_tick(&mut store, 1);
    scheduler.run_tick(&mut store, 1);
    scheduler.run_tick(&mut store, 0);
    assert_eq!(store.get_impulse(0).unwrap(), Vec2::new(40_000, 0));
    assert_eq!(store.get_impulse(1).unwrap(), Vec2::new(-40_000, 0));
}

#[test]
fn delta_time_scales_the_tick() {
    let mut store = two_body_store();
    let mut scheduler = Scheduler::new(10_000);
    scheduler.register(SystemKind::Gravity);
    scheduler.run_tick(&mut store, 7);
    assert_eq!(store.get_impulse(0).unwrap(), Vec2::new(140_000, 0));
    assert_eq!(store.get_impulse(1).unwrap(), Vec2::new(-140_000, 0));
}
