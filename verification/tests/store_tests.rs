use nbody_core::store::{ComponentFilter, ComponentKind, Store};
use nbody_core::vec2::Vec2;

fn filter_all() -> ComponentFilter {
    ComponentFilter::gravity_bodies()
}

#[test]
fn create_returns_dense_identifiers() {
    let mut store = Store::new();
    let a = store.create(Some(Vec2::new(1, 2)), Some(10), Some(Vec2::zero()), true);
    let b = store.create(None, None, None, false);
    let c = store.create(Some(Vec2::new(-3, 4)), None, None, true);
    assert_eq!(a, 0);
    assert_eq!(b, 1);
    assert_eq!(c, 2);
    assert_eq!(store.len(), 3);
}

#[test]
fn getters_return_attached_components() {
    let mut store = Store::new();
    let e = store.create(Some(Vec2::new(7, -8)), Some(42), Some(Vec2::new(1, 1)), true);
    assert_eq!(store.get_position(e), Some(Vec2::new(7, -8)));
    assert_eq!(store.get_mass(e), Some(42));
    assert_eq!(store.get_impulse(e), Some(Vec2::new(1, 1)));
    assert!(store.has_gravity_tag(e));
}

#[test]
fn absence_is_a_normal_outcome() {
    let mut store = Store::new();
    let e = store.create(None, Some(5), None, false);
    assert_eq!(store.get_position(e), None);
    assert_eq!(store.get_mass(e), Some(5));
    assert_eq!(store.get_impulse(e), None);
    assert!(!store.has_gravity_tag(e));
    // an entity that was never created is absent everywhere
    assert_eq!(store.get_position(99), None);
    assert_eq!(store.get_mass(99), None);
    assert_eq!(store.get_impulse(99), None);
    assert!(!store.has_gravity_tag(99));
}

#[test]
fn set_impulse_overwrites_only_that_accumulator() {
    let mut store = Store::new();
    let a = store.create(Some(Vec2::zero()), Some(1), Some(Vec2::zero()), true);
    let b = store.create(Some(Vec2::zero()), Some(1), Some(Vec2::new(9, 9)), true);
    store.set_impulse(a, Vec2::new(3, -4));
    assert_eq!(store.get_impulse(a), Some(Vec2::new(3, -4)));
    assert_eq!(store.get_impulse(b), Some(Vec2::new(9, 9)));
}

#[test]
fn query_skips_entities_missing_a_required_component() {
    let mut store = Store::new();
    let complete = store.create(Some(Vec2::zero()), Some(1), Some(Vec2::zero()), true);
    let _no_mass = store.create(Some(Vec2::zero()), None, Some(Vec2::zero()), true);
    let _no_tag = store.create(Some(Vec2::zero()), Some(1), Some(Vec2::zero()), false);
    let _no_pos = store.create(None, Some(1), Some(Vec2::zero()), true);
    let _no_imp = store.create(Some(Vec2::zero()), Some(1), None, true);
    let also = store.create(Some(Vec2::new(5, 5)), Some(2), Some(Vec2::zero()), true);
    let ids = store.query(filter_all());
    assert_eq!(ids, vec![complete, also]);
}

#[test]
fn query_is_ordered_and_restartable() {
    let mut store = Store::new();
    for k in 0..6 {
        store.create(Some(Vec2::new(k, 0)), Some(1), Some(Vec2::zero()), k % 2 == 0);
    }
    let first = store.query(filter_all());
    let second = store.query(filter_all());
    assert_eq!(first, vec![0, 2, 4]);
    assert_eq!(first, second);
    for w in first.windows(2) {
        assert!(w[0] < w[1]);
    }
}

#[test]
fn query_with_empty_filter_lists_every_entity() {
    let mut store = Store::new();
    store.create(None, None, None, false);
    store.create(Some(Vec2::zero()), None, None, false);
    let none_required = ComponentFilter { position: false, mass: false, impulse: false, gravity_tag: false };
    assert_eq!(store.query(none_required), vec![0, 1]);
}

#[test]
fn component_kinds_lists_what_is_attached() {
    let mut store = Store::new();
    let full = store.create(Some(Vec2::zero()), Some(1), Some(Vec2::zero()), true);
    let partial = store.create(None, Some(1), None, true);
    let bare = store.create(None, None, None, false);
    assert_eq!(
        store.component_kinds(full),
        vec![
            ComponentKind::Position,
            ComponentKind::Mass,
            ComponentKind::Impulse,
            ComponentKind::GravityTag
        ]
    );
    assert_eq!(
        store.component_kinds(partial),
        vec![ComponentKind::Mass, ComponentKind::GravityTag]
    );
    assert_eq!(store.component_kinds(bare), vec![]);
    assert_eq!(store.component_kinds(77), vec![]);
}
