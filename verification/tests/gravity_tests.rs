use nbody_core::gravity::apply_gravity;
use nbody_core::math::isqrt;
use nbody_core::store::Store;
use nbody_core::vec2::Vec2;

const G: i128 = 10_000;

fn body(store: &mut Store, x: i128, y: i128, mass: i128) -> usize {
    store.create(Some(Vec2::new(x, y)), Some(mass), Some(Vec2::zero()), true)
}

fn impulse(store: &Store, e: usize) -> Vec2 {
    store.get_impulse(e).unwrap()
}

#[test]
fn isqrt_exact_values() {
    assert_eq!(isqrt(0), 0);
    assert_eq!(isqrt(1), 1);
    assert_eq!(isqrt(3), 1);
    assert_eq!(isqrt(4), 2);
    assert_eq!(isqrt(99), 9);
    assert_eq!(isqrt(100), 10);
    assert_eq!(isqrt(8_000_000_000_000_000_000), 2_828_427_124);
}

#[test]
fn two_body_concrete_scenario() {
    // masses 100 and 100 at (0,0) and (10,0), dt = 1, g = 10000:
    // distance 10, squared distance 100,
    // force magnitude 10000 * 200 / 100 * 1 = 20000,
    // so body a gains (20000, 0) and body b the exact opposite.
    let mut store = Store::new();
    let a = body(&mut store, 0, 0, 100);
    let b = body(&mut store, 10, 0, 100);
    apply_gravity(&mut store, G, 1);
    assert_eq!(impulse(&store, a), Vec2::new(20_000, 0));
    assert_eq!(impulse(&store, b), Vec2::new(-20_000, 0));
}

#[test]
fn pairwise_symmetry_concrete() {
    let mut store = Store::new();
    let a = body(&mut store, -30, 40, 250);
    let b = body(&mut store, 30, -40, 70);
    apply_gravity(&mut store, G, 3);
    let ia = impulse(&store, a);
    let ib = impulse(&store, b);
    assert_eq!(ia.x, -ib.x);
    assert_eq!(ia.y, -ib.y);
    assert!(ia.x != 0 || ia.y != 0);
}

#[test]
fn zero_delta_time_changes_nothing() {
    let mut store = Store::new();
    let a = body(&mut store, 0, 0, 100);
    let b = body(&mut store, 10, 0, 100);
    store.set_impulse(a, Vec2::new(17, -5));
    apply_gravity(&mut store, G, 0);
    assert_eq!(impulse(&store, a), Vec2::new(17, -5));
    assert_eq!(impulse(&store, b), Vec2::zero());
}

#[test]
fn single_body_gains_nothing() {
    let mut store = Store::new();
    let a = body(&mut store, 123, -456, 1000);
    apply_gravity(&mut store, G, 1);
    assert_eq!(impulse(&store, a), Vec2::zero());
}

#[test]
fn empty_store_is_fine() {
    let mut store = Store::new();
    apply_gravity(&mut store, G, 1);
    assert_eq!(store.len(), 0);
}

#[test]
fn doubling_both_masses_doubles_the_impulse() {
    let mut base = Store::new();
    let a1 = body(&mut base, 0, 0, 100);
    body(&mut base, 10, 0, 100);
    apply_gravity(&mut base, G, 1);

    let mut doubled = Store::new();
    let a2 = body(&mut doubled, 0, 0, 200);
    body(&mut doubled, 10, 0, 200);
    apply_gravity(&mut doubled, G, 1);

    let small = impulse(&base, a1);
    let big = impulse(&doubled, a2);
    assert_eq!(big.x, 2 * small.x);
    assert_eq!(big.y, 2 * small.y);
    assert!(small.x != 0);
}

#[test]
fn halving_the_distance_quadruples_the_impulse() {
    let mut far = Store::new();
    let a1 = body(&mut far, 0, 0, 100);
    body(&mut far, 10, 0, 100);
    apply_gravity(&mut far, G, 1);

    let mut near = Store::new();
    let a2 = body(&mut near, 0, 0, 100);
    body(&mut near, 5, 0, 100);
    apply_gravity(&mut near, G, 1);

    let weak = impulse(&far, a1);
    let strong = impulse(&near, a2);
    assert_eq!(strong.x, 4 * weak.x);
    assert_eq!(strong.y, 4 * weak.y);
    assert!(weak.x != 0);
}

#[test]
fn coincident_bodies_are_stable() {
    // two bodies at the same position: the pair is skipped, every value
    // stays exact and finite, and nothing is added to either accumulator
    let mut store = Store::new();
    let a = body(&mut store, 42, 42, 500);
    let b = body(&mut store, 42, 42, 500);
    store.set_impulse(a, Vec2::new(1, 2));
    apply_gravity(&mut store, G, 1);
    assert_eq!(impulse(&store, a), Vec2::new(1, 2));
    assert_eq!(impulse(&store, b), Vec2::zero());
}

#[test]
fn accumulator_is_additive_not_overwritten() {
    let mut store = Store::new();
    let a = body(&mut store, 0, 0, 100);
    let b = body(&mut store, 10, 0, 100);
    store.set_impulse(a, Vec2::new(5, 7));
    store.set_impulse(b, Vec2::new(-1, -2));
    apply_gravity(&mut store, G, 1);
    assert_eq!(impulse(&store, a), Vec2::new(5 + 20_000, 7));
    assert_eq!(impulse(&store, b), Vec2::new(-1 - 20_000, -2));
}

#[test]
fn zero_mass_body_is_attracted() {
    // the combined-mass formulation: with masses 0 and 100 at distance 10
    // the shared magnitude is 10000 * 100 / 100 = 10000, so the massless
    // body is pulled while contributing nothing of its own
    let mut store = Store::new();
    let a = body(&mut store, 0, 0, 0);
    let b = body(&mut store, 10, 0, 100);
    apply_gravity(&mut store, G, 1);
    assert_eq!(impulse(&store, a), Vec2::new(10_000, 0));
    assert_eq!(impulse(&store, b), Vec2::new(-10_000, 0));
}

#[test]
fn untagged_bodies_are_skipped() {
    let mut store = Store::new();
    let a = body(&mut store, 0, 0, 100);
    let b = body(&mut store, 10, 0, 100);
    let c = store.create(Some(Vec2::new(5, 0)), Some(1_000_000), Some(Vec2::new(3, 3)), false);
    apply_gravity(&mut store, G, 1);
    // the untagged heavy body in the middle neither feels nor causes force
    assert_eq!(impulse(&store, a), Vec2::new(20_000, 0));
    assert_eq!(impulse(&store, b), Vec2::new(-20_000, 0));
    assert_eq!(impulse(&store, c), Vec2::new(3, 3));
}

#[test]
fn three_bodies_on_a_line() {
    // bodies of mass 100 at x = 0, 10, 20, g = 10000, dt = 1:
    // pair (0,1): magnitude 20000; pair (1,2): magnitude 20000;
    // pair (0,2): 10000 * 200 / 400 = 5000.
    // net: a = 20000 + 5000, b = -20000 + 20000 = 0, c = -20000 - 5000.
    let mut store = Store::new();
    let a = body(&mut store, 0, 0, 100);
    let b = body(&mut store, 10, 0, 100);
    let c = body(&mut store, 20, 0, 100);
    apply_gravity(&mut store, G, 1);
    assert_eq!(impulse(&store, a), Vec2::new(25_000, 0));
    assert_eq!(impulse(&store, b), Vec2::new(0, 0));
    assert_eq!(impulse(&store, c), Vec2::new(-25_000, 0));
}

#[test]
fn diagonal_pair_uses_the_floor_root_direction() {
    // masses 100 at (0,0) and (30,40): dsq = 2500, distance 50,
    // magnitude 10000 * 200 / 2500 = 800,
    // per axis: 800 * 30 / 50 = 480 and 800 * 40 / 50 = 640.
    let mut store = Store::new();
    let a = body(&mut store, 0, 0, 100);
    let b = body(&mut store, 30, 40, 100);
    apply_gravity(&mut store, G, 1);
    assert_eq!(impulse(&store, a), Vec2::new(480, 640));
    assert_eq!(impulse(&store, b), Vec2::new(-480, -640));
}
