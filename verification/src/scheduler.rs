//! The scheduler: runs the registered systems once per tick, in the order
//! they were registered, each receiving the time delta since the previous
//! tick. The gravitational constant is configuration threaded into every
//! system call, not ambient global state.

use vstd::prelude::*;
use crate::gravity::{apply_gravity, gravity_step, lemma_gravity_step_props};
use crate::math::{abs_i, ACC_LIMIT, MAX_BODIES, MAX_DT, MAX_G, MAX_SYSTEMS, RUN_ACC_LIMIT, TICK_CAP};
use crate::store::{Store, StoreView};

verus! {

/// The systems this core can schedule. Only the gravity system belongs to
/// the core; the external integrator runs after it, outside the scheduler.
#[derive(Clone, Copy, PartialEq, Eq, Structural, Debug)]
pub enum SystemKind {
    Gravity,
}

/// The store after one system runs.
pub open spec fn apply_system(kind: SystemKind, v: StoreView, g: int, dt: int) -> StoreView {
    match kind {
        SystemKind::Gravity => gravity_step(v, g, dt),
    }
}

/// The store after the first `m` registered systems have run in order.
pub open spec fn run_prefix(systems: Seq<SystemKind>, m: int, v: StoreView, g: int, dt: int) -> StoreView
    decreases m,
{
    if m <= 0 {
        v
    } else {
        apply_system(systems[m - 1], run_prefix(systems, m - 1, v, g, dt), g, dt)
    }
}

/// The store after a full tick: every registered system once, in order.
pub open spec fn run_spec(systems: Seq<SystemKind>, v: StoreView, g: int, dt: int) -> StoreView {
    run_prefix(systems, systems.len() as int, v, g, dt)
}

/// Invokes the registered systems in a fixed order once per simulation
/// tick, supplying each with the time delta since the previous tick.
pub struct Scheduler {
    systems: Vec<SystemKind>,
    g: i128,
}

impl Scheduler {
    /// The registered systems, in their fixed order.
    pub closed spec fn systems(&self) -> Seq<SystemKind> {
        self.systems@
    }

    /// The gravitational constant every tick is run with.
    pub closed spec fn gravity_constant(&self) -> int {
        self.g as int
    }

    /// A scheduler with no systems registered, configured with the
    /// gravitational constant `g`.
    pub fn new(g: i128) -> (sch: Scheduler)
        requires
            0 <= g <= MAX_G,
        ensures
            sch.systems() == Seq::<SystemKind>::empty(),
            sch.gravity_constant() == g,
    {
        Scheduler { systems: Vec::new(), g }
    }

    /// Registers a system at the end of the fixed order.
    pub fn register(&mut self, kind: SystemKind)
        ensures
            final(self).systems() == old(self).systems().push(kind),
            final(self).gravity_constant() == old(self).gravity_constant(),
    {
        self.systems.push(kind);
    }

    /// How many systems are registered.
    pub fn system_count(&self) -> (n: usize)
        ensures
            n == self.systems().len(),
    {
        self.systems.len()
    }

    /// Runs one tick: every registered system once, in registration order,
    /// each receiving `dt`. A tick either completes the full set or the
    /// whole process terminates; there is no partial-tick mode.
    #[verifier::loop_isolation(false)]
    pub fn run_tick(&self, store: &mut Store, dt: i128)
        requires
            old(store)@.wf(),
            0 <= dt <= MAX_DT,
            0 <= self.gravity_constant() <= MAX_G,
            old(store)@.len() <= MAX_BODIES,
            self.systems().len() <= MAX_SYSTEMS,
            forall|e: int|
                0 <= e < old(store)@.len() && (#[trigger] old(store)@.impulses[e]).is_some()
                    ==> abs_i(old(store)@.impulses[e].unwrap().x as int) <= RUN_ACC_LIMIT && abs_i(
                    old(store)@.impulses[e].unwrap().y as int,
                ) <= RUN_ACC_LIMIT,
        ensures
            final(store)@.wf(),
            final(store)@ == run_spec(self.systems(), old(store)@, self.gravity_constant(), dt as int),
    {
        let ghost v0 = store@;
        let ghost gg = self.gravity_constant();
        let ghost dd = dt as int;
        let n = self.systems.len();
        let mut k: usize = 0;
        while k < n
            invariant
                k <= n,
                store@ == run_prefix(self.systems(), k as int, v0, gg, dd),
                store@.wf(),
                store@.len() == v0.len(),
                forall|e: int|
                    0 <= e < store@.len() && (#[trigger] store@.impulses[e]).is_some() ==> abs_i(
                        store@.impulses[e].unwrap().x as int,
                    ) <= RUN_ACC_LIMIT + k as int * TICK_CAP && abs_i(
                        store@.impulses[e].unwrap().y as int,
                    ) <= RUN_ACC_LIMIT + k as int * TICK_CAP,
            decreases n - k,
        {
            let kind = self.systems[k];
            proof {
                assert(k as int * TICK_CAP <= MAX_SYSTEMS * TICK_CAP) by (nonlinear_arith)
                    requires
                        0 <= k as int <= MAX_SYSTEMS,
                        TICK_CAP > 0,
                ;
                lemma_gravity_step_props(store@, gg, dd, RUN_ACC_LIMIT + k as int * TICK_CAP);
            }
            match kind {
                SystemKind::Gravity => {
                    apply_gravity(store, self.g, dt);
                },
            }
            proof {
                assert(store@ == run_prefix(self.systems(), k as int + 1, v0, gg, dd));
                assert((k as int + 1) * TICK_CAP == k as int * TICK_CAP + TICK_CAP)
                    by (nonlinear_arith);
            }
            k = k + 1;
        }
    }
}

} // verus!
