//! The entity-component store.
//!
//! Entities are dense indices; all state lives in four parallel component
//! columns (position, mass, impulse accumulator, gravity tag), one slot per
//! entity. A component a given entity lacks is simply `None` in its column;
//! absence is a normal, checked outcome, never an error. Queries filter the
//! entities by a required-component set and return them as an ordered,
//! indexable list.

use vstd::prelude::*;
use crate::vec2::Vec2;
use crate::math::{MAX_COORD, MAX_MASS};

verus! {

/// The closed set of component kinds a body may carry.
#[derive(Clone, Copy, PartialEq, Eq, Structural, Debug)]
pub enum ComponentKind {
    Position,
    Mass,
    Impulse,
    GravityTag,
}

/// A required-component set for a query.
#[derive(Clone, Copy, PartialEq, Eq, Structural, Debug)]
pub struct ComponentFilter {
    pub position: bool,
    pub mass: bool,
    pub impulse: bool,
    pub gravity_tag: bool,
}

impl ComponentFilter {
    /// The filter the gravity system queries with: all four components.
    pub fn gravity_bodies() -> (f: ComponentFilter)
        ensures
            f == (ComponentFilter { position: true, mass: true, impulse: true, gravity_tag: true }),
    {
        ComponentFilter { position: true, mass: true, impulse: true, gravity_tag: true }
    }
}

/// The mathematical contents of a store: one column per component kind.
#[verifier::ext_equal]
pub struct StoreView {
    pub positions: Seq<Option<Vec2>>,
    pub masses: Seq<Option<i128>>,
    pub impulses: Seq<Option<Vec2>>,
    pub tags: Seq<bool>,
}

/// An attached position is within the world bounds.
pub open spec fn position_wf(p: Option<Vec2>) -> bool {
    p.is_some() ==> -MAX_COORD <= p.unwrap().x <= MAX_COORD && -MAX_COORD <= p.unwrap().y
        <= MAX_COORD
}

/// An attached mass is non-negative and bounded.
pub open spec fn mass_wf(m: Option<i128>) -> bool {
    m.is_some() ==> 0 <= m.unwrap() <= MAX_MASS
}

impl StoreView {
    /// Number of live entities.
    pub open spec fn len(self) -> int {
        self.positions.len() as int
    }

    /// The columns agree in length and every attached component is in bounds.
    pub open spec fn wf(self) -> bool {
        &&& self.masses.len() == self.positions.len()
        &&& self.impulses.len() == self.positions.len()
        &&& self.tags.len() == self.positions.len()
        &&& forall|e: int| 0 <= e < self.len() ==> position_wf(#[trigger] self.positions[e])
        &&& forall|e: int| 0 <= e < self.len() ==> mass_wf(#[trigger] self.masses[e])
    }

    /// Entity `e` holds every component that `f` requires.
    pub open spec fn satisfies(self, f: ComponentFilter, e: int) -> bool {
        &&& f.position ==> self.positions[e].is_some()
        &&& f.mass ==> self.masses[e].is_some()
        &&& f.impulse ==> self.impulses[e].is_some()
        &&& f.gravity_tag ==> self.tags[e]
    }
}

/// The entities below `m` that satisfy `f`, in increasing order.
pub open spec fn query_upto(v: StoreView, f: ComponentFilter, m: int) -> Seq<int>
    decreases m,
{
    if m <= 0 {
        Seq::empty()
    } else if v.satisfies(f, m - 1) {
        query_upto(v, f, m - 1).push(m - 1)
    } else {
        query_upto(v, f, m - 1)
    }
}

/// The entities that satisfy `f`, in increasing order.
pub open spec fn query_spec(v: StoreView, f: ComponentFilter) -> Seq<int> {
    query_upto(v, f, v.len())
}

/// `query_upto` lists exactly the satisfying entities below `m`, strictly
/// increasing, each exactly once.
pub proof fn lemma_query_upto_props(v: StoreView, f: ComponentFilter, m: int)
    requires
        m >= 0,
    ensures
        query_upto(v, f, m).len() <= m,
        forall|r: int|
            0 <= r < query_upto(v, f, m).len() ==> 0 <= #[trigger] query_upto(v, f, m)[r] < m
                && v.satisfies(f, query_upto(v, f, m)[r]),
        forall|r1: int, r2: int|
            0 <= r1 < r2 < query_upto(v, f, m).len() ==> #[trigger] query_upto(v, f, m)[r1]
                < #[trigger] query_upto(v, f, m)[r2],
        forall|e: int| 0 <= e < m && v.satisfies(f, e) ==> query_upto(v, f, m).contains(e),
    decreases m,
{
    if m > 0 {
        lemma_query_upto_props(v, f, m - 1);
        let prev = query_upto(v, f, m - 1);
        let cur = query_upto(v, f, m);
        assert forall|e: int| 0 <= e < m && v.satisfies(f, e) implies cur.contains(e) by {
            if e < m - 1 {
                let r = choose|r: int| 0 <= r < prev.len() && prev[r] == e;
                assert(cur[r] == e);
            } else {
                assert(cur[cur.len() - 1] == e);
            }
        }
    }
}

/// The component store: owns all entities and their attached components.
pub struct Store {
    positions: Vec<Option<Vec2>>,
    masses: Vec<Option<i128>>,
    impulses: Vec<Option<Vec2>>,
    tags: Vec<bool>,
}

impl View for Store {
    type V = StoreView;

    closed spec fn view(&self) -> StoreView {
        StoreView {
            positions: self.positions@,
            masses: self.masses@,
            impulses: self.impulses@,
            tags: self.tags@,
        }
    }
}

impl Store {
    /// An empty store.
    pub fn new() -> (s: Store)
        ensures
            s@.wf(),
            s@.len() == 0,
    {
        Store { positions: Vec::new(), masses: Vec::new(), impulses: Vec::new(), tags: Vec::new() }
    }

    pub fn len(&self) -> (n: usize)
        ensures
            n == self@.len(),
    {
        self.positions.len()
    }

    /// Creates a fresh entity with the given initial component set attached
    /// and returns its identifier. Identifiers are dense and never reused.
    pub fn create(
        &mut self,
        position: Option<Vec2>,
        mass: Option<i128>,
        impulse: Option<Vec2>,
        gravity_tag: bool,
    ) -> (e: usize)
        requires
            old(self)@.wf(),
            old(self)@.len() < usize::MAX,
            position_wf(position),
            mass_wf(mass),
        ensures
            final(self)@.wf(),
            e == old(self)@.len(),
            final(self)@.positions == old(self)@.positions.push(position),
            final(self)@.masses == old(self)@.masses.push(mass),
            final(self)@.impulses == old(self)@.impulses.push(impulse),
            final(self)@.tags == old(self)@.tags.push(gravity_tag),
    {
        let e = self.positions.len();
        self.positions.push(position);
        self.masses.push(mass);
        self.impulses.push(impulse);
        self.tags.push(gravity_tag);
        e
    }

    /// The position attached to `e`, or `None` if absent or `e` is not live.
    pub fn get_position(&self, e: usize) -> (r: Option<Vec2>)
        ensures
            r == if (e as int) < self@.len() {
                self@.positions[e as int]
            } else {
                None::<Vec2>
            },
    {
        if e < self.positions.len() {
            self.positions[e]
        } else {
            None
        }
    }

    /// The mass attached to `e`, or `None` if absent or `e` is not live.
    pub fn get_mass(&self, e: usize) -> (r: Option<i128>)
        requires
            self@.wf(),
        ensures
            r == if (e as int) < self@.len() {
                self@.masses[e as int]
            } else {
                None::<i128>
            },
    {
        if e < self.masses.len() {
            self.masses[e]
        } else {
            None
        }
    }

    /// The impulse accumulator of `e`, or `None` if absent or `e` is not live.
    pub fn get_impulse(&self, e: usize) -> (r: Option<Vec2>)
        requires
            self@.wf(),
        ensures
            r == if (e as int) < self@.len() {
                self@.impulses[e as int]
            } else {
                None::<Vec2>
            },
    {
        if e < self.impulses.len() {
            self.impulses[e]
        } else {
            None
        }
    }

    /// Whether `e` carries the gravity tag (`false` if `e` is not live).
    pub fn has_gravity_tag(&self, e: usize) -> (r: bool)
        requires
            self@.wf(),
        ensures
            r == if (e as int) < self@.len() {
                self@.tags[e as int]
            } else {
                false
            },
    {
        if e < self.tags.len() {
            self.tags[e]
        } else {
            false
        }
    }

    /// Overwrites the impulse accumulator of `e`. Exclusive mutable access:
    /// `&mut self` makes any concurrent access to the store impossible.
    pub fn set_impulse(&mut self, e: usize, value: Vec2)
        requires
            old(self)@.wf(),
            (e as int) < old(self)@.len(),
            old(self)@.impulses[e as int].is_some(),
        ensures
            final(self)@.wf(),
            final(self)@.positions == old(self)@.positions,
            final(self)@.masses == old(self)@.masses,
            final(self)@.tags == old(self)@.tags,
            final(self)@.impulses == old(self)@.impulses.update(e as int, Some(value)),
    {
        self.impulses.set(e, Some(value));
    }

    /// The entities holding every component `f` requires, in increasing
    /// order: a materialized, indexable snapshot of the query.
    pub fn query(&self, f: ComponentFilter) -> (ids: Vec<usize>)
        requires
            self@.wf(),
        ensures
            ids@.len() == query_spec(self@, f).len(),
            forall|r: int| 0 <= r < ids@.len() ==> ids@[r] as int == #[trigger] query_spec(
                self@,
                f,
            )[r],
    {
        let n = self.positions.len();
        let mut ids: Vec<usize> = Vec::new();
        let mut e: usize = 0;
        while e < n
            invariant
                e <= n,
                n == self@.len(),
                self@.masses.len() == n,
                self@.impulses.len() == n,
                self@.tags.len() == n,
                ids@.len() == query_upto(self@, f, e as int).len(),
                forall|r: int|
                    0 <= r < ids@.len() ==> ids@[r] as int == #[trigger] query_upto(
                        self@,
                        f,
                        e as int,
                    )[r],
            decreases n - e,
        {
            let ok = (!f.position || self.positions[e].is_some()) && (!f.mass
                || self.masses[e].is_some()) && (!f.impulse || self.impulses[e].is_some()) && (
            !f.gravity_tag || self.tags[e]);
            proof {
                assert(ok == self@.satisfies(f, e as int));
            }
            if ok {
                ids.push(e);
            }
            proof {
                let prev = query_upto(self@, f, e as int);
                let cur = query_upto(self@, f, e as int + 1);
                if ok {
                    assert(cur == prev.push(e as int));
                } else {
                    assert(cur == prev);
                }
            }
            e = e + 1;
        }
        ids
    }

    /// The kinds of all components attached to `e`, in declaration order:
    /// the debug-introspection view of an entity.
    pub fn component_kinds(&self, e: usize) -> (ks: Vec<ComponentKind>)
        requires
            self@.wf(),
        ensures
            ks@ == kinds_spec(self@, e as int),
    {
        let mut ks: Vec<ComponentKind> = Vec::new();
        if e < self.positions.len() {
            if self.positions[e].is_some() {
                ks.push(ComponentKind::Position);
            }
            if e < self.masses.len() && self.masses[e].is_some() {
                ks.push(ComponentKind::Mass);
            }
            if e < self.impulses.len() && self.impulses[e].is_some() {
                ks.push(ComponentKind::Impulse);
            }
            if e < self.tags.len() && self.tags[e] {
                ks.push(ComponentKind::GravityTag);
            }
        }
        proof {
            assert(ks@ =~= kinds_spec(self@, e as int));
        }
        ks
    }
}

/// The component kinds attached to entity `e`, in declaration order.
pub open spec fn kinds_spec(v: StoreView, e: int) -> Seq<ComponentKind> {
    if 0 <= e < v.len() {
        let s0 = Seq::<ComponentKind>::empty();
        let s1 = if v.positions[e].is_some() {
            s0.push(ComponentKind::Position)
        } else {
            s0
        };
        let s2 = if e < v.masses.len() && v.masses[e].is_some() {
            s1.push(ComponentKind::Mass)
        } else {
            s1
        };
        let s3 = if e < v.impulses.len() && v.impulses[e].is_some() {
            s2.push(ComponentKind::Impulse)
        } else {
            s2
        };
        if e < v.tags.len() && v.tags[e] {
            s3.push(ComponentKind::GravityTag)
        } else {
            s3
        }
    } else {
        Seq::empty()
    }
}

} // verus!
