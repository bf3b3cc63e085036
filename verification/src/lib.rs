//! A deterministic point-mass gravity core: an entity-component store for
//! bodies (position, mass, impulse accumulator, gravity tag), a filtered
//! query over it, and the O(n^2) pairwise gravity system that adds each
//! tick's gravitational impulses into the accumulators.
//!
//! All arithmetic is exact integer arithmetic (fixed-point by convention of
//! the caller), so every result is pinned down by the contracts.

pub mod gravity;
pub mod math;
pub mod scheduler;
pub mod store;
pub mod vec2;
