//! Exact 2D integer vectors: world positions and impulse accumulators.

use vstd::prelude::*;

verus! {

/// A 2D vector with exact integer coordinates.
#[derive(Clone, Copy, PartialEq, Eq, Structural, Debug)]
pub struct Vec2 {
    pub x: i128,
    pub y: i128,
}

impl Vec2 {
    pub fn new(x: i128, y: i128) -> (v: Vec2)
        ensures
            v == (Vec2 { x, y }),
    {
        Vec2 { x, y }
    }

    pub fn zero() -> (v: Vec2)
        ensures
            v == (Vec2 { x: 0i128, y: 0i128 }),
    {
        Vec2 { x: 0, y: 0 }
    }

    /// Componentwise sum.
    pub fn plus(&self, other: &Vec2) -> (r: Vec2)
        requires
            i128::MIN <= self.x + other.x <= i128::MAX,
            i128::MIN <= self.y + other.y <= i128::MAX,
        ensures
            r.x == self.x + other.x,
            r.y == self.y + other.y,
    {
        Vec2 { x: self.x + other.x, y: self.y + other.y }
    }

    /// Componentwise difference.
    pub fn minus(&self, other: &Vec2) -> (r: Vec2)
        requires
            i128::MIN <= self.x - other.x <= i128::MAX,
            i128::MIN <= self.y - other.y <= i128::MAX,
        ensures
            r.x == self.x - other.x,
            r.y == self.y - other.y,
    {
        Vec2 { x: self.x - other.x, y: self.y - other.y }
    }
}

} // verus!
