//! Exact integer helpers for the gravity core: the global magnitude bounds
//! that keep every computation inside `i128`/`u128`, the absolute value used
//! by the force specs, and a floor integer square root.

use vstd::prelude::*;

verus! {

/// Largest world-coordinate magnitude the store accepts.
pub const MAX_COORD: i128 = 1_000_000_000;
/// Largest mass the store accepts.
pub const MAX_MASS: i128 = 1_000_000_000;
/// Largest gravitational constant the gravity system accepts.
pub const MAX_G: i128 = 1_000_000_000;
/// Largest time delta one tick may use.
pub const MAX_DT: i128 = 1_000_000_000;
/// Largest number of entities one tick may process.
pub const MAX_BODIES: i128 = 1_000_000;
/// Largest squared distance between two in-bound positions.
pub const MAX_DSQ: i128 = 8 * MAX_COORD * MAX_COORD;
/// Bound on the per-axis impulse one pair contributes in one tick.
pub const FG_CAP: i128 = 2 * MAX_G * MAX_MASS * MAX_DT;
/// Bound on the per-axis impulse one body gains in one tick.
pub const TICK_CAP: i128 = MAX_BODIES * FG_CAP;
/// Largest accumulator magnitude the gravity system accepts.
pub const ACC_LIMIT: i128 = 10_000 * TICK_CAP;
/// Largest number of systems one scheduler tick may run.
pub const MAX_SYSTEMS: i128 = 1_000;
/// Accumulator magnitude under which a full scheduler tick stays in bounds.
pub const RUN_ACC_LIMIT: i128 = ACC_LIMIT - MAX_SYSTEMS * TICK_CAP;

/// Mathematical absolute value.
pub open spec fn abs_i(x: int) -> int {
    if x >= 0 {
        x
    } else {
        -x
    }
}

/// The floor of the square root of `n` (0 for negative `n`).
pub open spec fn sqrt_floor(n: int) -> int
    decreases n,
{
    if n <= 0 {
        0
    } else {
        let p = sqrt_floor(n - 1);
        if (p + 1) * (p + 1) <= n {
            p + 1
        } else {
            p
        }
    }
}

/// `sqrt_floor(n)` is the unique `r >= 0` with `r * r <= n < (r + 1) * (r + 1)`.
pub proof fn lemma_sqrt_floor_bounds(n: int)
    requires
        n >= 0,
    ensures
        0 <= sqrt_floor(n),
        sqrt_floor(n) * sqrt_floor(n) <= n,
        n < (sqrt_floor(n) + 1) * (sqrt_floor(n) + 1),
    decreases n,
{
    if n > 0 {
        lemma_sqrt_floor_bounds(n - 1);
        let p = sqrt_floor(n - 1);
        if (p + 1) * (p + 1) <= n {
            assert(n < (p + 1 + 1) * (p + 1 + 1)) by (nonlinear_arith)
                requires
                    p >= 0,
                    n - 1 < (p + 1) * (p + 1),
            ;
        }
    }
}

/// Any `r >= 0` with `r * r <= n < (r + 1) * (r + 1)` is `sqrt_floor(n)`.
pub proof fn lemma_sqrt_floor_unique(n: int, r: int)
    requires
        n >= 0,
        r >= 0,
        r * r <= n,
        n < (r + 1) * (r + 1),
    ensures
        r == sqrt_floor(n),
{
    lemma_sqrt_floor_bounds(n);
    let s = sqrt_floor(n);
    if r < s {
        assert((r + 1) * (r + 1) <= s * s) by (nonlinear_arith)
            requires
                0 <= r + 1 <= s,
        ;
        assert(false);
    } else if s < r {
        assert((s + 1) * (s + 1) <= r * r) by (nonlinear_arith)
            requires
                0 <= s + 1 <= r,
        ;
        assert(false);
    }
}

/// Any `a >= 0` whose square is at most `n` is at most `sqrt_floor(n)`.
pub proof fn lemma_sqrt_floor_lower(n: int, a: int)
    requires
        n >= 0,
        a >= 0,
        a * a <= n,
    ensures
        a <= sqrt_floor(n),
{
    lemma_sqrt_floor_bounds(n);
    let s = sqrt_floor(n);
    if a > s {
        assert((s + 1) * (s + 1) <= a * a) by (nonlinear_arith)
            requires
                0 <= s + 1 <= a,
        ;
        assert(false);
    }
}

/// Floor integer square root, by binary search.
pub fn isqrt(n: u128) -> (r: u128)
    requires
        n <= MAX_DSQ,
    ensures
        r == sqrt_floor(n as int),
        r <= 3_000_000_000,
{
    let mut lo: u128 = 0;
    let mut hi: u128 = 3_000_000_000;
    assert((3_000_000_000 as int) * (3_000_000_000 as int) == 9_000_000_000_000_000_000);
    while lo + 1 < hi
        invariant
            lo < hi <= 3_000_000_000,
            (lo as int) * (lo as int) <= n as int,
            (n as int) < (hi as int) * (hi as int),
        decreases hi - lo,
    {
        let mid: u128 = lo + (hi - lo) / 2;
        assert((mid as int) * (mid as int) <= 9_000_000_000_000_000_000) by (nonlinear_arith)
            requires
                0 <= mid as int <= 3_000_000_000,
        ;
        if mid * mid <= n {
            lo = mid;
        } else {
            hi = mid;
        }
    }
    proof {
        lemma_sqrt_floor_unique(n as int, lo as int);
    }
    lo
}

} // verus!
