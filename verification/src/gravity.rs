//! The gravity system.
//!
//! Each tick, every pair of gravity-tagged bodies exchanges an equal and
//! opposite impulse. For a pair at integer positions with squared distance
//! `dsq > 0`, the shared force magnitude is
//! `g * (mass_a + mass_b) / dsq * dt` (the combined-mass formulation of the
//! attraction, kept deliberately), directed along the line between the two
//! bodies; the direction unit vector is realized per axis as
//! `delta_axis / sqrt_floor(dsq)` with the division applied to magnitudes
//! and the sign restored afterwards, so the rounding is symmetric. A pair
//! with `dsq == 0` (coincident bodies) is skipped and contributes exactly
//! zero: no division by zero can occur and every result stays finite and
//! exact.

use vstd::prelude::*;
use crate::math::{
    abs_i, sqrt_floor, lemma_sqrt_floor_bounds, lemma_sqrt_floor_lower, isqrt, MAX_COORD, MAX_MASS,
    MAX_G, MAX_DT, MAX_DSQ, FG_CAP, MAX_BODIES, TICK_CAP, ACC_LIMIT,
};
use crate::vec2::Vec2;
use crate::store::{ComponentFilter, Store, StoreView, query_spec, lemma_query_upto_props, position_wf, mass_wf};
use vstd::arithmetic::div_mod::{
    lemma_div_is_ordered, lemma_div_multiples_vanish, lemma_div_pos_is_pos, lemma_div_of0,
    lemma_div_nonincreasing, lemma_fundamental_div_mod,
};
use vstd::arithmetic::mul::{lemma_mul_inequality, lemma_mul_is_commutative, lemma_mul_nonnegative};

verus! {

/// A body as the pairwise force computation reads it.
pub struct BodyData {
    pub mass: int,
    pub x: int,
    pub y: int,
}

/// Mass and position are within the store's bounds.
pub open spec fn body_wf(b: BodyData) -> bool {
    &&& 0 <= b.mass <= MAX_MASS
    &&& abs_i(b.x) <= MAX_COORD
    &&& abs_i(b.y) <= MAX_COORD
}

/// Squared distance between two bodies.
pub open spec fn dsq_of(a: BodyData, b: BodyData) -> int {
    (a.x - b.x) * (a.x - b.x) + (a.y - b.y) * (a.y - b.y)
}

/// The shared force magnitude of a pair with masses `mass_a`, `mass_b` at
/// squared distance `dsq`: `g * (mass_a + mass_b) / dsq * dt`.
pub open spec fn force_magnitude(mass_a: int, mass_b: int, dsq: int, g: int, dt: int) -> int {
    g * (mass_a + mass_b) / dsq * dt
}

/// `force_magnitude` applied to a pair of bodies.
pub open spec fn fg_of(a: BodyData, b: BodyData, g: int, dt: int) -> int {
    force_magnitude(a.mass, b.mass, dsq_of(a, b), g, dt)
}

/// The impulse a pair exchanges in one tick: subtracted from the first
/// body's accumulator and added to the second's. Zero for a coincident
/// (skipped) pair.
pub open spec fn pair_impulse(a: BodyData, b: BodyData, g: int, dt: int) -> (int, int) {
    if dsq_of(a, b) == 0 {
        (0, 0)
    } else {
        let d = sqrt_floor(dsq_of(a, b));
        let fg = fg_of(a, b, g, dt);
        let px = fg * abs_i(a.x - b.x) / d;
        let py = fg * abs_i(a.y - b.y) / d;
        ((if a.x - b.x >= 0 {
            px
        } else {
            -px
        }), (if a.y - b.y >= 0 {
            py
        } else {
            -py
        }))
    }
}

/// The impulse added to `a`'s accumulator on account of its pair with `b`.
pub open spec fn contribution_on(a: BodyData, b: BodyData, g: int, dt: int) -> (int, int) {
    let p = pair_impulse(a, b, g, dt);
    (-p.0, -p.1)
}

/// Sum of the contributions on body `k` of a snapshot from the bodies with
/// ranks in `[lo, hi)`, the rank `k` itself excluded.
pub open spec fn net_range(s: Seq<BodyData>, k: int, lo: int, hi: int, g: int, dt: int) -> (
    int,
    int,
)
    decreases hi - lo,
{
    if hi <= lo {
        (0, 0)
    } else {
        let p = net_range(s, k, lo, hi - 1, g, dt);
        if hi - 1 == k {
            p
        } else {
            let c = contribution_on(s[k], s[hi - 1], g, dt);
            (p.0 + c.0, p.1 + c.1)
        }
    }
}

/// The net gravitational impulse body `k` gains in one tick over snapshot
/// `s`: the sum of its contributions from every other body of `s`.
pub open spec fn net_impulse(s: Seq<BodyData>, k: int, g: int, dt: int) -> (int, int) {
    net_range(s, k, 0, s.len() as int, g, dt)
}

/// The squared distance is non-negative, zero exactly for coincident
/// bodies, and bounded for in-bound bodies.
pub proof fn lemma_dsq_basics(a: BodyData, b: BodyData)
    ensures
        dsq_of(a, b) >= 0,
        dsq_of(a, b) == 0 <==> (a.x == b.x && a.y == b.y),
        body_wf(a) && body_wf(b) ==> dsq_of(a, b) <= MAX_DSQ,
{
    let dx = a.x - b.x;
    let dy = a.y - b.y;
    assert(dx * dx >= 0 && dy * dy >= 0) by (nonlinear_arith);
    assert(dx != 0 ==> dx * dx > 0) by (nonlinear_arith);
    assert(dy != 0 ==> dy * dy > 0) by (nonlinear_arith);
    assert(dsq_of(a, b) == dx * dx + dy * dy);
    if dsq_of(a, b) == 0 {
        assert(dx * dx == 0 && dy * dy == 0);
        assert(dx == 0 && dy == 0);
    }
    if a.x == b.x && a.y == b.y {
        assert(dx == 0 && dy == 0);
        assert(dx * dx == 0) by (nonlinear_arith)
            requires
                dx == 0,
        ;
        assert(dy * dy == 0) by (nonlinear_arith)
            requires
                dy == 0,
        ;
        assert(dsq_of(a, b) == 0);
    }
    if body_wf(a) && body_wf(b) {
        assert(dx * dx <= 4 * MAX_COORD * MAX_COORD) by (nonlinear_arith)
            requires
                -2 * MAX_COORD <= dx <= 2 * MAX_COORD,
        ;
        assert(dy * dy <= 4 * MAX_COORD * MAX_COORD) by (nonlinear_arith)
            requires
                -2 * MAX_COORD <= dy <= 2 * MAX_COORD,
        ;
    }
}

/// Bounds for every intermediate of the pairwise computation of an
/// in-bound, non-coincident pair: the distance is positive, each axis
/// offset is at most the floor square root of `dsq`, and the per-axis
/// impulse magnitude is at most the force magnitude, itself at most
/// `FG_CAP`.
pub proof fn lemma_force_bounds(a: BodyData, b: BodyData, g: int, dt: int)
    requires
        body_wf(a),
        body_wf(b),
        0 <= g <= MAX_G,
        0 <= dt <= MAX_DT,
        dsq_of(a, b) != 0,
    ensures
        1 <= dsq_of(a, b) <= MAX_DSQ,
        1 <= sqrt_floor(dsq_of(a, b)) <= 3_000_000_000,
        0 <= g * (a.mass + b.mass) <= 2_000_000_000_000_000_000,
        0 <= fg_of(a, b, g, dt) <= FG_CAP,
        abs_i(a.x - b.x) <= sqrt_floor(dsq_of(a, b)),
        abs_i(a.y - b.y) <= sqrt_floor(dsq_of(a, b)),
        0 <= fg_of(a, b, g, dt) * abs_i(a.x - b.x) / sqrt_floor(dsq_of(a, b)) <= fg_of(
            a,
            b,
            g,
            dt,
        ),
        0 <= fg_of(a, b, g, dt) * abs_i(a.y - b.y) / sqrt_floor(dsq_of(a, b)) <= fg_of(
            a,
            b,
            g,
            dt,
        ),
        0 <= fg_of(a, b, g, dt) * abs_i(a.x - b.x) <= 6_000_000_000_000_000_000_000_000_000_000_000_000,
        0 <= fg_of(a, b, g, dt) * abs_i(a.y - b.y) <= 6_000_000_000_000_000_000_000_000_000_000_000_000,
    {
        let dx = a.x - b.x;
        let dy = a.y - b.y;
        let dsq = dsq_of(a, b);
        lemma_dsq_basics(a, b);
        let d = sqrt_floor(dsq);
        lemma_sqrt_floor_bounds(dsq);
        lemma_sqrt_floor_lower(dsq, 1);
        assert(d <= 3_000_000_000) by {
            if d > 3_000_000_000 {
                assert(d * d > 9_000_000_000_000_000_000) by (nonlinear_arith)
                    requires
                        d > 3_000_000_000,
                ;
            }
        }
        let x = g * (a.mass + b.mass);
        assert(0 <= x <= 2_000_000_000_000_000_000) by (nonlinear_arith)
            requires
                x == g * (a.mass + b.mass),
                0 <= g <= 1_000_000_000,
                0 <= a.mass + b.mass <= 2_000_000_000,
        ;
        let q = x / dsq;
        lemma_div_pos_is_pos(x, dsq);
        lemma_div_nonincreasing(x, dsq);
        let fg = fg_of(a, b, g, dt);
        assert(fg == q * dt);
        lemma_mul_nonnegative(q, dt);
        assert(q * dt <= 2_000_000_000_000_000_000_000_000_000) by (nonlinear_arith)
            requires
                0 <= q <= 2_000_000_000_000_000_000,
                0 <= dt <= 1_000_000_000,
        ;
        assert(abs_i(dx) * abs_i(dx) == dx * dx) by (nonlinear_arith);
        assert(abs_i(dy) * abs_i(dy) == dy * dy) by (nonlinear_arith);
        assert(abs_i(dx) * abs_i(dx) <= dsq) by {
            assert(dy * dy >= 0) by (nonlinear_arith);
        }
        assert(abs_i(dy) * abs_i(dy) <= dsq) by {
            assert(dx * dx >= 0) by (nonlinear_arith);
        }
        lemma_sqrt_floor_lower(dsq, abs_i(dx));
        lemma_sqrt_floor_lower(dsq, abs_i(dy));
        lemma_mul_nonnegative(fg, abs_i(dx));
        lemma_mul_nonnegative(fg, abs_i(dy));
        lemma_div_pos_is_pos(fg * abs_i(dx), d);
        lemma_div_pos_is_pos(fg * abs_i(dy), d);
        lemma_mul_inequality(abs_i(dx), d, fg);
        lemma_mul_is_commutative(abs_i(dx), fg);
        lemma_mul_is_commutative(d, fg);
        lemma_mul_inequality(abs_i(dy), d, fg);
        lemma_mul_is_commutative(abs_i(dy), fg);
        lemma_div_is_ordered(fg * abs_i(dx), fg * d, d);
        lemma_div_is_ordered(fg * abs_i(dy), fg * d, d);
        lemma_div_multiples_vanish(fg, d);
        lemma_mul_is_commutative(fg, d);
        assert(fg * abs_i(dx) <= 6_000_000_000_000_000_000_000_000_000_000_000_000)
            by (nonlinear_arith)
            requires
                0 <= fg <= 2_000_000_000_000_000_000_000_000_000,
                0 <= abs_i(dx) <= 3_000_000_000,
        ;
        assert(fg * abs_i(dy) <= 6_000_000_000_000_000_000_000_000_000_000_000_000)
            by (nonlinear_arith)
            requires
                0 <= fg <= 2_000_000_000_000_000_000_000_000_000,
                0 <= abs_i(dy) <= 3_000_000_000,
        ;
    }

/// Pairwise symmetry: the impulse added to `a`'s accumulator on account of
/// its pair with `b` is exactly the negation of the one added to `b`'s.
pub proof fn lemma_pair_symmetry(a: BodyData, b: BodyData, g: int, dt: int)
    ensures
        contribution_on(a, b, g, dt).0 == -contribution_on(b, a, g, dt).0,
        contribution_on(a, b, g, dt).1 == -contribution_on(b, a, g, dt).1,
{
    let dx = a.x - b.x;
    let dy = a.y - b.y;
    assert(dx * dx == (b.x - a.x) * (b.x - a.x)) by (nonlinear_arith)
        requires
            dx == a.x - b.x,
    ;
    assert(dy * dy == (b.y - a.y) * (b.y - a.y)) by (nonlinear_arith)
        requires
            dy == a.y - b.y,
    ;
    assert(dsq_of(a, b) == dsq_of(b, a));
    if dsq_of(a, b) != 0 {
        let d = sqrt_floor(dsq_of(a, b));
        lemma_dsq_basics(a, b);
        lemma_sqrt_floor_lower(dsq_of(a, b), 1);
        assert(abs_i(a.x - b.x) == abs_i(b.x - a.x));
        assert(abs_i(a.y - b.y) == abs_i(b.y - a.y));
        assert(fg_of(a, b, g, dt) == fg_of(b, a, g, dt));
        let fg = fg_of(a, b, g, dt);
        if a.x == b.x {
            assert(fg * abs_i(a.x - b.x) == 0) by (nonlinear_arith)
                requires
                    abs_i(a.x - b.x) == 0,
            ;
            lemma_div_of0(d);
        }
        if a.y == b.y {
            assert(fg * abs_i(a.y - b.y) == 0) by (nonlinear_arith)
                requires
                    abs_i(a.y - b.y) == 0,
            ;
            lemma_div_of0(d);
        }
    }
}

/// A paused tick: with `dt == 0` a pair exchanges exactly zero impulse.
pub proof fn lemma_pair_zero_dt(a: BodyData, b: BodyData, g: int)
    ensures
        pair_impulse(a, b, g, 0) == (0int, 0int),
        contribution_on(a, b, g, 0) == (0int, 0int),
{
    if dsq_of(a, b) != 0 {
        lemma_dsq_basics(a, b);
        let dsq = dsq_of(a, b);
        let d = sqrt_floor(dsq);
        lemma_sqrt_floor_lower(dsq, 1);
        let q = g * (a.mass + b.mass) / dsq;
        assert(q * 0 == 0) by (nonlinear_arith);
        assert(fg_of(a, b, g, 0) == 0);
        assert(0 * abs_i(a.x - b.x) == 0) by (nonlinear_arith);
        assert(0 * abs_i(a.y - b.y) == 0) by (nonlinear_arith);
        lemma_div_of0(d);
    }
}

/// Coincident bodies: a pair at identical positions is skipped and
/// exchanges exactly zero impulse (no division by zero ever occurs).
pub proof fn lemma_pair_coincident(a: BodyData, b: BodyData, g: int, dt: int)
    requires
        a.x == b.x,
        a.y == b.y,
    ensures
        pair_impulse(a, b, g, dt) == (0int, 0int),
{
    lemma_dsq_basics(a, b);
}

/// Scale invariance: doubling both masses doubles the force magnitude,
/// provided the division by `dsq` is exact for the original masses.
pub proof fn lemma_mass_scaling(mass_a: int, mass_b: int, dsq: int, g: int, dt: int)
    requires
        dsq >= 1,
        g * (mass_a + mass_b) % dsq == 0,
    ensures
        force_magnitude(2 * mass_a, 2 * mass_b, dsq, g, dt) == 2 * force_magnitude(
            mass_a,
            mass_b,
            dsq,
            g,
            dt,
        ),
{
    let x = g * (mass_a + mass_b);
    let q = x / dsq;
    lemma_fundamental_div_mod(x, dsq);
    assert(x == dsq * q);
    assert(g * (2 * mass_a + 2 * mass_b) == 2 * x) by (nonlinear_arith)
        requires
            x == g * (mass_a + mass_b),
    ;
    assert(2 * x == dsq * (2 * q)) by (nonlinear_arith)
        requires
            x == dsq * q,
    ;
    lemma_div_multiples_vanish(2 * q, dsq);
    assert((2 * q) * dt == 2 * (q * dt)) by (nonlinear_arith);
}

/// Inverse-square falloff: halving the distance (quartering `dsq`)
/// quadruples the force magnitude, provided the divisions are exact.
pub proof fn lemma_distance_falloff(mass_a: int, mass_b: int, dsq: int, g: int, dt: int)
    requires
        dsq >= 4,
        dsq % 4 == 0,
        g * (mass_a + mass_b) % dsq == 0,
    ensures
        force_magnitude(mass_a, mass_b, dsq / 4, g, dt) == 4 * force_magnitude(
            mass_a,
            mass_b,
            dsq,
            g,
            dt,
        ),
{
    let x = g * (mass_a + mass_b);
    let q = x / dsq;
    let e = dsq / 4;
    lemma_fundamental_div_mod(x, dsq);
    lemma_fundamental_div_mod(dsq, 4);
    assert(dsq == 4 * e);
    assert(e >= 1);
    assert(x == (4 * e) * q);
    assert(x == e * (4 * q)) by (nonlinear_arith)
        requires
            x == (4 * e) * q,
    ;
    lemma_div_multiples_vanish(4 * q, e);
    assert((4 * q) * dt == 4 * (q * dt)) by (nonlinear_arith);
}

/// A single body: over a one-body snapshot the net impulse is zero, as no
/// pair exists.
pub proof fn lemma_single_body(s: Seq<BodyData>, g: int, dt: int)
    requires
        s.len() == 1,
    ensures
        net_impulse(s, 0, g, dt) == (0int, 0int),
{
    assert(net_range(s, 0, 0, 0, g, dt) == (0int, 0int));
    assert(net_range(s, 0, 0, 1, g, dt) == net_range(s, 0, 0, 0, g, dt));
}

/// One pair's impulse never exceeds `FG_CAP` on either axis.
pub proof fn lemma_pair_impulse_bound(a: BodyData, b: BodyData, g: int, dt: int)
    requires
        body_wf(a),
        body_wf(b),
        0 <= g <= MAX_G,
        0 <= dt <= MAX_DT,
    ensures
        abs_i(pair_impulse(a, b, g, dt).0) <= FG_CAP,
        abs_i(pair_impulse(a, b, g, dt).1) <= FG_CAP,
{
    if dsq_of(a, b) != 0 {
        lemma_force_bounds(a, b, g, dt);
    }
}

/// Splitting a contribution sum at `mid`.
pub proof fn lemma_net_range_concat(s: Seq<BodyData>, k: int, lo: int, mid: int, hi: int, g: int, dt: int)
    requires
        lo <= mid <= hi,
    ensures
        net_range(s, k, lo, hi, g, dt).0 == net_range(s, k, lo, mid, g, dt).0 + net_range(
            s,
            k,
            mid,
            hi,
            g,
            dt,
        ).0,
        net_range(s, k, lo, hi, g, dt).1 == net_range(s, k, lo, mid, g, dt).1 + net_range(
            s,
            k,
            mid,
            hi,
            g,
            dt,
        ).1,
    decreases hi - mid,
{
    if hi > mid {
        lemma_net_range_concat(s, k, lo, mid, hi - 1, g, dt);
    }
}

/// A contribution sum over in-bound bodies is bounded by `FG_CAP` per term.
pub proof fn lemma_net_range_bound(s: Seq<BodyData>, k: int, lo: int, hi: int, g: int, dt: int)
    requires
        0 <= lo <= hi,
        0 <= k < s.len(),
        forall|r: int| 0 <= r < s.len() ==> body_wf(#[trigger] s[r]),
        0 <= g <= MAX_G,
        0 <= dt <= MAX_DT,
        hi <= s.len(),
    ensures
        abs_i(net_range(s, k, lo, hi, g, dt).0) <= (hi - lo) * FG_CAP,
        abs_i(net_range(s, k, lo, hi, g, dt).1) <= (hi - lo) * FG_CAP,
    decreases hi - lo,
{
    if hi > lo {
        lemma_net_range_bound(s, k, lo, hi - 1, g, dt);
        let p = net_range(s, k, lo, hi - 1, g, dt);
        let t = net_range(s, k, lo, hi, g, dt);
        assert((hi - 1 - lo) * FG_CAP + FG_CAP == (hi - lo) * FG_CAP) by (nonlinear_arith);
        if hi - 1 != k {
            lemma_pair_impulse_bound(s[k], s[hi - 1], g, dt);
            let c = contribution_on(s[k], s[hi - 1], g, dt);
            assert(abs_i(c.0) <= FG_CAP && abs_i(c.1) <= FG_CAP);
            assert(t.0 == p.0 + c.0 && t.1 == p.1 + c.1);
        } else {
            assert(t == p);
        }
    }
}

/// The net impulse one body gains in one tick is below `TICK_CAP` per axis.
pub proof fn lemma_net_impulse_bound(s: Seq<BodyData>, k: int, g: int, dt: int)
    requires
        0 <= k < s.len(),
        s.len() <= MAX_BODIES,
        forall|r: int| 0 <= r < s.len() ==> body_wf(#[trigger] s[r]),
        0 <= g <= MAX_G,
        0 <= dt <= MAX_DT,
    ensures
        abs_i(net_impulse(s, k, g, dt).0) <= TICK_CAP,
        abs_i(net_impulse(s, k, g, dt).1) <= TICK_CAP,
{
    lemma_net_range_bound(s, k, 0, s.len() as int, g, dt);
    assert(s.len() * FG_CAP <= MAX_BODIES * FG_CAP) by (nonlinear_arith)
        requires
            0 <= s.len() <= MAX_BODIES,
    ;
}

/// The all-zero scratch deltas for `n` bodies.
pub open spec fn zero_deltas(n: nat) -> Seq<(int, int)> {
    Seq::new(n, |r: int| (0int, 0int))
}

/// The scratch deltas after processing, within row `i`, the pairs `(i, j)`
/// for `i < j < hi`, starting from `dv`: for each pair, the exchanged
/// impulse is subtracted at `i` and added at `j`, exactly as the pairwise
/// pass performs it.
pub open spec fn row_step(
    dv: Seq<(int, int)>,
    s: Seq<BodyData>,
    i: int,
    hi: int,
    g: int,
    dt: int,
) -> Seq<(int, int)>
    decreases hi - i,
{
    if hi <= i + 1 {
        dv
    } else {
        let p = row_step(dv, s, i, hi - 1, g, dt);
        let l = pair_impulse(s[i], s[hi - 1], g, dt);
        let p1 = p.update(i, (p[i].0 - l.0, p[i].1 - l.1));
        p1.update(hi - 1, (p1[hi - 1].0 + l.0, p1[hi - 1].1 + l.1))
    }
}

/// The scratch deltas after the first `rows` rows of the pairwise pass.
pub open spec fn rows_step(s: Seq<BodyData>, rows: int, g: int, dt: int) -> Seq<(int, int)>
    decreases rows,
{
    if rows <= 0 {
        zero_deltas(s.len())
    } else {
        row_step(rows_step(s, rows - 1, g, dt), s, rows - 1, s.len() as int, g, dt)
    }
}

/// A row pass keeps the length and touches only slot `i` and the slots in
/// `[i + 1, hi)`.
pub proof fn lemma_row_step_frame(
    dv: Seq<(int, int)>,
    s: Seq<BodyData>,
    i: int,
    hi: int,
    g: int,
    dt: int,
)
    requires
        0 <= i < dv.len(),
        hi <= dv.len(),
    ensures
        row_step(dv, s, i, hi, g, dt).len() == dv.len(),
        forall|m: int|
            0 <= m < dv.len() && m != i && !(i + 1 <= m < hi) ==> #[trigger] row_step(
                dv,
                s,
                i,
                hi,
                g,
                dt,
            )[m] == dv[m],
    decreases hi - i,
{
    if hi > i + 1 {
        lemma_row_step_frame(dv, s, i, hi - 1, g, dt);
    }
}

/// Effect of a row pass on its own row `i`: the contributions from the
/// processed pairs of the row are added, in sum `net_range(s, i, i+1, hi)`.
pub proof fn lemma_row_step_at_own(
    dv: Seq<(int, int)>,
    s: Seq<BodyData>,
    i: int,
    hi: int,
    g: int,
    dt: int,
)
    requires
        0 <= i < dv.len(),
        hi <= dv.len(),
        dv.len() == s.len(),
    ensures
        row_step(dv, s, i, hi, g, dt)[i].0 == dv[i].0 + net_range(s, i, i + 1, hi, g, dt).0,
        row_step(dv, s, i, hi, g, dt)[i].1 == dv[i].1 + net_range(s, i, i + 1, hi, g, dt).1,
    decreases hi - i,
{
    if hi <= i + 1 {
    } else {
        lemma_row_step_at_own(dv, s, i, hi - 1, g, dt);
        lemma_row_step_frame(dv, s, i, hi - 1, g, dt);
    }
}

/// Effect of a row pass on a partner slot `m` with `i < m < hi`: the
/// exchanged impulse is added once, and it equals the contribution on `m`
/// from its pair with `i` (pairwise symmetry).
pub proof fn lemma_row_step_at_partner(
    dv: Seq<(int, int)>,
    s: Seq<BodyData>,
    i: int,
    m: int,
    hi: int,
    g: int,
    dt: int,
)
    requires
        0 <= i < dv.len(),
        hi <= dv.len(),
        dv.len() == s.len(),
        i < m < hi,
    ensures
        row_step(dv, s, i, hi, g, dt)[m].0 == dv[m].0 + contribution_on(s[m], s[i], g, dt).0,
        row_step(dv, s, i, hi, g, dt)[m].1 == dv[m].1 + contribution_on(s[m], s[i], g, dt).1,
    decreases hi - i,
{
    lemma_pair_symmetry(s[m], s[i], g, dt);
    lemma_pair_symmetry(s[i], s[m], g, dt);
    lemma_row_step_frame(dv, s, i, hi - 1, g, dt);
    if m != hi - 1 {
        lemma_row_step_at_partner(dv, s, i, m, hi - 1, g, dt);
    }
}

/// What the scratch deltas hold after the first `rows` rows: a slot behind
/// the frontier already holds the body's full net impulse; a slot at or
/// past it holds the contributions from the finished rows only.
pub proof fn lemma_rows_step_char(s: Seq<BodyData>, rows: int, g: int, dt: int)
    requires
        0 <= rows <= s.len(),
    ensures
        rows_step(s, rows, g, dt).len() == s.len(),
        forall|k: int|
            0 <= k < rows ==> #[trigger] rows_step(s, rows, g, dt)[k] == net_impulse(s, k, g, dt),
        forall|k: int|
            rows <= k < s.len() ==> #[trigger] rows_step(s, rows, g, dt)[k] == net_range(
                s,
                k,
                0,
                rows,
                g,
                dt,
            ),
    decreases rows,
{
    let n = s.len() as int;
    if rows > 0 {
        lemma_rows_step_char(s, rows - 1, g, dt);
        let prev = rows_step(s, rows - 1, g, dt);
        let cur = rows_step(s, rows, g, dt);
        let i = rows - 1;
        lemma_row_step_frame(prev, s, i, n, g, dt);
        assert forall|k: int| 0 <= k < rows implies #[trigger] cur[k] == net_impulse(
            s,
            k,
            g,
            dt,
        ) by {
            if k < i {
                assert(cur[k] == prev[k]);
            } else {
                lemma_row_step_at_own(prev, s, i, n, g, dt);
                assert(net_range(s, k, k, k, g, dt) == (0int, 0int));
                assert(net_range(s, k, k, k + 1, g, dt) == net_range(s, k, k, k, g, dt));
                lemma_net_range_concat(s, k, 0, k, k + 1, g, dt);
                lemma_net_range_concat(s, k, 0, k + 1, n, g, dt);
                assert(net_range(s, k, 0, k + 1, g, dt) == net_range(s, k, 0, k, g, dt));
                assert(cur[k].0 == net_range(s, k, 0, k, g, dt).0 + net_range(
                    s,
                    k,
                    k + 1,
                    n,
                    g,
                    dt,
                ).0);
                assert(cur[k].1 == net_range(s, k, 0, k, g, dt).1 + net_range(
                    s,
                    k,
                    k + 1,
                    n,
                    g,
                    dt,
                ).1);
            }
        }
        assert forall|k: int| rows <= k < n implies #[trigger] cur[k] == net_range(
            s,
            k,
            0,
            rows,
            g,
            dt,
        ) by {
            lemma_row_step_at_partner(prev, s, i, k, n, g, dt);
        }
    }
}

/// The required-component set of the gravity system.
pub open spec fn gravity_filter() -> ComponentFilter {
    ComponentFilter { position: true, mass: true, impulse: true, gravity_tag: true }
}

/// The bodies a store holds at the queried entities `q`, as the force
/// computation reads them.
pub open spec fn bodies_of(v: StoreView, q: Seq<int>) -> Seq<BodyData> {
    Seq::new(
        q.len(),
        |r: int|
            BodyData {
                mass: v.masses[q[r]].unwrap() as int,
                x: v.positions[q[r]].unwrap().x as int,
                y: v.positions[q[r]].unwrap().y as int,
            },
    )
}

/// The impulse column after the net impulses of the first `upto` queried
/// bodies have been added into their accumulators.
pub open spec fn apply_deltas(
    imps: Seq<Option<Vec2>>,
    q: Seq<int>,
    s: Seq<BodyData>,
    g: int,
    dt: int,
    upto: int,
) -> Seq<Option<Vec2>>
    decreases upto,
{
    if upto <= 0 {
        imps
    } else {
        let p = apply_deltas(imps, q, s, g, dt, upto - 1);
        let e = q[upto - 1];
        let net = net_impulse(s, upto - 1, g, dt);
        let cur = p[e].unwrap();
        p.update(e, Some(Vec2 { x: (cur.x + net.0) as i128, y: (cur.y + net.1) as i128 }))
    }
}

/// One tick of the gravity system over a store: every entity holding all
/// four components gains its net gravitational impulse in its accumulator;
/// everything else is untouched.
pub open spec fn gravity_step(v: StoreView, g: int, dt: int) -> StoreView {
    let q = query_spec(v, gravity_filter());
    let s = bodies_of(v, q);
    StoreView { impulses: apply_deltas(v.impulses, q, s, g, dt, q.len() as int), ..v }
}

/// `apply_deltas` keeps the column length and leaves every entity outside
/// the processed prefix of `q` untouched.
pub proof fn lemma_apply_deltas_frame(
    imps: Seq<Option<Vec2>>,
    q: Seq<int>,
    s: Seq<BodyData>,
    g: int,
    dt: int,
    upto: int,
    e: int,
)
    requires
        0 <= e < imps.len(),
        forall|t: int| 0 <= t < upto ==> 0 <= #[trigger] q[t] < imps.len(),
    ensures
        apply_deltas(imps, q, s, g, dt, upto).len() == imps.len(),
        (forall|t: int| 0 <= t < upto ==> #[trigger] q[t] != e) ==> apply_deltas(
            imps,
            q,
            s,
            g,
            dt,
            upto,
        )[e] == imps[e],
    decreases upto,
{
    if upto > 0 {
        lemma_apply_deltas_frame(imps, q, s, g, dt, upto - 1, e);
    }
}

/// What `apply_deltas` does to each queried entity, given that the queried
/// entities are strictly increasing (so each is updated exactly once): the
/// accumulator of the body at rank `t < upto` gains that body's net
/// impulse; attachment is preserved everywhere; and if every attached
/// accumulator started within `b`, each ends within `b + TICK_CAP`.
pub proof fn lemma_apply_deltas_props(
    imps: Seq<Option<Vec2>>,
    q: Seq<int>,
    s: Seq<BodyData>,
    g: int,
    dt: int,
    upto: int,
    b: int,
)
    requires
        0 <= upto <= q.len(),
        q.len() == s.len(),
        s.len() <= MAX_BODIES,
        forall|t: int| 0 <= t < q.len() ==> 0 <= #[trigger] q[t] < imps.len(),
        forall|t1: int, t2: int| 0 <= t1 < t2 < q.len() ==> #[trigger] q[t1] < #[trigger] q[t2],
        forall|t: int| 0 <= t < q.len() ==> imps[#[trigger] q[t]].is_some(),
        forall|r: int| 0 <= r < s.len() ==> body_wf(#[trigger] s[r]),
        0 <= g <= MAX_G,
        0 <= dt <= MAX_DT,
        0 <= b <= ACC_LIMIT,
        forall|e: int|
            0 <= e < imps.len() && (#[trigger] imps[e]).is_some() ==> abs_i(
                imps[e].unwrap().x as int,
            ) <= b && abs_i(imps[e].unwrap().y as int) <= b,
    ensures
        apply_deltas(imps, q, s, g, dt, upto).len() == imps.len(),
        forall|e: int|
            0 <= e < imps.len() ==> (#[trigger] apply_deltas(imps, q, s, g, dt, upto)[e]).is_some()
                == imps[e].is_some(),
        forall|e: int|
            0 <= e < imps.len() && (#[trigger] apply_deltas(imps, q, s, g, dt, upto)[e]).is_some()
                ==> abs_i(apply_deltas(imps, q, s, g, dt, upto)[e].unwrap().x as int) <= b
                + TICK_CAP && abs_i(apply_deltas(imps, q, s, g, dt, upto)[e].unwrap().y as int) <= b
                + TICK_CAP,
        forall|t: int|
            0 <= t < upto ==> apply_deltas(imps, q, s, g, dt, upto)[#[trigger] q[t]] == Some(
                Vec2 {
                    x: (imps[q[t]].unwrap().x + net_impulse(s, t, g, dt).0) as i128,
                    y: (imps[q[t]].unwrap().y + net_impulse(s, t, g, dt).1) as i128,
                },
            ),
    decreases upto,
{
    if upto > 0 {
        lemma_apply_deltas_props(imps, q, s, g, dt, upto - 1, b);
        let p = apply_deltas(imps, q, s, g, dt, upto - 1);
        let cur = apply_deltas(imps, q, s, g, dt, upto);
        let e = q[upto - 1];
        let net = net_impulse(s, upto - 1, g, dt);
        lemma_net_impulse_bound(s, upto - 1, g, dt);
        assert forall|t: int| 0 <= t < upto - 1 implies #[trigger] q[t] != e by {
            assert(q[t] < q[upto - 1]);
        }
        lemma_apply_deltas_frame(imps, q, s, g, dt, upto - 1, e);
        assert(p[e] == imps[e]);
        assert(imps[e].is_some());
    }
}

/// Single-body no-op at the store level: when exactly one entity holds all
/// four components, a tick leaves the whole store unchanged.
pub proof fn lemma_single_body_step(v: StoreView, g: int, dt: int)
    requires
        v.wf(),
        query_spec(v, gravity_filter()).len() == 1,
    ensures
        gravity_step(v, g, dt) =~= v,
{
    let q = query_spec(v, gravity_filter());
    let s = bodies_of(v, q);
    lemma_query_upto_props(v, gravity_filter(), v.len());
    lemma_single_body(s, g, dt);
    let e = q[0];
    assert(v.satisfies(gravity_filter(), e));
    let cur = v.impulses[e].unwrap();
    assert((cur.x + 0) as i128 == cur.x);
    assert((cur.y + 0) as i128 == cur.y);
    assert(Vec2 { x: (cur.x + 0) as i128, y: (cur.y + 0) as i128 } == cur);
    assert(apply_deltas(v.impulses, q, s, g, dt, 0) == v.impulses);
    assert(apply_deltas(v.impulses, q, s, g, dt, 1) =~= v.impulses.update(e, Some(cur)));
    assert(v.impulses.update(e, Some(cur)) =~= v.impulses);
}


/// Sum of the contributions is zero for every body when `dt == 0`.
pub proof fn lemma_net_range_zero_dt(s: Seq<BodyData>, k: int, lo: int, hi: int, g: int)
    ensures
        net_range(s, k, lo, hi, g, 0) == (0int, 0int),
    decreases hi - lo,
{
    if hi > lo {
        lemma_net_range_zero_dt(s, k, lo, hi - 1, g);
        if hi - 1 != k {
            lemma_pair_zero_dt(s[k], s[hi - 1], g);
        }
    }
}

/// Zero-delta-time idempotence: a tick with `dt == 0` leaves the whole
/// store, impulse accumulators included, exactly unchanged.
pub proof fn lemma_gravity_step_zero_dt(v: StoreView, g: int)
    requires
        v.wf(),
    ensures
        gravity_step(v, g, 0) =~= v,
{
    let q = query_spec(v, gravity_filter());
    let s = bodies_of(v, q);
    lemma_query_upto_props(v, gravity_filter(), v.len());
    lemma_apply_deltas_zero_dt(v.impulses, q, s, g, q.len() as int);
}

/// `apply_deltas` with `dt == 0` changes nothing.
proof fn lemma_apply_deltas_zero_dt(
    imps: Seq<Option<Vec2>>,
    q: Seq<int>,
    s: Seq<BodyData>,
    g: int,
    upto: int,
)
    requires
        upto <= q.len(),
        q.len() == s.len(),
        forall|t: int| 0 <= t < q.len() ==> 0 <= #[trigger] q[t] < imps.len(),
        forall|t: int| 0 <= t < q.len() ==> imps[#[trigger] q[t]].is_some(),
        forall|t1: int, t2: int| 0 <= t1 < t2 < q.len() ==> #[trigger] q[t1] < #[trigger] q[t2],
    ensures
        apply_deltas(imps, q, s, g, 0, upto) =~= imps,
    decreases upto,
{
    if upto > 0 {
        lemma_apply_deltas_zero_dt(imps, q, s, g, upto - 1);
        let p = apply_deltas(imps, q, s, g, 0, upto - 1);
        let e = q[upto - 1];
        lemma_net_range_zero_dt(s, upto - 1, 0, s.len() as int, g);
        let c = p[e].unwrap();
        assert(imps[e].is_some());
        assert((c.x + 0) as i128 == c.x);
        assert((c.y + 0) as i128 == c.y);
        assert(Vec2 { x: (c.x + 0) as i128, y: (c.y + 0) as i128 } == c);
        assert(apply_deltas(imps, q, s, g, 0, upto) =~= p.update(e, Some(c)));
        assert(p.update(e, Some(c)) =~= p);
    }
}

/// A row of the materialized query snapshot: the entity identifier (the
/// handle to its impulse accumulator) with its mass and position.
pub struct BodySnap {
    pub id: usize,
    pub mass: i128,
    pub pos: Vec2,
}

/// The body a snapshot row denotes.
pub open spec fn body_of(s: BodySnap) -> BodyData {
    BodyData { mass: s.mass as int, x: s.pos.x as int, y: s.pos.y as int }
}

/// Computes the exact impulse one pair exchanges this tick.
fn compute_pair_impulse(a: &BodySnap, b: &BodySnap, g: i128, dt: i128) -> (r: Vec2)
    requires
        body_wf(body_of(*a)),
        body_wf(body_of(*b)),
        0 <= g <= MAX_G,
        0 <= dt <= MAX_DT,
    ensures
        r.x == pair_impulse(body_of(*a), body_of(*b), g as int, dt as int).0,
        r.y == pair_impulse(body_of(*a), body_of(*b), g as int, dt as int).1,
        abs_i(r.x as int) <= FG_CAP,
        abs_i(r.y as int) <= FG_CAP,
{
    let ghost ba = body_of(*a);
    let ghost bb = body_of(*b);
    proof {
        lemma_dsq_basics(ba, bb);
    }
    let dx: i128 = a.pos.x - b.pos.x;
    let dy: i128 = a.pos.y - b.pos.y;
    let adx: i128 = if dx >= 0 {
        dx
    } else {
        -dx
    };
    let ady: i128 = if dy >= 0 {
        dy
    } else {
        -dy
    };
    proof {
        assert(adx == abs_i(ba.x - bb.x) && ady == abs_i(ba.y - bb.y));
        assert(adx * adx == (ba.x - bb.x) * (ba.x - bb.x)) by (nonlinear_arith)
            requires
                adx == abs_i(ba.x - bb.x),
                abs_i(ba.x - bb.x) == if ba.x - bb.x >= 0 { ba.x - bb.x } else { -(ba.x - bb.x) },
        ;
        assert(ady * ady == (ba.y - bb.y) * (ba.y - bb.y)) by (nonlinear_arith)
            requires
                ady == abs_i(ba.y - bb.y),
                abs_i(ba.y - bb.y) == if ba.y - bb.y >= 0 { ba.y - bb.y } else { -(ba.y - bb.y) },
        ;
        assert(0 <= adx * adx <= MAX_DSQ && 0 <= ady * ady <= MAX_DSQ) by (nonlinear_arith)
            requires
                0 <= adx <= 2_000_000_000,
                0 <= ady <= 2_000_000_000,
                MAX_DSQ == 8_000_000_000_000_000_000,
        ;
    }
    let dsq: i128 = adx * adx + ady * ady;
    proof {
        assert(dsq == dsq_of(ba, bb));
    }
    if dsq == 0 {
        return Vec2::zero();
    }
    proof {
        lemma_force_bounds(ba, bb, g as int, dt as int);
    }
    let d: u128 = isqrt(dsq as u128);
    let msum: i128 = a.mass + b.mass;
    let xprod: u128 = (g as u128) * (msum as u128);
    let quot: u128 = xprod / (dsq as u128);
    let fg: u128 = quot * (dt as u128);
    proof {
        assert(xprod == g * (ba.mass + bb.mass));
        assert(quot == g * (ba.mass + bb.mass) / dsq_of(ba, bb));
        assert(fg == fg_of(ba, bb, g as int, dt as int));
    }
    let px_u: u128 = fg * (adx as u128) / d;
    let py_u: u128 = fg * (ady as u128) / d;
    proof {
        assert(px_u == fg_of(ba, bb, g as int, dt as int) * abs_i(ba.x - bb.x) / sqrt_floor(
            dsq_of(ba, bb),
        ));
        assert(py_u == fg_of(ba, bb, g as int, dt as int) * abs_i(ba.y - bb.y) / sqrt_floor(
            dsq_of(ba, bb),
        ));
    }
    let px: i128 = px_u as i128;
    let py: i128 = py_u as i128;
    let rx: i128 = if dx >= 0 {
        px
    } else {
        -px
    };
    let ry: i128 = if dy >= 0 {
        py
    } else {
        -py
    };
    Vec2 { x: rx, y: ry }
}


/// The exec scratch table holds exactly the mathematical deltas `t`.
pub open spec fn deltas_match(dv: Seq<Vec2>, t: Seq<(int, int)>) -> bool {
    &&& dv.len() == t.len()
    &&& forall|k: int|
        0 <= k < dv.len() ==> (#[trigger] dv[k]).x == t[k].0 && dv[k].y == t[k].1
}

/// Runs one tick of the gravity system over the store.
///
/// The query snapshot is materialized first; then every unordered pair of
/// snapshot bodies is visited exactly once in rank order `i < j`, the
/// exchanged impulse subtracted from slot `i` and added to slot `j` of a
/// scratch table; finally each body's net impulse is added into its
/// impulse accumulator (never overwriting what other systems contributed).
/// The store is changed in no other way.
#[verifier::loop_isolation(false)]
pub fn apply_gravity(store: &mut Store, g: i128, dt: i128)
    requires
        old(store)@.wf(),
        0 <= g <= MAX_G,
        0 <= dt <= MAX_DT,
        old(store)@.len() <= MAX_BODIES,
        forall|e: int|
            0 <= e < old(store)@.len() && (#[trigger] old(store)@.impulses[e]).is_some() ==> abs_i(
                old(store)@.impulses[e].unwrap().x as int,
            ) <= ACC_LIMIT && abs_i(old(store)@.impulses[e].unwrap().y as int) <= ACC_LIMIT,
    ensures
        final(store)@.wf(),
        final(store)@ == gravity_step(old(store)@, g as int, dt as int),
{
    let ghost v0 = store@;
    let ghost gg = g as int;
    let ghost dd = dt as int;
    let filt = ComponentFilter::gravity_bodies();
    proof {
        assert(filt == gravity_filter());
        lemma_query_upto_props(v0, gravity_filter(), v0.len());
    }
    let ids = store.query(filt);
    let n = ids.len();
    let ghost q = query_spec(v0, gravity_filter());
    let ghost s = bodies_of(v0, q);
    proof {
        assert(n as int == q.len() && q.len() == s.len());
        assert(q.len() <= v0.len());
        assert forall|r: int| 0 <= r < s.len() implies body_wf(#[trigger] s[r]) by {
            assert(0 <= q[r] < v0.len());
            assert(v0.satisfies(gravity_filter(), q[r]));
            assert(position_wf(v0.positions[q[r]]));
            assert(mass_wf(v0.masses[q[r]]));
        }
    }
    // 1. materialize the snapshot: an ordered, indexable list of bodies
    let mut bodies: Vec<BodySnap> = Vec::new();
    let mut r: usize = 0;
    while r < n
        invariant
            r <= n,
            store@ == v0,
            bodies@.len() == r as int,
            forall|t: int|
                0 <= t < r as int ==> body_of(#[trigger] bodies@[t]) == s[t] && bodies@[t].id
                    as int == q[t],
        decreases n - r,
    {
        let e = ids[r];
        proof {
            assert(e as int == q[r as int]);
            assert(v0.satisfies(gravity_filter(), q[r as int]));
        }
        let m = store.get_mass(e).unwrap();
        let p = store.get_position(e).unwrap();
        bodies.push(BodySnap { id: e, mass: m, pos: p });
        r = r + 1;
    }
    // 2. a scratch table of zero deltas, one per body
    let mut dv: Vec<Vec2> = Vec::new();
    let mut z: usize = 0;
    while z < n
        invariant
            z <= n,
            store@ == v0,
            dv@.len() == z as int,
            forall|t: int| 0 <= t < z as int ==> #[trigger] dv@[t] == (Vec2 { x: 0i128, y: 0i128 }),
        decreases n - z,
    {
        dv.push(Vec2::zero());
        z = z + 1;
    }
    proof {
        assert(deltas_match(dv@, rows_step(s, 0, gg, dd)));
    }
    // 3. every unordered pair once, in rank order
    let mut i: usize = 0;
    while i < n
        invariant
            i <= n,
            store@ == v0,
            dv@.len() == n as int,
            deltas_match(dv@, rows_step(s, i as int, gg, dd)),
        decreases n - i,
    {
        let mut j: usize = i + 1;
        while j < n
            invariant
                i as int + 1 <= j as int <= n as int,
                store@ == v0,
                dv@.len() == n as int,
                deltas_match(dv@, row_step(rows_step(s, i as int, gg, dd), s, i as int, j as int, gg, dd)),
            decreases n - j,
        {
            let ghost base = rows_step(s, i as int, gg, dd);
            let ghost cur = row_step(base, s, i as int, j as int, gg, dd);
            proof {
                lemma_rows_step_char(s, i as int, gg, dd);
                lemma_row_step_frame(base, s, i as int, j as int, gg, dd);
                lemma_row_step_at_own(base, s, i as int, j as int, gg, dd);
                lemma_net_range_bound(s, i as int, 0, i as int, gg, dd);
                lemma_net_range_bound(s, i as int, i as int + 1, j as int, gg, dd);
                lemma_net_range_bound(s, j as int, 0, i as int, gg, dd);
                assert(i as int * FG_CAP <= TICK_CAP && (j - i - 1) as int * FG_CAP <= TICK_CAP)
                    by (nonlinear_arith)
                    requires
                        0 <= i as int <= MAX_BODIES,
                        0 <= (j - i - 1) as int <= MAX_BODIES,
                        TICK_CAP == MAX_BODIES * FG_CAP,
                        FG_CAP > 0,
                ;
                assert(base[i as int] == net_range(s, i as int, 0, i as int, gg, dd));
                assert(base[j as int] == net_range(s, j as int, 0, i as int, gg, dd));
                assert(abs_i(cur[i as int].0) <= 2 * TICK_CAP && abs_i(cur[i as int].1) <= 2
                    * TICK_CAP);
                assert(abs_i(cur[j as int].0) <= TICK_CAP && abs_i(cur[j as int].1) <= TICK_CAP);
            }
            let l = compute_pair_impulse(&bodies[i], &bodies[j], g, dt);
            let di = dv[i];
            let nv1 = Vec2 { x: di.x - l.x, y: di.y - l.y };
            dv.set(i, nv1);
            let dj = dv[j];
            let nv2 = Vec2 { x: dj.x + l.x, y: dj.y + l.y };
            dv.set(j, nv2);
            proof {
                let nxt = row_step(base, s, i as int, j as int + 1, gg, dd);
                let lsp = pair_impulse(s[i as int], s[j as int], gg, dd);
                let p1 = cur.update(i as int, (cur[i as int].0 - lsp.0, cur[i as int].1 - lsp.1));
                assert(nxt == p1.update(
                    j as int,
                    (p1[j as int].0 + lsp.0, p1[j as int].1 + lsp.1),
                ));
                assert(deltas_match(dv@, nxt));
            }
            j = j + 1;
        }
        proof {
            assert(rows_step(s, i as int + 1, gg, dd) == row_step(
                rows_step(s, i as int, gg, dd),
                s,
                i as int,
                n as int,
                gg,
                dd,
            ));
        }
        i = i + 1;
    }
    proof {
        lemma_rows_step_char(s, n as int, gg, dd);
    }
    // 4. add each body's net impulse into its accumulator
    let mut w: usize = 0;
    while w < n
        invariant
            w <= n,
            store@.wf(),
            store@.positions == v0.positions,
            store@.masses == v0.masses,
            store@.tags == v0.tags,
            store@.impulses == apply_deltas(v0.impulses, q, s, gg, dd, w as int),
        decreases n - w,
    {
        let e = ids[w];
        let ghost p = apply_deltas(v0.impulses, q, s, gg, dd, w as int);
        proof {
            assert(e as int == q[w as int]);
            assert(v0.satisfies(gravity_filter(), q[w as int]));
            assert forall|t: int| 0 <= t < w as int implies #[trigger] q[t] != q[w as int] by {
                assert(q[t] < q[w as int]);
            }
            lemma_apply_deltas_frame(v0.impulses, q, s, gg, dd, w as int, q[w as int]);
            assert(p[e as int] == v0.impulses[e as int]);
            lemma_net_impulse_bound(s, w as int, gg, dd);
        }
        let cur = store.get_impulse(e).unwrap();
        let d = dv[w];
        proof {
            assert(d.x == net_impulse(s, w as int, gg, dd).0 && d.y == net_impulse(
                s,
                w as int,
                gg,
                dd,
            ).1);
            assert(abs_i(cur.x as int) <= ACC_LIMIT && abs_i(cur.y as int) <= ACC_LIMIT);
        }
        let nv = Vec2 { x: cur.x + d.x, y: cur.y + d.y };
        store.set_impulse(e, nv);
        proof {
            let net = net_impulse(s, w as int, gg, dd);
            assert(apply_deltas(v0.impulses, q, s, gg, dd, w as int + 1) == p.update(
                q[w as int],
                Some(
                    Vec2 {
                        x: (p[q[w as int]].unwrap().x + net.0) as i128,
                        y: (p[q[w as int]].unwrap().y + net.1) as i128,
                    },
                ),
            ));
            assert(nv == (Vec2 {
                x: (p[q[w as int]].unwrap().x + net.0) as i128,
                y: (p[q[w as int]].unwrap().y + net.1) as i128,
            }));
        }
        w = w + 1;
    }
    proof {
        assert(store@.impulses == apply_deltas(v0.impulses, q, s, gg, dd, q.len() as int));
        assert(store@ =~= gravity_step(v0, gg, dd));
    }
}


/// One tick preserves well-formedness, the population, and every column
/// but the impulses; attachment of accumulators is preserved; and an
/// accumulator that started within `b` ends within `b + TICK_CAP`.
pub proof fn lemma_gravity_step_props(v: StoreView, g: int, dt: int, b: int)
    requires
        v.wf(),
        0 <= g <= MAX_G,
        0 <= dt <= MAX_DT,
        v.len() <= MAX_BODIES,
        0 <= b <= ACC_LIMIT,
        forall|e: int|
            0 <= e < v.len() && (#[trigger] v.impulses[e]).is_some() ==> abs_i(
                v.impulses[e].unwrap().x as int,
            ) <= b && abs_i(v.impulses[e].unwrap().y as int) <= b,
    ensures
        gravity_step(v, g, dt).wf(),
        gravity_step(v, g, dt).len() == v.len(),
        gravity_step(v, g, dt).positions == v.positions,
        gravity_step(v, g, dt).masses == v.masses,
        gravity_step(v, g, dt).tags == v.tags,
        forall|e: int|
            0 <= e < v.len() ==> (#[trigger] gravity_step(v, g, dt).impulses[e]).is_some()
                == v.impulses[e].is_some(),
        forall|e: int|
            0 <= e < v.len() && (#[trigger] gravity_step(v, g, dt).impulses[e]).is_some()
                ==> abs_i(gravity_step(v, g, dt).impulses[e].unwrap().x as int) <= b + TICK_CAP
                && abs_i(gravity_step(v, g, dt).impulses[e].unwrap().y as int) <= b + TICK_CAP,
{
    let q = query_spec(v, gravity_filter());
    let s = bodies_of(v, q);
    lemma_query_upto_props(v, gravity_filter(), v.len());
    assert forall|r: int| 0 <= r < s.len() implies body_wf(#[trigger] s[r]) by {
        assert(0 <= q[r] < v.len());
        assert(v.satisfies(gravity_filter(), q[r]));
        assert(position_wf(v.positions[q[r]]));
        assert(mass_wf(v.masses[q[r]]));
    }
    lemma_apply_deltas_props(v.impulses, q, s, g, dt, q.len() as int, b);
}


} // verus!
