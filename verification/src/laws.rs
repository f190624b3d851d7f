//! The kernel's guarantees, stated and proved against the specification
//! model that the executable routines are proved to compute exactly.

use vstd::prelude::*;
use crate::ball::{Ball, COORD_LIMIT};
use crate::fxp::{
    SCALE, tdiv, fmul, lemma_mul_bound, lemma_tdiv_bound, lemma_tdiv_le_self, lemma_tdiv_ge,
};
use crate::physics::{
    Flight, WALL_SAMPLES, CORRECTION_PERCENT, SLOP, gap_sq_at, sample_t, bracket_at,
    find_bracket, predict_hit, lemma_sample_bounds, flight_of_ball, ball_after_wall,
    center_radius, pos_x_at, pos_y_at, pair_dist2, pair_dist, pair_rsum, pair_normal, pair_vn,
    pair_correction, pair_overlapping, resolve_pair, run_spec,
};

verus! {

// ---------------------------------------------------------------------------
// Wall laws.
// ---------------------------------------------------------------------------

/// Reflecting a velocity about an exactly unit normal preserves the squared
/// speed: with `n·n == s²`, the reflected velocity `w = s²·v − 2(v·n)n`
/// satisfies `|w|² == s⁴|v|²`. The executable reflection computes `w / s²`
/// with each division truncated, so a wall bounce with restitution 1 neither
/// injects nor loses speed beyond fixed-point rounding.
pub proof fn lemma_reflection_preserves_speed(vx: int, vy: int, nx: int, ny: int, s: int)
    requires
        nx * nx + ny * ny == s * s,
    ensures
        ({
            let d = vx * nx + vy * ny;
            let wx = s * s * vx - 2 * d * nx;
            let wy = s * s * vy - 2 * d * ny;
            wx * wx + wy * wy == s * s * s * s * (vx * vx + vy * vy)
        }),
{
    let d = vx * nx + vy * ny;
    lemma_sub_sq(s * s * vx, 2 * d * nx);
    lemma_sub_sq(s * s * vy, 2 * d * ny);
    lemma_pp(s * s, vx);
    lemma_pp(s * s, vy);
    lemma_pq(s * s, vx, 2 * d, nx);
    lemma_pq(s * s, vy, 2 * d, ny);
    lemma_pp(2 * d, nx);
    lemma_pp(2 * d, ny);
    lemma_dist(s * s * (2 * d), vx * nx, vy * ny);
    lemma_dist((2 * d) * (2 * d), nx * nx, ny * ny);
    lemma_dist((s * s) * (s * s), vx * vx, vy * vy);
    lemma_double_sq(s * s, d);
    lemma_s4(s);
}

/// `(a - b)² == a² - 2ab + b²`.
proof fn lemma_sub_sq(a: int, b: int)
    by (nonlinear_arith)
    ensures
        (a - b) * (a - b) == a * a - 2 * (a * b) + b * b,
{
}

/// `(pq)² == p²q²`.
proof fn lemma_pp(p: int, q: int)
    by (nonlinear_arith)
    ensures
        (p * q) * (p * q) == (p * p) * (q * q),
{
}

/// `(pq)(rt) == (pr)(qt)`.
proof fn lemma_pq(p: int, q: int, r: int, t: int)
    by (nonlinear_arith)
    ensures
        (p * q) * (r * t) == (p * r) * (q * t),
{
}

/// Distribution: `px + py == p(x + y)`.
proof fn lemma_dist(p: int, x: int, y: int)
    by (nonlinear_arith)
    ensures
        p * x + p * y == p * (x + y),
{
}

/// `(2d)²·c == 2·((c·2d)·d)`.
proof fn lemma_double_sq(c: int, d: int)
    by (nonlinear_arith)
    ensures
        ((2 * d) * (2 * d)) * c == 2 * ((c * (2 * d)) * d),
{
}

/// `s·s·s·s == (s·s)·(s·s)`.
proof fn lemma_s4(s: int)
    by (nonlinear_arith)
    ensures
        s * s * s * s == (s * s) * (s * s),
{
}

/// If the sampled search finds no bracket from sample `i` on and the ball is
/// inside at sample `i`, it is strictly inside at every later sample, in
/// particular at the last one.
proof fn lemma_no_bracket_inside(f: Flight, dt: int, i: int)
    requires
        0 <= i < WALL_SAMPLES,
        find_bracket(f, dt, i) is None,
        gap_sq_at(f, sample_t(dt, i)) <= 0,
    ensures
        gap_sq_at(f, sample_t(dt, WALL_SAMPLES as int)) < 0,
    decreases WALL_SAMPLES as int - i,
{
    assert(!bracket_at(f, dt, i));
    assert(gap_sq_at(f, sample_t(dt, i + 1)) < 0);
    if i + 1 < WALL_SAMPLES {
        lemma_no_bracket_inside(f, dt, i + 1);
    }
}

/// Containment: when the time-of-impact search reports no hit for a flight
/// that starts inside the center-travel circle, the flight is strictly
/// inside that circle at the end of the sub-interval.
pub proof fn lemma_containment_no_hit(f: Flight, dt: int)
    requires
        0 <= dt,
        gap_sq_at(f, 0) <= 0,
        predict_hit(f, dt) is None,
    ensures
        gap_sq_at(f, dt) < 0,
{
    assert(sample_t(dt, 0) == 0);
    lemma_no_bracket_inside(f, dt, 0);
    lemma_sample_bounds(dt, WALL_SAMPLES as int);
}

/// Containment at the ball level: an in-range ball that starts inside the
/// wall and is advanced through a sub-interval with no detected wall hit
/// ends with `dist(pos, origin)² < (boundary − radius)²`, i.e. its edge
/// strictly inside the arena.
pub proof fn lemma_ball_containment_no_hit(b: Ball, rb: int, g: int, dt: int)
    requires
        b.in_range(),
        0 < dt <= SCALE,
        0 <= g <= COORD_LIMIT,
        gap_sq_at(flight_of_ball(b, rb, g), 0) <= 0,
        predict_hit(flight_of_ball(b, rb, g), dt) is None,
    ensures
        ({
            let nb = ball_after_wall(b, rb, g, dt);
            let rc = center_radius(rb, b.radius as int);
            (nb.pos.0 as int) * (nb.pos.0 as int) + (nb.pos.1 as int) * (nb.pos.1 as int) < rc
                * rc
        }),
{
    let f = flight_of_ball(b, rb, g);
    lemma_containment_no_hit(f, dt);
    lemma_mul_bound(f.vx, COORD_LIMIT as int, dt, SCALE as int);
    lemma_tdiv_bound(f.vx * dt, COORD_LIMIT as int, SCALE as int);
    lemma_mul_bound(f.vy, COORD_LIMIT as int, dt, SCALE as int);
    lemma_tdiv_bound(f.vy * dt, COORD_LIMIT as int, SCALE as int);
    lemma_mul_bound(f.g, COORD_LIMIT as int, dt, SCALE as int);
    lemma_tdiv_bound(f.g * dt, COORD_LIMIT as int, SCALE as int);
    lemma_mul_bound(fmul(f.g, dt), COORD_LIMIT as int, dt, SCALE as int);
    lemma_tdiv_bound(fmul(f.g, dt) * dt, COORD_LIMIT as int, SCALE as int);
    lemma_tdiv_bound(fmul(fmul(f.g, dt), dt), COORD_LIMIT as int, 2);
    let nb = ball_after_wall(b, rb, g, dt);
    assert(nb.pos.0 as int == pos_x_at(f.px, f.vx, dt));
    assert(nb.pos.1 as int == pos_y_at(f.py, f.vy, f.g, dt));
}

/// No tunneling: a flight that starts inside the center-travel circle and
/// would end on or beyond it — however fast — is reported by the
/// time-of-impact search.
pub proof fn lemma_no_tunneling(f: Flight, dt: int)
    requires
        0 <= dt,
        gap_sq_at(f, 0) <= 0,
        gap_sq_at(f, dt) >= 0,
    ensures
        predict_hit(f, dt) is Some,
{
    if predict_hit(f, dt) is None {
        lemma_containment_no_hit(f, dt);
    }
}

// ---------------------------------------------------------------------------
// Pairwise laws.
// ---------------------------------------------------------------------------

/// Pushing a coordinate away from zero cannot shrink its square.
proof fn lemma_push_grows(dx: int, sx: int)
    by (nonlinear_arith)
    requires
        dx * sx >= 0,
    ensures
        (dx + 2 * sx) * (dx + 2 * sx) >= dx * dx,
{
}

/// The positional correction along one axis points away from the other
/// ball: its product with the axis separation is non-negative.
proof fn lemma_axis_push(dx: int, c2: int, dist: int)
    requires
        dist >= 1,
        c2 >= 0,
    ensures
        dx * fmul(tdiv(dx * SCALE as int, dist), c2) >= 0,
{
    let nx = tdiv(dx * SCALE as int, dist);
    let sx = fmul(nx, c2);
    if dx >= 0 {
        assert(dx * SCALE as int >= 0) by (nonlinear_arith)
            requires
                dx >= 0,
                SCALE as int > 0;
        lemma_tdiv_le_self(dx * SCALE as int, dist);
        assert(nx * c2 >= 0) by (nonlinear_arith)
            requires
                nx >= 0,
                c2 >= 0;
        lemma_tdiv_le_self(nx * c2, SCALE as int);
        assert(dx * sx >= 0) by (nonlinear_arith)
            requires
                dx >= 0,
                sx >= 0;
    } else {
        assert(dx * SCALE as int <= 0) by (nonlinear_arith)
            requires
                dx <= 0,
                SCALE as int > 0;
        lemma_tdiv_le_self(dx * SCALE as int, dist);
        assert(nx * c2 <= 0) by (nonlinear_arith)
            requires
                nx <= 0,
                c2 >= 0;
        lemma_tdiv_le_self(nx * c2, SCALE as int);
        assert(dx * sx >= 0) by (nonlinear_arith)
            requires
                dx <= 0,
                sx <= 0;
    }
}

/// De-penetration never increases the overlap: one resolver pass never
/// decreases the squared center distance of a pair.
pub proof fn lemma_depenetration_non_decrease(a: Ball, b: Ball, e: int)
    ensures
        pair_dist2(resolve_pair(a, b, e).0, resolve_pair(a, b, e).1) >= pair_dist2(a, b),
{
    if a.in_range() && b.in_range() && pair_overlapping(a, b) {
        lemma_pair_shift_fits(a, b, e);
        let dx = b.pos.0 - a.pos.0;
        let dy = b.pos.1 - a.pos.1;
        let dist = pair_dist(a, b);
        let c2 = pair_correction(a, b);
        let nx = pair_normal(a, b).0;
        let ny = pair_normal(a, b).1;
        let sx = fmul(nx, c2);
        let sy = fmul(ny, c2);
        lemma_axis_push(dx as int, c2, dist);
        lemma_axis_push(dy as int, c2, dist);
        lemma_push_grows(dx as int, sx);
        lemma_push_grows(dy as int, sy);
    }
}

/// The per-ball positional shift is small enough that the corrected
/// positions stay exactly representable (no truncation by the casts).
proof fn lemma_pair_shift_fits(a: Ball, b: Ball, e: int)
    requires
        a.in_range(),
        b.in_range(),
        pair_overlapping(a, b),
    ensures
        ({
            let p = resolve_pair(a, b, e);
            let c2 = pair_correction(a, b);
            let n = pair_normal(a, b);
            &&& p.0.pos.0 as int == a.pos.0 - fmul(n.0, c2)
            &&& p.0.pos.1 as int == a.pos.1 - fmul(n.1, c2)
            &&& p.1.pos.0 as int == b.pos.0 + fmul(n.0, c2)
            &&& p.1.pos.1 as int == b.pos.1 + fmul(n.1, c2)
            &&& pair_correction(a, b) >= 0
        }),
{
    let dx = b.pos.0 - a.pos.0;
    let dy = b.pos.1 - a.pos.1;
    let d2 = pair_dist2(a, b);
    assert(d2 == dx * dx + dy * dy);
    assert(dx as int * dx as int + dy as int * dy as int >= 0) by (nonlinear_arith);
    crate::fxp::lemma_isqrt_exists(d2);
    let dist = pair_dist(a, b);
    let n = pair_normal(a, b);
    let pen = (a.radius + b.radius) - dist;
    let raw: int = if pen - SLOP >= 0 {
        pen - SLOP
    } else {
        0
    };
    lemma_mul_bound(raw, 1073741824, CORRECTION_PERCENT as int, SCALE as int);
    lemma_tdiv_bound(raw * CORRECTION_PERCENT as int, 1073741824, SCALE as int);
    lemma_tdiv_bound(fmul(raw, CORRECTION_PERCENT as int), 1073741824, 2);
    lemma_tdiv_le_self(fmul(raw, CORRECTION_PERCENT as int), 2);
    assert(fmul(raw, CORRECTION_PERCENT as int) >= 0) by {
        assert(raw * CORRECTION_PERCENT as int >= 0) by (nonlinear_arith)
            requires
                raw >= 0,
                CORRECTION_PERCENT as int >= 0;
        lemma_tdiv_le_self(raw * CORRECTION_PERCENT as int, SCALE as int);
    }
    let c2 = pair_correction(a, b);
    crate::fxp::lemma_component_le_isqrt(dx as int, dy as int, crate::fxp::isqrt_spec(d2));
    lemma_mul_bound(dx as int, dist, SCALE as int, SCALE as int);
    lemma_tdiv_bound(dx as int * SCALE as int, SCALE as int, dist);
    lemma_mul_bound(dy as int, dist, SCALE as int, SCALE as int);
    lemma_tdiv_bound(dy as int * SCALE as int, SCALE as int, dist);
    lemma_mul_bound(n.0, SCALE as int, c2, 1073741824);
    lemma_tdiv_bound(n.0 * c2, 1073741824, SCALE as int);
    lemma_mul_bound(n.1, SCALE as int, c2, 1073741824);
    lemma_tdiv_bound(n.1 * c2, 1073741824, SCALE as int);
}

/// The center distance (and with it the penetration depth
/// `rsum − dist`) never grows worse from a resolver pass.
pub proof fn lemma_penetration_non_increase(a: Ball, b: Ball, e: int)
    ensures
        pair_dist(resolve_pair(a, b, e).0, resolve_pair(a, b, e).1) >= pair_dist(a, b),
{
    lemma_depenetration_non_decrease(a, b, e);
    let p = resolve_pair(a, b, e);
    assert(pair_dist2(a, b) >= 0) by {
        let dx = b.pos.0 - a.pos.0;
        let dy = b.pos.1 - a.pos.1;
        assert(dx as int * dx as int + dy as int * dy as int >= 0) by (nonlinear_arith);
    }
    crate::fxp::lemma_isqrt_monotone(pair_dist2(a, b), pair_dist2(p.0, p.1));
}

/// A corrected component moves strictly away from the other ball when the
/// correction is at least 2 and the component carries at least half the
/// center distance.
proof fn lemma_axis_push_strict(dxm: int, c2: int, dist: int)
    requires
        dist >= 1,
        c2 >= 2,
        dxm != 0,
        2 * (if dxm >= 0 {
            dxm
        } else {
            -dxm
        }) >= dist,
    ensures
        ({
            let sm = fmul(tdiv(dxm * SCALE as int, dist), c2);
            (dxm + 2 * sm) * (dxm + 2 * sm) >= dxm * dxm + 4
        }),
{
    let nm = tdiv(dxm * SCALE as int, dist);
    let sm = fmul(nm, c2);
    if dxm > 0 {
        assert(dxm * SCALE as int >= 32768 * dist) by (nonlinear_arith)
            requires
                2 * dxm >= dist,
                SCALE as int == 65536;
        lemma_tdiv_ge(dxm * SCALE as int, 32768, dist);
        assert(nm * c2 >= 1 * SCALE as int) by (nonlinear_arith)
            requires
                nm >= 32768,
                c2 >= 2,
                SCALE as int == 65536;
        lemma_tdiv_ge(nm * c2, 1, SCALE as int);
        assert(dxm * sm >= 1) by (nonlinear_arith)
            requires
                dxm >= 1,
                sm >= 1;
    } else {
        assert((-dxm) * SCALE as int >= 32768 * dist) by (nonlinear_arith)
            requires
                2 * (-dxm) >= dist,
                SCALE as int == 65536;
        lemma_tdiv_ge((-dxm) * SCALE as int, 32768, dist);
        assert(tdiv((-dxm) * SCALE as int, dist) == -nm);
        assert((-nm) * c2 >= 1 * SCALE as int) by (nonlinear_arith)
            requires
                -nm >= 32768,
                c2 >= 2,
                SCALE as int == 65536;
        lemma_tdiv_ge((-nm) * c2, 1, SCALE as int);
        assert(tdiv((-nm) * c2, SCALE as int) == -sm) by {
            assert((-nm) * c2 == -(nm * c2)) by (nonlinear_arith);
        }
        assert(dxm * sm >= 1) by (nonlinear_arith)
            requires
                dxm <= -1,
                sm <= -1;
    }
    assert((dxm + 2 * sm) * (dxm + 2 * sm) >= dxm * dxm + 4) by (nonlinear_arith)
        requires
            dxm * sm >= 1;
}

/// Strict de-penetration: an overlapping in-range pair whose centers do not
/// coincide and whose penetration exceeds the slop by at least 5 fixed-point
/// units is pushed strictly apart by one resolver pass.
pub proof fn lemma_depenetration_strict(a: Ball, b: Ball, e: int)
    requires
        a.in_range(),
        b.in_range(),
        pair_overlapping(a, b),
        pair_dist2(a, b) >= 1,
        pair_rsum(a, b) - pair_dist(a, b) >= SLOP + 5,
    ensures
        pair_dist2(resolve_pair(a, b, e).0, resolve_pair(a, b, e).1) > pair_dist2(a, b),
{
    lemma_pair_shift_fits(a, b, e);
    let dx = b.pos.0 - a.pos.0;
    let dy = b.pos.1 - a.pos.1;
    let d2 = pair_dist2(a, b);
    crate::fxp::lemma_isqrt_exists(d2);
    let d0 = crate::fxp::isqrt_spec(d2);
    assert(d0 >= 1) by (nonlinear_arith)
        requires
            crate::fxp::is_isqrt(d2, d0),
            d2 >= 1;
    let dist = pair_dist(a, b);
    let c2 = pair_correction(a, b);
    let nx = pair_normal(a, b).0;
    let ny = pair_normal(a, b).1;
    let sx = fmul(nx, c2);
    let sy = fmul(ny, c2);
    // penetration beyond the slop gives a correction of at least 2
    let pen = pair_rsum(a, b) - dist;
    let raw: int = pen - SLOP;
    assert(raw * CORRECTION_PERCENT as int >= 4 * SCALE as int) by (nonlinear_arith)
        requires
            raw >= 5,
            CORRECTION_PERCENT as int == 52429,
            SCALE as int == 65536;
    lemma_tdiv_ge(raw * CORRECTION_PERCENT as int, 4, SCALE as int);
    lemma_tdiv_ge(fmul(raw, CORRECTION_PERCENT as int), 2, 2);
    assert(c2 >= 2);
    // the larger component carries at least half the center distance
    lemma_axis_push(dx as int, c2, dist);
    lemma_axis_push(dy as int, c2, dist);
    lemma_push_grows(dx as int, sx);
    lemma_push_grows(dy as int, sy);
    if dx * dx >= dy * dy {
        assert(dx != 0) by (nonlinear_arith)
            requires
                dx as int * dx as int >= dy as int * dy as int,
                dx as int * dx as int + dy as int * dy as int >= 1;
        assert(2 * (if dx as int >= 0 {
            dx as int
        } else {
            -(dx as int)
        }) >= dist) by (nonlinear_arith)
            requires
                dx as int * dx as int >= dy as int * dy as int,
                crate::fxp::is_isqrt(dx as int * dx as int + dy as int * dy as int, d0),
                dist <= d0,
                dist >= 0;
        lemma_axis_push_strict(dx as int, c2, dist);
    } else {
        assert(dy != 0) by (nonlinear_arith)
            requires
                dy as int * dy as int >= dx as int * dx as int,
                dx as int * dx as int + dy as int * dy as int >= 1;
        assert(2 * (if dy as int >= 0 {
            dy as int
        } else {
            -(dy as int)
        }) >= dist) by (nonlinear_arith)
            requires
                dy as int * dy as int >= dx as int * dx as int,
                crate::fxp::is_isqrt(dx as int * dx as int + dy as int * dy as int, d0),
                dist <= d0,
                dist >= 0;
        lemma_axis_push_strict(dy as int, c2, dist);
    }
}

/// The impulse acts along the contact normal only: in exact arithmetic the
/// post-impulse relative velocity has the same tangential component as
/// before (the tangent `t = (−ny, nx)` is orthogonal to every impulse
/// `j·n`).
pub proof fn lemma_impulse_along_normal(
    rvx: int,
    rvy: int,
    j1: int,
    j2: int,
    nx: int,
    ny: int,
    s: int,
)
    ensures
        (s * rvx + (j1 + j2) * nx) * (-ny) + (s * rvy + (j1 + j2) * ny) * nx == s * (rvx * (-ny)
            + rvy * nx),
{
    let j = j1 + j2;
    assert((s * rvx + j * nx) * (-ny) == s * (rvx * (-ny)) - j * nx * ny) by (nonlinear_arith);
    assert((s * rvy + j * ny) * nx == s * (rvy * nx) + j * nx * ny) by (nonlinear_arith);
    assert(s * (rvx * (-ny)) + s * (rvy * nx) == s * (rvx * (-ny) + rvy * nx))
        by (nonlinear_arith);
}

/// A separating pair (`vn > 0`) takes no velocity impulse and no hit count
/// from a resolver pass, even if it still overlaps; only its positions are
/// corrected.
pub proof fn lemma_separating_pair_no_impulse(a: Ball, b: Ball, e: int)
    requires
        pair_vn(a, b) > 0,
    ensures
        resolve_pair(a, b, e).0.vel == a.vel,
        resolve_pair(a, b, e).1.vel == b.vel,
        resolve_pair(a, b, e).0.hits == a.hits,
        resolve_pair(a, b, e).1.hits == b.hits,
{
}

/// The chosen handling of the `vn == 0` boundary: a pair with no relative
/// motion is not treated as separating — the impulse path runs and counts
/// the contact — but the impulse itself is exactly zero, so the velocities
/// are untouched and only positional correction applies.
pub proof fn lemma_resting_pair_zero_impulse(a: Ball, b: Ball, e: int)
    requires
        a.vel == b.vel,
    ensures
        resolve_pair(a, b, e).0.vel == a.vel,
        resolve_pair(a, b, e).1.vel == b.vel,
{
    if a.in_range() && b.in_range() && pair_overlapping(a, b) {
        let n = pair_normal(a, b);
        let vn = pair_vn(a, b);
        assert((b.vel.0 - a.vel.0) * n.0 + (b.vel.1 - a.vel.1) * n.1 == 0);
        assert(vn == tdiv(0, SCALE as int));
        assert(vn == 0);
        let ma = fmul(a.radius as int, a.radius as int);
        let mb = fmul(b.radius as int, b.radius as int);
        let wa = tdiv(mb * SCALE, ma + mb);
        let wb = tdiv(ma * SCALE, ma + mb);
        let k = fmul(SCALE + e, -vn);
        assert((SCALE + e) * -vn == 0);
        assert(k == tdiv(0, SCALE as int));
        assert(k == 0);
        assert(k * wa == 0);
        assert(k * wb == 0);
        let ja = fmul(k, wa);
        let jb = fmul(k, wb);
        assert(ja == tdiv(0, SCALE as int) && jb == tdiv(0, SCALE as int));
        assert(ja * n.0 == 0 && ja * n.1 == 0 && jb * n.0 == 0 && jb * n.1 == 0);
        assert(fmul(ja, n.0) == tdiv(0, SCALE as int));
        assert(fmul(ja, n.1) == tdiv(0, SCALE as int));
        assert(fmul(jb, n.0) == tdiv(0, SCALE as int));
        assert(fmul(jb, n.1) == tdiv(0, SCALE as int));
        assert(tdiv(0, SCALE as int) == 0);
    }
}

// ---------------------------------------------------------------------------
// Determinism.
// ---------------------------------------------------------------------------

/// Determinism: the kernel holds no hidden state, so equal ball lists
/// stepped with equal `dt`, gravity and restitution for any number of ticks
/// end identical. Every executable routine is proved to return exactly its
/// specification value, so this carries over to executable runs.
pub proof fn lemma_determinism(
    s1: Seq<Ball>,
    s2: Seq<Ball>,
    rb: int,
    g: int,
    dt: int,
    e: int,
    n: nat,
)
    requires
        s1 == s2,
    ensures
        run_spec(s1, rb, g, dt, e, n) == run_spec(s2, rb, g, dt, e, n),
{
}

} // verus!
