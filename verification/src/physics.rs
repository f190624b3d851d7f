//! The physics kernel: closed-form integration under constant gravity,
//! continuous (time-of-impact) wall collision detection and resolution, and
//! pairwise impulse-based ball collision resolution.
//!
//! Every executable routine returns exactly the value of its specification
//! counterpart, so a whole physics step is a pure function of its inputs.

use vstd::prelude::*;
use crate::ball::{Ball, COORD_LIMIT};
use crate::fxp::{
    SCALE, tdiv, fmul, isqrt_spec, is_isqrt, div_pos, mul_fp, isqrt, lemma_mul_bound,
    lemma_tdiv_bound, lemma_tdiv_le_self, lemma_tdiv_ge, lemma_tdiv_cancel, lemma_tdiv_monotone,
    lemma_component_le_isqrt,
};
use crate::world::World;

verus! {

/// Coarse samples per sub-interval in the wall time-of-impact search.
pub const WALL_SAMPLES: i64 = 8;

/// Bisection iterations refining a bracketed wall crossing.
pub const BISECT_ITERS: u64 = 16;

// ---------------------------------------------------------------------------
// Closed-form integration under constant downward gravity.
// ---------------------------------------------------------------------------

/// x(t) = x0 + vx * t.
pub open spec fn pos_x_at(px: int, vx: int, t: int) -> int {
    px + fmul(vx, t)
}

/// The `g * t * t / 2` term of the vertical closed form.
pub open spec fn half_gravity_drop(g: int, t: int) -> int {
    tdiv(fmul(fmul(g, t), t), 2)
}

/// y(t) = y0 + vy * t - g * t * t / 2 (gravity pulls y down).
pub open spec fn pos_y_at(py: int, vy: int, g: int, t: int) -> int {
    py + fmul(vy, t) - half_gravity_drop(g, t)
}

/// vy(t) = vy0 - g * t.
pub open spec fn vel_y_at(vy: int, g: int, t: int) -> int {
    vy - fmul(g, t)
}

/// The ball state fits the integrator's input range.
pub open spec fn state_in_range(px: int, py: int, vx: int, vy: int) -> bool {
    &&& -COORD_LIMIT <= px <= COORD_LIMIT
    &&& -COORD_LIMIT <= py <= COORD_LIMIT
    &&& -COORD_LIMIT <= vx <= COORD_LIMIT
    &&& -COORD_LIMIT <= vy <= COORD_LIMIT
}

/// Analytic position at time `t` (no collision), exactly the closed form.
pub fn pos_at(px: i64, py: i64, vx: i64, vy: i64, g: i64, t: i64) -> (r: (i64, i64))
    requires
        state_in_range(px as int, py as int, vx as int, vy as int),
        0 <= g <= COORD_LIMIT,
        0 <= t <= SCALE,
    ensures
        r.0 == pos_x_at(px as int, vx as int, t as int),
        r.1 == pos_y_at(py as int, vy as int, g as int, t as int),
        -2 * COORD_LIMIT <= r.0 <= 2 * COORD_LIMIT,
        -3 * COORD_LIMIT <= r.1 <= 3 * COORD_LIMIT,
{
    proof {
        lemma_mul_bound(vx as int, COORD_LIMIT as int, t as int, SCALE as int);
        lemma_tdiv_bound(vx as int * t as int, COORD_LIMIT as int, SCALE as int);
        lemma_mul_bound(vy as int, COORD_LIMIT as int, t as int, SCALE as int);
        lemma_tdiv_bound(vy as int * t as int, COORD_LIMIT as int, SCALE as int);
        lemma_mul_bound(g as int, COORD_LIMIT as int, t as int, SCALE as int);
        lemma_tdiv_bound(g as int * t as int, COORD_LIMIT as int, SCALE as int);
    }
    let sx = mul_fp(vx, t);
    let x = px + sx;
    let gt = mul_fp(g, t);
    proof {
        lemma_mul_bound(fmul(g as int, t as int), COORD_LIMIT as int, t as int, SCALE as int);
        lemma_tdiv_bound(fmul(g as int, t as int) * t as int, COORD_LIMIT as int, SCALE as int);
        lemma_tdiv_bound(fmul(fmul(g as int, t as int), t as int), COORD_LIMIT as int, 2);
    }
    let gtt = mul_fp(gt, t);
    let fall = div_pos(gtt, 2);
    let sy = mul_fp(vy, t);
    let y = py + sy - fall;
    (x, y)
}

// ---------------------------------------------------------------------------
// Signed squared gap to the wall.
// ---------------------------------------------------------------------------

/// The parameters of one ball's free flight inside the wall: start position,
/// start velocity, gravity, and the center-travel radius `rc` at which the
/// ball's edge touches the wall.
pub struct Flight {
    pub px: int,
    pub py: int,
    pub vx: int,
    pub vy: int,
    pub g: int,
    pub rc: int,
}

/// The flight parameters a set of machine words denotes.
pub open spec fn flight_of(px: i64, py: i64, vx: i64, vy: i64, g: i64, rc: i64) -> Flight {
    Flight {
        px: px as int,
        py: py as int,
        vx: vx as int,
        vy: vy as int,
        g: g as int,
        rc: rc as int,
    }
}

/// The flight parameters fit the kernel's working range.
pub open spec fn flight_in_range(f: Flight) -> bool {
    &&& state_in_range(f.px, f.py, f.vx, f.vy)
    &&& 0 <= f.g <= COORD_LIMIT
    &&& 0 <= f.rc <= COORD_LIMIT
}

/// Signed squared gap between the ball's center path and the center-travel
/// circle of radius `rc`: negative while the center is strictly inside,
/// non-negative once it has reached or passed it. Squaring avoids a square
/// root; only the sign is ever used by the time-of-impact search.
pub open spec fn gap_sq_at(f: Flight, t: int) -> int {
    let x = pos_x_at(f.px, f.vx, t);
    let y = pos_y_at(f.py, f.vy, f.g, t);
    x * x + y * y - f.rc * f.rc
}

/// Executable squared gap, exactly `gap_sq_at`.
pub fn gap_sq(px: i64, py: i64, vx: i64, vy: i64, g: i64, rc: i64, t: i64) -> (r: i64)
    requires
        state_in_range(px as int, py as int, vx as int, vy as int),
        0 <= g <= COORD_LIMIT,
        0 <= rc <= COORD_LIMIT,
        0 <= t <= SCALE,
    ensures
        r == gap_sq_at(flight_of(px, py, vx, vy, g, rc), t as int),
{
    let (x, y) = pos_at(px, py, vx, vy, g, t);
    proof {
        lemma_mul_bound(x as int, 2 * COORD_LIMIT as int, x as int, 2 * COORD_LIMIT as int);
        lemma_mul_bound(y as int, 3 * COORD_LIMIT as int, y as int, 3 * COORD_LIMIT as int);
        lemma_mul_bound(rc as int, COORD_LIMIT as int, rc as int, COORD_LIMIT as int);
    }
    x * x + y * y - rc * rc
}

// ---------------------------------------------------------------------------
// Wall time-of-impact search: coarse sampling, then bisection.
// ---------------------------------------------------------------------------

/// The time `i / WALL_SAMPLES` of the way through `[0, dt]`.
pub open spec fn sample_t(dt: int, i: int) -> int {
    tdiv(i * dt, WALL_SAMPLES as int)
}

/// Sample times stay inside `[0, dt]`, grow with `i`, and the last one is `dt`.
pub proof fn lemma_sample_bounds(dt: int, i: int)
    requires
        0 <= dt,
        0 <= i <= WALL_SAMPLES,
    ensures
        0 <= sample_t(dt, i) <= dt,
        i < WALL_SAMPLES ==> sample_t(dt, i) <= sample_t(dt, i + 1),
        i == WALL_SAMPLES ==> sample_t(dt, i) == dt,
{
    assert(0 <= i * dt <= 8 * dt) by (nonlinear_arith)
        requires
            0 <= i <= 8,
            0 <= dt;
    lemma_tdiv_bound(i * dt, dt, 8);
    lemma_tdiv_le_self(i * dt, 8);
    if i < WALL_SAMPLES {
        assert(i * dt <= (i + 1) * dt) by (nonlinear_arith)
            requires
                0 <= dt;
        lemma_tdiv_monotone(i * dt, (i + 1) * dt, 8);
    }
    if i == WALL_SAMPLES {
        lemma_tdiv_cancel(dt, 8);
    }
}

/// Samples `i` and `i + 1` bracket a crossing from inside to outside.
pub open spec fn bracket_at(f: Flight, dt: int, i: int) -> bool {
    gap_sq_at(f, sample_t(dt, i)) <= 0 && gap_sq_at(f, sample_t(dt, i + 1)) >= 0
}

/// The first bracketing sample pair at or after `i`, if there is one.
pub open spec fn find_bracket(f: Flight, dt: int, i: int) -> Option<int>
    decreases WALL_SAMPLES as int - i,
{
    if i < 0 || i >= WALL_SAMPLES {
        None
    } else if bracket_at(f, dt, i) {
        Some(i)
    } else {
        find_bracket(f, dt, i + 1)
    }
}

/// `k` bisection refinements of the bracket `[lo, hi]`.
pub open spec fn bisect(f: Flight, lo: int, hi: int, k: nat) -> (int, int)
    decreases k,
{
    if k == 0 {
        (lo, hi)
    } else {
        let mid = tdiv(lo + hi, 2);
        if gap_sq_at(f, mid) >= 0 {
            bisect(f, lo, mid, (k - 1) as nat)
        } else {
            bisect(f, mid, hi, (k - 1) as nat)
        }
    }
}

/// Bisection never leaves the starting bracket.
pub proof fn lemma_bisect_range(f: Flight, lo: int, hi: int, k: nat)
    requires
        0 <= lo <= hi,
    ensures
        lo <= bisect(f, lo, hi, k).0 <= bisect(f, lo, hi, k).1 <= hi,
    decreases k,
{
    if k > 0 {
        let mid = tdiv(lo + hi, 2);
        assert(lo <= mid <= hi);
        if gap_sq_at(f, mid) >= 0 {
            lemma_bisect_range(f, lo, mid, (k - 1) as nat);
        } else {
            lemma_bisect_range(f, mid, hi, (k - 1) as nat);
        }
    }
}

/// The hit time the sampled search reports within `[0, dt]`, if any: the
/// midpoint of the first bracket, refined by `BISECT_ITERS` bisections.
pub open spec fn predict_hit(f: Flight, dt: int) -> Option<int> {
    match find_bracket(f, dt, 0) {
        None => None,
        Some(i) => {
            let b = bisect(f, sample_t(dt, i), sample_t(dt, i + 1), BISECT_ITERS as nat);
            Some(tdiv(b.0 + b.1, 2))
        },
    }
}

/// Find a wall-hit time in `[0, dt]`: sample the squared gap at
/// `WALL_SAMPLES` evenly spaced times to bracket a sign change, then refine
/// the first bracket by bisection. Exactly `predict_hit`.
pub fn predict_wall_hit(px: i64, py: i64, vx: i64, vy: i64, g: i64, rc: i64, dt: i64) -> (r:
    Option<i64>)
    requires
        flight_in_range(flight_of(px, py, vx, vy, g, rc)),
        0 < dt <= SCALE,
    ensures
        ({
            let f = flight_of(px, py, vx, vy, g, rc);
            match r {
                None => predict_hit(f, dt as int) is None,
                Some(t) => predict_hit(f, dt as int) == Some(t as int) && 0 <= t <= dt,
            }
        }),
{
    let ghost f = flight_of(px, py, vx, vy, g, rc);
    let mut t0: i64 = 0;
    let mut f0: i64 = gap_sq(px, py, vx, vy, g, rc, 0);
    let mut i: i64 = 0;
    proof {
        lemma_sample_bounds(dt as int, 0);
    }
    while i < WALL_SAMPLES
        invariant
            0 <= i <= WALL_SAMPLES,
            f == flight_of(px, py, vx, vy, g, rc),
            flight_in_range(f),
            0 < dt <= SCALE,
            t0 == sample_t(dt as int, i as int),
            0 <= t0 <= dt,
            f0 == gap_sq_at(f, t0 as int),
            find_bracket(f, dt as int, 0) == find_bracket(f, dt as int, i as int),
        decreases WALL_SAMPLES - i,
    {
        proof {
            lemma_sample_bounds(dt as int, i as int);
            lemma_sample_bounds(dt as int, i as int + 1);
            lemma_mul_bound(i as int + 1, 8, dt as int, SCALE as int);
        }
        let t1 = div_pos((i + 1) * dt, WALL_SAMPLES);
        let f1 = gap_sq(px, py, vx, vy, g, rc, t1);
        if f0 <= 0 && f1 >= 0 {
            proof {
                assert(bracket_at(f, dt as int, i as int));
                assert(find_bracket(f, dt as int, i as int) == Some(i as int));
            }
            let ghost i0 = i as int;
            let mut lo = t0;
            let mut hi = t1;
            let mut k: u64 = 0;
            while k < BISECT_ITERS
                invariant
                    0 <= k <= BISECT_ITERS,
                    f == flight_of(px, py, vx, vy, g, rc),
                    flight_in_range(f),
                    0 < dt <= SCALE,
                    0 <= lo <= hi <= dt,
                    bisect(f, sample_t(dt as int, i0), sample_t(dt as int, i0 + 1),
                        BISECT_ITERS as nat)
                        == bisect(f, lo as int, hi as int, (BISECT_ITERS - k) as nat),
                decreases BISECT_ITERS - k,
            {
                let mid = div_pos(lo + hi, 2);
                proof {
                    assert(lo <= mid <= hi);
                }
                let fm = gap_sq(px, py, vx, vy, g, rc, mid);
                if fm >= 0 {
                    hi = mid;
                } else {
                    lo = mid;
                }
                k = k + 1;
            }
            let th = div_pos(lo + hi, 2);
            proof {
                assert(lo <= th <= hi);
            }
            return Some(th);
        }
        t0 = t1;
        f0 = f1;
        i = i + 1;
    }
    None
}

// ---------------------------------------------------------------------------
// Wall collision resolution: reflect at the time of impact, then finish the
// sub-interval from the post-bounce state.
// ---------------------------------------------------------------------------

/// Outward normal at a hit position, scaled by `SCALE`; the fallback `(1, 0)`
/// avoids dividing by a zero length when the hit position is the origin.
pub open spec fn normal_at(hx: int, hy: int) -> (int, int) {
    if hx == 0 && hy == 0 {
        (SCALE as int, 0)
    } else {
        let len = isqrt_spec(hx * hx + hy * hy);
        (tdiv(hx * SCALE, len), tdiv(hy * SCALE, len))
    }
}

/// Velocity reflected about the scaled unit normal: `v' = v - 2 (v·n) n`,
/// perfectly elastic.
pub open spec fn reflect(vx: int, vy: int, nx: int, ny: int) -> (int, int) {
    let vn = tdiv(vx * nx + vy * ny, SCALE as int);
    (vx - tdiv(2 * vn * nx, SCALE as int), vy - tdiv(2 * vn * ny, SCALE as int))
}

/// Center-travel radius: the wall as seen by the ball's center, clamped at
/// zero so an oversized ball is pinned at the origin.
pub open spec fn center_radius(rb: int, radius: int) -> int {
    if rb - radius >= 0 {
        rb - radius
    } else {
        0
    }
}

/// The flight parameters of a ball inside an arena of radius `rb` under
/// gravity `g`.
pub open spec fn flight_of_ball(b: Ball, rb: int, g: int) -> Flight {
    Flight {
        px: b.pos.0 as int,
        py: b.pos.1 as int,
        vx: b.vel.0 as int,
        vy: b.vel.1 as int,
        g: g,
        rc: center_radius(rb, b.radius as int),
    }
}

/// Kinematic outcome of one sub-interval: either plain integration, or
/// integration to the hit, reflection, and integration of the remainder.
pub struct WallOutcome {
    pub x: int,
    pub y: int,
    pub vx: int,
    pub vy: int,
    pub hit: bool,
}

/// What one sub-interval of length `dt` does to a flight.
pub open spec fn wall_outcome(f: Flight, dt: int) -> WallOutcome {
    match predict_hit(f, dt) {
        None => WallOutcome {
            x: pos_x_at(f.px, f.vx, dt),
            y: pos_y_at(f.py, f.vy, f.g, dt),
            vx: f.vx,
            vy: vel_y_at(f.vy, f.g, dt),
            hit: false,
        },
        Some(th) => {
            let hx = pos_x_at(f.px, f.vx, th);
            let hy = pos_y_at(f.py, f.vy, f.g, th);
            let vyt = vel_y_at(f.vy, f.g, th);
            let n = normal_at(hx, hy);
            let rv = reflect(f.vx, vyt, n.0, n.1);
            let rem = dt - th;
            WallOutcome {
                x: pos_x_at(hx, rv.0, rem),
                y: pos_y_at(hy, rv.1, f.g, rem),
                vx: rv.0,
                vy: vel_y_at(rv.1, f.g, rem),
                hit: true,
            }
        },
    }
}

/// One ball advanced by `dt` with at most one wall bounce; a ball outside the
/// fixed-point working range is left untouched.
pub open spec fn ball_after_wall(b: Ball, rb: int, g: int, dt: int) -> Ball {
    if !b.in_range() {
        b
    } else {
        let o = wall_outcome(flight_of_ball(b, rb, g), dt);
        let nb = Ball {
            pos: (o.x as i64, o.y as i64),
            vel: (o.vx as i64, o.vy as i64),
            ..b
        };
        if o.hit {
            nb.with_hit()
        } else {
            nb
        }
    }
}

/// Executable outward normal at a hit position, exactly `normal_at`; both
/// components are bounded by `SCALE` in magnitude.
fn hit_normal(hx: i64, hy: i64) -> (n: (i64, i64))
    requires
        -3 * COORD_LIMIT <= hx <= 3 * COORD_LIMIT,
        -3 * COORD_LIMIT <= hy <= 3 * COORD_LIMIT,
    ensures
        (n.0 as int, n.1 as int) == normal_at(hx as int, hy as int),
        -SCALE <= n.0 <= SCALE,
        -SCALE <= n.1 <= SCALE,
{
    if hx == 0 && hy == 0 {
        (SCALE, 0)
    } else {
        proof {
            lemma_mul_bound(hx as int, 805306368, hx as int, 805306368);
            lemma_mul_bound(hy as int, 805306368, hy as int, 805306368);
            assert(hx as int * hx as int >= 0 && hy as int * hy as int >= 0) by (nonlinear_arith);
            assert(hx as int * hx as int + hy as int * hy as int >= 1) by (nonlinear_arith)
                requires
                    !(hx == 0 && hy == 0);
        }
        let n2: i64 = hx * hx + hy * hy;
        let len_u = isqrt(n2 as u64);
        proof {
            assert(len_u as int * len_u as int <= n2 as int);
            assert(len_u < 0x8000_0000u64) by (nonlinear_arith)
                requires
                    len_u as int * len_u as int <= n2 as int,
                    (n2 as int) < 0x4000_0000_0000_0000;
            assert(len_u >= 1) by (nonlinear_arith)
                requires
                    is_isqrt(n2 as int, len_u as int),
                    n2 >= 1;
            lemma_component_le_isqrt(hx as int, hy as int, len_u as int);
        }
        let len: i64 = len_u as i64;
        proof {
            lemma_mul_bound(hx as int, len as int, SCALE as int, SCALE as int);
            lemma_tdiv_bound(hx as int * SCALE as int, SCALE as int, len as int);
            lemma_mul_bound(hy as int, len as int, SCALE as int, SCALE as int);
            lemma_tdiv_bound(hy as int * SCALE as int, SCALE as int, len as int);
        }
        let nx = div_pos(hx * SCALE, len);
        let ny = div_pos(hy * SCALE, len);
        (nx, ny)
    }
}

/// Advance one ball by `dt`, committing at most one wall bounce exactly at
/// its time of impact so no energy is lost or gained across the bounce; the
/// hit counter is incremented when a bounce happens. Exactly
/// `ball_after_wall`.
pub fn advance_ball_wall(b: &mut Ball, r_boundary: i64, g: i64, dt: i64)
    requires
        0 < r_boundary <= COORD_LIMIT,
        0 <= g <= COORD_LIMIT,
        0 < dt <= SCALE,
    ensures
        *final(b) == ball_after_wall(*old(b), r_boundary as int, g as int, dt as int),
{
    if !b.check_in_range() {
        return ;
    }
    let d = r_boundary - b.radius;
    let rc: i64 = if d >= 0 {
        d
    } else {
        0
    };
    let ghost f = flight_of_ball(*b, r_boundary as int, g as int);
    proof {
        assert(f == flight_of(b.pos.0, b.pos.1, b.vel.0, b.vel.1, g, rc));
        lemma_mul_bound(g as int, COORD_LIMIT as int, dt as int, SCALE as int);
        lemma_tdiv_bound(g as int * dt as int, COORD_LIMIT as int, SCALE as int);
    }
    match predict_wall_hit(b.pos.0, b.pos.1, b.vel.0, b.vel.1, g, rc, dt) {
        None => {
            let (x, y) = pos_at(b.pos.0, b.pos.1, b.vel.0, b.vel.1, g, dt);
            let vy2 = b.vel.1 - mul_fp(g, dt);
            b.pos = (x, y);
            b.vel = (b.vel.0, vy2);
        },
        Some(th) => {
            proof {
                lemma_mul_bound(g as int, COORD_LIMIT as int, th as int, SCALE as int);
                lemma_tdiv_bound(g as int * th as int, COORD_LIMIT as int, SCALE as int);
            }
            let (hx, hy) = pos_at(b.pos.0, b.pos.1, b.vel.0, b.vel.1, g, th);
            let vyt = b.vel.1 - mul_fp(g, th);
            let (nx, ny) = hit_normal(hx, hy);
            proof {
                lemma_mul_bound(b.vel.0 as int, COORD_LIMIT as int, nx as int, SCALE as int);
                lemma_mul_bound(vyt as int, 2 * COORD_LIMIT as int, ny as int, SCALE as int);
                lemma_tdiv_bound(
                    b.vel.0 as int * nx as int + vyt as int * ny as int,
                    3 * COORD_LIMIT as int,
                    SCALE as int,
                );
            }
            let vn = div_pos(b.vel.0 * nx + vyt * ny, SCALE);
            proof {
                lemma_mul_bound(2 * vn as int, 6 * COORD_LIMIT as int, nx as int, SCALE as int);
                lemma_tdiv_bound(2 * vn as int * nx as int, 6 * COORD_LIMIT as int, SCALE as int);
                lemma_mul_bound(2 * vn as int, 6 * COORD_LIMIT as int, ny as int, SCALE as int);
                lemma_tdiv_bound(2 * vn as int * ny as int, 6 * COORD_LIMIT as int, SCALE as int);
            }
            let rvx = b.vel.0 - div_pos(2 * vn * nx, SCALE);
            let rvy = vyt - div_pos(2 * vn * ny, SCALE);
            let rem = dt - th;
            proof {
                lemma_mul_bound(rvx as int, 7 * COORD_LIMIT as int, rem as int, SCALE as int);
                lemma_tdiv_bound(rvx as int * rem as int, 7 * COORD_LIMIT as int, SCALE as int);
                lemma_mul_bound(rvy as int, 8 * COORD_LIMIT as int, rem as int, SCALE as int);
                lemma_tdiv_bound(rvy as int * rem as int, 8 * COORD_LIMIT as int, SCALE as int);
                lemma_mul_bound(g as int, COORD_LIMIT as int, rem as int, SCALE as int);
                lemma_tdiv_bound(g as int * rem as int, COORD_LIMIT as int, SCALE as int);
                lemma_mul_bound(
                    fmul(g as int, rem as int),
                    COORD_LIMIT as int,
                    rem as int,
                    SCALE as int,
                );
                lemma_tdiv_bound(
                    fmul(g as int, rem as int) * rem as int,
                    COORD_LIMIT as int,
                    SCALE as int,
                );
                lemma_tdiv_bound(
                    fmul(fmul(g as int, rem as int), rem as int),
                    COORD_LIMIT as int,
                    2,
                );
            }
            let x2 = hx + mul_fp(rvx, rem);
            let gt = mul_fp(g, rem);
            let gtt = mul_fp(gt, rem);
            let fall = div_pos(gtt, 2);
            let y2 = hy + mul_fp(rvy, rem) - fall;
            let vy2 = rvy - mul_fp(g, rem);
            b.pos = (x2, y2);
            b.vel = (rvx, vy2);
            b.hits = if b.hits < u32::MAX {
                b.hits + 1
            } else {
                b.hits
            };
        },
    }
}

// ---------------------------------------------------------------------------
// Whole-world stepping.
// ---------------------------------------------------------------------------

/// One ball advanced by plain (gravity-free, collision-free) integration:
/// `pos += vel * dt`.
pub open spec fn ball_integrated(b: Ball, dt: int) -> Ball {
    if !b.in_range() {
        b
    } else {
        Ball {
            pos: (
                (b.pos.0 + fmul(b.vel.0 as int, dt)) as i64,
                (b.pos.1 + fmul(b.vel.1 as int, dt)) as i64,
            ),
            ..b
        }
    }
}

/// One ball after `dt` of constant downward gravity: `vy -= g * dt`.
pub open spec fn ball_under_gravity(b: Ball, g: int, dt: int) -> Ball {
    if !b.in_range() {
        b
    } else {
        Ball { vel: (b.vel.0, (b.vel.1 - fmul(g, dt)) as i64), ..b }
    }
}

/// Advance every ball by `pos += vel * dt` (no gravity, no collisions).
pub fn integrate(world: &mut World, dt: i64)
    requires
        0 <= dt <= SCALE,
    ensures
        final(world).boundary_radius == old(world).boundary_radius,
        final(world).balls@ == old(world).balls@.map_values(
            |b: Ball| ball_integrated(b, dt as int),
        ),
{
    let n = world.balls.len();
    let mut idx: usize = 0;
    while idx < n
        invariant
            0 <= idx <= n,
            n == world.balls@.len(),
            world.balls@.len() == old(world).balls@.len(),
            world.boundary_radius == old(world).boundary_radius,
            0 <= dt <= SCALE,
            forall|j: int|
                0 <= j < idx ==> world.balls@[j] == ball_integrated(
                    old(world).balls@[j],
                    dt as int,
                ),
            forall|j: int| idx <= j < n ==> world.balls@[j] == old(world).balls@[j],
        decreases n - idx,
    {
        let b = world.balls[idx];
        if b.check_in_range() {
            proof {
                lemma_mul_bound(b.vel.0 as int, COORD_LIMIT as int, dt as int, SCALE as int);
                lemma_tdiv_bound(b.vel.0 as int * dt as int, COORD_LIMIT as int, SCALE as int);
                lemma_mul_bound(b.vel.1 as int, COORD_LIMIT as int, dt as int, SCALE as int);
                lemma_tdiv_bound(b.vel.1 as int * dt as int, COORD_LIMIT as int, SCALE as int);
            }
            let x = b.pos.0 + mul_fp(b.vel.0, dt);
            let y = b.pos.1 + mul_fp(b.vel.1, dt);
            world.balls[idx] = Ball { pos: (x, y), ..b };
        }
        idx = idx + 1;
    }
    proof {
        assert(world.balls@ =~= old(world).balls@.map_values(
            |b: Ball| ball_integrated(b, dt as int),
        ));
    }
}

/// Apply `dt` of constant downward gravity to every ball's velocity.
pub fn gravity_down(world: &mut World, g: i64, dt: i64)
    requires
        0 <= g <= COORD_LIMIT,
        0 <= dt <= SCALE,
    ensures
        final(world).boundary_radius == old(world).boundary_radius,
        final(world).balls@ == old(world).balls@.map_values(
            |b: Ball| ball_under_gravity(b, g as int, dt as int),
        ),
{
    let n = world.balls.len();
    let mut idx: usize = 0;
    while idx < n
        invariant
            0 <= idx <= n,
            n == world.balls@.len(),
            world.balls@.len() == old(world).balls@.len(),
            world.boundary_radius == old(world).boundary_radius,
            0 <= g <= COORD_LIMIT,
            0 <= dt <= SCALE,
            forall|j: int|
                0 <= j < idx ==> world.balls@[j] == ball_under_gravity(
                    old(world).balls@[j],
                    g as int,
                    dt as int,
                ),
            forall|j: int| idx <= j < n ==> world.balls@[j] == old(world).balls@[j],
        decreases n - idx,
    {
        let b = world.balls[idx];
        if b.check_in_range() {
            proof {
                lemma_mul_bound(g as int, COORD_LIMIT as int, dt as int, SCALE as int);
                lemma_tdiv_bound(g as int * dt as int, COORD_LIMIT as int, SCALE as int);
            }
            let vy = b.vel.1 - mul_fp(g, dt);
            world.balls[idx] = Ball { vel: (b.vel.0, vy), ..b };
        }
        idx = idx + 1;
    }
    proof {
        assert(world.balls@ =~= old(world).balls@.map_values(
            |b: Ball| ball_under_gravity(b, g as int, dt as int),
        ));
    }
}

/// Advance the whole world by one sub-interval `dt` under gravity `g`,
/// committing wall bounces exactly at their times of impact.
pub fn advance_and_commit(world: &mut World, dt: i64, g: i64)
    requires
        old(world).wf(),
        0 < dt <= SCALE,
        0 <= g <= COORD_LIMIT,
    ensures
        final(world).boundary_radius == old(world).boundary_radius,
        final(world).wf(),
        final(world).balls@ == old(world).balls@.map_values(
            |b: Ball| ball_after_wall(b, old(world).boundary_radius as int, g as int, dt as int),
        ),
{
    let r = world.boundary_radius;
    let n = world.balls.len();
    let mut idx: usize = 0;
    while idx < n
        invariant
            0 <= idx <= n,
            n == world.balls@.len(),
            world.balls@.len() == old(world).balls@.len(),
            world.boundary_radius == old(world).boundary_radius,
            r == world.boundary_radius,
            world.wf(),
            0 < dt <= SCALE,
            0 <= g <= COORD_LIMIT,
            forall|j: int|
                0 <= j < idx ==> world.balls@[j] == ball_after_wall(
                    old(world).balls@[j],
                    old(world).boundary_radius as int,
                    g as int,
                    dt as int,
                ),
            forall|j: int| idx <= j < n ==> world.balls@[j] == old(world).balls@[j],
        decreases n - idx,
    {
        let mut b = world.balls[idx];
        advance_ball_wall(&mut b, r, g, dt);
        world.balls[idx] = b;
        idx = idx + 1;
    }
    proof {
        assert(world.balls@ =~= old(world).balls@.map_values(
            |b: Ball| ball_after_wall(b, old(world).boundary_radius as int, g as int, dt as int),
        ));
    }
}

// ---------------------------------------------------------------------------
// Pairwise ball-ball collision: positional de-penetration plus an impulse
// along the contact normal, with an area-proportional (r²) mass model.
// ---------------------------------------------------------------------------

/// Fraction of the excess overlap removed per resolver pass (~0.8 of SCALE),
/// deliberately below 1 so iterated contacts settle instead of overshooting.
pub const CORRECTION_PERCENT: i64 = 52429;

/// Overlap (in fixed-point units, ~0.01 world units) below which positional
/// correction is skipped, to avoid jitter on negligible penetration.
pub const SLOP: i64 = 655;

/// Squared center distance of a pair.
pub open spec fn pair_dist2(a: Ball, b: Ball) -> int {
    let dx = b.pos.0 - a.pos.0;
    let dy = b.pos.1 - a.pos.1;
    dx * dx + dy * dy
}

/// Sum of the radii of a pair.
pub open spec fn pair_rsum(a: Ball, b: Ball) -> int {
    a.radius + b.radius
}

/// The circles of the two balls overlap.
pub open spec fn pair_overlapping(a: Ball, b: Ball) -> bool {
    pair_dist2(a, b) < pair_rsum(a, b) * pair_rsum(a, b)
}

/// Center distance, floored at 1: the guard against dividing by a zero
/// distance when two centers coincide.
pub open spec fn pair_dist(a: Ball, b: Ball) -> int {
    let d0 = isqrt_spec(pair_dist2(a, b));
    if d0 >= 1 {
        d0
    } else {
        1
    }
}

/// Contact normal from `a` to `b`, scaled by `SCALE`.
pub open spec fn pair_normal(a: Ball, b: Ball) -> (int, int) {
    (
        tdiv((b.pos.0 - a.pos.0) * SCALE, pair_dist(a, b)),
        tdiv((b.pos.1 - a.pos.1) * SCALE, pair_dist(a, b)),
    )
}

/// Half of the corrected penetration each ball is pushed along the normal:
/// only the overlap beyond `SLOP` is corrected, scaled by
/// `CORRECTION_PERCENT`, and split evenly between the two balls.
pub open spec fn pair_correction(a: Ball, b: Ball) -> int {
    let pen = pair_rsum(a, b) - pair_dist(a, b);
    let raw = if pen - SLOP >= 0 {
        pen - SLOP
    } else {
        0
    };
    tdiv(fmul(raw, CORRECTION_PERCENT as int), 2)
}

/// Relative velocity of the pair along the contact normal.
pub open spec fn pair_vn(a: Ball, b: Ball) -> int {
    let n = pair_normal(a, b);
    tdiv((b.vel.0 - a.vel.0) * n.0 + (b.vel.1 - a.vel.1) * n.1, SCALE as int)
}

/// One pairwise resolution: nothing for separated (or out-of-range) balls;
/// positional correction for every overlapping pair; an impulse along the
/// normal, weighted by the r²-proportional masses, unless the pair is
/// already separating (`vn > 0`; a pair exactly at rest, `vn == 0`, still
/// takes the — then zero — impulse and counts as a collision).
pub open spec fn resolve_pair(a: Ball, b: Ball, e: int) -> (Ball, Ball) {
    if !a.in_range() || !b.in_range() || !pair_overlapping(a, b) {
        (a, b)
    } else {
        let n = pair_normal(a, b);
        let c2 = pair_correction(a, b);
        let a1 = Ball {
            pos: ((a.pos.0 - fmul(n.0, c2)) as i64, (a.pos.1 - fmul(n.1, c2)) as i64),
            ..a
        };
        let b1 = Ball {
            pos: ((b.pos.0 + fmul(n.0, c2)) as i64, (b.pos.1 + fmul(n.1, c2)) as i64),
            ..b
        };
        let vn = pair_vn(a, b);
        if vn > 0 {
            (a1, b1)
        } else {
            let ma = fmul(a.radius as int, a.radius as int);
            let mb = fmul(b.radius as int, b.radius as int);
            let wa = tdiv(mb * SCALE, ma + mb);
            let wb = tdiv(ma * SCALE, ma + mb);
            let k = fmul(SCALE + e, -vn);
            let ja = fmul(k, wa);
            let jb = fmul(k, wb);
            let a2 = Ball {
                vel: ((a.vel.0 - fmul(ja, n.0)) as i64, (a.vel.1 - fmul(ja, n.1)) as i64),
                ..a1
            };
            let b2 = Ball {
                vel: ((b.vel.0 + fmul(jb, n.0)) as i64, (b.vel.1 + fmul(jb, n.1)) as i64),
                ..b1
            };
            (a2.with_hit(), b2.with_hit())
        }
    }
}

/// Resolve ball `i` against balls `j, j+1, ...` in order.
pub open spec fn collide_row(s: Seq<Ball>, e: int, i: int, j: int) -> Seq<Ball>
    decreases s.len() - j,
{
    if j < 0 || j >= s.len() || i < 0 || i >= s.len() {
        s
    } else {
        let p = resolve_pair(s[i], s[j], e);
        collide_row(s.update(i, p.0).update(j, p.1), e, i, j + 1)
    }
}

/// A row keeps the number of balls.
pub proof fn lemma_collide_row_len(s: Seq<Ball>, e: int, i: int, j: int)
    ensures
        collide_row(s, e, i, j).len() == s.len(),
    decreases s.len() - j,
{
    if !(j < 0 || j >= s.len() || i < 0 || i >= s.len()) {
        let p = resolve_pair(s[i], s[j], e);
        lemma_collide_row_len(s.update(i, p.0).update(j, p.1), e, i, j + 1);
    }
}

/// Resolve all unordered pairs in index order: row `i` pairs ball `i` with
/// every later ball, later rows see the updated states.
pub open spec fn collide_rows(s: Seq<Ball>, e: int, i: int) -> Seq<Ball>
    decreases s.len() - i,
    via collide_rows_decreases
{
    if i < 0 || i >= s.len() {
        s
    } else {
        collide_rows(collide_row(s, e, i, i + 1), e, i + 1)
    }
}

#[via_fn]
proof fn collide_rows_decreases(s: Seq<Ball>, e: int, i: int) {
    if !(i < 0 || i >= s.len()) {
        lemma_collide_row_len(s, e, i, i + 1);
    }
}

/// One full brute-force pass over all unordered pairs.
pub open spec fn collide_spec(s: Seq<Ball>, e: int) -> Seq<Ball> {
    collide_rows(s, e, 0)
}

/// Executable single-pair resolution, exactly `resolve_pair`.
fn resolve_pair_exec(a: Ball, b: Ball, e: i64) -> (r: (Ball, Ball))
    requires
        0 <= e <= SCALE,
    ensures
        r == resolve_pair(a, b, e as int),
{
    if !a.check_in_range() || !b.check_in_range() {
        return (a, b);
    }
    let dx = b.pos.0 - a.pos.0;
    let dy = b.pos.1 - a.pos.1;
    proof {
        lemma_mul_bound(dx as int, 536870912, dx as int, 536870912);
        lemma_mul_bound(dy as int, 536870912, dy as int, 536870912);
        assert(dx as int * dx as int >= 0 && dy as int * dy as int >= 0) by (nonlinear_arith);
        lemma_mul_bound(pair_rsum(a, b), 536870912, pair_rsum(a, b), 536870912);
    }
    let dist2 = dx * dx + dy * dy;
    let rsum = a.radius + b.radius;
    if dist2 >= rsum * rsum {
        return (a, b);
    }
    let d0 = isqrt(dist2 as u64);
    proof {
        assert(d0 < 0x4000_0000u64) by (nonlinear_arith)
            requires
                d0 as int * d0 as int <= dist2 as int,
                (dist2 as int) < 0x1000_0000_0000_0000;
        lemma_component_le_isqrt(dx as int, dy as int, d0 as int);
    }
    let dist: i64 = if d0 >= 1 {
        d0 as i64
    } else {
        1
    };
    proof {
        lemma_mul_bound(dx as int, dist as int, SCALE as int, SCALE as int);
        lemma_tdiv_bound(dx as int * SCALE as int, SCALE as int, dist as int);
        lemma_mul_bound(dy as int, dist as int, SCALE as int, SCALE as int);
        lemma_tdiv_bound(dy as int * SCALE as int, SCALE as int, dist as int);
    }
    let nx = div_pos(dx * SCALE, dist);
    let ny = div_pos(dy * SCALE, dist);
    let pen = rsum - dist;
    let raw: i64 = if pen - SLOP >= 0 {
        pen - SLOP
    } else {
        0
    };
    proof {
        lemma_mul_bound(raw as int, 1073741824, CORRECTION_PERCENT as int, SCALE as int);
        lemma_tdiv_bound(raw as int * CORRECTION_PERCENT as int, 1073741824, SCALE as int);
        lemma_tdiv_bound(fmul(raw as int, CORRECTION_PERCENT as int), 1073741824, 2);
    }
    let corr = mul_fp(raw, CORRECTION_PERCENT);
    let c2 = div_pos(corr, 2);
    proof {
        lemma_mul_bound(nx as int, SCALE as int, c2 as int, 1073741824);
        lemma_tdiv_bound(nx as int * c2 as int, 1073741824, SCALE as int);
        lemma_mul_bound(ny as int, SCALE as int, c2 as int, 1073741824);
        lemma_tdiv_bound(ny as int * c2 as int, 1073741824, SCALE as int);
    }
    let sx = mul_fp(nx, c2);
    let sy = mul_fp(ny, c2);
    let a1 = Ball { pos: (a.pos.0 - sx, a.pos.1 - sy), ..a };
    let b1 = Ball { pos: (b.pos.0 + sx, b.pos.1 + sy), ..b };
    let rvx = b.vel.0 - a.vel.0;
    let rvy = b.vel.1 - a.vel.1;
    proof {
        lemma_mul_bound(rvx as int, 536870912, nx as int, SCALE as int);
        lemma_mul_bound(rvy as int, 536870912, ny as int, SCALE as int);
        lemma_tdiv_bound(
            rvx as int * nx as int + rvy as int * ny as int,
            1073741824,
            SCALE as int,
        );
    }
    let vn = div_pos(rvx * nx + rvy * ny, SCALE);
    if vn > 0 {
        return (a1, b1);
    }
    proof {
        lemma_mul_bound(a.radius as int, COORD_LIMIT as int, a.radius as int, COORD_LIMIT as int);
        lemma_mul_bound(b.radius as int, COORD_LIMIT as int, b.radius as int, COORD_LIMIT as int);
        assert(a.radius as int * a.radius as int >= 65536
            && b.radius as int * b.radius as int >= 65536) by (nonlinear_arith)
            requires
                a.radius >= 256,
                b.radius >= 256;
        lemma_tdiv_bound(a.radius as int * a.radius as int, 1099511627776, SCALE as int);
        lemma_tdiv_bound(b.radius as int * b.radius as int, 1099511627776, SCALE as int);
        lemma_tdiv_ge(a.radius as int * a.radius as int, 1, SCALE as int);
        lemma_tdiv_ge(b.radius as int * b.radius as int, 1, SCALE as int);
    }
    let ma = mul_fp(a.radius, a.radius);
    let mb = mul_fp(b.radius, b.radius);
    let msum = ma + mb;
    proof {
        lemma_mul_bound(mb as int, msum as int, SCALE as int, SCALE as int);
        lemma_tdiv_bound(mb as int * SCALE as int, SCALE as int, msum as int);
        lemma_tdiv_le_self(mb as int * SCALE as int, msum as int);
        lemma_mul_bound(ma as int, msum as int, SCALE as int, SCALE as int);
        lemma_tdiv_bound(ma as int * SCALE as int, SCALE as int, msum as int);
        lemma_tdiv_le_self(ma as int * SCALE as int, msum as int);
    }
    let wa = div_pos(mb * SCALE, msum);
    let wb = div_pos(ma * SCALE, msum);
    proof {
        lemma_mul_bound(SCALE as int + e as int, 131072, -(vn as int), 1073741824);
        lemma_tdiv_bound((SCALE as int + e as int) * -(vn as int), 2147483648, SCALE as int);
    }
    let k = mul_fp(SCALE + e, -vn);
    proof {
        lemma_mul_bound(k as int, 2147483648, wa as int, SCALE as int);
        lemma_tdiv_bound(k as int * wa as int, 2147483648, SCALE as int);
        lemma_mul_bound(k as int, 2147483648, wb as int, SCALE as int);
        lemma_tdiv_bound(k as int * wb as int, 2147483648, SCALE as int);
    }
    let ja = mul_fp(k, wa);
    let jb = mul_fp(k, wb);
    proof {
        lemma_mul_bound(ja as int, 2147483648, nx as int, SCALE as int);
        lemma_tdiv_bound(ja as int * nx as int, 2147483648, SCALE as int);
        lemma_mul_bound(ja as int, 2147483648, ny as int, SCALE as int);
        lemma_tdiv_bound(ja as int * ny as int, 2147483648, SCALE as int);
        lemma_mul_bound(jb as int, 2147483648, nx as int, SCALE as int);
        lemma_tdiv_bound(jb as int * nx as int, 2147483648, SCALE as int);
        lemma_mul_bound(jb as int, 2147483648, ny as int, SCALE as int);
        lemma_tdiv_bound(jb as int * ny as int, 2147483648, SCALE as int);
    }
    let a2 = Ball {
        vel: (a.vel.0 - mul_fp(ja, nx), a.vel.1 - mul_fp(ja, ny)),
        hits: if a.hits < u32::MAX {
            a.hits + 1
        } else {
            a.hits
        },
        ..a1
    };
    let b2 = Ball {
        vel: (b.vel.0 + mul_fp(jb, nx), b.vel.1 + mul_fp(jb, ny)),
        hits: if b.hits < u32::MAX {
            b.hits + 1
        } else {
            b.hits
        },
        ..b1
    };
    (a2, b2)
}

/// One brute-force pass of pairwise collision resolution over all unordered
/// pairs of distinct balls, in index order. Exactly `collide_spec`.
pub fn collide_balls(world: &mut World, restitution: i64)
    requires
        0 <= restitution <= SCALE,
    ensures
        final(world).boundary_radius == old(world).boundary_radius,
        final(world).balls@ == collide_spec(old(world).balls@, restitution as int),
{
    let n = world.balls.len();
    let mut i: usize = 0;
    proof {
        assert(collide_spec(old(world).balls@, restitution as int) == collide_rows(
            world.balls@,
            restitution as int,
            0,
        ));
    }
    while i < n
        invariant
            0 <= i <= n,
            n == world.balls@.len(),
            world.boundary_radius == old(world).boundary_radius,
            0 <= restitution <= SCALE,
            collide_spec(old(world).balls@, restitution as int) == collide_rows(
                world.balls@,
                restitution as int,
                i as int,
            ),
        decreases n - i,
    {
        let mut j: usize = i + 1;
        proof {
            lemma_collide_row_len(world.balls@, restitution as int, i as int, i as int + 1);
            assert(collide_rows(world.balls@, restitution as int, i as int) == collide_rows(
                collide_row(world.balls@, restitution as int, i as int, i as int + 1),
                restitution as int,
                i as int + 1,
            ));
        }
        let ghost row_start = world.balls@;
        while j < n
            invariant
                i < j <= n,
                i < n,
                n == world.balls@.len(),
                world.boundary_radius == old(world).boundary_radius,
                0 <= restitution <= SCALE,
                collide_row(row_start, restitution as int, i as int, i as int + 1)
                    == collide_row(world.balls@, restitution as int, i as int, j as int),
            decreases n - j,
        {
            let a = world.balls[i];
            let b = world.balls[j];
            let p = resolve_pair_exec(a, b, restitution);
            world.balls[i] = p.0;
            world.balls[j] = p.1;
            j = j + 1;
        }
        proof {
            assert(collide_row(world.balls@, restitution as int, i as int, n as int)
                == world.balls@);
        }
        i = i + 1;
    }
}

// ---------------------------------------------------------------------------
// Step driver.
// ---------------------------------------------------------------------------

/// One fixed physics tick: continuous boundary-aware integration of every
/// ball, then one pairwise resolution pass.
pub open spec fn tick_spec(balls: Seq<Ball>, rb: int, g: int, dt: int, e: int) -> Seq<Ball> {
    collide_spec(balls.map_values(|b: Ball| ball_after_wall(b, rb, g, dt)), e)
}

/// `n` fixed physics ticks in a row.
pub open spec fn run_spec(balls: Seq<Ball>, rb: int, g: int, dt: int, e: int, n: nat) -> Seq<
    Ball,
>
    decreases n,
{
    if n == 0 {
        balls
    } else {
        run_spec(tick_spec(balls, rb, g, dt, e), rb, g, dt, e, (n - 1) as nat)
    }
}

/// Drive one fixed physics tick of length `dt`: gravity plus continuous
/// wall-aware integration per ball, then one pairwise resolver pass.
/// Exactly `tick_spec`.
pub fn step_world(world: &mut World, dt: i64, g: i64, restitution: i64)
    requires
        old(world).wf(),
        0 < dt <= SCALE,
        0 <= g <= COORD_LIMIT,
        0 <= restitution <= SCALE,
    ensures
        final(world).boundary_radius == old(world).boundary_radius,
        final(world).wf(),
        final(world).balls@ == tick_spec(
            old(world).balls@,
            old(world).boundary_radius as int,
            g as int,
            dt as int,
            restitution as int,
        ),
{
    advance_and_commit(world, dt, g);
    collide_balls(world, restitution);
}

} // verus!
