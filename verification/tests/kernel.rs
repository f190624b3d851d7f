//! Scenario tests for the fixed-point physics kernel.

use ball_sim::ball::Ball;
use ball_sim::fxp::{isqrt, SCALE};
use ball_sim::physics::{advance_and_commit, collide_balls, gravity_down, integrate, step_world};
use ball_sim::world::World;

const RESTITUTION: i64 = 58982; // ~0.9 in fixed point

fn fp(units: f64) -> i64 {
    (units * SCALE as f64).round() as i64
}

fn ball(px: f64, py: f64, vx: f64, vy: f64, radius: f64) -> Ball {
    Ball::new((fp(px), fp(py)), (fp(vx), fp(vy)), fp(radius), 0)
}

fn world_with(boundary: f64, balls: Vec<Ball>) -> World {
    let mut w = World::new(fp(boundary));
    w.balls = balls;
    w
}

fn speed(b: &Ball) -> f64 {
    let vx = b.vel.0 as f64 / SCALE as f64;
    let vy = b.vel.1 as f64 / SCALE as f64;
    (vx * vx + vy * vy).sqrt()
}

fn center_dist(b: &Ball) -> f64 {
    let x = b.pos.0 as f64 / SCALE as f64;
    let y = b.pos.1 as f64 / SCALE as f64;
    (x * x + y * y).sqrt()
}

#[test]
fn isqrt_exact_values() {
    assert_eq!(isqrt(0), 0);
    assert_eq!(isqrt(1), 1);
    assert_eq!(isqrt(2), 1);
    assert_eq!(isqrt(3), 1);
    assert_eq!(isqrt(4), 2);
    assert_eq!(isqrt(983040 * 983040), 983040);
    assert_eq!(isqrt(983040 * 983040 + 1), 983040);
    assert_eq!(isqrt(u64::MAX), 4294967295);
}

#[test]
fn world_new_seeds_one_ball() {
    let w = World::new(fp(320.0));
    assert_eq!(w.boundary_radius, 320 * SCALE);
    assert_eq!(w.balls.len(), 1);
    let b = &w.balls[0];
    assert_eq!(b.pos, (50 * SCALE, 0));
    assert_eq!(b.vel, (600 * SCALE, 150 * SCALE));
    assert_eq!(b.radius, 10 * SCALE);
    assert_eq!(b.hits, 0);
}

#[test]
fn ball_new_clamps_degenerate_radius() {
    let b = Ball::new((0, 0), (0, 0), 0, 0);
    assert!(b.radius >= 1);
    let c = Ball::new((0, 0), (0, 0), -5, 0);
    assert!(c.radius >= 1);
}

/// One ball, radius 10, arena radius 320, position (50, 0), velocity
/// (600, 150), no gravity, dt = 1/120: crossing the wall once gives exactly
/// one hit-count increment and preserves speed within 1e-3 relative.
#[test]
fn wall_bounce_conserves_speed() {
    let mut w = world_with(320.0, vec![ball(50.0, 0.0, 600.0, 150.0, 10.0)]);
    let dt = SCALE / 120;
    let speed_before = speed(&w.balls[0]);
    let mut ticks = 0;
    while w.balls[0].hits == 0 && ticks < 400 {
        advance_and_commit(&mut w, dt, 0);
        ticks += 1;
    }
    assert_eq!(w.balls[0].hits, 1, "expected exactly one wall hit");
    let speed_after = speed(&w.balls[0]);
    assert!(
        (speed_after - speed_before).abs() / speed_before < 1e-3,
        "speed changed across the bounce: {} -> {}",
        speed_before,
        speed_after
    );
}

/// Containment: across many ticks under gravity, every completed tick ends
/// with distance(pos, origin) + radius <= boundary + a small tolerance.
#[test]
fn containment_under_gravity() {
    let mut w = world_with(320.0, vec![ball(0.0, -200.0, 300.0, 400.0, 10.0)]);
    let dt = SCALE / 120;
    let g = fp(1000.0);
    let eps = 0.5; // world units of numerical tolerance
    for _ in 0..600 {
        step_world(&mut w, dt, g, RESTITUTION);
        let b = &w.balls[0];
        assert!(
            center_dist(b) + 10.0 <= 320.0 + eps,
            "ball escaped the arena: dist {}",
            center_dist(b)
        );
    }
    assert!(w.balls[0].hits > 0, "the ball should have hit the wall");
}

/// No tunneling: a ball fast enough to cross the whole arena in one naive
/// step is still caught and reflected by the time-of-impact search.
#[test]
fn fast_ball_does_not_tunnel() {
    // 1300 world units/s for half a second crosses the 640-unit arena.
    let mut w = world_with(320.0, vec![ball(0.0, 0.0, 1300.0, 0.0, 10.0)]);
    let dt = SCALE / 2;
    advance_and_commit(&mut w, dt, 0);
    let b = &w.balls[0];
    assert_eq!(b.hits, 1, "the wall hit was missed");
    assert!(b.vel.0 < 0, "velocity was not reflected");
    assert!(
        center_dist(b) + 10.0 <= 320.0 + 0.5,
        "ball tunneled out: dist {}",
        center_dist(b)
    );
}

/// Two balls of radius 10 with centers 15 apart (overlapping by 5) at rest:
/// one resolver pass only separates them (vn == 0 takes the then-zero
/// impulse), with the exact fixed-point positions pinned.
#[test]
fn resting_overlap_separates_without_velocity() {
    let a = ball(0.0, 0.0, 0.0, 0.0, 10.0);
    let b = Ball::new((15 * SCALE, 0), (0, 0), 10 * SCALE, 0);
    let mut w = world_with(320.0, vec![a, b]);
    collide_balls(&mut w, RESTITUTION);
    let (a1, b1) = (&w.balls[0], &w.balls[1]);
    assert_eq!(a1.pos, (-130810, 0));
    assert_eq!(b1.pos, (15 * SCALE + 130810, 0));
    assert!(b1.pos.0 - a1.pos.0 > 15 * SCALE, "separation did not grow");
    assert!(b1.pos.0 - a1.pos.0 <= 20 * SCALE, "separation overshot");
    assert_eq!(a1.vel, (0, 0), "a resting pair must take no impulse");
    assert_eq!(b1.vel, (0, 0), "a resting pair must take no impulse");
    // vn == 0 is not treated as separating: the (zero) impulse path runs
    // and the contact is counted.
    assert_eq!(a1.hits, 1);
    assert_eq!(b1.hits, 1);
}

/// A pair already moving apart (vn > 0) gets positional correction but no
/// velocity impulse and no hit count.
#[test]
fn separating_pair_gets_no_impulse() {
    let a = ball(0.0, 0.0, -100.0, 0.0, 10.0);
    let b = ball(15.0, 0.0, 100.0, 0.0, 10.0);
    let mut w = world_with(320.0, vec![a, b]);
    collide_balls(&mut w, RESTITUTION);
    let (a1, b1) = (&w.balls[0], &w.balls[1]);
    assert_eq!(a1.vel, (fp(-100.0), 0));
    assert_eq!(b1.vel, (fp(100.0), 0));
    assert_eq!(a1.hits, 0);
    assert_eq!(b1.hits, 0);
    assert!(b1.pos.0 - a1.pos.0 > 15 * SCALE, "positions were not corrected");
}

/// An approaching overlapping pair: the impulse reverses the normal
/// relative velocity, leaves the tangential relative velocity unchanged,
/// and the pass reduces the overlap.
#[test]
fn approaching_pair_impulse_along_normal() {
    let a = ball(0.0, 0.0, 100.0, 20.0, 10.0);
    let b = ball(15.0, 0.0, -60.0, 90.0, 10.0);
    let mut w = world_with(320.0, vec![a.clone(), b.clone()]);
    let sep_before = b.pos.0 - a.pos.0;
    let tangential_before = b.vel.1 - a.vel.1;
    collide_balls(&mut w, RESTITUTION);
    let (a1, b1) = (&w.balls[0], &w.balls[1]);
    // The contact normal is the x axis, so y is tangential.
    assert_eq!(b1.vel.1 - a1.vel.1, tangential_before);
    // Normal relative velocity was negative (approaching); now non-negative.
    assert!(b1.vel.0 - a1.vel.0 > 0, "pair still approaching after impulse");
    // Equal radii: equal and opposite velocity changes.
    assert_eq!(a1.vel.0 - a.vel.0, -(b1.vel.0 - b.vel.0));
    assert!(b1.pos.0 - a1.pos.0 > sep_before, "overlap did not shrink");
    assert_eq!(a1.hits, 1);
    assert_eq!(b1.hits, 1);
}

/// Determinism: identical initial states, dt and gravity give bit-identical
/// states after many ticks.
#[test]
fn repeated_runs_are_identical() {
    let balls = vec![
        ball(50.0, 0.0, 600.0, 150.0, 10.0),
        ball(-80.0, 40.0, -200.0, 90.0, 14.0),
        ball(0.0, -150.0, 120.0, -300.0, 8.0),
    ];
    let mut w1 = world_with(320.0, balls.clone());
    let mut w2 = world_with(320.0, balls);
    let dt = SCALE / 120;
    let g = fp(1000.0);
    for _ in 0..200 {
        step_world(&mut w1, dt, g, RESTITUTION);
        step_world(&mut w2, dt, g, RESTITUTION);
    }
    assert_eq!(w1.balls, w2.balls);
}

/// Plain integration moves a ball by exactly vel * dt, and gravity lowers
/// vy by exactly g * dt.
#[test]
fn euler_helpers_exact() {
    let mut w = world_with(320.0, vec![ball(1.0, 2.0, 120.0, -60.0, 10.0)]);
    integrate(&mut w, SCALE / 2);
    assert_eq!(w.balls[0].pos, (fp(1.0) + fp(60.0), fp(2.0) - fp(30.0)));
    gravity_down(&mut w, fp(1000.0), SCALE / 4);
    assert_eq!(w.balls[0].vel, (fp(120.0), fp(-60.0) - fp(250.0)));
}

/// A ball whose radius exceeds the arena has its center-travel radius
/// clamped to zero: starting at the origin it bounces immediately (with the
/// degenerate-normal fallback (1, 0)) instead of dividing by zero.
#[test]
fn oversized_ball_bounces_at_origin() {
    let mut w = world_with(100.0, vec![ball(0.0, 0.0, 50.0, 0.0, 200.0)]);
    let dt = SCALE / 120;
    advance_and_commit(&mut w, dt, 0);
    let b = &w.balls[0];
    assert_eq!(b.hits, 1);
    assert_eq!(b.vel, (fp(-50.0), 0));
}
