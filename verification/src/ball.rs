//! The body model: a rigid, non-rotating circular ball.

use vstd::prelude::*;

verus! {

/// Largest coordinate / velocity / radius magnitude (in fixed-point units)
/// that the kernel's arithmetic is proved not to overflow on.
pub const COORD_LIMIT: i64 = 268435456;

/// Smallest radius a ball may carry, so that the r²-derived mass used by the
/// impulse math never degenerates to zero.
pub const MIN_RADIUS: i64 = 256;

/// A ball: center position, velocity, radius (all fixed-point world units),
/// a diagnostic collision counter and a cosmetic hue tag in `[0, 1)`.
#[derive(Clone, Copy, PartialEq, Eq, Debug)]
pub struct Ball {
    pub pos: (i64, i64),
    pub vel: (i64, i64),
    pub radius: i64,
    pub hits: u32,
    pub hue: i64,
}

impl Ball {
    /// The ball lies within the fixed-point working range of the kernel.
    /// Balls outside it are left untouched by the physics routines, the
    /// integer analogue of refusing to let NaN or infinity corrupt a step.
    pub open spec fn in_range(self) -> bool {
        &&& -COORD_LIMIT <= self.pos.0 <= COORD_LIMIT
        &&& -COORD_LIMIT <= self.pos.1 <= COORD_LIMIT
        &&& -COORD_LIMIT <= self.vel.0 <= COORD_LIMIT
        &&& -COORD_LIMIT <= self.vel.1 <= COORD_LIMIT
        &&& MIN_RADIUS <= self.radius <= COORD_LIMIT
    }

    /// The ball after one more recorded collision (the counter saturates).
    pub open spec fn with_hit(self) -> Ball {
        Ball {
            hits: if self.hits < u32::MAX {
                (self.hits + 1) as u32
            } else {
                self.hits
            },
            ..self
        }
    }

    /// The radius clamped into the working range at construction.
    pub open spec fn clamped_radius(radius: i64) -> i64 {
        if radius < MIN_RADIUS {
            MIN_RADIUS
        } else if radius > COORD_LIMIT {
            COORD_LIMIT
        } else {
            radius
        }
    }

    /// Construct a ball with no collisions recorded; the radius is clamped
    /// into the working range so a degenerate radius can never reach the
    /// impulse math.
    pub fn new(pos: (i64, i64), vel: (i64, i64), radius: i64, hue: i64) -> (b: Ball)
        ensures
            b.pos == pos,
            b.vel == vel,
            b.radius == Ball::clamped_radius(radius),
            b.hits == 0,
            b.hue == hue,
    {
        let r: i64 = if radius < MIN_RADIUS {
            MIN_RADIUS
        } else if radius > COORD_LIMIT {
            COORD_LIMIT
        } else {
            radius
        };
        Ball { pos, vel, radius: r, hits: 0, hue }
    }

    /// Runtime test for `in_range`, for callers outside verified code.
    pub fn check_in_range(&self) -> (r: bool)
        ensures
            r == self.in_range(),
    {
        -COORD_LIMIT <= self.pos.0 && self.pos.0 <= COORD_LIMIT
            && -COORD_LIMIT <= self.pos.1 && self.pos.1 <= COORD_LIMIT
            && -COORD_LIMIT <= self.vel.0 && self.vel.0 <= COORD_LIMIT
            && -COORD_LIMIT <= self.vel.1 && self.vel.1 <= COORD_LIMIT
            && MIN_RADIUS <= self.radius && self.radius <= COORD_LIMIT
    }

}

} // verus!
