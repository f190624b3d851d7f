//! The world: a static circular arena and the balls inside it.

use vstd::prelude::*;
use crate::ball::{Ball, COORD_LIMIT};

verus! {

/// Starting scene, in fixed-point units of `1 / SCALE` world units.
pub const START_X: i64 = 50 * 65536;
pub const START_VX: i64 = 600 * 65536;
pub const START_VY: i64 = 150 * 65536;
pub const START_RADIUS: i64 = 10 * 65536;

/// The arena: an immutable boundary radius (fixed-point world units, arena
/// center at the origin) and the mutable, ordered collection of balls.
pub struct World {
    pub boundary_radius: i64,
    pub balls: Vec<Ball>,
}

impl World {
    /// The arena radius is positive and within the kernel's working range.
    pub open spec fn wf(self) -> bool {
        0 < self.boundary_radius <= COORD_LIMIT
    }

    /// A world with one ball at `(50, 0)` moving at `(600, 150)` world units
    /// per second, of radius `10` — the fixed starting scene.
    pub fn new(boundary_radius: i64) -> (w: World)
        requires
            0 < boundary_radius <= COORD_LIMIT,
        ensures
            w.wf(),
            w.boundary_radius == boundary_radius,
            w.balls@.len() == 1,
            w.balls@[0] == (Ball {
                pos: (START_X, 0),
                vel: (START_VX, START_VY),
                radius: START_RADIUS,
                hits: 0,
                hue: 0,
            }),
            w.balls@[0].in_range(),
    {
        let mut balls: Vec<Ball> = Vec::new();
        balls.push(Ball {
            pos: (START_X, 0),
            vel: (START_VX, START_VY),
            radius: START_RADIUS,
            hits: 0,
            hue: 0,
        });
        World { boundary_radius, balls }
    }
}

} // verus!
