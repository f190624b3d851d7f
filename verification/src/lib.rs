//! A fixed-timestep physics kernel for rigid, non-rotating circular bodies
//! ("balls") moving under constant gravity inside a static circular arena.
//!
//! All world quantities (positions, velocities, radii, times, accelerations)
//! are fixed-point integers: multiples of `1 / fxp::SCALE` of a world unit.
//! Working over integers lets every kernel routine carry an exact contract:
//! each executable function returns precisely the value of its specification
//! counterpart, so the kernel is deterministic by construction.

pub mod ball;
pub mod fxp;
pub mod laws;
pub mod physics;
pub mod world;
