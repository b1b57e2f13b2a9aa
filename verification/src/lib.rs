//! Flocking simulation core: 2D fixed-point vector and statistics utilities,
//! per-agent behavioural rules (coherence, separation, alignment, colour
//! adaptation, boundary avoidance) and whole-population orchestration.
//!
//! All scalar quantities (coordinates, speeds, angles, rule factors) are
//! fixed-point numbers: an `i64` holding the value times [`math::SCALE`].
//! Angles are fixed-point radians; the circle constants [`math::PI_FP`] and
//! [`math::TAU_FP`] are the library's own units for half and full turns.

pub mod boid;
pub mod math;
pub mod settings;
pub mod simulation;
