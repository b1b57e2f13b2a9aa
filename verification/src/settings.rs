//! Tunable simulation parameters, read-only during one update step.

use crate::math::LIM;
use vstd::prelude::*;

verus! {

/// Model of a settings snapshot: every scalar field as a mathematical integer.
pub ghost struct SettingsModel {
    pub boids: int,
    pub visible_range: int,
    pub min_distance: int,
    pub max_speed: int,
    pub cohesion_factor: int,
    pub separation_factor: int,
    pub alignment_factor: int,
    pub turn_speed_ratio: int,
    pub border_margin: int,
    pub color_adapt_factor: int,
}

/// User-tunable simulation parameters. All scalar fields are fixed-point
/// (value times [`crate::math::SCALE`]).
#[derive(Clone, Copy, Debug, PartialEq, Eq, Structural)]
pub struct Settings {
    /// Number of boids.
    pub boids: usize,
    /// View distance of a boid.
    pub visible_range: i64,
    /// Distance boids try to keep between each other.
    pub min_distance: i64,
    /// Max speed.
    pub max_speed: i64,
    /// Force multiplier for pulling boids together.
    pub cohesion_factor: i64,
    /// Force multiplier for separating boids.
    pub separation_factor: i64,
    /// Force multiplier for matching velocity of other boids.
    pub alignment_factor: i64,
    /// Controls turn speed to avoid leaving the boundary.
    pub turn_speed_ratio: i64,
    /// Fraction of the area size to the boundary at which a boid starts
    /// turning away.
    pub border_margin: i64,
    /// Factor for adapting the average colour of the swarm.
    pub color_adapt_factor: i64,
}

impl View for Settings {
    type V = SettingsModel;

    open spec fn view(&self) -> SettingsModel {
        SettingsModel {
            boids: self.boids as int,
            visible_range: self.visible_range as int,
            min_distance: self.min_distance as int,
            max_speed: self.max_speed as int,
            cohesion_factor: self.cohesion_factor as int,
            separation_factor: self.separation_factor as int,
            alignment_factor: self.alignment_factor as int,
            turn_speed_ratio: self.turn_speed_ratio as int,
            border_margin: self.border_margin as int,
            color_adapt_factor: self.color_adapt_factor as int,
        }
    }
}

/// Every distance, speed and factor field is non-negative and within the
/// scalar saturation range. `min_distance <= visible_range` is expected but
/// deliberately not part of well-formedness: a violation only makes
/// separation never trigger.
pub open spec fn swf(s: SettingsModel) -> bool {
    &&& 0 <= s.boids
    &&& 0 <= s.visible_range <= LIM
    &&& 0 <= s.min_distance <= LIM
    &&& 0 <= s.max_speed <= LIM
    &&& 0 <= s.cohesion_factor <= LIM
    &&& 0 <= s.separation_factor <= LIM
    &&& 0 <= s.alignment_factor <= LIM
    &&& 0 <= s.turn_speed_ratio <= LIM
    &&& 0 <= s.border_margin <= LIM
    &&& 0 <= s.color_adapt_factor <= LIM
}

/// The default parameter bundle.
pub open spec fn default_settings() -> SettingsModel {
    SettingsModel {
        boids: 300,
        visible_range: 80000000,
        min_distance: 15000000,
        max_speed: 20000000,
        cohesion_factor: 50000,
        separation_factor: 600000,
        alignment_factor: 150000,
        turn_speed_ratio: 250000,
        border_margin: 100000,
        color_adapt_factor: 50000,
    }
}

impl Default for Settings {
    /// The default parameters: 300 boids, a view range of 80 units, a minimum
    /// distance of 15 units, a maximum speed of 20 units per tick.
    fn default() -> (r: Self)
        ensures
            r@ == default_settings(),
            swf(r@),
    {
        Settings {
            boids: 300,
            visible_range: 80000000,
            min_distance: 15000000,
            max_speed: 20000000,
            cohesion_factor: 50000,
            separation_factor: 600000,
            alignment_factor: 150000,
            turn_speed_ratio: 250000,
            border_margin: 100000,
            color_adapt_factor: 50000,
        }
    }
}

} // verus!
