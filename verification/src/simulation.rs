//! Whole-simulation state: the population buffer and frame timing. The host
//! drives this from its animation loop; everything here is one synchronous
//! step per call.

use crate::boid::{bviews, bwf, spawned_from_units, update_all_spec, Boid};
use crate::math::MEAN_MAX_LEN;
use crate::settings::{swf, Settings};
use vstd::prelude::*;

verus! {

/// The running simulation: the population of boids, owned exclusively here,
/// and the timestamp of the last processed frame.
#[derive(Debug)]
pub struct Simulation {
    pub boids: Vec<Boid>,
    pub last_timestamp_ms: i64,
}

/// Every boid is well-formed, the population is small enough for the
/// reducers, and the frame clock is non-negative.
pub open spec fn sim_wf(sim: Simulation) -> bool {
    &&& sim.boids@.len() <= MEAN_MAX_LEN
    &&& forall|j: int| 0 <= j < sim.boids@.len() ==> bwf(#[trigger] sim.boids@[j]@)
    &&& 0 <= sim.last_timestamp_ms
}

/// Draw a whole population of `settings.boids` fresh random agents: every
/// element is a spawn of the unit-draw construction under these settings.
pub fn random_population(settings: &Settings) -> (r: Vec<Boid>)
    requires
        swf(settings@),
        settings@.boids <= MEAN_MAX_LEN,
    ensures
        r@.len() == settings@.boids,
        forall|j: int| 0 <= j < r@.len() ==> bwf(#[trigger] r@[j]@),
        forall|j: int| 0 <= j < r@.len() ==> spawned_from_units(#[trigger] r@[j]@, settings@),
{
    let mut r: Vec<Boid> = Vec::new();
    let mut i: usize = 0;
    while i < settings.boids
        invariant
            swf(settings@),
            i <= settings@.boids,
            r@.len() == i,
            forall|j: int| 0 <= j < r@.len() ==> bwf(#[trigger] r@[j]@),
            forall|j: int| 0 <= j < r@.len() ==> spawned_from_units(#[trigger] r@[j]@, settings@),
        decreases settings@.boids - i,
    {
        r.push(Boid::new_random(settings));
        i = i + 1;
    }
    r
}

impl Simulation {
    /// Create a simulation with `settings.boids` freshly drawn agents and a
    /// frame clock at zero.
    pub fn create(settings: &Settings) -> (r: Self)
        requires
            swf(settings@),
            settings@.boids <= MEAN_MAX_LEN,
        ensures
            r.boids@.len() == settings@.boids,
            forall|j: int| 0 <= j < r.boids@.len() ==> spawned_from_units(#[trigger] r.boids@[j]@,
                settings@),
            r.last_timestamp_ms == 0,
            sim_wf(r),
    {
        Simulation { boids: random_population(settings), last_timestamp_ms: 0 }
    }

    /// Replace the whole population with freshly drawn agents to the new
    /// target size; nothing of the old population survives: every element of
    /// the new buffer is a fresh spawn under the new settings.
    pub fn changed(&mut self, settings: &Settings)
        requires
            swf(settings@),
            settings@.boids <= MEAN_MAX_LEN,
            sim_wf(*old(self)),
        ensures
            final(self).boids@.len() == settings@.boids,
            forall|j: int| 0 <= j < final(self).boids@.len() ==> spawned_from_units(
                #[trigger] final(self).boids@[j]@, settings@),
            final(self).last_timestamp_ms == old(self).last_timestamp_ms,
            sim_wf(*final(self)),
    {
        self.boids = random_population(settings);
    }

    /// Advance the simulation to the frame at `timestamp_ms`: unless paused,
    /// step every boid by the time elapsed since the last processed frame.
    /// Returns whether a step was taken.
    pub fn update(&mut self, settings: &Settings, timestamp_ms: i64, paused: bool) -> (stepped:
        bool)
        requires
            swf(settings@),
            sim_wf(*old(self)),
            old(self).last_timestamp_ms <= timestamp_ms,
        ensures
            stepped == !paused,
            paused ==> final(self).boids@ == old(self).boids@ && final(self).last_timestamp_ms
                == old(self).last_timestamp_ms,
            !paused ==> bviews(final(self).boids@) == update_all_spec(bviews(old(self).boids@),
                settings@, timestamp_ms - old(self).last_timestamp_ms)
                && final(self).last_timestamp_ms == timestamp_ms,
            sim_wf(*final(self)),
    {
        if paused {
            false
        } else {
            let dt = timestamp_ms - self.last_timestamp_ms;
            self.last_timestamp_ms = timestamp_ms;
            Boid::update_all(settings, &mut self.boids, dt);
            true
        }
    }
}

} // verus!
