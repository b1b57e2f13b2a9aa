//! One flocking agent and the per-step update rules: colour adaptation,
//! coherence, separation, alignment, speed clamping, boundary avoidance and
//! position integration, plus the whole-population orchestration.

use crate::math::{
    absi, clamped, fmul, fp_mul, from_polar_spec, lemma_fmul_nonneg, lemma_tdiv_nonneg, magsq, sab,
    sadd, sat_add, sat_sub, smallest_angle_between, ssub, tdiv, tdiv128, vadd, vclamp, vmag, vmul,
    vneg, vsub, vsum, vwf, vzero, Mean, Vec2, Vec2Model, WeightedMean, LIM, MEAN_MAX_LEN, SCALE,
    TAU_FP,
};
use crate::settings::{swf, Settings, SettingsModel};
use vstd::prelude::*;

verus! {

/// Width of the simulation area, in fixed-point units (1600 units).
pub const SIZE_X: i64 = 1600000000;

/// Height of the simulation area, in fixed-point units (1000 units).
pub const SIZE_Y: i64 = 1000000000;

/// The factor converting a millisecond time delta into distance units:
/// 0.01 in fixed point.
pub const TIME_FACTOR: i64 = 10000;

/// A third of a turn (tau / 3) in fixed-point radians.
pub const THIRD_TAU_FP: i64 = 2094395;

/// Model of one agent's state.
pub ghost struct BoidModel {
    pub position: Vec2Model,
    pub velocity: Vec2Model,
    pub radius: int,
    pub hue: int,
}

/// One flocking agent: position and velocity in area units, a fixed radius
/// (visual size, also the coherence weight) and a hue in fixed-point radians.
#[derive(Clone, Copy, Debug, PartialEq, Eq, Structural)]
pub struct Boid {
    pub position: Vec2,
    pub velocity: Vec2,
    pub radius: i64,
    pub hue: i64,
}

impl View for Boid {
    type V = BoidModel;

    open spec fn view(&self) -> BoidModel {
        BoidModel {
            position: self.position@,
            velocity: self.velocity@,
            radius: self.radius as int,
            hue: self.hue as int,
        }
    }
}

/// All of an agent's scalars lie in the saturation range, and its radius is
/// non-negative.
pub open spec fn bwf(b: BoidModel) -> bool {
    &&& vwf(b.position)
    &&& vwf(b.velocity)
    &&& 0 <= b.radius <= LIM
    &&& -LIM <= b.hue <= LIM
}

/// Model of a visible neighbour.
pub ghost struct VisibleBoidModel {
    pub boid: BoidModel,
    pub offset: Vec2Model,
    pub distance: int,
}

/// A boid that is visible to another, together with the precomputed offset
/// from the observer and that offset's magnitude.
#[derive(Clone, Copy, Debug)]
pub struct VisibleBoid {
    pub boid: Boid,
    pub offset: Vec2,
    pub distance: i64,
}

impl View for VisibleBoid {
    type V = VisibleBoidModel;

    open spec fn view(&self) -> VisibleBoidModel {
        VisibleBoidModel { boid: self.boid@, offset: self.offset@, distance: self.distance as int }
    }
}

/// A well-formed neighbour: a well-formed boid, an in-range offset and a
/// non-negative distance.
pub open spec fn nwf(n: VisibleBoidModel) -> bool {
    &&& bwf(n.boid)
    &&& vwf(n.offset)
    &&& 0 <= n.distance <= 2199023255552
}

/// The models of a sequence of neighbours.
pub open spec fn nviews(v: Seq<VisibleBoid>) -> Seq<VisibleBoidModel> {
    v.map_values(|n: VisibleBoid| n@)
}

/// The models of a sequence of boids.
pub open spec fn bviews(v: Seq<Boid>) -> Seq<BoidModel> {
    v.map_values(|b: Boid| b@)
}

/// The neighbour entry an observer at `p` records for boid `b`.
pub open spec fn visible_entry(b: BoidModel, p: Vec2Model) -> VisibleBoidModel {
    let off = vsub(b.position, p);
    VisibleBoidModel { boid: b, offset: off, distance: vmag(off) }
}

/// The neighbours of the boid at index `skip`, looking over the first
/// `boids.len()` boids from an observer at `p`: every *other* boid whose
/// distance from `p` is at most `range`, in index order.
pub open spec fn visible_seq(boids: Seq<BoidModel>, skip: int, p: Vec2Model, range: int) -> Seq<
    VisibleBoidModel,
>
    decreases boids.len(),
{
    if boids.len() == 0 {
        Seq::empty()
    } else {
        let rest = visible_seq(boids.drop_last(), skip, p, range);
        let j = boids.len() - 1;
        if j != skip && vmag(vsub(boids.last().position, p)) <= range {
            rest.push(visible_entry(boids.last(), p))
        } else {
            rest
        }
    }
}

/// Collect the visible neighbours of the boid at index `skip`: every other
/// boid within `visible_range` of it, paired with the offset vector toward it
/// and the offset's magnitude.
pub fn visible_boids(boids: &Vec<Boid>, skip: usize, visible_range: i64) -> (r: Vec<VisibleBoid>)
    requires
        skip < boids@.len(),
        boids@.len() <= MEAN_MAX_LEN,
        forall|j: int| 0 <= j < boids@.len() ==> bwf(#[trigger] boids@[j]@),
    ensures
        nviews(r@) == visible_seq(bviews(boids@), skip as int, boids@[skip as int]@.position,
            visible_range as int),
        r@.len() <= boids@.len(),
        forall|j: int| 0 <= j < r@.len() ==> nwf(#[trigger] r@[j]@),
{
    let ghost models = bviews(boids@);
    let ghost p = boids@[skip as int]@.position;
    let pos = boids[skip].position;
    let mut r: Vec<VisibleBoid> = Vec::new();
    let mut j: usize = 0;
    while j < boids.len()
        invariant
            skip < boids@.len() <= MEAN_MAX_LEN,
            j <= boids@.len(),
            models == bviews(boids@),
            p == boids@[skip as int]@.position,
            pos@ == p,
            forall|k: int| 0 <= k < boids@.len() ==> bwf(#[trigger] boids@[k]@),
            nviews(r@) == visible_seq(models.take(j as int), skip as int, p, visible_range as int),
            r@.len() <= j,
            forall|k: int| 0 <= k < r@.len() ==> nwf(#[trigger] r@[k]@),
        decreases boids@.len() - j,
    {
        proof {
            assert(models.take(j + 1).drop_last() == models.take(j as int));
            assert(models.take(j + 1).last() == models[j as int]);
        }
        if j != skip {
            let other = boids[j];
            let offset = other.position.sub(pos);
            let distance = offset.magnitude();
            if distance <= visible_range {
                let entry = VisibleBoid { boid: other, offset, distance };
                proof {
                    assert(entry@ == visible_entry(models[j as int], p));
                    assert(nviews(r@.push(entry)) =~= nviews(r@).push(entry@));
                }
                r.push(entry);
            }
        }
        j = j + 1;
    }
    proof {
        assert(models.take(boids@.len() as int) == models);
    }
    r
}

/// The `(position, radius^2)` pairs coherence averages over.
pub open spec fn coherence_pairs(ns: Seq<VisibleBoidModel>) -> Seq<(Vec2Model, int)> {
    ns.map_values(|n: VisibleBoidModel| (n.boid.position, fmul(n.boid.radius, n.boid.radius)))
}

/// Steering toward the radius-squared-weighted mean position of the visible
/// neighbours; zero when the statistic is absent.
pub open spec fn coherence_spec(b: BoidModel, ns: Seq<VisibleBoidModel>, factor: int) -> Vec2Model {
    match <Vec2 as WeightedMean>::weighted_mean_spec(coherence_pairs(ns)) {
        Some(m) => vmul(vsub(m, b.position), factor),
        None => vzero(),
    }
}

/// The negated offsets of the neighbours that are too close (distance at most
/// `min_distance`), in order.
pub open spec fn separation_offsets(ns: Seq<VisibleBoidModel>, min_distance: int) -> Seq<Vec2Model>
    decreases ns.len(),
{
    if ns.len() == 0 {
        Seq::empty()
    } else {
        let rest = separation_offsets(ns.drop_last(), min_distance);
        if ns.last().distance <= min_distance {
            rest.push(vneg(ns.last().offset))
        } else {
            rest
        }
    }
}

/// Steering directly away from every neighbour closer than the minimum
/// distance, scaled by the separation factor.
pub open spec fn separation_spec(ns: Seq<VisibleBoidModel>, s: SettingsModel) -> Vec2Model {
    vmul(vsum(separation_offsets(ns, s.min_distance)), s.separation_factor)
}

/// The neighbour velocities alignment averages over.
pub open spec fn alignment_vels(ns: Seq<VisibleBoidModel>) -> Seq<Vec2Model> {
    ns.map_values(|n: VisibleBoidModel| n.boid.velocity)
}

/// Steering toward the mean velocity of the visible neighbours; zero when the
/// statistic is absent.
pub open spec fn alignment_spec(b: BoidModel, ns: Seq<VisibleBoidModel>, factor: int) -> Vec2Model {
    match <Vec2 as Mean>::mean_spec(alignment_vels(ns)) {
        Some(m) => vmul(vsub(m, b.velocity), factor),
        None => vzero(),
    }
}

/// The shortest hue offsets toward the strictly larger visible neighbours.
pub open spec fn hue_offsets(b: BoidModel, ns: Seq<VisibleBoidModel>) -> Seq<int>
    decreases ns.len(),
{
    if ns.len() == 0 {
        Seq::empty()
    } else {
        let rest = hue_offsets(b, ns.drop_last());
        if ns.last().boid.radius > b.radius {
            rest.push(sab(b.hue, ns.last().boid.hue))
        } else {
            rest
        }
    }
}

/// The hue after drifting toward the mean hue of the strictly larger visible
/// neighbours; unchanged when no neighbour qualifies.
pub open spec fn adapt_color_spec(b: BoidModel, ns: Seq<VisibleBoidModel>, factor: int) -> int {
    match <i64 as Mean>::mean_spec(hue_offsets(b, ns)) {
        Some(m) => sadd(b.hue, fmul(m, factor)),
        None => b.hue,
    }
}

/// The velocity after the boundary-avoidance nudge: per axis, a position
/// before the low margin adds the turn speed, one past the high margin
/// subtracts it.
pub open spec fn keep_in_bounds_spec(pos: Vec2Model, vel: Vec2Model, s: SettingsModel) -> Vec2Model {
    let minx = fmul(SIZE_X as int, s.border_margin);
    let miny = fmul(SIZE_Y as int, s.border_margin);
    let maxx = ssub(SIZE_X as int, minx);
    let maxy = ssub(SIZE_Y as int, miny);
    let turn = fmul(vmag(vel), s.turn_speed_ratio);
    let vx1: int = if pos.x < minx {
        sadd(0, turn)
    } else {
        0
    };
    let vx2: int = if pos.x > maxx {
        ssub(vx1, turn)
    } else {
        vx1
    };
    let vy1: int = if pos.y < miny {
        sadd(0, turn)
    } else {
        0
    };
    let vy2: int = if pos.y > maxy {
        ssub(vy1, turn)
    } else {
        vy1
    };
    vadd(vel, Vec2Model { x: vx2, y: vy2 })
}

/// The velocity after one step's combined steering: inertia plus coherence,
/// separation and alignment, clamped to the maximum speed.
pub open spec fn update_velocity_spec(
    b: BoidModel,
    ns: Seq<VisibleBoidModel>,
    s: SettingsModel,
) -> Vec2Model {
    vclamp(
        vadd(
            vadd(vadd(b.velocity, coherence_spec(b, ns, s.cohesion_factor)), separation_spec(ns, s)),
            alignment_spec(b, ns, s.alignment_factor),
        ),
        s.max_speed,
    )
}

/// One whole agent step: colour adaptation, steering, clamping, boundary
/// avoidance, then position integration by `velocity * dt * 0.01`.
pub open spec fn update_spec(
    b: BoidModel,
    ns: Seq<VisibleBoidModel>,
    s: SettingsModel,
    dt: int,
) -> BoidModel {
    let hue = adapt_color_spec(b, ns, s.color_adapt_factor);
    let clamped_vel = update_velocity_spec(b, ns, s);
    let vel = keep_in_bounds_spec(b.position, clamped_vel, s);
    let pos = vadd(b.position, vmul(vmul(vel, dt), TIME_FACTOR as int));
    BoidModel { position: pos, velocity: vel, radius: b.radius, hue }
}

impl Boid {
    /// Calculate the coherence steering this boid feels from the boids it can
    /// see: toward their weighted mean position, larger neighbours pulling
    /// harder (weight `radius^2`).
    fn coherence(&self, boids: &Vec<VisibleBoid>, factor: i64) -> (r: Vec2)
        requires
            vwf(self@.position),
            boids@.len() <= MEAN_MAX_LEN,
            forall|j: int| 0 <= j < boids@.len() ==> nwf(#[trigger] boids@[j]@),
        ensures
            r@ == coherence_spec(self@, nviews(boids@), factor as int),
    {
        let ghost ns = nviews(boids@);
        let mut pairs: Vec<(Vec2, i64)> = Vec::new();
        let mut j: usize = 0;
        while j < boids.len()
            invariant
                j <= boids@.len() <= MEAN_MAX_LEN,
                ns == nviews(boids@),
                forall|k: int| 0 <= k < boids@.len() ==> nwf(#[trigger] boids@[k]@),
                pairs@.len() == j,
                forall|k: int| 0 <= k < j ==> (#[trigger] pairs@[k]).0@ == ns[k].boid.position
                    && pairs@[k].1 == fmul(ns[k].boid.radius, ns[k].boid.radius),
            decreases boids@.len() - j,
        {
            let b = &boids[j].boid;
            let w = fp_mul(b.radius, b.radius);
            proof {
                crate::math::lemma_fmul_nonneg(ns[j as int].boid.radius, ns[j as int].boid.radius);
            }
            pairs.push((b.position, w));
            j = j + 1;
        }
        proof {
            assert(pairs@.map_values(|p: (Vec2, i64)| (p.0.model(), p.1 as int)) =~= coherence_pairs(
                ns,
            ));
        }
        let m = Vec2::weighted_mean(&pairs);
        match m {
            Some(mean) => mean.sub(self.position).mul(factor),
            None => Vec2::new(0, 0),
        }
    }

    /// Calculate the separating force between this boid and the boids it can
    /// see: the sum of the negated offsets of every neighbour at most
    /// `min_distance` away, scaled by the separation factor.
    fn separation(&self, boids: &Vec<VisibleBoid>, settings: &Settings) -> (r: Vec2)
        requires
            boids@.len() <= MEAN_MAX_LEN,
            forall|j: int| 0 <= j < boids@.len() ==> nwf(#[trigger] boids@[j]@),
        ensures
            r@ == separation_spec(nviews(boids@), settings@),
    {
        let ghost ns = nviews(boids@);
        let mut offsets: Vec<Vec2> = Vec::new();
        let mut j: usize = 0;
        while j < boids.len()
            invariant
                j <= boids@.len(),
                ns == nviews(boids@),
                forall|k: int| 0 <= k < boids@.len() ==> nwf(#[trigger] boids@[k]@),
                offsets@.map_values(|v: Vec2| v@) == separation_offsets(ns.take(j as int),
                    settings@.min_distance),
            decreases boids@.len() - j,
        {
            proof {
                assert(ns.take(j + 1).drop_last() == ns.take(j as int));
                assert(ns.take(j + 1).last() == ns[j as int]);
            }
            let other = &boids[j];
            if other.distance <= settings.min_distance {
                let o = other.offset.neg();
                proof {
                    assert(offsets@.push(o).map_values(|v: Vec2| v@) =~= offsets@.map_values(
                        |v: Vec2| v@,
                    ).push(o@));
                }
                offsets.push(o);
            }
            j = j + 1;
        }
        proof {
            assert(ns.take(boids@.len() as int) == ns);
        }
        let accel = Vec2::sum(&offsets);
        accel.mul(settings.separation_factor)
    }

    /// Calculate the alignment force between this boid and the boids it can
    /// see: toward the mean of the neighbour velocities.
    fn alignment(&self, boids: &Vec<VisibleBoid>, factor: i64) -> (r: Vec2)
        requires
            vwf(self@.velocity),
            boids@.len() <= MEAN_MAX_LEN,
            forall|j: int| 0 <= j < boids@.len() ==> nwf(#[trigger] boids@[j]@),
        ensures
            r@ == alignment_spec(self@, nviews(boids@), factor as int),
    {
        let ghost ns = nviews(boids@);
        let mut vels: Vec<Vec2> = Vec::new();
        let mut j: usize = 0;
        while j < boids.len()
            invariant
                j <= boids@.len() <= MEAN_MAX_LEN,
                ns == nviews(boids@),
                forall|k: int| 0 <= k < boids@.len() ==> nwf(#[trigger] boids@[k]@),
                vels@.len() == j,
                forall|k: int| 0 <= k < j ==> (#[trigger] vels@[k])@ == ns[k].boid.velocity,
            decreases boids@.len() - j,
        {
            vels.push(boids[j].boid.velocity);
            j = j + 1;
        }
        proof {
            assert(vels@.map_values(|x: Vec2| x.model()) =~= alignment_vels(ns));
        }
        let m = Vec2::mean(&vels);
        match m {
            Some(mean) => mean.sub(self.velocity).mul(factor),
            None => Vec2::new(0, 0),
        }
    }

    /// Change this boid's colour to be closer to the strictly larger boids
    /// around it.
    fn adapt_color(&mut self, boids: &Vec<VisibleBoid>, factor: i64)
        requires
            bwf(old(self)@),
            boids@.len() <= MEAN_MAX_LEN,
            forall|j: int| 0 <= j < boids@.len() ==> nwf(#[trigger] boids@[j]@),
        ensures
            final(self)@ == (BoidModel {
                hue: adapt_color_spec(old(self)@, nviews(boids@), factor as int),
                ..old(self)@
            }),
            bwf(final(self)@),
    {
        let ghost ns = nviews(boids@);
        let mut offs: Vec<i64> = Vec::new();
        let mut j: usize = 0;
        while j < boids.len()
            invariant
                j <= boids@.len() <= MEAN_MAX_LEN,
                ns == nviews(boids@),
                self == old(self),
                bwf(self@),
                forall|k: int| 0 <= k < boids@.len() ==> nwf(#[trigger] boids@[k]@),
                offs@.len() <= j,
                offs@.map_values(|x: i64| x.model()) == hue_offsets(self@, ns.take(j as int)),
                forall|k: int| 0 <= k < offs@.len() ==> (#[trigger] offs@[k]).wf_val(),
            decreases boids@.len() - j,
        {
            proof {
                assert(ns.take(j + 1).drop_last() == ns.take(j as int));
                assert(ns.take(j + 1).last() == ns[j as int]);
            }
            let other = &boids[j];
            if other.boid.radius > self.radius {
                let d = smallest_angle_between(self.hue, other.boid.hue);
                proof {
                    assert(offs@.push(d).map_values(|x: i64| x.model()) =~= offs@.map_values(
                        |x: i64| x.model(),
                    ).push(d as int));
                }
                offs.push(d);
            }
            j = j + 1;
        }
        proof {
            assert(ns.take(boids@.len() as int) == ns);
        }
        let m = i64::mean(&offs);
        if let Some(avg_hue_offset) = m {
            self.hue = sat_add(self.hue, fp_mul(avg_hue_offset, factor));
        }
    }

    /// Keep the boid within the simulation area by making it turn away when
    /// it gets within the border margin of an edge.
    fn keep_in_bounds(&mut self, settings: &Settings)
        requires
            bwf(old(self)@),
        ensures
            final(self)@ == (BoidModel {
                velocity: keep_in_bounds_spec(old(self)@.position, old(self)@.velocity, settings@),
                ..old(self)@
            }),
            bwf(final(self)@),
    {
        let minx = fp_mul(SIZE_X, settings.border_margin);
        let miny = fp_mul(SIZE_Y, settings.border_margin);
        let maxx = sat_sub(SIZE_X, minx);
        let maxy = sat_sub(SIZE_Y, miny);

        let turn_speed = fp_mul(self.velocity.magnitude(), settings.turn_speed_ratio);
        let pos = self.position;

        let mut vx: i64 = 0;
        let mut vy: i64 = 0;

        if pos.x < minx {
            vx = sat_add(vx, turn_speed);
        }
        if pos.x > maxx {
            vx = sat_sub(vx, turn_speed);
        }

        if pos.y < miny {
            vy = sat_add(vy, turn_speed);
        }
        if pos.y > maxy {
            vy = sat_sub(vy, turn_speed);
        }

        self.velocity = self.velocity.add(Vec2 { x: vx, y: vy });
    }

    /// Combine the three steering forces with the current velocity and clamp
    /// the result to the maximum speed.
    fn update_velocity(&mut self, settings: &Settings, boids: &Vec<VisibleBoid>)
        requires
            bwf(old(self)@),
            swf(settings@),
            boids@.len() <= MEAN_MAX_LEN,
            forall|j: int| 0 <= j < boids@.len() ==> nwf(#[trigger] boids@[j]@),
        ensures
            final(self)@ == (BoidModel {
                velocity: update_velocity_spec(old(self)@, nviews(boids@), settings@),
                ..old(self)@
            }),
            bwf(final(self)@),
    {
        let v = self
            .velocity
            .add(self.coherence(boids, settings.cohesion_factor))
            .add(self.separation(boids, settings))
            .add(self.alignment(boids, settings.alignment_factor));
        self.velocity = v.clamp_magnitude(settings.max_speed);
    }

    /// Advance this boid by one time step, given the boids it can see.
    pub fn update(&mut self, settings: &Settings, boids: &Vec<VisibleBoid>, time_delta_ms: i64)
        requires
            bwf(old(self)@),
            swf(settings@),
            boids@.len() <= MEAN_MAX_LEN,
            forall|j: int| 0 <= j < boids@.len() ==> nwf(#[trigger] boids@[j]@),
        ensures
            final(self)@ == update_spec(old(self)@, nviews(boids@), settings@,
                time_delta_ms as int),
            bwf(final(self)@),
    {
        self.adapt_color(boids, settings.color_adapt_factor);
        self.update_velocity(settings, boids);
        self.keep_in_bounds(settings);
        self.position = self.position.add(self.velocity.mul(time_delta_ms).mul(TIME_FACTOR));
    }
}

/// The population after the boids with indices below `i` have been advanced,
/// in index order, each seeing the then-current state of all the others.
pub open spec fn step_prefix(boids: Seq<BoidModel>, s: SettingsModel, dt: int, i: int) -> Seq<
    BoidModel,
>
    decreases i,
{
    if i <= 0 {
        boids
    } else {
        let prev = step_prefix(boids, s, dt, i - 1);
        let ns = visible_seq(prev, i - 1, prev[i - 1].position, s.visible_range);
        prev.update(i - 1, update_spec(prev[i - 1], ns, s, dt))
    }
}

/// The whole population after one time step: every boid advanced in index
/// order, later boids observing earlier boids' already-updated state.
pub open spec fn update_all_spec(boids: Seq<BoidModel>, s: SettingsModel, dt: int) -> Seq<
    BoidModel,
> {
    step_prefix(boids, s, dt, boids.len() as int)
}

impl Boid {
    /// Update all boids by some time delta. Boids are advanced in index
    /// order and each reads the most recent state of every other boid, so a
    /// boid updated earlier in the pass is seen in its updated form.
    pub fn update_all(settings: &Settings, boids: &mut Vec<Boid>, time_delta_ms: i64)
        requires
            swf(settings@),
            old(boids)@.len() <= MEAN_MAX_LEN,
            forall|j: int| 0 <= j < old(boids)@.len() ==> bwf(#[trigger] old(boids)@[j]@),
        ensures
            bviews(final(boids)@) == update_all_spec(bviews(old(boids)@), settings@,
                time_delta_ms as int),
            final(boids)@.len() == old(boids)@.len(),
            forall|j: int| 0 <= j < final(boids)@.len() ==> bwf(#[trigger] final(boids)@[j]@),
    {
        let ghost models = bviews(boids@);
        let ghost s = settings@;
        let n = boids.len();
        let mut i: usize = 0;
        while i < n
            invariant
                n == boids@.len() <= MEAN_MAX_LEN,
                i <= n,
                s == settings@,
                swf(s),
                bviews(boids@) == step_prefix(models, s, time_delta_ms as int, i as int),
                forall|j: int| 0 <= j < boids@.len() ==> bwf(#[trigger] boids@[j]@),
            decreases n - i,
        {
            let vis = visible_boids(boids, i, settings.visible_range);
            let mut b = boids[i];
            b.update(settings, &vis, time_delta_ms);
            boids.set(i, b);
            proof {
                assert(bviews(boids@) =~= step_prefix(models, s, time_delta_ms as int, i + 1));
            }
            i = i + 1;
        }
    }
}

/// Relies on rand::random (rand 0.8): draws one value of the standard
/// distribution from the thread-local generator. Nothing is assumed of the
/// result; callers state only what holds of every outcome.
pub assume_specification<T>[ rand::random::<T> ]() -> (r: T)
    where
        rand::distributions::Standard: rand::distributions::Distribution<T>,
;

/// Draw a uniformly distributed fixed-point value in `[0, SCALE)`.
fn random_unit() -> (r: i64)
    ensures
        0 <= r < SCALE,
{
    let raw: u64 = rand::random::<u64>();
    (raw % (SCALE as u64)) as i64
}

/// The agent built from five unit-interval draws: radius from the cubed
/// first draw between `min_distance / 12` and `min_distance / 2`, position
/// uniform over the area, velocity at the maximum speed in a uniform
/// direction, hue uniform over the colour circle.
pub open spec fn boid_from_units_spec(
    ur: int,
    ux: int,
    uy: int,
    ua: int,
    uh: int,
    s: SettingsModel,
) -> BoidModel {
    let max_radius = tdiv(s.min_distance, 2);
    let min_radius = tdiv(max_radius, 6);
    let cubed = fmul(fmul(ur, ur), ur);
    BoidModel {
        position: Vec2Model { x: fmul(ux, SIZE_X as int), y: fmul(uy, SIZE_Y as int) },
        velocity: from_polar_spec(fmul(ua, TAU_FP as int), s.max_speed),
        radius: sadd(min_radius, fmul(cubed, max_radius - min_radius)),
        hue: fmul(uh, TAU_FP as int),
    }
}

/// Build one agent from five unit-interval draws.
pub fn boid_from_units(ur: i64, ux: i64, uy: i64, ua: i64, uh: i64, settings: &Settings) -> (r:
    Boid)
    requires
        swf(settings@),
        0 <= ur < SCALE,
        0 <= ux < SCALE,
        0 <= uy < SCALE,
        0 <= ua < SCALE,
        0 <= uh < SCALE,
    ensures
        r@ == boid_from_units_spec(ur as int, ux as int, uy as int, ua as int, uh as int,
            settings@),
        bwf(r@),
{
    let max_radius = tdiv128(settings.min_distance as i128, 2) as i64;
    proof {
        lemma_tdiv_nonneg(settings@.min_distance, 2);
    }
    let min_radius = tdiv128(max_radius as i128, 6) as i64;
    proof {
        lemma_tdiv_nonneg(max_radius as int, 6);
        lemma_fmul_nonneg(ur as int, ur as int);
        lemma_fmul_nonneg(fmul(ur as int, ur as int), ur as int);
        lemma_fmul_nonneg(fmul(fmul(ur as int, ur as int), ur as int),
            max_radius - min_radius);
    }
    let cubed = fp_mul(fp_mul(ur, ur), ur);
    let radius = sat_add(min_radius, fp_mul(cubed, max_radius - min_radius));
    Boid {
        position: Vec2 { x: fp_mul(ux, SIZE_X), y: fp_mul(uy, SIZE_Y) },
        velocity: Vec2::from_polar(fp_mul(ua, TAU_FP), settings.max_speed),
        radius,
        hue: fp_mul(uh, TAU_FP),
    }
}

/// The agent is one the random spawner can produce under `s`: it equals the
/// unit-draw construction for some five draws in `[0, SCALE)`. Every agent of
/// a freshly drawn population satisfies this; a constant or recycled agent in
/// general does not.
pub open spec fn spawned_from_units(bd: BoidModel, s: SettingsModel) -> bool {
    exists|ur: int, ux: int, uy: int, ua: int, uh: int|
        0 <= ur < SCALE && 0 <= ux < SCALE && 0 <= uy < SCALE && 0 <= ua < SCALE && 0 <= uh < SCALE
            && bd == #[trigger] boid_from_units_spec(ur, ux, uy, ua, uh, s)
}

impl Boid {
    /// Create a new random boid, based off of the user settings: whatever the
    /// draws, the result is a well-formed agent built from five unit-interval
    /// values as [`boid_from_units_spec`] describes.
    pub fn new_random(settings: &Settings) -> (r: Boid)
        requires
            swf(settings@),
        ensures
            bwf(r@),
            spawned_from_units(r@, settings@),
    {
        let ur = random_unit();
        let ux = random_unit();
        let uy = random_unit();
        let ua = random_unit();
        let uh = random_unit();
        let b = boid_from_units(ur, ux, uy, ua, uh, settings);
        proof {
            assert(b@ == boid_from_units_spec(ur as int, ux as int, uy as int, ua as int,
                uh as int, settings@));
        }
        b
    }
}

/// The offsets of the three polygon vertices an agent is drawn with: one long
/// point in the direction of travel and two shorter flanking points, a third
/// of a turn apart.
pub open spec fn shape_points_spec(radius: int, rotation: int) -> Seq<Vec2Model> {
    seq![
        from_polar_spec(sadd(rotation, 0), 2 * radius),
        from_polar_spec(sadd(rotation, THIRD_TAU_FP as int), radius),
        from_polar_spec(sadd(rotation, 2 * (THIRD_TAU_FP as int)), radius),
    ]
}

/// The three vertex offsets of an agent's triangular silhouette, rotated to
/// face `rotation`.
pub fn shape_points(radius: i64, rotation: i64) -> (r: Vec<Vec2>)
    requires
        0 <= radius <= LIM,
    ensures
        r@.map_values(|v: Vec2| v@) == shape_points_spec(radius as int, rotation as int),
        r@.len() == 3,
{
    let mut r: Vec<Vec2> = Vec::new();
    r.push(Vec2::from_polar(sat_add(rotation, 0), 2 * radius));
    r.push(Vec2::from_polar(sat_add(rotation, THIRD_TAU_FP), radius));
    r.push(Vec2::from_polar(sat_add(rotation, 2 * THIRD_TAU_FP), radius));
    proof {
        assert(r@.map_values(|v: Vec2| v@) =~= shape_points_spec(radius as int, rotation as int));
    }
    r
}

/// Scaling the zero vector gives the zero vector.
proof fn lemma_vmul_zero(f: int)
    ensures
        vmul(vzero(), f) == vzero(),
{
    assert(0 * f == 0) by (nonlinear_arith);
    assert(tdiv(0, SCALE as int) == 0) by {
        assert(absi(0int) / (SCALE as int) == 0) by {
            vstd::arithmetic::div_mod::lemma_div_multiples_vanish(0, SCALE as int);
            assert((SCALE as int) * 0 == 0) by (nonlinear_arith);
        }
    }
}

/// A boid that sees no neighbour feels no coherence, separation or alignment
/// and keeps its hue: one step only clamps its velocity to the maximum speed,
/// applies the boundary nudge and integrates its position.
pub proof fn lemma_isolated_boid(b: BoidModel, s: SettingsModel, dt: int)
    requires
        bwf(b),
    ensures
        coherence_spec(b, Seq::empty(), s.cohesion_factor) == vzero(),
        separation_spec(Seq::empty(), s) == vzero(),
        alignment_spec(b, Seq::empty(), s.alignment_factor) == vzero(),
        update_spec(b, Seq::empty(), s, dt).hue == b.hue,
        update_spec(b, Seq::empty(), s, dt).velocity == keep_in_bounds_spec(b.position,
            vclamp(b.velocity, s.max_speed), s),
        update_spec(b, Seq::empty(), s, dt).radius == b.radius,
{
    let e = Seq::<VisibleBoidModel>::empty();
    assert(coherence_pairs(e) =~= Seq::<(Vec2Model, int)>::empty());
    assert(crate::math::wtot_v(Seq::<(Vec2Model, int)>::empty()) == 0);
    assert(<Vec2 as WeightedMean>::weighted_mean_spec(coherence_pairs(e)) is None);
    assert(separation_offsets(e, s.min_distance) =~= Seq::<Vec2Model>::empty());
    assert(vsum(Seq::<Vec2Model>::empty()) == vzero());
    lemma_vmul_zero(s.separation_factor);
    assert(alignment_vels(e) =~= Seq::<Vec2Model>::empty());
    assert(<Vec2 as Mean>::mean_spec(alignment_vels(e)) is None);
    assert(hue_offsets(b, e) =~= Seq::<int>::empty());
    assert(<i64 as Mean>::mean_spec(hue_offsets(b, e)) is None);
    assert(vadd(b.velocity, vzero()) == b.velocity);
    assert(vadd(vadd(vadd(b.velocity, vzero()), vzero()), vzero()) == b.velocity);
}

/// Negating a vector twice at most swaps saturation, and well-formed
/// differences negate exactly: the offset from `a` to `b` is the exact
/// negation of the offset from `b` to `a`, so the two have equal magnitude.
proof fn lemma_offset_symmetric(a: Vec2Model, b: Vec2Model)
    ensures
        vsub(a, b) == vneg(vsub(b, a)),
        vmag(vsub(a, b)) == vmag(vsub(b, a)),
{
    let d = vsub(b, a);
    let d2 = vsub(a, b);
    assert(d2.x == clamped(-(d.x)) && d2.y == clamped(-(d.y)));
    assert(magsq(d2) == magsq(d)) by (nonlinear_arith)
        requires
            d2.x == -d.x || (d2.x == d.x && d.x == 0),
            d2.y == -d.y || (d2.y == d.y && d.y == 0),
    ;
}

/// Two boids farther apart than the visible range do not see each other:
/// over the two-boid population each one's neighbour sequence is empty, and
/// one step treats each as isolated.
pub proof fn lemma_out_of_range_pair(a: BoidModel, b: BoidModel, range: int)
    requires
        vmag(vsub(b.position, a.position)) > range,
    ensures
        visible_seq(seq![a, b], 0, a.position, range) == Seq::<VisibleBoidModel>::empty(),
        visible_seq(seq![a, b], 1, b.position, range) == Seq::<VisibleBoidModel>::empty(),
{
    lemma_offset_symmetric(a.position, b.position);
    let s = seq![a, b];
    let s1 = seq![a];
    assert(s.drop_last() =~= s1);
    assert(s1.drop_last() =~= Seq::<BoidModel>::empty());
    assert(visible_seq(Seq::<BoidModel>::empty(), 0, a.position, range)
        == Seq::<VisibleBoidModel>::empty());
    assert(visible_seq(Seq::<BoidModel>::empty(), 1, b.position, range)
        == Seq::<VisibleBoidModel>::empty());
    assert(s1.last() == a && s.last() == b);
    assert(visible_seq(s1, 0, a.position, range) == Seq::<VisibleBoidModel>::empty());
    assert(visible_seq(s, 0, a.position, range) == Seq::<VisibleBoidModel>::empty());
    assert(vmag(vsub(a.position, b.position)) > range);
    assert(visible_seq(s1, 1, b.position, range) == Seq::<VisibleBoidModel>::empty());
    assert(visible_seq(s, 1, b.position, range) == Seq::<VisibleBoidModel>::empty());
}

/// A boid left of the low x margin, with the border margin under half the
/// area so the two x thresholds cannot overlap, whose boundary turn speed
/// reaches at least one fixed-point unit (a positive speed and ratio alone
/// can truncate to a zero turn), gains a strictly positive x velocity
/// component from the boundary nudge, as long as the gain does not saturate.
pub proof fn lemma_boundary_push(pos: Vec2Model, vel: Vec2Model, s: SettingsModel)
    requires
        vwf(vel),
        0 <= s.border_margin,
        2 * s.border_margin < SCALE,
        pos.x < fmul(SIZE_X as int, s.border_margin),
        fmul(vmag(vel), s.turn_speed_ratio) >= 1,
        vel.x + fmul(vmag(vel), s.turn_speed_ratio) <= LIM,
    ensures
        keep_in_bounds_spec(pos, vel, s).x == vel.x + fmul(vmag(vel), s.turn_speed_ratio),
        keep_in_bounds_spec(pos, vel, s).x > vel.x,
{
    let turn = fmul(vmag(vel), s.turn_speed_ratio);
    assert(turn <= LIM);
    assert(sadd(0, turn) == turn);
    // The low threshold sits under half the area width, the high one above
    // it, so a position below the low threshold is below the high one too.
    let minx = fmul(SIZE_X as int, s.border_margin);
    assert((SIZE_X as int) * s.border_margin <= 800000000 * (SCALE as int)) by (nonlinear_arith)
        requires
            0 <= s.border_margin,
            2 * s.border_margin < SCALE,
    ;
    crate::math::lemma_fmul_bound(SIZE_X as int, s.border_margin, 800000000);
    assert(minx >= 0) by {
        lemma_fmul_nonneg(SIZE_X as int, s.border_margin);
    }
    assert(ssub(SIZE_X as int, minx) >= 800000000);
    assert(pos.x <= ssub(SIZE_X as int, minx));
    assert(keep_in_bounds_spec(pos, vel, s).x == sadd(vel.x, turn));
}

/// A single too-close neighbour's separation steering is the scaled negation
/// of the offset toward it: it points directly away, pushing the pair apart.
pub proof fn lemma_separation_pushes_apart(n: VisibleBoidModel, s: SettingsModel)
    requires
        vwf(n.offset),
        n.distance <= s.min_distance,
        0 <= s.separation_factor,
    ensures
        separation_spec(seq![n], s) == vmul(vneg(n.offset), s.separation_factor),
        n.offset.x > 0 ==> separation_spec(seq![n], s).x <= 0,
        n.offset.x < 0 ==> separation_spec(seq![n], s).x >= 0,
        n.offset.y > 0 ==> separation_spec(seq![n], s).y <= 0,
        n.offset.y < 0 ==> separation_spec(seq![n], s).y >= 0,
{
    let sq = seq![n];
    assert(sq.drop_last() =~= Seq::<VisibleBoidModel>::empty());
    assert(separation_offsets(Seq::<VisibleBoidModel>::empty(), s.min_distance)
        == Seq::<Vec2Model>::empty());
    assert(sq.last() == n);
    let o = vneg(n.offset);
    assert(separation_offsets(sq, s.min_distance) =~= Seq::<Vec2Model>::empty().push(o));
    let so = Seq::<Vec2Model>::empty().push(o);
    assert(so.drop_last() =~= Seq::<Vec2Model>::empty());
    assert(vsum(Seq::<Vec2Model>::empty()) == vzero());
    assert(so.last() == o);
    assert(vsum(so) == vadd(vsum(so.drop_last()), so.last()));
    assert(vsum(so) == vadd(vzero(), o));
    assert(vadd(vzero(), o) == o);
    if n.offset.x > 0 {
        crate::math::lemma_fmul_nonpos(o.x, s.separation_factor);
    }
    if n.offset.x < 0 {
        lemma_fmul_nonneg(o.x, s.separation_factor);
    }
    if n.offset.y > 0 {
        crate::math::lemma_fmul_nonpos(o.y, s.separation_factor);
    }
    if n.offset.y < 0 {
        lemma_fmul_nonneg(o.y, s.separation_factor);
    }
}

/// The coherence and alignment steering vanish when their factors are zero.
proof fn lemma_zero_factor_rules(b: BoidModel, ns: Seq<VisibleBoidModel>)
    ensures
        coherence_spec(b, ns, 0) == vzero(),
        alignment_spec(b, ns, 0) == vzero(),
{
    match <Vec2 as WeightedMean>::weighted_mean_spec(coherence_pairs(ns)) {
        Some(m) => {
            crate::math::lemma_vmul_by_zero(vsub(m, b.position));
        },
        None => {},
    }
    match <Vec2 as Mean>::mean_spec(alignment_vels(ns)) {
        Some(m) => {
            crate::math::lemma_vmul_by_zero(vsub(m, b.velocity));
        },
        None => {},
    }
}

/// With a zero border margin and a zero turn-speed ratio, the boundary nudge
/// does nothing to a well-formed velocity.
proof fn lemma_no_boundary_nudge(pos: Vec2Model, vel: Vec2Model, s: SettingsModel)
    requires
        vwf(vel),
        s.border_margin == 0,
        s.turn_speed_ratio == 0,
    ensures
        keep_in_bounds_spec(pos, vel, s) == vel,
{
    crate::math::lemma_fmul_zero(SIZE_X as int);
    crate::math::lemma_fmul_zero(SIZE_Y as int);
    crate::math::lemma_fmul_zero(vmag(vel));
}

/// Two agents that each see exactly the other and stand too close, with only
/// separation active (all other factors and the boundary turning zero) and
/// nothing saturating or clamping, end one step moving apart faster than
/// before: the relative velocity strictly gains along the offset between
/// them. `d` abbreviates that offset, from `a`'s position to `b`'s.
pub proof fn lemma_close_pair_accelerates_apart(a: BoidModel, b: BoidModel, s: SettingsModel, dt: int)
    requires
        bwf(a),
        bwf(b),
        swf(s),
        s.cohesion_factor == 0,
        s.alignment_factor == 0,
        s.turn_speed_ratio == 0,
        s.border_margin == 0,
        ({
            let d = vsub(b.position, a.position);
            let sf = s.separation_factor;
            &&& vmag(d) <= s.min_distance
            // the push clears fixed-point truncation on at least one axis
            &&& (absi(d.x) * sf >= SCALE || absi(d.y) * sf >= SCALE)
            // the push itself does not saturate
            &&& absi(d.x) * sf <= (LIM - 1) * SCALE
            &&& absi(d.y) * sf <= (LIM - 1) * SCALE
            // adding it to either velocity does not saturate
            &&& absi(a.velocity.x) + absi(fmul(d.x, sf)) <= LIM
            &&& absi(a.velocity.y) + absi(fmul(d.y, sf)) <= LIM
            &&& absi(b.velocity.x) + absi(fmul(d.x, sf)) <= LIM
            &&& absi(b.velocity.y) + absi(fmul(d.y, sf)) <= LIM
            // neither steered velocity exceeds the speed limit, so the clamp
            // is a no-op
            &&& vmag(vadd(a.velocity, vmul(vneg(d), sf))) <= s.max_speed
            &&& vmag(vadd(b.velocity, vmul(d, sf))) <= s.max_speed
        }),
    ensures
        ({
            let d = vsub(b.position, a.position);
            let va2 = update_spec(a, seq![visible_entry(b, a.position)], s, dt).velocity;
            let vb2 = update_spec(b, seq![visible_entry(a, b.position)], s, dt).velocity;
            d.x * (vb2.x - va2.x) + d.y * (vb2.y - va2.y) > d.x * (b.velocity.x - a.velocity.x)
                + d.y * (b.velocity.y - a.velocity.y)
        }),
{
    let d = vsub(b.position, a.position);
    let sf = s.separation_factor;
    let na = visible_entry(b, a.position);
    let nb = visible_entry(a, b.position);
    lemma_offset_symmetric(a.position, b.position);
    assert(nb.offset == vneg(d) && nb.distance == vmag(d));

    // the steering of each agent is exactly the scaled push away from the other
    lemma_separation_pushes_apart(na, s);
    lemma_separation_pushes_apart(nb, s);
    lemma_zero_factor_rules(a, seq![na]);
    lemma_zero_factor_rules(b, seq![nb]);

    // the push components, exactly
    crate::math::lemma_fmul_bound(d.x, sf, LIM - 1);
    crate::math::lemma_fmul_bound(d.y, sf, LIM - 1);
    let fx = fmul(d.x, sf);
    let fy = fmul(d.y, sf);
    crate::math::lemma_fmul_neg(d.x, sf);
    crate::math::lemma_fmul_neg(d.y, sf);
    assert(vneg(vneg(d)) == d);
    assert(vmul(vneg(d), sf) == (Vec2Model { x: -fx, y: -fy }));
    assert(vmul(d, sf) == (Vec2Model { x: fx, y: fy }));

    // neither combined velocity saturates
    let ia = vadd(a.velocity, vmul(vneg(d), sf));
    let ib = vadd(b.velocity, vmul(d, sf));
    assert(ia.x == a.velocity.x - fx && ia.y == a.velocity.y - fy);
    assert(ib.x == b.velocity.x + fx && ib.y == b.velocity.y + fy);

    // the speed clamp and the boundary nudge leave them unchanged
    crate::math::lemma_clamp_noop(ia, s.max_speed);
    crate::math::lemma_clamp_noop(ib, s.max_speed);
    assert(vadd(a.velocity, vzero()) == a.velocity);
    assert(vadd(b.velocity, vzero()) == b.velocity);
    assert(vadd(ia, vzero()) == ia);
    assert(vadd(ib, vzero()) == ib);
    assert(update_velocity_spec(a, seq![na], s) == ia);
    assert(update_velocity_spec(b, seq![nb], s) == ib);
    lemma_no_boundary_nudge(a.position, ia, s);
    lemma_no_boundary_nudge(b.position, ib, s);
    let va2 = update_spec(a, seq![na], s, dt).velocity;
    let vb2 = update_spec(b, seq![nb], s, dt).velocity;
    assert(va2 == ia && vb2 == ib);

    // the gain along the offset is twice the push, which points outward
    crate::math::lemma_fmul_same_direction(d.x, sf);
    crate::math::lemma_fmul_same_direction(d.y, sf);
    assert(d.x * fx >= 0 && d.y * fy >= 0);
    if absi(d.x) * sf >= SCALE {
        assert(d.x * fx >= absi(d.x));
        assert(absi(d.x) >= 1) by (nonlinear_arith)
            requires
                absi(d.x) * sf >= SCALE,
                0 <= sf <= LIM,
                SCALE > 0,
        ;
    } else {
        assert(d.y * fy >= absi(d.y));
        assert(absi(d.y) >= 1) by (nonlinear_arith)
            requires
                absi(d.y) * sf >= SCALE,
                0 <= sf <= LIM,
                SCALE > 0,
        ;
    }
    assert(d.x * fx + d.y * fy >= 1);
    assert(d.x * (vb2.x - va2.x) + d.y * (vb2.y - va2.y) == d.x * (b.velocity.x - a.velocity.x)
        + d.y * (b.velocity.y - a.velocity.y) + 2 * (d.x * fx) + 2 * (d.y * fy))
        by (nonlinear_arith)
        requires
            vb2.x - va2.x == b.velocity.x - a.velocity.x + 2 * fx,
            vb2.y - va2.y == b.velocity.y - a.velocity.y + 2 * fy,
    ;
}

} // verus!
