//! The world: the particle set and the fixed per-sub-step sequence of
//! gravity, single-pass pairwise collision resolution, circular boundary
//! constraint, and Verlet integration.

use vstd::prelude::*;
use crate::math::abs_i;
use crate::math::sqrt_floor;
use crate::math::lemma_div_bound;
use crate::math::lemma_div_mul_le;
use crate::math::isqrt;
use crate::math::mul3div2;
use crate::math::abs64;
use crate::particle::Particle;
use crate::particle::Vec2;
use crate::particle::Rgba;
use crate::particle::integrated;
use crate::particle::accel_term;
use crate::particle::particle_in_bounds;
use crate::particle::lemma_accel_term_bound;
use crate::particle::POS_LIMIT;
use crate::particle::ACC_LIMIT;
use crate::particle::DT_MAX;
use crate::rng::rng_new;
use crate::rng::rng_range;
use crate::SCALE;

verus! {

/// World width in units; the room is centered in the window.
pub const WINDOW_WIDTH: u32 = 2000;

/// World height in units.
pub const WINDOW_HEIGHT: u32 = 2000;

/// Downward gravity, in subunits per second squared (100 units/s^2).
pub const GRAVITY: i64 = 1_000_000;

/// Radius of the circular room, in subunits (900 units).
pub const ROOM_RADIUS: i64 = 9_000_000;

/// Physics sub-steps per frame.
pub const SUB_STEPS: u8 = 2;

/// The spawn timer threshold, in subunits of a second (0.1 s).
pub const SPAWN_TIME: i64 = 1_000;

/// Center of the room, in subunits: half the window.
pub const CENTER_X: i64 = 10_000_000;

/// Center of the room, in subunits: half the window.
pub const CENTER_Y: i64 = 10_000_000;

/// Largest radius a well-formed particle may have, in subunits.
pub const RADIUS_LIMIT: i64 = 1_000_000;

/// Largest particle count the fixed-point collision pass accepts.
pub const MAX_PARTICLES: usize = 1_000;

/// Largest magnitude of one collision position correction, in subunits:
/// `(2 * RADIUS_LIMIT) * 3 / 8`.
pub const PEN_MAX: i64 = 750_000;

/// Coordinate bound a well-formed particle's position satisfies.
pub const WF_POS: i64 = 250_000_000_000;

/// Coordinate bound a well-formed particle's previous position satisfies.
pub const WF_PREV: i64 = 20_000_000;

/// Acceleration bound a well-formed particle satisfies.
pub const WF_ACC: i64 = 1_000_000_000;

/// Coordinate bound after a collision pass over well-formed particles.
pub const COLL_POS: i64 = 1_100_000_000_000;

pub open spec fn radius_ok(p: Particle) -> bool {
    1 <= p.radius <= RADIUS_LIMIT
}

pub open spec fn pos_within(p: Particle, b: int) -> bool {
    abs_i(p.pos.x as int) <= b && abs_i(p.pos.y as int) <= b
}

pub open spec fn prev_within(p: Particle, b: int) -> bool {
    abs_i(p.prev_pos.x as int) <= b && abs_i(p.prev_pos.y as int) <= b
}

pub open spec fn acc_within(p: Particle, b: int) -> bool {
    abs_i(p.acc.x as int) <= b && abs_i(p.acc.y as int) <= b
}

/// Bounds every particle of a well-formed world satisfies.
pub open spec fn wf_particle(p: Particle) -> bool {
    &&& radius_ok(p)
    &&& pos_within(p, WF_POS as int)
    &&& prev_within(p, WF_PREV as int)
    &&& acc_within(p, WF_ACC as int)
}

/// A particle with gravity added into its acceleration accumulator.
pub open spec fn grav_p(p: Particle) -> Particle {
    Particle {
        acc: Vec2 { x: p.acc.x, y: (p.acc.y + GRAVITY) as i64 },
        ..p
    }
}

/// Every particle with gravity applied, in order.
pub open spec fn gravity_applied(ps: Seq<Particle>) -> Seq<Particle> {
    ps.map_values(|p: Particle| grav_p(p))
}

/// Every particle integrated over `dt`, in order.
pub open spec fn integrated_all(ps: Seq<Particle>, dt: int) -> Seq<Particle> {
    ps.map_values(|p: Particle| integrated(p, dt))
}

/// A truncated scaled projection: the component along `v` of a correction of
/// magnitude `pen * r_other / rsum` in the direction `(v, ..) / dist`,
/// computed as one truncating division `v * pen * r_other / (dist * rsum)`.
pub open spec fn disp_part(v: int, pen: int, r_other: int, dist: int, rsum: int) -> int {
    if v >= 0 {
        (v * pen * r_other) / (dist * rsum)
    } else {
        -(((-v) * pen * r_other) / (dist * rsum))
    }
}

/// Squared distance from a particle's position to the room center.
pub open spec fn room_dist2(p: Particle) -> int {
    let tx = CENTER_X - p.pos.x;
    let ty = CENTER_Y - p.pos.y;
    tx * tx + ty * ty
}

/// The boundary constraint on one particle: when it sticks out of the disk
/// of radius `ROOM_RADIUS - radius` around the center, it is pulled back onto
/// that disk's rim along the line to the center. A particle exactly at the
/// center can only be outside that disk when its radius exceeds the room's;
/// the `dist > 0` guard skips the undefined push direction in that case.
pub open spec fn constrain_p(p: Particle) -> Particle {
    let tx = CENTER_X - p.pos.x;
    let ty = CENTER_Y - p.pos.y;
    let dist = sqrt_floor(tx * tx + ty * ty);
    let lim = ROOM_RADIUS - p.radius;
    if dist > lim && dist > 0 {
        Particle {
            pos: Vec2 {
                x: (CENTER_X - disp_part(tx, lim, 1, dist, 1)) as i64,
                y: (CENTER_Y - disp_part(ty, lim, 1, dist, 1)) as i64,
            },
            ..p
        }
    } else {
        p
    }
}

/// Every particle constrained to the room, in order.
pub open spec fn constrained_all(ps: Seq<Particle>) -> Seq<Particle> {
    ps.map_values(|p: Particle| constrain_p(p))
}

/// One pair interaction. When the two particles overlap (`d2` below their
/// summed radii squared) and their centers do not coincide, each is pushed
/// apart along the line between the centers by `(min_dist - dist) * 3 / 8`
/// (response coefficient 0.75, halved), apportioned inversely to radius: the
/// larger particle moves less. A pair with coincident centers is left
/// untouched: the push direction is undefined there, and normalizing by a
/// zero distance is guarded out rather than reproduced.
pub open spec fn collide_pair(a: Particle, b: Particle) -> (Particle, Particle) {
    let vx = a.pos.x - b.pos.x;
    let vy = a.pos.y - b.pos.y;
    let d2 = vx * vx + vy * vy;
    let min_dist = a.radius + b.radius;
    if d2 < min_dist * min_dist && d2 > 0 {
        let dist = sqrt_floor(d2);
        let pen = ((min_dist - dist) * 3) / 8;
        (
            Particle {
                pos: Vec2 {
                    x: (a.pos.x + disp_part(vx, pen, b.radius as int, dist, min_dist)) as i64,
                    y: (a.pos.y + disp_part(vy, pen, b.radius as int, dist, min_dist)) as i64,
                },
                ..a
            },
            Particle {
                pos: Vec2 {
                    x: (b.pos.x - disp_part(vx, pen, a.radius as int, dist, min_dist)) as i64,
                    y: (b.pos.y - disp_part(vy, pen, a.radius as int, dist, min_dist)) as i64,
                },
                ..b
            },
        )
    } else {
        (a, b)
    }
}

/// The sequence with the pair `(i, j)` resolved in place.
pub open spec fn pair_applied(ps: Seq<Particle>, i: int, j: int) -> Seq<Particle> {
    let c = collide_pair(ps[i], ps[j]);
    ps.update(i, c.0).update(j, c.1)
}

/// The single collision pass from pair `(i, j)` on: inner index ascending,
/// then outer index ascending, each pair corrected exactly once.
pub open spec fn resolve_from(ps: Seq<Particle>, i: int, j: int) -> Seq<Particle>
    decreases ps.len() - i, ps.len() - j,
{
    if i < 0 || j < i + 1 || i + 1 >= ps.len() {
        ps
    } else if j >= ps.len() {
        resolve_from(ps, i + 1, i + 2)
    } else {
        resolve_from(pair_applied(ps, i, j), i, j + 1)
    }
}

/// One full single-pass collision resolution over all ordered pairs.
pub open spec fn resolved(ps: Seq<Particle>) -> Seq<Particle> {
    resolve_from(ps, 0, 1)
}

/// One full physics sub-step: gravity, one collision pass, the boundary
/// constraint, then Verlet integration over `dt`, in that exact order.
pub open spec fn stepped(ps: Seq<Particle>, dt: int) -> Seq<Particle> {
    integrated_all(constrained_all(resolved(gravity_applied(ps))), dt)
}

/// The clamped offset `(mx, my)` lies within one subunit of the rim: its
/// squared length is at most `lim^2 + 2 * lim < (lim + 1)^2`.
proof fn lemma_clamp_contained(tx: int, ty: int, lim: int, dist: int, mx: int, my: int)
    requires
        lim >= 1,
        dist >= lim + 1,
        dist * dist <= tx * tx + ty * ty,
        tx * tx + ty * ty < (dist + 1) * (dist + 1),
        mx == (abs_i(tx) * lim) / dist,
        my == (abs_i(ty) * lim) / dist,
    ensures
        0 <= mx <= lim,
        0 <= my <= lim,
        mx * mx + my * my <= lim * lim + 2 * lim,
{
    let ax = abs_i(tx);
    let ay = abs_i(ty);
    assert(ax * ax == tx * tx && ay * ay == ty * ty) by (nonlinear_arith)
        requires
            ax == (if tx < 0 { -tx } else { tx }),
            ay == (if ty < 0 { -ty } else { ty }),
    ;
    assert(ax <= dist && ay <= dist) by (nonlinear_arith)
        requires
            ax >= 0,
            ay >= 0,
            dist >= 0,
            ax * ax == tx * tx,
            ay * ay == ty * ty,
            tx * tx + ty * ty < (dist + 1) * (dist + 1),
    ;
    assert(ax * lim <= lim * dist) by (nonlinear_arith)
        requires
            0 <= ax <= dist,
            lim >= 0,
    ;
    assert(ay * lim <= lim * dist) by (nonlinear_arith)
        requires
            0 <= ay <= dist,
            lim >= 0,
    ;
    lemma_div_bound(ax * lim, dist, lim);
    lemma_div_bound(ay * lim, dist, lim);
    lemma_div_mul_le(ax * lim, dist);
    lemma_div_mul_le(ay * lim, dist);
    assert((mx * dist) * (mx * dist) <= (ax * lim) * (ax * lim)) by (nonlinear_arith)
        requires
            0 <= mx * dist,
            mx * dist <= ax * lim,
    ;
    assert((my * dist) * (my * dist) <= (ay * lim) * (ay * lim)) by (nonlinear_arith)
        requires
            0 <= my * dist,
            my * dist <= ay * lim,
    ;
    assert((mx * mx + my * my) * (dist * dist) == (mx * dist) * (mx * dist) + (my * dist) * (my
        * dist)) by (nonlinear_arith);
    assert((ax * lim) * (ax * lim) + (ay * lim) * (ay * lim) == (ax * ax + ay * ay) * (lim
        * lim)) by (nonlinear_arith);
    assert((ax * ax + ay * ay) * (lim * lim) <= (dist * dist + 2 * dist) * (lim * lim))
        by (nonlinear_arith)
        requires
            ax * ax + ay * ay < (dist + 1) * (dist + 1),
            lim >= 0,
    ;
    assert((dist * dist + 2 * dist) * (lim * lim) <= (lim * lim + 2 * lim) * (dist * dist))
        by (nonlinear_arith)
        requires
            dist >= lim,
            lim >= 0,
    ;
    assert(mx * mx + my * my <= lim * lim + 2 * lim) by (nonlinear_arith)
        requires
            (mx * mx + my * my) * (dist * dist) <= (lim * lim + 2 * lim) * (dist * dist),
            dist >= 1,
            mx >= 0,
            my >= 0,
            lim >= 0,
    ;
}

/// The world: particles in spawn order, the spawner's generator, and the
/// elapsed-time accumulator for the spawn threshold.
pub struct MainState {
    pub particles: Vec<Particle>,
    pub rng: oorandom::Rand32,
    pub total_time: i64,
}

/// What holds of every freshly spawned particle: at rest within one unit of
/// the room center, radius a whole number of units in `[5, 49]`, color
/// channels in `[0, 255)`.
pub open spec fn spawn_ok(p: Particle) -> bool {
    &&& (p.pos.x == CENTER_X - SCALE || p.pos.x == CENTER_X)
    &&& (p.pos.y == CENTER_Y - SCALE || p.pos.y == CENTER_Y)
    &&& p.prev_pos == p.pos
    &&& p.acc == (Vec2 { x: 0, y: 0 })
    &&& 5 * SCALE <= p.radius <= 49 * SCALE
    &&& p.radius % SCALE == 0
    &&& p.color.r < 255
    &&& p.color.g < 255
    &&& p.color.b < 255
}

/// A random whole-unit offset with each coordinate drawn from `{-1, 0}`
/// units, as the spawner jitters new particles around the room center.
fn random_vec(rng: &mut oorandom::Rand32) -> (v: Vec2)
    ensures
        v.x == -SCALE || v.x == 0,
        v.y == -SCALE || v.y == 0,
{
    let x = rng_range(rng, 0, 2);
    let y = rng_range(rng, 0, 2);
    Vec2 { x: (x as i64) * SCALE - SCALE, y: (y as i64) * SCALE - SCALE }
}

/// A random color with each channel drawn uniformly from `[0, 255)`.
fn random_colour(rng: &mut oorandom::Rand32) -> (c: Rgba)
    ensures
        c.r < 255,
        c.g < 255,
        c.b < 255,
{
    let r = rng_range(rng, 0, 255);
    let g = rng_range(rng, 0, 255);
    let b = rng_range(rng, 0, 255);
    Rgba { r, g, b }
}

impl MainState {
    /// Bounds that the solver's sub-step sequence preserves.
    pub open spec fn wf(self) -> bool {
        &&& self.particles@.len() <= MAX_PARTICLES
        &&& (forall|k: int|
            0 <= k < self.particles@.len() ==> wf_particle(#[trigger] self.particles@[k]))
        &&& 0 <= self.total_time < SPAWN_TIME
    }

    /// A world seeded for spawning, holding one initial particle.
    pub fn new(seed: u64) -> (w: MainState)
        ensures
            w.wf(),
            w.particles@.len() == 1,
            spawn_ok(w.particles@[0]),
            w.total_time == 0,
    {
        let mut w = MainState { particles: Vec::new(), rng: rng_new(seed), total_time: 0 };
        w.spawn_particle();
        w
    }

    /// Appends one new particle: at rest, within one unit of the room
    /// center, with a random whole-unit radius in `[5, 49]` and a random
    /// color. Existing particles and the timer are untouched.
    pub fn spawn_particle(&mut self)
        requires
            old(self).particles@.len() < MAX_PARTICLES,
        ensures
            final(self).particles@.len() == old(self).particles@.len() + 1,
            forall|k: int|
                0 <= k < old(self).particles@.len()
                    ==> final(self).particles@[k] == old(self).particles@[k],
            spawn_ok(final(self).particles@.last()),
            wf_particle(final(self).particles@.last()),
            final(self).total_time == old(self).total_time,
    {
        let offset = random_vec(&mut self.rng);
        let px: i64 = CENTER_X + offset.x;
        let py: i64 = CENTER_Y + offset.y;
        let ru = rng_range(&mut self.rng, 5, 50);
        let radius: i64 = (ru as i64) * SCALE;
        let colour = random_colour(&mut self.rng);
        let p = Particle::new(Vec2 { x: px, y: py }, radius, colour);
        proof {
            assert(radius % SCALE == 0) by (nonlinear_arith)
                requires
                    radius == ru * SCALE,
                    SCALE != 0,
            ;
        }
        self.particles.push(p);
    }

    /// Adds `(0, GRAVITY)` into every particle's acceleration accumulator.
    pub fn apply_gravity(&mut self)
        requires
            forall|k: int|
                0 <= k < old(self).particles@.len()
                    ==> #[trigger] old(self).particles@[k].acc.y + GRAVITY <= i64::MAX,
        ensures
            final(self).particles@ == gravity_applied(old(self).particles@),
            final(self).rng == old(self).rng,
            final(self).total_time == old(self).total_time,
    {
        let n = self.particles.len();
        let mut i: usize = 0;
        while i < n
            invariant
                i <= n,
                n == self.particles@.len(),
                n == old(self).particles@.len(),
                forall|k: int|
                    0 <= k < n ==> #[trigger] old(self).particles@[k].acc.y + GRAVITY
                        <= i64::MAX,
                forall|k: int|
                    0 <= k < i ==> self.particles@[k] == grav_p(#[trigger] old(
                        self,
                    ).particles@[k]),
                forall|k: int|
                    i <= k < n ==> #[trigger] self.particles@[k] == old(self).particles@[k],
                self.rng == old(self).rng,
                self.total_time == old(self).total_time,
            decreases n - i,
        {
            let mut p = self.particles[i];
            p.accelerate(Vec2 { x: 0, y: GRAVITY });
            self.particles.set(i, p);
            i = i + 1;
        }
        assert(self.particles@ =~= gravity_applied(old(self).particles@));
    }

    /// Integrates every particle over `dt`, in order.
    pub fn update_positions(&mut self, dt: i64)
        requires
            0 <= dt <= DT_MAX,
            forall|k: int|
                0 <= k < old(self).particles@.len()
                    ==> #[trigger] particle_in_bounds(old(self).particles@[k]),
        ensures
            final(self).particles@ == integrated_all(old(self).particles@, dt as int),
            final(self).rng == old(self).rng,
            final(self).total_time == old(self).total_time,
    {
        let n = self.particles.len();
        let mut i: usize = 0;
        while i < n
            invariant
                i <= n,
                0 <= dt <= DT_MAX,
                n == self.particles@.len(),
                n == old(self).particles@.len(),
                forall|k: int|
                    0 <= k < n ==> #[trigger] particle_in_bounds(old(self).particles@[k]),
                forall|k: int|
                    0 <= k < i ==> self.particles@[k] == integrated(
                        #[trigger] old(self).particles@[k],
                        dt as int,
                    ),
                forall|k: int|
                    i <= k < n ==> #[trigger] self.particles@[k] == old(self).particles@[k],
                self.rng == old(self).rng,
                self.total_time == old(self).total_time,
            decreases n - i,
        {
            let mut p = self.particles[i];
            p.update_position(dt);
            self.particles.set(i, p);
            i = i + 1;
        }
        assert(self.particles@ =~= integrated_all(old(self).particles@, dt as int));
    }

    /// Clamps every particle into the room: afterwards each one's center
    /// lies within `ROOM_RADIUS - radius + 1` subunits of the room center.
    pub fn apply_constraints(&mut self)
        requires
            forall|k: int|
                0 <= k < old(self).particles@.len() ==> #[trigger] radius_ok(
                    old(self).particles@[k],
                ) && pos_within(old(self).particles@[k], COLL_POS as int),
        ensures
            final(self).particles@ == constrained_all(old(self).particles@),
            forall|k: int|
                0 <= k < final(self).particles@.len()
                    ==> #[trigger] room_dist2(final(self).particles@[k])
                    <= (ROOM_RADIUS - final(self).particles@[k].radius + 1)
                    * (ROOM_RADIUS - final(self).particles@[k].radius + 1),
            forall|k: int|
                0 <= k < final(self).particles@.len() ==> pos_within(
                    #[trigger] final(self).particles@[k],
                    CENTER_X + ROOM_RADIUS + 1,
                ),
            final(self).rng == old(self).rng,
            final(self).total_time == old(self).total_time,
    {
        let n = self.particles.len();
        let mut i: usize = 0;
        while i < n
            invariant
                i <= n,
                n == self.particles@.len(),
                n == old(self).particles@.len(),
                forall|k: int|
                    0 <= k < n ==> #[trigger] radius_ok(old(self).particles@[k]) && pos_within(
                        old(self).particles@[k],
                        COLL_POS as int,
                    ),
                forall|k: int|
                    0 <= k < i ==> self.particles@[k] == constrain_p(
                        #[trigger] old(self).particles@[k],
                    ),
                forall|k: int|
                    0 <= k < i ==> #[trigger] room_dist2(self.particles@[k]) <= (ROOM_RADIUS
                        - self.particles@[k].radius + 1) * (ROOM_RADIUS - self.particles@[k].radius
                        + 1),
                forall|k: int|
                    0 <= k < i ==> pos_within(
                        #[trigger] self.particles@[k],
                        CENTER_X + ROOM_RADIUS + 1,
                    ),
                forall|k: int|
                    i <= k < n ==> #[trigger] self.particles@[k] == old(self).particles@[k],
                self.rng == old(self).rng,
                self.total_time == old(self).total_time,
            decreases n - i,
        {
            let q = constrain_one(self.particles[i]);
            self.particles.set(i, q);
            i = i + 1;
        }
        assert(self.particles@ =~= constrained_all(old(self).particles@));
    }

    /// One single pass over all ordered pairs `(i, j)`, `i < j`, correcting
    /// each overlapping pair once, in fixed nested order. Multi-body overlaps
    /// are only approximately resolved, by design.
    pub fn apply_collisions(&mut self)
        requires
            old(self).particles@.len() <= MAX_PARTICLES,
            forall|k: int|
                0 <= k < old(self).particles@.len() ==> radius_ok(
                    #[trigger] old(self).particles@[k],
                ) && pos_within(old(self).particles@[k], WF_POS as int),
        ensures
            final(self).particles@ == resolved(old(self).particles@),
            final(self).particles@.len() == old(self).particles@.len(),
            forall|k: int|
                0 <= k < final(self).particles@.len() ==> pos_within(
                    #[trigger] final(self).particles@[k],
                    COLL_POS as int,
                ),
            forall|k: int|
                0 <= k < final(self).particles@.len() ==> {
                    let q = #[trigger] final(self).particles@[k];
                    let p = old(self).particles@[k];
                    q.prev_pos == p.prev_pos && q.acc == p.acc && q.radius == p.radius && q.color
                        == p.color
                },
            final(self).rng == old(self).rng,
            final(self).total_time == old(self).total_time,
    {
        let n = self.particles.len();
        let mut i: usize = 0;
        while i + 1 < n
            invariant
                i <= n,
                n == self.particles@.len(),
                n == old(self).particles@.len(),
                n <= MAX_PARTICLES,
                forall|k: int|
                    0 <= k < n ==> radius_ok(#[trigger] old(self).particles@[k]) && pos_within(
                        old(self).particles@[k],
                        WF_POS as int,
                    ),
                resolve_from(self.particles@, i as int, i as int + 1) == resolved(
                    old(self).particles@,
                ),
                forall|k: int|
                    0 <= k < n ==> {
                        let q = #[trigger] self.particles@[k];
                        let p = old(self).particles@[k];
                        q.prev_pos == p.prev_pos && q.acc == p.acc && q.radius == p.radius
                            && q.color == p.color
                    },
                forall|k: int|
                    0 <= k < n ==> pos_within(
                        #[trigger] self.particles@[k],
                        WF_POS + (i as int * (n as int) + i as int + 1) * PEN_MAX,
                    ),
                self.rng == old(self).rng,
                self.total_time == old(self).total_time,
            decreases n - i,
        {
            let mut j: usize = i + 1;
            while j < n
                invariant
                    i + 1 < n,
                    i + 1 <= j <= n,
                    n == self.particles@.len(),
                    n == old(self).particles@.len(),
                    n <= MAX_PARTICLES,
                    forall|k: int|
                        0 <= k < n ==> radius_ok(#[trigger] old(self).particles@[k]) && pos_within(
                            old(self).particles@[k],
                            WF_POS as int,
                        ),
                    resolve_from(self.particles@, i as int, j as int) == resolved(
                        old(self).particles@,
                    ),
                    forall|k: int|
                        0 <= k < n ==> {
                            let q = #[trigger] self.particles@[k];
                            let p = old(self).particles@[k];
                            q.prev_pos == p.prev_pos && q.acc == p.acc && q.radius == p.radius
                                && q.color == p.color
                        },
                    forall|k: int|
                        0 <= k < n ==> pos_within(
                            #[trigger] self.particles@[k],
                            WF_POS + (i as int * (n as int) + j as int) * PEN_MAX,
                        ),
                    self.rng == old(self).rng,
                    self.total_time == old(self).total_time,
                decreases n - j,
            {
                let ghost before = self.particles@;
                proof {
                    assert(WF_POS + (i as int * (n as int) + j as int) * PEN_MAX
                        <= COLL_POS as int) by (nonlinear_arith)
                        requires
                            0 <= (i as int),
                            0 <= (j as int),
                            (j as int) <= (n as int),
                            (i as int) < (n as int),
                            (n as int) <= 1000,
                    ;
                }
                let pa = self.particles[i];
                let pb = self.particles[j];
                let r = collide_one(pa, pb);
                self.particles.set(i, r.0);
                self.particles.set(j, r.1);
                proof {
                    assert(self.particles@ =~= pair_applied(before, i as int, j as int));
                    assert(resolve_from(before, i as int, j as int) == resolve_from(
                        self.particles@,
                        i as int,
                        j as int + 1,
                    ));
                    assert forall|k: int| 0 <= k < n implies pos_within(
                        #[trigger] self.particles@[k],
                        WF_POS + (i as int * (n as int) + j as int + 1) * PEN_MAX,
                    ) by {
                        assert(pos_within(before[k], WF_POS + (i as int * (n as int) + j as int)
                            * PEN_MAX));
                    }
                }
                j = j + 1;
            }
            proof {
                assert(resolve_from(self.particles@, i as int, n as int) == resolve_from(
                    self.particles@,
                    i as int + 1,
                    i as int + 2,
                ));
                assert((i as int * (n as int) + n as int) <= ((i as int + 1) * (n as int)
                    + i as int + 2)) by (nonlinear_arith)
                    requires
                        0 <= (i as int),
                        (i as int) + 1 < (n as int),
                ;
            }
            i = i + 1;
        }
        proof {
            assert(resolve_from(self.particles@, i as int, i as int + 1) == self.particles@);
            assert forall|k: int| 0 <= k < n implies pos_within(
                #[trigger] self.particles@[k],
                COLL_POS as int,
            ) by {
                assert(WF_POS + (i as int * (n as int) + i as int + 1) * PEN_MAX
                    <= COLL_POS as int) by (nonlinear_arith)
                    requires
                        0 <= (i as int),
                        (i as int) <= (n as int),
                        (n as int) <= 1000,
                ;
            }
        }
    }

    /// One physics sub-step: gravity, one collision pass, the boundary
    /// constraint, then integration over `dt`, in that exact order. The full
    /// frame `dt` is used, not `dt` divided by the sub-step count.
    pub fn step(&mut self, dt: i64)
        requires
            old(self).wf(),
            0 <= dt <= DT_MAX,
        ensures
            final(self).particles@ == stepped(old(self).particles@, dt as int),
            final(self).wf(),
            final(self).particles@.len() == old(self).particles@.len(),
            final(self).rng == old(self).rng,
            final(self).total_time == old(self).total_time,
    {
        let ghost ps0 = self.particles@;
        proof {
            assert forall|k: int|
                0 <= k < ps0.len() implies #[trigger] ps0[k].acc.y + GRAVITY <= i64::MAX by {
                assert(wf_particle(ps0[k]));
            }
        }
        self.apply_gravity();
        let ghost ps1 = self.particles@;
        proof {
            assert forall|k: int|
                0 <= k < ps1.len() implies radius_ok(#[trigger] ps1[k]) && pos_within(
                ps1[k],
                WF_POS as int,
            ) by {
                assert(ps1[k] == grav_p(ps0[k]));
                assert(wf_particle(ps0[k]));
            }
        }
        self.apply_collisions();
        let ghost ps2 = self.particles@;
        proof {
            assert forall|k: int|
                0 <= k < ps2.len() implies radius_ok(#[trigger] ps2[k]) && pos_within(
                ps2[k],
                COLL_POS as int,
            ) by {
                assert(ps1[k] == grav_p(ps0[k]));
                assert(wf_particle(ps0[k]));
            }
        }
        self.apply_constraints();
        let ghost ps3 = self.particles@;
        proof {
            assert forall|k: int|
                0 <= k < ps3.len() implies #[trigger] particle_in_bounds(ps3[k]) by {
                assert(ps3[k] == constrain_p(ps2[k]));
                assert(ps2[k].prev_pos == ps1[k].prev_pos && ps2[k].acc == ps1[k].acc);
                assert(ps1[k] == grav_p(ps0[k]));
                assert(wf_particle(ps0[k]));
                assert(pos_within(ps3[k], CENTER_X + ROOM_RADIUS + 1));
            }
        }
        self.update_positions(dt);
        proof {
            assert forall|k: int|
                0 <= k < self.particles@.len() implies wf_particle(
                #[trigger] self.particles@[k],
            ) by {
                assert(self.particles@[k] == integrated(ps3[k], dt as int));
                assert(ps3[k] == constrain_p(ps2[k]));
                assert(ps2[k].prev_pos == ps1[k].prev_pos && ps2[k].acc == ps1[k].acc && ps2[
                k].radius == ps1[k].radius);
                assert(ps1[k] == grav_p(ps0[k]));
                assert(wf_particle(ps0[k]));
                assert(pos_within(ps3[k], CENTER_X + ROOM_RADIUS + 1));
                lemma_accel_term_bound(ps3[k].acc.x as int, dt as int);
                lemma_accel_term_bound(ps3[k].acc.y as int, dt as int);
            }
            assert(self.particles@ == stepped(ps0, dt as int));
        }
    }

    /// One frame update: accumulates `dt` into the spawn timer; when the
    /// timer reaches `SPAWN_TIME` it resets to zero and exactly one particle
    /// spawns. Then the sub-step sequence runs `SUB_STEPS` times, each with
    /// the full frame `dt`.
    pub fn update(&mut self, dt: i64)
        requires
            old(self).wf(),
            0 <= dt <= DT_MAX,
            old(self).particles@.len() < MAX_PARTICLES,
        ensures
            final(self).wf(),
            old(self).total_time + dt >= SPAWN_TIME ==> final(self).total_time == 0
                && final(self).particles@.len() == old(self).particles@.len() + 1 && (exists|
            p: Particle|
                #[trigger] spawn_ok(p) && final(self).particles@ == stepped(
                    stepped(old(self).particles@.push(p), dt as int),
                    dt as int,
                )),
            old(self).total_time + dt < SPAWN_TIME ==> final(self).total_time == old(self).total_time
                + dt && final(self).particles@ == stepped(
                stepped(old(self).particles@, dt as int),
                dt as int,
            ),
    {
        self.total_time = self.total_time + dt;
        let ghost spawned = self.total_time >= SPAWN_TIME;
        if self.total_time >= SPAWN_TIME {
            self.total_time = 0;
            self.spawn_particle();
            proof {
                assert(self.particles@ =~= old(self).particles@.push(self.particles@.last()));
            }
        }
        let ghost wit = self.particles@.last();
        let ghost mid = self.particles@;
        proof {
            assert forall|k: int|
                0 <= k < mid.len() implies wf_particle(#[trigger] mid[k]) by {
                if k < old(self).particles@.len() {
                    assert(wf_particle(old(self).particles@[k]));
                }
            }
        }
        self.step(dt);
        self.step(dt);
        proof {
            if spawned {
                assert(spawn_ok(wit) && self.particles@ == stepped(
                    stepped(old(self).particles@.push(wit), dt as int),
                    dt as int,
                ));
            }
        }
    }
}

/// The boundary constraint on one particle, as executable code.
fn constrain_one(p: Particle) -> (q: Particle)
    requires
        radius_ok(p),
        pos_within(p, COLL_POS as int),
    ensures
        q == constrain_p(p),
        room_dist2(q) <= (ROOM_RADIUS - q.radius + 1) * (ROOM_RADIUS - q.radius + 1),
        pos_within(q, CENTER_X + ROOM_RADIUS + 1),
{
    let tx: i64 = CENTER_X - p.pos.x;
    let ty: i64 = CENTER_Y - p.pos.y;
    let ghost d2i: int = tx as int * (tx as int) + ty as int * (ty as int);
    proof {
        assert(0 <= tx as int * (tx as int) && 0 <= ty as int * (ty as int)
            && d2i < 2_500_000_000_000_000_000_000_000int) by (nonlinear_arith)
            requires
                d2i == tx as int * (tx as int) + ty as int * (ty as int),
                abs_i(tx as int) <= 1_100_010_000_000int,
                abs_i(ty as int) <= 1_100_010_000_000int,
                abs_i(tx as int) == (if (tx as int) < 0 { -(tx as int) } else { tx as int }),
                abs_i(ty as int) == (if (ty as int) < 0 { -(ty as int) } else { ty as int }),
        ;
        assert(d2i < 0x1000000000000000000000int);
    }
    let d2: i128 = (tx as i128) * (tx as i128) + (ty as i128) * (ty as i128);
    let lim: i64 = ROOM_RADIUS - p.radius;
    let dist_u: u64 = isqrt(d2 as u128);
    proof {
        assert(dist_u < 1_600_000_000_000u64) by (nonlinear_arith)
            requires
                dist_u as int * (dist_u as int) <= d2i,
                d2i < 2_500_000_000_000_000_000_000_000int,
                dist_u >= 0,
        ;
        assert((lim as int) * (lim as int) + 2 * (lim as int) < (lim as int + 1) * (lim as int
            + 1)) by (nonlinear_arith);
    }
    if (dist_u as i64) > lim {
        let ax = abs64(tx);
        let ay = abs64(ty);
        proof {
            assert(ax as int * (ax as int) == tx as int * (tx as int) && ay as int * (ay as int)
                == ty as int * (ty as int)) by (nonlinear_arith)
                requires
                    ax as int == (if (tx as int) < 0 { -(tx as int) } else { tx as int }),
                    ay as int == (if (ty as int) < 0 { -(ty as int) } else { ty as int }),
            ;
            assert(ax <= dist_u && ay <= dist_u) by (nonlinear_arith)
                requires
                    ax >= 0,
                    ay >= 0,
                    dist_u >= 0,
                    ax as int * (ax as int) == tx as int * (tx as int),
                    ay as int * (ay as int) == ty as int * (ty as int),
                    tx as int * (tx as int) + ty as int * (ty as int) < (dist_u as int + 1) * (
                    dist_u as int + 1),
            ;
            assert(ax as int * (lim as int) * 1 <= (lim as int) * (dist_u as int * 1)
                && ay as int * (lim as int) * 1 <= (lim as int) * (dist_u as int * 1)
                && ax as int * (lim as int) * 1 <= u128::MAX
                && ay as int * (lim as int) * 1 <= u128::MAX) by (nonlinear_arith)
                requires
                    0 <= ax <= dist_u,
                    0 <= ay <= dist_u,
                    dist_u < 1_600_000_000_000u64,
                    0 <= lim <= 9_000_000,
            ;
            lemma_div_bound(ax as int * (lim as int) * 1, dist_u as int * 1, lim as int);
            lemma_div_bound(ay as int * (lim as int) * 1, dist_u as int * 1, lim as int);
        }
        let mx = mul3div2(ax, lim as u64, 1, dist_u, 1);
        let my = mul3div2(ay, lim as u64, 1, dist_u, 1);
        let dx: i64 = if tx < 0 {
            -(mx as i64)
        } else {
            mx as i64
        };
        let dy: i64 = if ty < 0 {
            -(my as i64)
        } else {
            my as i64
        };
        let mut q = p;
        q.pos = Vec2 { x: CENTER_X - dx, y: CENTER_Y - dy };
        proof {
            assert(mx as int == (abs_i(tx as int) * (lim as int)) / (dist_u as int)
                && my as int == (abs_i(ty as int) * (lim as int)) / (dist_u as int))
                by (nonlinear_arith)
                requires
                    mx as int == (ax as int * (lim as int) * 1) / (dist_u as int * 1),
                    my as int == (ay as int * (lim as int) * 1) / (dist_u as int * 1),
                    ax as int == abs_i(tx as int),
                    ay as int == abs_i(ty as int),
            ;
            assert(dx as int == disp_part(tx as int, lim as int, 1, dist_u as int, 1)
                && dy as int == disp_part(ty as int, lim as int, 1, dist_u as int, 1))
                by (nonlinear_arith)
                requires
                    dx as int == (if (tx as int) >= 0 { mx as int } else { -(mx as int) }),
                    dy as int == (if (ty as int) >= 0 { my as int } else { -(my as int) }),
                    mx as int == (abs_i(tx as int) * (lim as int)) / (dist_u as int),
                    my as int == (abs_i(ty as int) * (lim as int)) / (dist_u as int),
                    abs_i(tx as int) == (if (tx as int) >= 0 { tx as int } else { -(tx as int) }),
                    abs_i(ty as int) == (if (ty as int) >= 0 { ty as int } else { -(ty as int) }),
                    disp_part(tx as int, lim as int, 1, dist_u as int, 1) == (if (tx as int) >= 0 {
                        (tx as int * (lim as int) * 1) / (dist_u as int * 1)
                    } else {
                        -(((-(tx as int)) * (lim as int) * 1) / (dist_u as int * 1))
                    }),
                    disp_part(ty as int, lim as int, 1, dist_u as int, 1) == (if (ty as int) >= 0 {
                        (ty as int * (lim as int) * 1) / (dist_u as int * 1)
                    } else {
                        -(((-(ty as int)) * (lim as int) * 1) / (dist_u as int * 1))
                    }),
            ;
            lemma_clamp_contained(
                tx as int,
                ty as int,
                lim as int,
                dist_u as int,
                mx as int,
                my as int,
            );
            assert(q == constrain_p(p));
            assert(dx as int * (dx as int) + dy as int * (dy as int) <= (lim as int) * (lim as int)
                + 2 * (lim as int)) by (nonlinear_arith)
                requires
                    dx as int == mx as int || dx as int == -(mx as int),
                    dy as int == my as int || dy as int == -(my as int),
                    mx as int * (mx as int) + my as int * (my as int) <= (lim as int) * (
                    lim as int) + 2 * (lim as int),
            ;
            assert(room_dist2(q) == dx as int * (dx as int) + dy as int * (dy as int));
        }
        q
    } else {
        proof {
            assert(constrain_p(p) == p);
            assert(d2i <= (lim as int) * (lim as int) + 2 * (lim as int)) by (nonlinear_arith)
                requires
                    d2i < (dist_u as int + 1) * (dist_u as int + 1),
                    0 <= dist_u as int,
                    dist_u as int <= lim as int,
            ;
            assert(abs_i(tx as int) <= lim as int + 1 && abs_i(ty as int) <= lim as int + 1)
                by (nonlinear_arith)
                requires
                    d2i == tx as int * (tx as int) + ty as int * (ty as int),
                    d2i < (lim as int + 1) * (lim as int + 1),
                    lim >= 0,
            ;
            assert(room_dist2(p) == d2i);
        }
        p
    }
}

/// `disp_part` as executable code, by sign and magnitude.
fn disp_one(v: i64, pen: u64, r_other: u64, dist: u64, rsum: u64) -> (d: i64)
    requires
        1 <= dist <= 2_000_000,
        1 <= r_other <= rsum,
        rsum <= 2_000_000,
        pen <= 750_000,
        abs_i(v as int) <= dist,
    ensures
        d == disp_part(v as int, pen as int, r_other as int, dist as int, rsum as int),
        abs_i(d as int) <= pen,
{
    let m = abs64(v);
    proof {
        assert(m * pen * r_other <= u128::MAX && m * pen * r_other <= pen * (dist * rsum)
            && dist * rsum >= 1) by (nonlinear_arith)
            requires
                0 <= m <= dist,
                1 <= dist <= 2_000_000,
                1 <= r_other <= rsum,
                rsum <= 2_000_000,
                0 <= pen <= 750_000,
        ;
        lemma_div_bound(m as int * (pen as int) * (r_other as int),
            dist as int * (rsum as int), pen as int);
    }
    let q = mul3div2(m, pen, r_other, dist, rsum);
    let d: i64 = if v < 0 {
        -(q as i64)
    } else {
        q as i64
    };
    proof {
        assert(d as int == disp_part(v as int, pen as int, r_other as int, dist as int,
            rsum as int)) by (nonlinear_arith)
            requires
                d as int == (if (v as int) >= 0 { q as int } else { -(q as int) }),
                q as int == (m as int * (pen as int) * (r_other as int)) / (dist as int * (
                rsum as int)),
                m as int == (if (v as int) >= 0 { v as int } else { -(v as int) }),
                disp_part(v as int, pen as int, r_other as int, dist as int, rsum as int) == (
                if (v as int) >= 0 {
                    (v as int * (pen as int) * (r_other as int)) / (dist as int * (rsum as int))
                } else {
                    -(((-(v as int)) * (pen as int) * (r_other as int)) / (dist as int * (
                    rsum as int)))
                }),
        ;
    }
    d
}

/// One pair interaction, as executable code.
fn collide_one(a: Particle, b: Particle) -> (r: (Particle, Particle))
    requires
        radius_ok(a),
        radius_ok(b),
        pos_within(a, COLL_POS as int),
        pos_within(b, COLL_POS as int),
    ensures
        r == collide_pair(a, b),
        abs_i(r.0.pos.x - a.pos.x) <= PEN_MAX,
        abs_i(r.0.pos.y - a.pos.y) <= PEN_MAX,
        abs_i(r.1.pos.x - b.pos.x) <= PEN_MAX,
        abs_i(r.1.pos.y - b.pos.y) <= PEN_MAX,
        r.0.prev_pos == a.prev_pos && r.0.acc == a.acc && r.0.radius == a.radius && r.0.color
            == a.color,
        r.1.prev_pos == b.prev_pos && r.1.acc == b.acc && r.1.radius == b.radius && r.1.color
            == b.color,
{
    let vx: i64 = a.pos.x - b.pos.x;
    let vy: i64 = a.pos.y - b.pos.y;
    let ghost d2i: int = vx as int * (vx as int) + vy as int * (vy as int);
    proof {
        assert(0 <= vx as int * (vx as int) && 0 <= vy as int * (vy as int)
            && d2i < 9_700_000_000_000_000_000_000_000int) by (nonlinear_arith)
            requires
                d2i == vx as int * (vx as int) + vy as int * (vy as int),
                abs_i(vx as int) <= 2_200_000_000_000int,
                abs_i(vy as int) <= 2_200_000_000_000int,
                abs_i(vx as int) == (if (vx as int) < 0 { -(vx as int) } else { vx as int }),
                abs_i(vy as int) == (if (vy as int) < 0 { -(vy as int) } else { vy as int }),
        ;
    }
    let d2: i128 = (vx as i128) * (vx as i128) + (vy as i128) * (vy as i128);
    let min_dist: i64 = a.radius + b.radius;
    proof {
        assert(min_dist as int * (min_dist as int) <= 4_000_000_000_000int) by (nonlinear_arith)
            requires
                0 <= min_dist <= 2_000_000,
        ;
    }
    let md2: i128 = (min_dist as i128) * (min_dist as i128);
    if d2 < md2 && d2 > 0 {
        let dist_u: u64 = isqrt(d2 as u128);
        proof {
            if dist_u == 0 {
                assert(d2i < (0 + 1) * (0 + 1));
            }
            assert(dist_u >= 1);
            assert(dist_u < min_dist) by (nonlinear_arith)
                requires
                    dist_u as int * (dist_u as int) <= d2i,
                    d2i < min_dist as int * (min_dist as int),
                    dist_u >= 0,
                    min_dist >= 0,
            ;
            assert(abs_i(vx as int) * abs_i(vx as int) == vx as int * (vx as int) && abs_i(
            vy as int) * abs_i(vy as int) == vy as int * (vy as int)) by (nonlinear_arith)
                requires
                    abs_i(vx as int) == (if (vx as int) < 0 { -(vx as int) } else { vx as int }),
                    abs_i(vy as int) == (if (vy as int) < 0 { -(vy as int) } else { vy as int }),
            ;
            assert(abs_i(vx as int) <= dist_u && abs_i(vy as int) <= dist_u) by (nonlinear_arith)
                requires
                    abs_i(vx as int) >= 0,
                    abs_i(vy as int) >= 0,
                    dist_u >= 0,
                    abs_i(vx as int) * abs_i(vx as int) == vx as int * (vx as int),
                    abs_i(vy as int) * abs_i(vy as int) == vy as int * (vy as int),
                    vx as int * (vx as int) + vy as int * (vy as int) < (dist_u as int + 1) * (
                    dist_u as int + 1),
            ;
            lemma_div_bound((min_dist - dist_u as i64) as int * 3, 8, 750_000);
        }
        let pen: u64 = (((min_dist as u64) - dist_u) * 3) / 8;
        let d1x = disp_one(vx, pen, b.radius as u64, dist_u, min_dist as u64);
        let d1y = disp_one(vy, pen, b.radius as u64, dist_u, min_dist as u64);
        let d2x = disp_one(vx, pen, a.radius as u64, dist_u, min_dist as u64);
        let d2y = disp_one(vy, pen, a.radius as u64, dist_u, min_dist as u64);
        let pa = Particle {
            pos: Vec2 { x: a.pos.x + d1x, y: a.pos.y + d1y },
            prev_pos: a.prev_pos,
            acc: a.acc,
            radius: a.radius,
            color: a.color,
        };
        let pb = Particle {
            pos: Vec2 { x: b.pos.x - d2x, y: b.pos.y - d2y },
            prev_pos: b.prev_pos,
            acc: b.acc,
            radius: b.radius,
            color: b.color,
        };
        proof {
            assert((pa, pb) == collide_pair(a, b));
        }
        (pa, pb)
    } else {
        proof {
            assert(collide_pair(a, b) == (a, b));
        }
        (a, b)
    }
}

} // verus!
