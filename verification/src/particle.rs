//! One simulated body: position, positional history, an acceleration
//! accumulator, a radius, and a cosmetic color.

use vstd::prelude::*;
use crate::math::abs_i;
use crate::math::lemma_div_bound;
use crate::math::mul3div2;
use crate::SCALE;

verus! {

/// Largest coordinate magnitude (subunits) the integrator accepts.
pub const POS_LIMIT: i64 = 2_000_000_000_000;

/// Largest acceleration magnitude (subunits per second squared) the
/// integrator accepts.
pub const ACC_LIMIT: i64 = 2_000_000_000;

/// Largest time step (subunits of a second) the integrator accepts.
pub const DT_MAX: i64 = 100_000;

/// A 2D vector of fixed-point coordinates.
#[derive(Clone, Copy, PartialEq, Eq, Structural, Debug)]
pub struct Vec2 {
    pub x: i64,
    pub y: i64,
}

/// An RGB color with integer channels in `0 ..= 255`; alpha is fixed at one.
#[derive(Clone, Copy, PartialEq, Eq, Structural, Debug)]
pub struct Rgba {
    pub r: u32,
    pub g: u32,
    pub b: u32,
}

/// A particle. Velocity is implicit: `pos - prev_pos` per sub-step.
#[derive(Clone, Copy, PartialEq, Eq, Structural, Debug)]
pub struct Particle {
    pub pos: Vec2,
    pub prev_pos: Vec2,
    pub acc: Vec2,
    pub radius: i64,
    pub color: Rgba,
}

/// The contribution of acceleration `a` over time step `dt`, in subunits:
/// `a * dt * dt / SCALE^2`, truncated toward zero.
pub open spec fn accel_term(a: int, dt: int) -> int {
    if a >= 0 {
        (a * dt * dt) / (SCALE * SCALE)
    } else {
        -(((-a) * dt * dt) / (SCALE * SCALE))
    }
}

/// One Verlet integration step of a particle: the implicit velocity
/// `pos - prev_pos` carries over, the acceleration contributes
/// `acc * dt * dt / SCALE^2`, and the accumulator resets to zero.
pub open spec fn integrated(p: Particle, dt: int) -> Particle {
    Particle {
        pos: Vec2 {
            x: (p.pos.x + (p.pos.x - p.prev_pos.x) + accel_term(p.acc.x as int, dt)) as i64,
            y: (p.pos.y + (p.pos.y - p.prev_pos.y) + accel_term(p.acc.y as int, dt)) as i64,
        },
        prev_pos: p.pos,
        acc: Vec2 { x: 0, y: 0 },
        radius: p.radius,
        color: p.color,
    }
}

/// Coordinates a particle hands to the integrator stay within these bounds.
pub open spec fn particle_in_bounds(p: Particle) -> bool {
    &&& abs_i(p.pos.x as int) <= POS_LIMIT
    &&& abs_i(p.pos.y as int) <= POS_LIMIT
    &&& abs_i(p.prev_pos.x as int) <= POS_LIMIT
    &&& abs_i(p.prev_pos.y as int) <= POS_LIMIT
    &&& abs_i(p.acc.x as int) <= ACC_LIMIT
    &&& abs_i(p.acc.y as int) <= ACC_LIMIT
}

/// The integration contribution of a bounded acceleration stays within
/// `ACC_LIMIT * DT_MAX^2 / SCALE^2` subunits.
pub proof fn lemma_accel_term_bound(a: int, dt: int)
    requires
        abs_i(a) <= ACC_LIMIT,
        0 <= dt <= DT_MAX,
    ensures
        abs_i(accel_term(a, dt)) <= 200_000_000_000,
{
    if a >= 0 {
        assert(a * dt * dt <= 20_000_000_000_000_000_000int) by (nonlinear_arith)
            requires
                0 <= a <= 2_000_000_000,
                0 <= dt <= 100_000,
        ;
        lemma_div_bound(a * dt * dt, SCALE as int * (SCALE as int), 200_000_000_000int);
    } else {
        assert((-a) * dt * dt <= 20_000_000_000_000_000_000int) by (nonlinear_arith)
            requires
                0 <= -a <= 2_000_000_000,
                0 <= dt <= 100_000,
        ;
        lemma_div_bound((-a) * dt * dt, SCALE as int * (SCALE as int), 200_000_000_000int);
    }
}

impl Particle {
    /// A particle at rest: history equals position and no force accumulated.
    pub fn new(pos: Vec2, radius: i64, color: Rgba) -> (p: Particle)
        requires
            radius > 0,
        ensures
            p.pos == pos,
            p.prev_pos == pos,
            p.acc == (Vec2 { x: 0, y: 0 }),
            p.radius == radius,
            p.color == color,
    {
        Particle { pos, prev_pos: pos, acc: Vec2 { x: 0, y: 0 }, radius, color }
    }

    /// Adds a force contribution into the acceleration accumulator.
    pub fn accelerate(&mut self, a: Vec2)
        requires
            i64::MIN <= old(self).acc.x + a.x <= i64::MAX,
            i64::MIN <= old(self).acc.y + a.y <= i64::MAX,
        ensures
            final(self).acc.x == old(self).acc.x + a.x,
            final(self).acc.y == old(self).acc.y + a.y,
            final(self).pos == old(self).pos,
            final(self).prev_pos == old(self).prev_pos,
            final(self).radius == old(self).radius,
            final(self).color == old(self).color,
    {
        self.acc = Vec2 { x: self.acc.x + a.x, y: self.acc.y + a.y };
    }

    /// Verlet integration over `dt`: derives the velocity from the positional
    /// history, advances the position, records the old position as history,
    /// and resets the acceleration accumulator.
    pub fn update_position(&mut self, dt: i64)
        requires
            0 <= dt <= DT_MAX,
            particle_in_bounds(*old(self)),
        ensures
            *final(self) == integrated(*old(self), dt as int),
            abs_i(final(self).pos.x as int) <= 3 * POS_LIMIT + 200_000_000_000,
            abs_i(final(self).pos.y as int) <= 3 * POS_LIMIT + 200_000_000_000,
    {
        let gx = scaled_accel(self.acc.x, dt);
        let gy = scaled_accel(self.acc.y, dt);
        let vx = self.pos.x - self.prev_pos.x;
        let vy = self.pos.y - self.prev_pos.y;
        self.prev_pos = self.pos;
        self.pos = Vec2 { x: self.pos.x + vx + gx, y: self.pos.y + vy + gy };
        self.acc = Vec2 { x: 0, y: 0 };
    }
}

/// `accel_term(a, dt)` as executable code, by sign and magnitude.
fn scaled_accel(a: i64, dt: i64) -> (g: i64)
    requires
        0 <= dt <= DT_MAX,
        abs_i(a as int) <= ACC_LIMIT,
    ensures
        g == accel_term(a as int, dt as int),
        abs_i(g as int) <= 200_000_000_000,
{
    let mag: u64 = if a < 0 {
        (-a) as u64
    } else {
        a as u64
    };
    proof {
        assert(mag * dt * dt <= 20_000_000_000_000_000_000int) by (nonlinear_arith)
            requires
                0 <= mag <= 2_000_000_000,
                0 <= dt <= 100_000,
        ;
        lemma_div_bound(mag as int * dt as int * dt as int, SCALE as int * SCALE as int,
            200_000_000_000int);
    }
    let q: u64 = mul3div2(mag, dt as u64, dt as u64, SCALE as u64, SCALE as u64);
    if a < 0 {
        -(q as i64)
    } else {
        q as i64
    }
}

} // verus!
