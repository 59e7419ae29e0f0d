//! A 2D particle physics solver built on position-based Verlet integration.
//!
//! Positions, radii, times and accelerations are fixed-point numbers: `i64`
//! counts of `1 / SCALE` units. Every physics transform is an exact integer
//! computation with a contract that pins the result down.

pub mod math;
pub mod particle;
pub mod rng;
pub mod solver;
pub mod laws;

use vstd::prelude::*;

verus! {

/// Number of fixed-point subunits in one world unit (and in one second).
pub const SCALE: i64 = 10_000;

} // verus!
