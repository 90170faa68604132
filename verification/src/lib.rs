//! A verified core for a piecewise-linear curve editor.
//!
//! A curve is an ordered list of samples, each carrying an ordering
//! coordinate (`time`) and two dependent channels (`x` and `y`).  All
//! coordinates are exact fixed-point numbers: a stored `i64` counts
//! micro-units, so the real value `1.0` is stored as [`SCALE`].
//!
//! The library maintains the editing invariants (length at least two,
//! non-decreasing times), computes the exact signed area under each
//! channel's polyline, renormalizes channels against their largest
//! magnitude, and round-trips curves through a human-readable text form.

pub mod codec;
pub mod integral;
pub mod model;
pub mod norm;
pub mod session;

use vstd::prelude::*;

verus! {

/// Number of stored micro-units in one real unit: a stored value `v`
/// stands for the real number `v / SCALE`.
pub const SCALE: i64 = 1_000_000;

/// Largest magnitude a stored coordinate may take (one million real units).
/// Keeps every intermediate product of the integral inside `i128`.
pub const COORD_MAX: i64 = 1_000_000_000_000;

/// Largest number of samples a curve may hold.
pub const MAX_POINTS: usize = 65536;

/// Largest display multiplier, in micro-units (a million-fold zoom).
pub const MULT_MAX: i64 = 1_000_000_000_000;

} // verus!
