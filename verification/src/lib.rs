//! A steady-state genetic algorithm for the obstacle-avoiding Steiner
//! minimal tree problem: terminals on the plane are to be connected by a
//! tree that may pass through extra junction ("Steiner") points and
//! obstacle corners, minimising total obstacle-weighted length.
//!
//! The plane is modelled in fixed-point arithmetic: a coordinate is an
//! `i64` counting `SCALE` units per unit of length, bounded by `X_MAX`.
//! All geometry is exact integer or rational arithmetic, which is what
//! makes the kernel verifiable.

use vstd::prelude::*;

pub mod geom;
pub mod isect;
pub mod problem;
pub mod graph;
pub mod rng;
pub mod chromosome;
pub mod engine;

verus! {

/// Fixed-point scale: this many coordinate units stand for one unit of
/// length. Obstacle weights use the same scale (a weight of `SCALE` is a
/// multiplier of one).
pub const SCALE: i64 = 10_000;

/// Bound on the absolute value of any coordinate the library handles.
pub const X_MAX: i64 = 262_144;

/// Upper bound on a Euclidean distance between two in-range points
/// (`sqrt(2) * 2 * X_MAX` rounded up).
pub const EUCLID_MAX: i64 = 1_048_576;

/// Sentinel cost: an obstacle with this weight is impassable, and a
/// segment crossing such an obstacle has this obstacle-aware distance.
pub const INF_COST: i64 = 1_000_000_000_000_000_000;

/// Largest weight of a passable obstacle (a multiplier of one hundred
/// million at `SCALE` resolution).
pub const W_MAX: i64 = 1_000_000_000_000;

/// Largest number of obstacles a problem may carry; keeps every
/// unblocked obstacle-aware distance strictly below `INF_COST`.
pub const MAX_OBSTACLES: usize = 1_000;

/// Largest number of vertices a polygon may carry.
pub const MAX_POLY: usize = 10_000;

/// Largest obstacle-aware distance of an unblocked segment.
pub const UNBLOCKED_MAX: i64 = 200_000_000_000_000_000;

/// Largest amount one obstacle can add to a segment's weighted length.
pub const STEP_MAX: i64 = 110_000_000_000_000;

/// Largest number of terminals a problem may carry.
pub const MAX_TERMINALS: usize = 100_000;

} // verus!
