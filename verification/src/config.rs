//! Tuning constants of the generator, in lattice steps.
use vstd::prelude::*;

verus! {

/// Lattice steps per unit of the map, and the denominator of every
/// fixed-point fraction (a population of `UNIT` is 1.0).
pub const UNIT: i64 = 10000;

/// Largest absolute coordinate of a point the geometry accepts.
pub const COORDINATE_LIMIT: i64 = 0x2000_0000;

/// Largest absolute coordinate the scalar products accept.
pub const WIDE_LIMIT: i64 = 0x1000_0000_0000_0000;

/// Collider width of a highway.
pub const HIGHWAY_SEGMENT_WIDTH: i64 = 16 * UNIT;

/// Population above which a highway may branch into highways (0.1).
pub const HIGHWAY_BRANCH_POPULATION_THRESHOLD: i64 = 1000;

/// Chance of a highway branch on each side (0.05).
pub const HIGHWAY_BRANCH_PROBABILITY: i64 = 500;

/// Collider width of a normal road.
pub const DEFAULT_SEGMENT_WIDTH: i64 = 6 * UNIT;

/// Length of a branch.
pub const DEFAULT_SEGMENT_LENGTH: i64 = 300 * UNIT;

/// Two points closer than this, in squared lattice steps, are the same point.
pub const EPSILON: i64 = 1;

/// The square root of `EPSILON`, in lattice steps.
pub const EPSILON_ROOT: i64 = 1;

/// Smallest angle, in degrees, at which a road may meet another.
pub const MINIMUM_INTERSECTION_DEVIATION: i64 = 30;

/// The squared cosine of `MINIMUM_INTERSECTION_DEVIATION`, three quarters,
/// as a numerator and a denominator: two roads meet at a smaller angle
/// exactly when the squared cosine of the angle between them is larger.
pub const DEVIATION_COSINE2_NUMERATOR: i128 = 3;

/// See `DEVIATION_COSINE2_NUMERATOR`.
pub const DEVIATION_COSINE2_DENOMINATOR: i128 = 4;

/// Radius within which a road end snaps onto an existing road.
pub const ROAD_SNAP_DISTANCE: i64 = 50 * UNIT;

/// Scheduling delay of a normal branch that leaves a highway.
pub const NORMAL_BRANCH_TIME_DELAY_FROM_HIGHWAY: u64 = 5;

/// Population above which a normal road continues and branches (0.1).
pub const NORMAL_BRANCH_POPULATION_THRESHOLD: i64 = 1000;

/// Chance of a normal branch on each side (0.4).
pub const DEFAULT_BRANCH_PROBABILITY: i64 = 4000;

/// Length of a highway segment.
pub const HIGHWAY_SEGMENT_LENGTH: i64 = 400 * UNIT;

/// Number of accepted segments at which growth stops.
pub const SEGMENT_COUNT_LIMIT: usize = 200;

/// Half-width, in degrees, of the spread of a branch's angle.
pub const BRANCH_ANGLE_DEV: i64 = 3;

/// Half-width, in degrees, of the spread of a continuing highway's angle.
pub const FORWARD_ANGLE_DEV: i64 = 15;

/// The tangent of `BRANCH_ANGLE_DEV` degrees, in parts of `TANGENT_SCALE`,
/// rounded up.
pub const BRANCH_TANGENT: i128 = 53;

/// The tangent of `FORWARD_ANGLE_DEV` degrees, in parts of `TANGENT_SCALE`,
/// rounded up.
pub const FORWARD_TANGENT: i128 = 268;

/// The scale of the two tangents.
pub const TANGENT_SCALE: i128 = 1000;

/// Which of the two angular spreads a random angle is drawn from.
#[derive(Clone, Copy, Debug, PartialEq, Eq, Structural)]
pub enum AngleDirection {
    Branch,
    Forward,
}

/// The half-width of the spread, in degrees scaled by `UNIT`.
pub open spec fn angle_limit(direction: AngleDirection) -> int {
    match direction {
        AngleDirection::Branch => BRANCH_ANGLE_DEV * UNIT,
        AngleDirection::Forward => FORWARD_ANGLE_DEV * UNIT,
    }
}

/// Whether the sampler keeps the angle `val` when the uniform draw is `draw`:
/// the angle is not zero and `draw / UNIT >= |val|^3 / limit^3`.
pub open spec fn angle_kept(direction: AngleDirection, val: int, draw: int) -> bool {
    let limit = angle_limit(direction);
    let size = if val < 0 { -val } else { val };
    val != 0 && draw * (limit * limit * limit) >= size * size * size * UNIT
}

/// One round of the rejection sampler that peaks at zero.
///
/// `val` is a uniform draw from `(-limit, limit)` degrees and `draw` a
/// uniform draw from `[0, 1)`, both scaled by `UNIT`. The angle is returned
/// when the sampler keeps it; on `None` the caller draws again.
pub fn random_angle(direction: AngleDirection, val: i64, draw: i64) -> (kept: Option<i64>)
    requires
        -angle_limit(direction) <= val <= angle_limit(direction),
        0 <= draw <= UNIT,
    ensures
        kept == if angle_kept(direction, val as int, draw as int) {
            Some(val)
        } else {
            None
        },
{
    let limit: i128 = match direction {
        AngleDirection::Branch => (BRANCH_ANGLE_DEV * UNIT) as i128,
        AngleDirection::Forward => (FORWARD_ANGLE_DEV * UNIT) as i128,
    };
    let size: i128 = if val < 0 { -(val as i128) } else { val as i128 };
    assert(0 <= size <= limit <= 150000);
    assert(0 <= size * size <= 150000 * 150000 && 0 <= limit * limit <= 150000 * 150000)
        by (nonlinear_arith)
        requires 0 <= size <= limit <= 150000;
    let size2: i128 = size * size;
    let limit2: i128 = limit * limit;
    assert(0 <= size2 * size <= 22500000000 * 150000 && 0 <= limit2 * limit <= 22500000000
        * 150000) by (nonlinear_arith)
        requires 0 <= size <= 150000, 0 <= limit <= 150000, 0 <= size2 <= 22500000000, 0 <= limit2 <= 22500000000;
    let size3: i128 = size2 * size;
    let limit3: i128 = limit2 * limit;
    assert(0 <= (draw as int) * limit3 <= 10000 * 3375000000000000) by (nonlinear_arith)
        requires 0 <= draw <= 10000, 0 <= limit3 <= 3375000000000000;
    if val != 0 && (draw as i128) * limit3 >= size3 * (UNIT as i128) {
        Some(val)
    } else {
        None
    }
}

} // verus!
