//! The numbers of the game. A fraction is given by its decimal digits.

use vstd::prelude::*;

verus! {

/// Points along one side of the wireframe.
pub const GRID: u32 = 22;

/// How far a unit of height moves a point up the canvas, in tenths.
pub const Z_SCALE_TENTHS: i32 = 7;

/// The length of one side of the course.
pub const DOMAIN: i32 = 10;

pub const GRAVITY_TENTHS: i32 = 4;

/// The share of the velocity that a tick leaves, in hundredths.
pub const DAMPING_HUNDREDTHS: i32 = 90;

/// The length of a tick, in hundredths.
pub const DT_HUNDREDTHS: i32 = 6;

/// The distance at which slopes are sampled, in hundredths.
pub const EPS_HUNDREDTHS: i32 = 5;

pub const PUTT_POWER_STEP_TENTHS: i32 = 3;

pub const AIM_STEP_HUNDREDTHS: i32 = 8;

/// The landscape moves by one part in so many at a tick.
pub const MORPH_TICKS: u32 = 60;

/// The ball is stuck after so many slow ticks.
pub const STUCK_TICKS: u32 = 20;

/// How many positions the trail keeps.
pub const TRAIL_LEN: usize = 60;

/// The longest wait for a key between two ticks, in milliseconds.
pub const TICK_MILLIS: u64 = 33;

} // verus!
