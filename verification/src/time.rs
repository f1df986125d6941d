//! Virtual time. A clock value is a number of milliseconds; it is unrelated
//! to wall time and moves only when an input is delivered.

use vstd::prelude::*;

verus! {

/// A point in virtual time, in milliseconds since the clock's epoch.
pub type LocalTime = u128;

/// A span of virtual time, in milliseconds.
pub type LocalDuration = u128;

/// Minimum latency between peers: one millisecond.
pub const MIN_LATENCY: LocalDuration = 1;

} // verus!
