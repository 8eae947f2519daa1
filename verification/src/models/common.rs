//! Values shared by the problem model and the working state.

use vstd::prelude::*;

verus! {

/// An index into the routing matrices.
pub type Location = usize;

/// An index that selects the routing matrix of a kind of vehicle.
pub type Profile = usize;

/// Seconds since the epoch.
pub type Timestamp = i64;

/// A span of time in seconds.
pub type Duration = u64;

/// A length of way.
pub type Distance = u64;

/// A cost.
pub type Cost = u64;

/// The interval of time in which a visit may begin.
#[derive(Clone, Copy, Debug)]
pub struct TimeWindow {
    pub start: Timestamp,
    pub end: Timestamp,
}

impl TimeWindow {
    /// A window from `start` to `end`.
    pub fn new(start: Timestamp, end: Timestamp) -> (window: TimeWindow)
        ensures
            window.start == start,
            window.end == end,
    {
        TimeWindow { start, end }
    }

    /// The window that admits every point in time.
    pub open spec fn spec_max() -> TimeWindow {
        TimeWindow { start: 0, end: i64::MAX }
    }

    /// The window that admits every point in time from the epoch on.
    pub fn max() -> (window: TimeWindow)
        ensures
            window == Self::spec_max(),
    {
        TimeWindow { start: 0, end: i64::MAX }
    }
}

/// When a vehicle reaches a place and when it leaves it.
#[derive(Clone, Copy, Debug)]
pub struct Schedule {
    pub arrival: Timestamp,
    pub departure: Timestamp,
}

} // verus!
