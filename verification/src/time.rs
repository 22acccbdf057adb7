//! Time structures.
//!
//! The `time` module contains the representation of an absolute time, with
//! microsecond resolution.

use vstd::prelude::*;

verus! {

/// A representation of an absolute time value, in microseconds since an arbitrary epoch.
#[derive(Debug, PartialEq, Eq, PartialOrd, Ord, Hash, Clone, Copy, Default, Structural)]
pub struct Instant {
    micros: i64,
}

impl Instant {
    /// The number of microseconds since the epoch.
    pub closed spec fn micros_view(&self) -> int {
        self.micros as int
    }

    /// The epoch itself: zero microseconds.
    pub fn zero() -> (r: Instant)
        ensures
            r.micros_view() == 0,
    {
        Instant { micros: 0 }
    }

    /// Create a new `Instant` from a number of microseconds.
    pub fn from_micros(micros: i64) -> (r: Instant)
        ensures
            r.micros_view() == micros,
    {
        Instant { micros }
    }

    /// Create a new `Instant` from a number of milliseconds.
    pub fn from_millis(millis: i64) -> (r: Instant)
        requires
            i64::MIN <= millis * 1000 <= i64::MAX,
        ensures
            r.micros_view() == millis * 1000,
    {
        Instant { micros: millis * 1000 }
    }

    /// The total number of microseconds since the epoch.
    pub fn total_micros(&self) -> (r: i64)
        ensures
            r == self.micros_view(),
    {
        self.micros
    }

    /// The total number of whole milliseconds since the epoch, rounded towards zero.
    pub fn total_millis(&self) -> (r: i64)
        ensures
            self.micros_view() >= 0 ==> r == self.micros_view() / 1000,
            self.micros_view() < 0 ==> r == -((-self.micros_view()) / 1000),
    {
        self.micros / 1000
    }
}

} // verus!
