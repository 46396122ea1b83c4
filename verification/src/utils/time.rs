//! Spans of time.

use vstd::prelude::*;

verus! {

/// A span of time in nanoseconds.
#[derive(Clone, Copy, Debug, PartialEq, Eq, Structural)]
pub struct Duration {
    pub nanos: u128,
}

impl Duration {
    /// The whole milliseconds of the span.
    pub open spec fn millis(self) -> int {
        self.nanos as int / 1000000
    }

    /// A span of `ms` milliseconds.
    pub fn from_millis(ms: u64) -> (r: Duration)
        ensures
            r.nanos == ms * 1000000,
            r.millis() == ms,
    {
        Duration { nanos: ms as u128 * 1000000 }
    }

    /// A span of `s` seconds.
    pub fn from_secs(s: u64) -> (r: Duration)
        ensures
            r.nanos == s * 1000000000,
    {
        Duration { nanos: s as u128 * 1000000000 }
    }

    /// The whole milliseconds of the span.
    pub fn as_millis(&self) -> (r: u128)
        ensures
            r == self.millis(),
    {
        self.nanos / 1000000
    }
}

/// How long before `now` a moment lies, both counted from the same start: nothing where
/// it lies after it.
pub open spec fn since(moment: Duration, now: Duration) -> int {
    if moment.nanos <= now.nanos {
        now.nanos - moment.nanos
    } else {
        0
    }
}

} // verus!
