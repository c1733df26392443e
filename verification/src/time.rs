//! Moments and spans, in nanoseconds.

use vstd::prelude::*;

verus! {

/// A span of time.
#[derive(Clone, Copy, Debug, PartialEq, Eq, Structural)]
pub struct Duration {
    pub nanos: u128,
}

/// A moment, counted from an arbitrary origin that lies before every moment in use.
#[derive(Clone, Copy, Debug, PartialEq, Eq, Structural)]
pub struct Instant {
    pub nanos: u128,
}

/// Nanoseconds in whole milliseconds, any part counted as a whole one.
pub open spec fn ms_up(nanos: nat) -> nat {
    (nanos + 999_999) / 1_000_000
}

impl Duration {
    pub fn from_secs(secs: u64) -> (r: Self)
        ensures
            r.nanos == secs * 1_000_000_000,
    {
        Duration { nanos: secs as u128 * 1_000_000_000 }
    }

    pub fn from_millis(millis: u64) -> (r: Self)
        ensures
            r.nanos == millis * 1_000_000,
    {
        Duration { nanos: millis as u128 * 1_000_000 }
    }

    pub fn from_micros(micros: u64) -> (r: Self)
        ensures
            r.nanos == micros * 1_000,
    {
        Duration { nanos: micros as u128 * 1_000 }
    }

    pub fn is_zero(&self) -> (r: bool)
        ensures
            r == (self.nanos == 0),
    {
        self.nanos == 0
    }

    /// Whole milliseconds, parts dropped.
    pub fn as_millis(&self) -> (r: u128)
        ensures
            r == self.nanos / 1_000_000,
    {
        self.nanos / 1_000_000
    }

    /// Whole milliseconds, any part counted as a whole one.
    pub fn as_millis_up(&self) -> (r: u128)
        ensures
            r as nat == ms_up(self.nanos as nat),
    {
        let whole: u128 = self.nanos / 1_000_000;
        if self.nanos % 1_000_000 == 0 {
            whole
        } else {
            whole + 1
        }
    }
}

impl Instant {
    /// The span since an earlier moment; nothing where the other is not earlier.
    pub fn duration_since(&self, earlier: Instant) -> (r: Duration)
        ensures
            r.nanos == (if self.nanos >= earlier.nanos { (self.nanos - earlier.nanos) as u128 } else { 0 }),
    {
        if self.nanos >= earlier.nanos {
            Duration { nanos: self.nanos - earlier.nanos }
        } else {
            Duration { nanos: 0 }
        }
    }

    pub fn checked_add(&self, span: Duration) -> (r: Option<Instant>)
        ensures
            r == (if self.nanos + span.nanos <= u128::MAX {
                Some(Instant { nanos: (self.nanos + span.nanos) as u128 })
            } else {
                None
            }),
    {
        if span.nanos <= u128::MAX - self.nanos {
            Some(Instant { nanos: self.nanos + span.nanos })
        } else {
            None
        }
    }

    pub fn checked_sub(&self, span: Duration) -> (r: Option<Instant>)
        ensures
            r == (if self.nanos >= span.nanos {
                Some(Instant { nanos: (self.nanos - span.nanos) as u128 })
            } else {
                None
            }),
    {
        if self.nanos >= span.nanos {
            Some(Instant { nanos: self.nanos - span.nanos })
        } else {
            None
        }
    }
}

} // verus!
