//! Points in time, counted in nanoseconds since a clock was started.

use vstd::prelude::*;

verus! {

/// The longest span of time: the greatest number of whole seconds of a
/// standard duration and the last nanosecond of its fraction.
pub const MAX_SPAN: u128 = 18_446_744_073_709_551_615_999_999_999;

/// A span of time.
#[derive(Debug, Clone, Copy, PartialEq, Eq, Structural)]
pub struct Duration {
    pub nanos: u128,
}

impl Duration {
    /// Whether the span is one that clocks can tell.
    pub open spec fn wf(self) -> bool {
        self.nanos <= MAX_SPAN
    }

    pub fn from_nanos(nanos: u64) -> (d: Duration)
        ensures
            d.nanos == nanos,
            d.wf(),
    {
        Duration { nanos: nanos as u128 }
    }

    pub fn from_millis(millis: u64) -> (d: Duration)
        ensures
            d.nanos == millis * 1_000_000,
            d.wf(),
    {
        Duration { nanos: millis as u128 * 1_000_000 }
    }
}

/// A point in time.
#[derive(Debug, Clone, Copy, PartialEq, Eq, Structural)]
pub struct Moment {
    pub nanos: u128,
}

impl Moment {
    /// Whether a span can be added to the point.
    pub open spec fn wf(self) -> bool {
        self.nanos <= u128::MAX - MAX_SPAN
    }

    /// The point a span later.
    pub open spec fn plus(self, d: Duration) -> Moment {
        Moment { nanos: (self.nanos + d.nanos) as u128 }
    }

    pub fn after(self, d: Duration) -> (t: Moment)
        requires
            self.wf(),
            d.wf(),
        ensures
            t == self.plus(d),
            t.nanos == self.nanos + d.nanos,
    {
        Moment { nanos: self.nanos + d.nanos }
    }

    /// The span since an earlier point, zero if that point is later.
    pub fn since(self, earlier: Moment) -> (d: Duration)
        ensures
            d.nanos == if self.nanos >= earlier.nanos {
                self.nanos - earlier.nanos
            } else {
                0
            },
    {
        if self.nanos >= earlier.nanos {
            Duration { nanos: self.nanos - earlier.nanos }
        } else {
            Duration { nanos: 0 }
        }
    }
}

/// `tokio::time::Instant`, a reading of the clock of the tokio runtime.
#[verifier::external_type_specification]
#[verifier::external_body]
pub struct ExTokioInstant(tokio::time::Instant);

/// A clock that tells the time since it was started.
pub struct Clock {
    pub started: tokio::time::Instant,
}

/// Calls `tokio::time::Instant::now`. Nothing is claimed of the reading.
#[verifier::external_body]
fn tokio_now() -> (t: tokio::time::Instant) {
    tokio::time::Instant::now()
}

/// Calls `tokio::time::Instant::elapsed` and counts the nanoseconds of the
/// duration. Claims only that a standard duration is at most [`MAX_SPAN`]
/// nanoseconds long, not how much time has passed.
#[verifier::external_body]
fn tokio_elapsed(started: &tokio::time::Instant) -> (nanos: u128)
    ensures
        nanos <= MAX_SPAN,
{
    started.elapsed().as_nanos()
}

impl Clock {
    /// Starts a clock. What it was started at depends on the machine.
    pub fn start() -> (c: Clock) {
        Clock { started: tokio_now() }
    }

    /// The time now. Which one it is depends on the machine.
    pub fn now(&self) -> (t: Moment)
        ensures
            t.wf(),
            t.nanos <= MAX_SPAN,
    {
        Moment { nanos: tokio_elapsed(&self.started) }
    }
}

} // verus!
