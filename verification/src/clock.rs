//! Points in time and spans of time, in whole nanoseconds.
//!
//! A `Moment` is counted from the origin of the clock that reported it, so only
//! moments of one clock can be compared. Parts that compare moments share a copy
//! of one `Clock`.

use std::time::Instant;
use vstd::prelude::*;

verus! {

/// Nanoseconds in one second.
pub const NANOS_PER_SECOND: u128 = 1_000_000_000;

/// Nanoseconds in one millisecond.
pub const NANOS_PER_MILLI: u128 = 1_000_000;

/// `std::time::Instant`, carried as it is.
#[verifier::external_type_specification]
#[verifier::external_body]
pub struct ExInstant(Instant);

/// A span of time.
#[derive(Debug, Clone, Copy, PartialEq, Eq, Structural)]
pub struct Span {
    pub nanos: u128,
}

/// A point in time, counted from the origin of a clock.
#[derive(Debug, Clone, Copy, PartialEq, Eq, Structural)]
pub struct Moment {
    pub nanos: u128,
}

impl Span {
    /// A span of whole seconds.
    pub open spec fn of_secs(secs: u64) -> Span {
        Span { nanos: (secs * NANOS_PER_SECOND) as u128 }
    }

    /// A span of whole milliseconds.
    pub open spec fn of_millis(millis: u64) -> Span {
        Span { nanos: (millis * NANOS_PER_MILLI) as u128 }
    }

    /// A span of whole seconds.
    pub fn from_secs(secs: u64) -> (r: Span)
        ensures
            r == Span::of_secs(secs),
            r.nanos == secs * NANOS_PER_SECOND,
    {
        Span { nanos: (secs as u128) * NANOS_PER_SECOND }
    }

    /// A span of whole milliseconds.
    pub fn from_millis(millis: u64) -> (r: Span)
        ensures
            r == Span::of_millis(millis),
            r.nanos == millis * NANOS_PER_MILLI,
    {
        Span { nanos: (millis as u128) * NANOS_PER_MILLI }
    }

    /// The whole seconds in a span, at most `u64::MAX`.
    pub open spec fn secs(self) -> u64 {
        let whole = self.nanos / NANOS_PER_SECOND;
        if whole > u64::MAX {
            u64::MAX
        } else {
            whole as u64
        }
    }

    /// The whole seconds in a span, at most `u64::MAX`.
    pub fn as_secs(&self) -> (r: u64)
        ensures
            r == self.secs(),
    {
        let whole: u128 = self.nanos / NANOS_PER_SECOND;
        if whole > u64::MAX as u128 {
            u64::MAX
        } else {
            whole as u64
        }
    }
}

impl Moment {
    /// Whether a clock can report this moment: the whole seconds since its origin
    /// are a number of 64 bits.
    pub open spec fn is_reading(self) -> bool {
        self.nanos / NANOS_PER_SECOND <= u64::MAX
    }

    /// The moment `span` later, at most the last one that can be written.
    pub open spec fn after(self, span: Span) -> Moment {
        if self.nanos + span.nanos > u128::MAX {
            Moment { nanos: u128::MAX }
        } else {
            Moment { nanos: (self.nanos + span.nanos) as u128 }
        }
    }

    /// The time from `earlier` to `self`, none if `earlier` is not before `self`.
    pub open spec fn since(self, earlier: Moment) -> Span {
        if self.nanos < earlier.nanos {
            Span { nanos: 0 }
        } else {
            Span { nanos: (self.nanos - earlier.nanos) as u128 }
        }
    }

    /// The moment `span` later, at most the last one that can be written.
    pub fn plus(self, span: Span) -> (r: Moment)
        ensures
            r == self.after(span),
    {
        Moment { nanos: self.nanos.saturating_add(span.nanos) }
    }

    /// The time from `earlier` to `self`, none if `earlier` is not before `self`.
    pub fn elapsed_since(self, earlier: Moment) -> (r: Span)
        ensures
            r == self.since(earlier),
    {
        Span { nanos: self.nanos.saturating_sub(earlier.nanos) }
    }
}

/// `Instant::now`. What it returns depends on the machine's monotonic clock, so
/// nothing is stated of it.
#[verifier::external_body]
fn instant_now() -> (r: Instant)
{
    Instant::now()
}

/// `Instant::elapsed`, in whole nanoseconds. What it returns depends on the
/// machine's monotonic clock. Stated is only that it is a `Duration`, whose whole
/// seconds are a `u64`.
#[verifier::external_body]
fn nanos_since(origin: &Instant) -> (r: u128)
    ensures
        r / NANOS_PER_SECOND <= u64::MAX,
{
    origin.elapsed().as_nanos()
}

/// A monotonic clock. Copies of one clock share its origin.
#[derive(Debug, Clone, Copy)]
pub struct Clock {
    origin: Instant,
}

impl Clock {
    /// A clock whose origin is the present.
    pub fn new() -> (r: Clock)
        ensures
            r.starts_now(),
    {
        Clock { origin: instant_now() }
    }

    /// The present moment of this clock. Which one it is depends on the machine's
    /// monotonic clock; it always leaves room for a time to live.
    pub fn now(&self) -> (r: Moment)
        ensures
            r.is_reading(),
            self.measures(r.nanos),
    {
        Moment { nanos: nanos_since(&self.origin) }
    }

    /// Whether the origin of this clock is what the machine gave as the present.
    pub closed spec fn starts_now(self) -> bool {
        call_ensures(instant_now, (), self.origin)
    }

    /// Whether the machine gives this many nanoseconds since the origin of this clock.
    pub closed spec fn measures(self, nanos: u128) -> bool {
        call_ensures(nanos_since, (&self.origin,), nanos)
    }

    /// Whether a moment is one that reading this clock gives.
    pub open spec fn reports(self, now: Moment) -> bool {
        call_ensures(Clock::now, (&self,), now)
    }
}

/// What starts at a moment that a clock reports, and lasts for whole seconds or
/// milliseconds, ends exactly that much later: there is room for every such span.
pub proof fn law_readings_leave_room(now: Moment, n: u64)
    requires
        now.is_reading(),
    ensures
        now.after(Span::of_secs(n)).nanos == now.nanos + n * NANOS_PER_SECOND,
        now.after(Span::of_millis(n)).nanos == now.nanos + n * NANOS_PER_MILLI,
{
}

/// Seconds and milliseconds are counted in nanoseconds, and the whole seconds of a
/// span are the greatest number of seconds that it covers.
pub proof fn law_spans_are_counted_in_nanoseconds(n: u64, span: Span)
    ensures
        Span::of_secs(n).nanos == n * 1_000_000_000,
        Span::of_millis(n).nanos == n * 1_000_000,
        span.secs() * 1_000_000_000 <= span.nanos,
        span.nanos < (span.secs() + 1) * 1_000_000_000 || span.secs() == u64::MAX,
        Span::of_secs(n).secs() == n,
{
}

/// What lasts for a span ends that much later, and from then on the time since
/// the start is at least the span. Time does not run backwards.
pub proof fn law_time_passes_evenly(start: Moment, span: Span, now: Moment)
    ensures
        start.nanos + span.nanos <= u128::MAX ==> start.after(span).nanos == start.nanos
            + span.nanos,
        start.nanos + span.nanos > u128::MAX ==> start.after(span).nanos == u128::MAX,
        start.nanos <= now.nanos ==> now.since(start).nanos == now.nanos - start.nanos,
        now.nanos <= start.nanos ==> now.since(start).nanos == 0,
{
}

/// What reading a clock gives leaves room for every time to live.
pub proof fn law_reports_are_readings(clock: Clock, now: Moment)
    requires
        clock.reports(now),
    ensures
        now.is_reading(),
{
}

} // verus!
