//! Time as the limiter sees it: spans measured in whole nanoseconds, and the monotonic clock.
use std::time::{Duration, Instant};
use vstd::prelude::*;

verus! {

/// Nanoseconds in one second.
pub const NANOS_PER_SEC: u64 = 1_000_000_000;

/// The whole length of a span in nanoseconds, as [`Duration::as_nanos`] reports it.
pub uninterp spec fn duration_nanos(span: Duration) -> nat;

/// The longest span a [`Duration`] can hold, in nanoseconds: `u64::MAX` seconds and all but one
/// nanosecond of another.
pub open spec fn max_duration_nanos() -> nat {
    (u64::MAX as nat) * (NANOS_PER_SEC as nat) + 999_999_999
}

/// [`Duration::as_nanos`] returns the total number of nanoseconds in the span. A span holds at
/// most [`Duration::MAX`].
pub assume_specification[ Duration::as_nanos ](span: &Duration) -> (nanos: u128)
    ensures
        nanos == duration_nanos(*span),
        nanos <= max_duration_nanos(),
;

/// [`Duration::new`] builds the span of `secs` whole seconds and `nanos` further nanoseconds. Only
/// a fraction below one second is admitted here, so nothing is carried and nothing can overflow.
pub assume_specification[ Duration::new ](secs: u64, nanos: u32) -> (span: Duration)
    requires
        nanos < NANOS_PER_SEC,
    ensures
        duration_nanos(span) == secs * NANOS_PER_SEC + nanos,
;

/// A reading of the monotonic clock. Its value means nothing outside the process.
#[verifier::external_type_specification]
#[verifier::external_body]
pub struct ExInstant(Instant);

/// [`Instant::now`] reads the monotonic clock. Nothing is claimed of the reading: it depends on
/// the machine and the moment.
pub assume_specification[ Instant::now ]() -> (reading: Instant)
;

/// [`Instant::elapsed`] returns the time that has passed since the reading was taken. Nothing is
/// claimed of it beyond that it is a span.
pub assume_specification[ Instant::elapsed ](reading: &Instant) -> (span: Duration)
;

/// Whether `start` was read off the monotonic clock.
pub open spec fn is_clock_reading(start: Instant) -> bool {
    call_ensures(Instant::now, (), start)
}

/// Whether `now` is the time since `start` as the monotonic clock told it: what
/// [`Instant::elapsed`] returned for `start`, in nanoseconds, capped at `u64::MAX`.
pub open spec fn is_time_since(start: Instant, now: u64) -> bool {
    exists|elapsed: Duration| #[trigger]
        call_ensures(Instant::elapsed, (&start,), elapsed) && now == capped_nanos(elapsed)
}

/// The span of exactly `nanos` nanoseconds.
pub fn span_of_nanos(nanos: u128) -> (span: Duration)
    requires
        nanos <= max_duration_nanos(),
    ensures
        duration_nanos(span) == nanos,
{
    let per_sec: u128 = NANOS_PER_SEC as u128;
    let secs: u128 = nanos / per_sec;
    let rest: u128 = nanos % per_sec;
    Duration::new(secs as u64, rest as u32)
}

/// The length of `span` in nanoseconds, capped at what a `u64` holds.
pub open spec fn capped_nanos(span: Duration) -> u64 {
    if duration_nanos(span) <= u64::MAX {
        duration_nanos(span) as u64
    } else {
        u64::MAX
    }
}

/// Nanoseconds in `span`, saturating at `u64::MAX` (about 585 years).
pub fn saturating_nanos(span: Duration) -> (nanos: u64)
    ensures
        nanos == capped_nanos(span),
        nanos == vstd::math::min(duration_nanos(span) as int, u64::MAX as int),
{
    let total: u128 = span.as_nanos();
    if total <= u64::MAX as u128 {
        total as u64
    } else {
        u64::MAX
    }
}

} // verus!
