//! The Generic Cell Rate Algorithm.
//!
//! One state holds one number, the theoretical arrival time (TAT): the moment at which the bucket
//! is full again if nothing more arrives. A request moves it one emission interval further and is
//! admitted as long as it stays within the limit window of the present.
use std::time::Duration;
use vstd::math::{max, min};
use vstd::prelude::*;

use crate::clock::span_of_nanos;

verus! {

/// `a + b`, stopping at `u64::MAX`.
pub open spec fn sat_add(a: u64, b: u64) -> u64 {
    if a + b <= u64::MAX {
        (a + b) as u64
    } else {
        u64::MAX
    }
}

/// The arrival time that one more request at `now` leads to: one interval after the later of the
/// present and the arrival time so far.
pub open spec fn next_tat(tat: u64, now: u64, interval: u64) -> u64 {
    sat_add(
        if tat <= now {
            now
        } else {
            tat
        },
        interval,
    )
}

/// Whether a request at `now` is admitted: its arrival time lies no further ahead than `window`.
pub open spec fn admits(tat: u64, now: u64, interval: u64, window: u64) -> bool {
    next_tat(tat, now, interval) <= sat_add(now, window)
}

/// How far the arrival time of a refused request lies beyond the window, in nanoseconds.
pub open spec fn excess_nanos(tat: u64, now: u64, interval: u64, window: u64) -> int {
    next_tat(tat, now, interval) - sat_add(now, window)
}

/// GCRA state: the theoretical arrival time in nanoseconds since the start instant.
///
/// A state is updated through `&mut`, so each update is one indivisible step for its holder.
#[derive(Debug, Clone, Copy, PartialEq, Eq, Structural)]
pub struct GcraState {
    /// Theoretical arrival time in nanoseconds since the start instant.
    pub tat_nanos: u64,
}

impl GcraState {
    /// Create a new GCRA state, with nothing pending.
    pub fn new() -> (state: Self)
        ensures
            state.tat_nanos == 0,
    {
        GcraState { tat_nanos: 0 }
    }

    /// Get the current theoretical arrival time (TAT) in nanoseconds.
    pub fn tat(&self) -> (tat: u64)
        ensures
            tat == self.tat_nanos,
    {
        self.tat_nanos
    }

    /// Try to acquire a token. Returns `Ok(())` if allowed, or `Err(wait)` if rate limited.
    ///
    /// An allowed request moves the arrival time on; a refused one leaves the state as it was.
    pub fn try_acquire(
        &mut self,
        now_nanos: u64,
        emission_interval_nanos: u64,
        limit_nanos: u64,
    ) -> (result: Result<(), Duration>)
        ensures
            result is Ok <==> admits(
                old(self).tat_nanos,
                now_nanos,
                emission_interval_nanos,
                limit_nanos,
            ),
            result is Ok ==> final(self).tat_nanos == next_tat(
                old(self).tat_nanos,
                now_nanos,
                emission_interval_nanos,
            ),
            ({
                let pending = max(old(self).tat_nanos as int, now_nanos as int);
                let arrival = min(pending + emission_interval_nanos, u64::MAX as int);
                let latest = min(now_nanos + limit_nanos, u64::MAX as int);
                match result {
                    Ok(_) => arrival <= latest && final(self).tat_nanos == arrival,
                    Err(wait) => arrival > latest && final(self).tat_nanos == old(self).tat_nanos
                        && crate::clock::duration_nanos(wait) == arrival - latest,
                }
            }),
            result matches Err(wait) ==> *final(self) == *old(self)
                && crate::clock::duration_nanos(wait) == excess_nanos(
                old(self).tat_nanos,
                now_nanos,
                emission_interval_nanos,
                limit_nanos,
            ),
    {
        let tat: u64 = self.tat_nanos;
        let new_tat: u64 = if tat <= now_nanos {
            // No pending requests, start fresh
            now_nanos.saturating_add(emission_interval_nanos)
        } else {
            // Add to the queue
            tat.saturating_add(emission_interval_nanos)
        };

        let limit_at: u64 = now_nanos.saturating_add(limit_nanos);
        if new_tat > limit_at {
            // Burst capacity exhausted
            let wait_nanos: u64 = new_tat - limit_at;
            return Err(span_of_nanos(wait_nanos as u128));
        }
        self.tat_nanos = new_tat;
        Ok(())
    }
}

} // verus!
