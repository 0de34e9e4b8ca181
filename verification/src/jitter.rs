//! Random slack on top of a wait, so that delayed requests do not all come back at once.
use rand::Rng;
use std::time::Duration;
use vstd::prelude::*;

use crate::clock::duration_nanos;

verus! {

/// Draws from the thread's generator with `rand::rng().random_range(0..=max)`. The draw is a
/// matter of chance; that it lies between zero and `max` holds of every draw. The generator takes
/// its seed from the operating system when a thread first uses it, and panics where there is none
/// to be had; no argument has a say in that.
#[verifier::external_body]
fn random_up_to(max: u64) -> (drawn: u64)
    ensures
        drawn <= max,
{
    rand::rng().random_range(0..=max)
}

/// Whether `drawn` came out of a draw between zero and `max`, both ends included.
pub closed spec fn is_draw_up_to(max: u64, drawn: u64) -> bool {
    call_ensures(random_up_to, (max,), drawn)
}

/// What came out of a draw is what the generator gave when asked for a number up to `max`.
proof fn lemma_draw_is_made(max: u64, drawn: u64)
    requires
        is_draw_up_to(max, drawn),
    ensures
        call_ensures(random_up_to, (max,), drawn),
        drawn <= max,
{
}

/// The most slack that may be added to a wait, in nanoseconds: half of it.
pub fn max_jitter_nanos(wait: Duration) -> (max: u64)
    requires
        duration_nanos(wait) <= u64::MAX,
    ensures
        max == duration_nanos(wait) / 2,
{
    wait.as_nanos() as u64 / 2
}

/// Slack for a wait: a random part of its first half.
///
/// It is the outcome of one draw, for which all of that half is open, and nothing is added to it or
/// taken away. A wait too short to be halved gets no slack.
pub fn pick_jitter_nanos(wait: Duration) -> (jitter: u64)
    requires
        duration_nanos(wait) <= u64::MAX,
    ensures
        jitter <= duration_nanos(wait) / 2,
        duration_nanos(wait) >= 2 ==> is_draw_up_to((duration_nanos(wait) / 2) as u64, jitter),
{
    let max: u64 = max_jitter_nanos(wait);
    if max > 0 {
        random_up_to(max)
    } else {
        0
    }
}

} // verus!
