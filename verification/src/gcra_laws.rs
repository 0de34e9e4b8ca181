//! What the rate algorithm guarantees over several requests.
use vstd::arithmetic::div_mod::{lemma_fundamental_div_mod, lemma_fundamental_div_mod_converse};
use vstd::arithmetic::mul::{lemma_mul_inequality, lemma_mul_is_distributive_add_other_way};
use vstd::prelude::*;

use crate::gcra::{admits, excess_nanos, next_tat, sat_add};
use crate::types::{burst_span, charge_interval, LimitModel};

verus! {

/// How many of the requests that arrive at `times`, one after the other, are admitted by a state
/// whose arrival time is `tat` before the first of them.
pub open spec fn admitted_count(tat: u64, times: Seq<u64>, interval: u64, window: u64) -> nat
    decreases times.len(),
{
    if times.len() == 0 {
        0
    } else if admits(tat, times[0], interval, window) {
        1 + admitted_count(
            next_tat(tat, times[0], interval),
            times.drop_first(),
            interval,
            window,
        )
    } else {
        admitted_count(tat, times.drop_first(), interval, window)
    }
}

/// Where the arrival time stands after the requests at `times`.
pub open spec fn tat_after(tat: u64, times: Seq<u64>, interval: u64, window: u64) -> u64
    decreases times.len(),
{
    if times.len() == 0 {
        tat
    } else if admits(tat, times[0], interval, window) {
        tat_after(next_tat(tat, times[0], interval), times.drop_first(), interval, window)
    } else {
        tat_after(tat, times.drop_first(), interval, window)
    }
}

/// A burst: `n` requests at the same moment.
pub open spec fn burst(now: u64, n: nat) -> Seq<u64> {
    Seq::new(n, |i: int| now)
}

/// A refused request that comes back after the wait it was told, or at any later moment, is
/// admitted if nothing was admitted in between.
pub proof fn lemma_wait_is_enough(tat: u64, now: u64, interval: u64, window: u64, later: u64)
    requires
        interval <= window,
        !admits(tat, now, interval, window),
        later >= now + excess_nanos(tat, now, interval, window),
    ensures
        admits(tat, later, interval, window),
{
}

/// No shorter wait would do: before the wait is over, the request is still refused.
pub proof fn lemma_wait_is_least(tat: u64, now: u64, interval: u64, window: u64, earlier: u64)
    requires
        interval <= window,
        !admits(tat, now, interval, window),
        now <= earlier < now + excess_nanos(tat, now, interval, window),
    ensures
        !admits(tat, earlier, interval, window),
{
}

/// The wait of a refused request is positive, and the moment at which it is over still fits the
/// clock.
pub proof fn lemma_wait_is_bounded(tat: u64, now: u64, interval: u64, window: u64)
    requires
        !admits(tat, now, interval, window),
    ensures
        0 < excess_nanos(tat, now, interval, window),
        now + excess_nanos(tat, now, interval, window) <= u64::MAX,
{
}

/// An admitted request never moves the arrival time back, and leaves it no further ahead of the
/// present than the window.
pub proof fn lemma_admission_keeps_tat_within_window(
    tat: u64,
    now: u64,
    interval: u64,
    window: u64,
)
    requires
        admits(tat, now, interval, window),
    ensures
        tat <= next_tat(tat, now, interval) <= sat_add(now, window),
        now <= next_tat(tat, now, interval),
{
}

/// A state whose arrival time lies within the window admits again after one interval, however
/// exhausted it was.
pub proof fn lemma_recovers_after_one_interval(
    tat: u64,
    now: u64,
    interval: u64,
    window: u64,
    later: u64,
)
    requires
        interval <= window,
        tat <= sat_add(now, window),
        later >= now + interval,
    ensures
        admits(tat, later, interval, window),
{
}

/// Once the arrival time has passed, the state acts as a new one would.
pub proof fn lemma_passed_tat_is_fresh(tat: u64, now: u64, interval: u64, window: u64)
    requires
        tat <= now,
    ensures
        next_tat(tat, now, interval) == next_tat(0, now, interval),
        admits(tat, now, interval, window) == admits(0, now, interval, window),
        excess_nanos(tat, now, interval, window) == excess_nanos(0, now, interval, window),
{
}

/// A state with nothing pending always admits.
pub proof fn lemma_idle_state_admits(tat: u64, now: u64, interval: u64, window: u64)
    requires
        interval <= window,
        tat <= now,
    ensures
        admits(tat, now, interval, window),
{
}

proof fn lemma_rate_bound_from(
    tat: u64,
    start: u64,
    times: Seq<u64>,
    interval: u64,
    window: u64,
    end: u64,
)
    requires
        forall|i: int| 0 <= i < times.len() ==> start <= #[trigger] times[i] <= end,
        end + window < u64::MAX,
        admitted_count(tat, times, interval, window) > 0,
    ensures
        start + admitted_count(tat, times, interval, window) * interval <= end + window,
        tat + admitted_count(tat, times, interval, window) * interval <= end + window,
    decreases times.len(),
{
    let rest = times.drop_first();
    assert forall|i: int| 0 <= i < rest.len() implies start <= #[trigger] rest[i] <= end by {
        assert(rest[i] == times[i + 1]);
    }
    assert(start <= times[0] <= end);
    if admits(tat, times[0], interval, window) {
        let next = next_tat(tat, times[0], interval);
        let more = admitted_count(next, rest, interval, window);
        lemma_mul_is_distributive_add_other_way(interval as int, 1, more as int);
        if more > 0 {
            lemma_rate_bound_from(next, start, rest, interval, window, end);
        }
    } else {
        lemma_rate_bound_from(tat, start, rest, interval, window, end);
    }
}

/// The sustained rate: whatever the pattern of requests, and in whatever order their times come,
/// those admitted between two moments take up, at one interval each, no more than the time between
/// the two and one window. The sums must stay clear of the end of the clock, where they saturate.
pub proof fn lemma_sustained_rate(
    tat: u64,
    times: Seq<u64>,
    interval: u64,
    window: u64,
    start: u64,
    end: u64,
)
    requires
        start <= end,
        forall|i: int| 0 <= i < times.len() ==> start <= #[trigger] times[i] <= end,
        end + window < u64::MAX,
    ensures
        admitted_count(tat, times, interval, window) * interval <= end - start + window,
{
    if admitted_count(tat, times, interval, window) > 0 {
        lemma_rate_bound_from(tat, start, times, interval, window, end);
    }
}

proof fn lemma_burst_continues(
    tat: u64,
    now: u64,
    taken: nat,
    n: nat,
    interval: u64,
    window: u64,
)
    requires
        interval > 0,
        now + window < u64::MAX,
        taken * interval <= window,
        tat == now + taken * interval || (taken == 0 && tat <= now),
    ensures
        admitted_count(tat, burst(now, n), interval, window) == if taken + n <= window / interval {
            n as int
        } else {
            window / interval - taken
        },
    decreases n,
{
    let times = burst(now, n);
    let capacity = window as int / interval as int;
    lemma_fundamental_div_mod(window as int, interval as int);
    assert(interval * capacity == capacity * interval) by (nonlinear_arith);
    if taken > capacity {
        lemma_mul_inequality(capacity + 1, taken as int, interval as int);
        lemma_mul_is_distributive_add_other_way(interval as int, capacity, 1);
    }
    if n > 0 {
        assert(times.drop_first() =~= burst(now, (n - 1) as nat));
        lemma_mul_is_distributive_add_other_way(interval as int, taken as int, 1);
        if admits(tat, now, interval, window) {
            assert((taken + 1) * interval <= window);
            if taken + 1 > capacity {
                lemma_mul_inequality(capacity + 1, taken as int + 1, interval as int);
                lemma_mul_is_distributive_add_other_way(interval as int, capacity, 1);
            }
            lemma_burst_continues(
                next_tat(tat, now, interval),
                now,
                taken + 1,
                (n - 1) as nat,
                interval,
                window,
            );
        } else {
            if taken + 1 <= capacity {
                lemma_mul_inequality(taken as int + 1, capacity, interval as int);
            }
            lemma_burst_continues(tat, now, taken, (n - 1) as nat, interval, window);
        }
    }
}

/// Of a burst that meets a state with nothing pending, as many requests are admitted as whole
/// intervals fit into the window, and the rest are refused.
pub proof fn lemma_burst_capacity(tat: u64, now: u64, n: nat, interval: u64, window: u64)
    requires
        interval > 0,
        tat <= now,
        now + window < u64::MAX,
    ensures
        admitted_count(tat, burst(now, n), interval, window) == if n <= window / interval {
            n as int
        } else {
            (window / interval) as int
        },
{
    lemma_burst_continues(tat, now, 0, n, interval, window);
}

proof fn lemma_burst_moves_tat(
    tat: u64,
    now: u64,
    taken: nat,
    n: nat,
    interval: u64,
    window: u64,
)
    requires
        now + window < u64::MAX,
        tat == now + taken * interval || (taken == 0 && tat <= now),
    ensures
        ({
            let admitted = admitted_count(tat, burst(now, n), interval, window);
            tat_after(tat, burst(now, n), interval, window) == if admitted > 0 {
                now + (taken + admitted) * interval
            } else {
                tat as int
            }
        }),
    decreases n,
{
    if n > 0 {
        let times = burst(now, n);
        assert(times.drop_first() =~= burst(now, (n - 1) as nat));
        lemma_mul_is_distributive_add_other_way(interval as int, taken as int, 1);
        lemma_mul_inequality(0, taken as int, interval as int);
        if admits(tat, now, interval, window) {
            let next = next_tat(tat, now, interval);
            lemma_burst_moves_tat(next, now, taken + 1, (n - 1) as nat, interval, window);
        } else {
            lemma_burst_moves_tat(tat, now, taken, (n - 1) as nat, interval, window);
        }
    }
}

/// What a burst leaves behind: when it meets a state with nothing pending and some of it is
/// admitted, the arrival time lies one interval ahead of the present for each request admitted.
pub proof fn lemma_burst_is_pending(tat: u64, now: u64, n: nat, interval: u64, window: u64)
    requires
        tat <= now,
        now + window < u64::MAX,
        admitted_count(tat, burst(now, n), interval, window) > 0,
    ensures
        tat_after(tat, burst(now, n), interval, window) == now + admitted_count(
            tat,
            burst(now, n),
            interval,
            window,
        ) * interval,
{
    lemma_burst_moves_tat(tat, now, 0, n, interval, window);
}

/// As many charges as a limit allows requests, and no more, fit into the span that it may be
/// charged ahead.
pub proof fn lemma_span_holds_the_requests(limit: LimitModel)
    requires
        limit.is_valid(),
    ensures
        0 < charge_interval(limit) <= burst_span(limit),
        limit.requests * charge_interval(limit) <= burst_span(limit),
        burst_span(limit) < (limit.requests + 1) * charge_interval(limit),
        burst_span(limit) / charge_interval(limit) == limit.requests,
{
    let r = limit.requests as int;
    let w = limit.window_nanos as int;
    let e = limit.emission_interval_nanos as int;
    let charge = charge_interval(limit) as int;
    let span = burst_span(limit) as int;
    lemma_fundamental_div_mod(w, r);
    assert(r * e <= w);
    lemma_mul_is_distributive_add_other_way(charge, r, 1);
    lemma_mul_inequality(1, r, charge);
    lemma_fundamental_div_mod_converse(span, charge, r, span - r * charge);
}

/// The maximum is kept: of a burst that meets a state with nothing pending, as many requests are
/// admitted as the limit allows, and the rest are refused.
pub proof fn lemma_burst_is_requests(tat: u64, now: u64, n: nat, limit: LimitModel)
    requires
        limit.is_valid(),
        tat <= now,
        now + burst_span(limit) < u64::MAX,
    ensures
        admitted_count(tat, burst(now, n), charge_interval(limit), burst_span(limit)) == if n
            <= limit.requests {
            n as int
        } else {
            limit.requests as int
        },
{
    lemma_span_holds_the_requests(limit);
    lemma_burst_capacity(tat, now, n, charge_interval(limit), burst_span(limit));
}

} // verus!
