use route_ratelimit::GcraState;
use std::time::Duration;

#[test]
fn test_gcra_allows_burst() {
    let mut state = GcraState::new();
    let emission_interval = Duration::from_millis(100); // 10 req/s
    let window = Duration::from_secs(1);

    let now = 0u64;
    let emission_nanos = emission_interval.as_nanos() as u64;
    let limit_nanos = window.as_nanos() as u64;

    // Should allow up to 10 requests immediately (burst)
    for _ in 0..10 {
        assert!(state.try_acquire(now, emission_nanos, limit_nanos).is_ok());
    }

    // 11th request should be rate limited
    assert!(state.try_acquire(now, emission_nanos, limit_nanos).is_err());
}

#[test]
fn test_gcra_recovers_after_time() {
    let mut state = GcraState::new();
    let emission_interval = Duration::from_millis(100);
    let window = Duration::from_secs(1);

    let emission_nanos = emission_interval.as_nanos() as u64;
    let limit_nanos = window.as_nanos() as u64;

    // Exhaust the burst at t=0
    let now = 0u64;
    for _ in 0..10 {
        let _ = state.try_acquire(now, emission_nanos, limit_nanos);
    }

    // After 100ms, one more request should be allowed
    let now = Duration::from_millis(100).as_nanos() as u64;
    assert!(state.try_acquire(now, emission_nanos, limit_nanos).is_ok());
}

#[test]
fn new_state_has_nothing_pending() {
    assert_eq!(GcraState::new().tat(), 0);
}

#[test]
fn admission_moves_the_arrival_time_one_interval_on() {
    let mut state = GcraState::new();
    assert_eq!(state.try_acquire(1_000, 10, 25), Ok(()));
    assert_eq!(state.tat(), 1_010);
    assert_eq!(state.try_acquire(1_000, 10, 25), Ok(()));
    assert_eq!(state.tat(), 1_020);
}

#[test]
fn refusal_reports_the_wait_and_changes_nothing() {
    let mut state = GcraState { tat_nanos: 1_020 };
    assert_eq!(
        state.try_acquire(1_000, 10, 25),
        Err(Duration::from_nanos(5))
    );
    assert_eq!(state.tat(), 1_020);
}

#[test]
fn wait_is_enough_and_no_longer_than_needed() {
    let mut early = GcraState { tat_nanos: 1_020 };
    assert!(early.try_acquire(1_004, 10, 25).is_err());
    let mut in_time = GcraState { tat_nanos: 1_020 };
    assert_eq!(in_time.try_acquire(1_005, 10, 25), Ok(()));
    assert_eq!(in_time.tat(), 1_030);
}

#[test]
fn burst_capacity_counts_whole_intervals() {
    let mut state = GcraState { tat_nanos: 40 };
    let admitted = (0..10).filter(|_| state.try_acquire(50, 10, 35).is_ok()).count();
    assert_eq!(admitted, 3);
    // What was admitted is pending, at one interval each
    assert_eq!(state.tat(), 80);
}

#[test]
fn sustained_rate_is_kept_over_time() {
    let mut state = GcraState::new();
    let mut admitted = 0u64;
    for now in 0..1_000u64 {
        if state.try_acquire(now, 10, 50).is_ok() {
            admitted += 1;
        }
    }
    // 5 at once, then one every 10
    assert_eq!(admitted, 104);
    assert!(admitted * 10 <= 999 + 50);
}

#[test]
fn passed_arrival_time_acts_as_new() {
    let mut old = GcraState { tat_nanos: 99 };
    let mut new = GcraState::new();
    assert_eq!(old.try_acquire(100, 7, 20), new.try_acquire(100, 7, 20));
    assert_eq!(old.tat(), 107);
    assert_eq!(new.tat(), 107);
}

#[test]
fn arithmetic_saturates_at_the_end_of_the_clock() {
    let mut state = GcraState { tat_nanos: u64::MAX - 1 };
    assert_eq!(state.try_acquire(u64::MAX - 1, 10, 5), Ok(()));
    assert_eq!(state.tat(), u64::MAX);

    let mut ahead = GcraState { tat_nanos: u64::MAX - 1 };
    assert_eq!(
        ahead.try_acquire(100, 10, 5),
        Err(Duration::from_nanos(u64::MAX - 105))
    );
}

#[test]
fn interval_of_zero_admits_without_end() {
    let mut state = GcraState::new();
    for _ in 0..1_000 {
        assert!(state.try_acquire(3, 0, 1).is_ok());
    }
    assert_eq!(state.tat(), 3);
}
