use reqwest::Request;
use route_ratelimit::jitter::{max_jitter_nanos, pick_jitter_nanos};
use route_ratelimit::store::entry_is_live;
use route_ratelimit::{
    Decision, Method, RateLimitError, RateLimitMiddleware, Refusal, RequestParts, RouteKey,
    ThrottleBehavior,
};
use std::time::Duration;

const MILLI: u64 = 1_000_000;

fn request(method: Method, url: &str) -> Request {
    reqwest::Client::new().request(method, url).build().unwrap()
}

fn get(url: &str) -> Request {
    request(Method::GET, url)
}

fn local(path: &str) -> String {
    format!("http://127.0.0.1:4711{}", path)
}

fn passes(limiter: &mut RateLimitMiddleware, req: &Request) -> bool {
    matches!(limiter.check_and_apply_limits(req), Decision::Proceed)
}

fn at(limiter: &mut RateLimitMiddleware, now: u64, req: &Request) -> Result<(), Refusal> {
    limiter.apply_limits_at(now, &RequestParts::of(req))
}

// Error behavior

#[test]
fn test_error_on_rate_limit_exceeded() {
    let mut limiter = RateLimitMiddleware::builder()
        .route(|r| {
            r.limit(2, Duration::from_secs(10))
                .on_limit(ThrottleBehavior::Error)
        })
        .build();
    let req = get(&local("/test"));

    assert!(passes(&mut limiter, &req), "First request should succeed");
    assert!(passes(&mut limiter, &req), "Second request should succeed");

    match limiter.check_and_apply_limits(&req) {
        Decision::Reject(err) => assert!(
            err.to_string().contains("rate limit exceeded"),
            "Error should mention rate limit"
        ),
        other => panic!("Third request should fail due to rate limit: {:?}", other),
    }
}

#[test]
fn test_error_includes_retry_duration() {
    let mut limiter = RateLimitMiddleware::builder()
        .route(|r| {
            r.limit(1, Duration::from_millis(100))
                .on_limit(ThrottleBehavior::Error)
        })
        .build();
    let req = get(&local("/test"));

    assert!(at(&mut limiter, 0, &req).is_ok());
    let refusal = at(&mut limiter, 0, &req).unwrap_err();
    match refusal.decide(0) {
        Decision::Reject(err) => {
            assert_eq!(
                err.to_string(),
                "rate limit exceeded, retry after 100ms"
            );
            assert!(err.to_string().contains("retry after"));
        }
        other => panic!("{:?}", other),
    }
}

#[test]
fn message_spells_the_wait_out() {
    let err = RateLimitError::RateLimited(Duration::from_millis(1_500));
    assert_eq!(err.to_string(), "rate limit exceeded, retry after 1.5s");
}

// Delay behavior

#[test]
fn test_delay_on_rate_limit_exceeded() {
    let mut limiter = RateLimitMiddleware::builder()
        .route(|r| {
            r.limit(2, Duration::from_millis(200))
                .on_limit(ThrottleBehavior::Delay)
        })
        .build();
    let req = get(&local("/test"));

    // Make 4 requests - first 2 are burst, next 2 should be delayed
    let mut now = 0u64;
    let mut sleeps = 0;
    for _ in 0..4 {
        while let Err(refusal) = at(&mut limiter, now, &req) {
            match refusal.decide(0) {
                Decision::Sleep(span) => now += span.as_nanos() as u64,
                other => panic!("{:?}", other),
            }
            sleeps += 1;
        }
    }
    assert_eq!(sleeps, 2);
    assert_eq!(now, 200 * MILLI);
    assert!(
        Duration::from_nanos(now) >= Duration::from_millis(150),
        "Should have waited for rate limit"
    );
}

#[test]
fn test_delay_does_not_lose_requests() {
    let mut limiter = RateLimitMiddleware::builder()
        .route(|r| {
            r.limit(2, Duration::from_millis(100))
                .on_limit(ThrottleBehavior::Delay)
        })
        .build();
    let req = get(&local("/counted"));

    let mut now = 0u64;
    let mut delivered = 0;
    for _ in 0..5 {
        while let Err(refusal) = at(&mut limiter, now, &req) {
            now += refusal.wait.as_nanos() as u64;
        }
        delivered += 1;
    }
    assert_eq!(
        delivered, 5,
        "All delayed requests should eventually complete"
    );
    assert_eq!(now, 150 * MILLI);
}

#[test]
fn test_delay_includes_jitter() {
    // 1 burst request per 200ms window: emission interval = 200ms
    let mut limiter = RateLimitMiddleware::builder()
        .route(|r| r.limit(1, Duration::from_millis(200)))
        .build();
    let req = get(&local("/test"));

    // 1st request: immediate (burst). 2nd and 3rd: delayed by ~200ms + jitter each.
    let mut now = 0u64;
    for _ in 0..3 {
        while let Err(refusal) = at(&mut limiter, now, &req) {
            let jitter = pick_jitter_nanos(refusal.wait);
            match refusal.decide(jitter) {
                Decision::Sleep(span) => now += span.as_nanos() as u64,
                other => panic!("{:?}", other),
            }
        }
    }
    let elapsed = Duration::from_nanos(now);
    assert!(
        elapsed >= Duration::from_millis(400),
        "Should have waited at least the bare emission intervals: {elapsed:?}"
    );
    assert!(
        elapsed < Duration::from_millis(900),
        "Delay with jitter should not exceed reasonable upper bound: {elapsed:?}"
    );
}

#[test]
fn sleeping_takes_the_wait_and_at_most_half_of_it_more() {
    let mut limiter = RateLimitMiddleware::builder()
        .route(|r| r.limit(1, Duration::from_secs(3600)))
        .build();
    let req = get(&local("/test"));
    assert!(passes(&mut limiter, &req));
    for _ in 0..50 {
        match limiter.check_and_apply_limits(&req) {
            Decision::Sleep(span) => {
                assert!(span > Duration::from_secs(3590));
                assert!(span <= Duration::from_secs(5400));
            }
            other => panic!("{:?}", other),
        }
    }
}

#[test]
fn jitter_is_random_within_its_bound() {
    let wait = Duration::from_secs(1);
    assert_eq!(max_jitter_nanos(wait), 500_000_000);
    let draws: Vec<u64> = (0..200).map(|_| pick_jitter_nanos(wait)).collect();
    assert!(draws.iter().all(|d| *d <= 500_000_000));
    assert!(draws.iter().any(|d| *d != draws[0]));
    assert_eq!(pick_jitter_nanos(Duration::from_nanos(1)), 0);
    assert_eq!(pick_jitter_nanos(Duration::ZERO), 0);
}

#[test]
fn deciding_adds_the_jitter_to_a_delay_only() {
    let refusal = Refusal {
        route_index: 0,
        limit_index: 0,
        wait: Duration::from_nanos(u64::MAX),
        behavior: ThrottleBehavior::Delay,
    };
    match refusal.decide(u64::MAX / 2) {
        Decision::Sleep(span) => assert_eq!(
            span.as_nanos(),
            u64::MAX as u128 + (u64::MAX / 2) as u128
        ),
        other => panic!("{:?}", other),
    }
    let turned_down = Refusal {
        behavior: ThrottleBehavior::Error,
        ..refusal
    };
    match turned_down.decide(5) {
        Decision::Reject(RateLimitError::RateLimited(wait)) => assert_eq!(wait, refusal.wait),
        other => panic!("{:?}", other),
    }
}

// Route matching

#[test]
fn test_different_routes_have_separate_limits() {
    let mut limiter = RateLimitMiddleware::builder()
        .route(|r| {
            r.path("/test")
                .limit(2, Duration::from_secs(10))
                .on_limit(ThrottleBehavior::Error)
        })
        .route(|r| {
            r.path("/data")
                .limit(2, Duration::from_secs(10))
                .on_limit(ThrottleBehavior::Error)
        })
        .build();

    // Exhaust /test limit
    assert!(passes(&mut limiter, &get(&local("/test"))));
    assert!(passes(&mut limiter, &get(&local("/test"))));

    // /data should still work (separate limit)
    assert!(
        passes(&mut limiter, &get(&local("/data"))),
        "/data should have its own limit"
    );

    // /test should fail now
    assert!(
        !passes(&mut limiter, &get(&local("/test"))),
        "/test should be rate limited"
    );
}

#[test]
fn test_method_specific_limits() {
    let mut limiter = RateLimitMiddleware::builder()
        .route(|r| {
            r.method(Method::POST)
                .path("/order")
                .limit(1, Duration::from_secs(10))
                .on_limit(ThrottleBehavior::Error)
        })
        .route(|r| {
            r.method(Method::DELETE)
                .path("/order")
                .limit(1, Duration::from_secs(10))
                .on_limit(ThrottleBehavior::Error)
        })
        .build();
    let post = request(Method::POST, &local("/order"));
    let delete = request(Method::DELETE, &local("/order"));

    // POST and DELETE have separate limits
    assert!(passes(&mut limiter, &post));
    assert!(passes(&mut limiter, &delete));

    assert!(
        !passes(&mut limiter, &post),
        "Second POST should be rate limited"
    );
    assert!(
        !passes(&mut limiter, &delete),
        "Second DELETE should be rate limited"
    );
}

#[test]
fn test_unmatched_routes_not_limited() {
    // Only limit /test path
    let mut limiter = RateLimitMiddleware::builder()
        .route(|r| {
            r.path("/test")
                .limit(1, Duration::from_secs(10))
                .on_limit(ThrottleBehavior::Error)
        })
        .build();

    // Root path should not be limited
    for _ in 0..10 {
        assert!(
            passes(&mut limiter, &get(&local("/"))),
            "Unmatched route should not be limited"
        );
    }
    // What was allocated at the beginning is all there is
    assert_eq!(limiter.state_count(), 1);
}

#[test]
fn test_method_matching_put_patch_head_options() {
    let mut limiter = RateLimitMiddleware::builder()
        .route(|r| {
            r.method(Method::PUT)
                .path("/resource")
                .limit(1, Duration::from_secs(10))
                .on_limit(ThrottleBehavior::Error)
        })
        .route(|r| {
            r.method(Method::PATCH)
                .path("/resource")
                .limit(1, Duration::from_secs(10))
                .on_limit(ThrottleBehavior::Error)
        })
        .build();
    let put = request(Method::PUT, &local("/resource"));
    let patch = request(Method::PATCH, &local("/resource"));
    let head = request(Method::HEAD, &local("/resource"));

    // PUT and PATCH have separate limits
    assert!(passes(&mut limiter, &put));
    assert!(passes(&mut limiter, &patch));

    assert!(
        !passes(&mut limiter, &put),
        "Second PUT should be rate limited"
    );
    assert!(
        !passes(&mut limiter, &patch),
        "Second PATCH should be rate limited"
    );

    // HEAD should NOT be limited (no matching route)
    assert!(
        passes(&mut limiter, &head),
        "HEAD should not be rate limited (no matching route)"
    );
    assert!(
        passes(&mut limiter, &head),
        "HEAD should still not be rate limited"
    );
}

#[test]
fn test_host_matching_ignores_port() {
    let mut limiter = RateLimitMiddleware::builder()
        .host("127.0.0.1", |h| {
            h.route(|r| {
                r.limit(1, Duration::from_secs(10))
                    .on_limit(ThrottleBehavior::Error)
            })
        })
        .build();

    assert!(
        passes(&mut limiter, &get(&local("/test"))),
        "Host matching should ignore port"
    );
    assert!(
        !passes(&mut limiter, &get(&local("/test"))),
        "Should be rate limited, proving host matched despite port"
    );
}

#[test]
fn test_path_matching_ignores_query_strings() {
    let mut limiter = RateLimitMiddleware::builder()
        .route(|r| {
            r.path("/order")
                .limit(1, Duration::from_secs(10))
                .on_limit(ThrottleBehavior::Error)
        })
        .build();

    assert!(
        passes(&mut limiter, &get(&local("/order?id=123&status=open"))),
        "First request with query string should match"
    );
    assert!(
        !passes(&mut limiter, &get(&local("/order?id=456"))),
        "Second request should be rate limited (same path, different query)"
    );
}

#[test]
fn test_catch_all_route() {
    // Empty path prefix = catch all
    let mut limiter = RateLimitMiddleware::builder()
        .route(|r| {
            r.limit(2, Duration::from_secs(10))
                .on_limit(ThrottleBehavior::Error)
        })
        .build();

    // Different paths share the same limit
    assert!(passes(&mut limiter, &get(&local("/test"))));
    assert!(passes(&mut limiter, &get(&local("/data"))));

    // Third request to any path should fail
    assert!(
        !passes(&mut limiter, &get(&local("/"))),
        "Catch-all should apply to all paths"
    );
}

#[test]
fn test_default_middleware_allows_all_requests() {
    // Default middleware has no routes - all requests should pass through
    let mut limiter = RateLimitMiddleware::default();
    for i in 0..20 {
        assert!(
            passes(&mut limiter, &get(&local("/test"))),
            "Request {i} should succeed with no routes configured"
        );
    }
    assert!(limiter.routes().is_empty());
}

// Several limits

#[test]
fn test_multiple_limits_all_must_pass() {
    let mut limiter = RateLimitMiddleware::builder()
        .route(|r| {
            r.limit(3, Duration::from_millis(100)) // Burst limit
                .limit(5, Duration::from_secs(1)) // Sustained limit
                .on_limit(ThrottleBehavior::Error)
        })
        .build();
    let req = get(&local("/test"));

    // First 3 should succeed (within burst)
    for i in 0..3 {
        assert!(
            at(&mut limiter, 0, &req).is_ok(),
            "Request {i} should succeed within burst"
        );
    }

    // 4th should fail (burst exhausted)
    let refusal = at(&mut limiter, 0, &req).unwrap_err();
    assert_eq!(refusal.limit_index, 0);

    // Once the burst has recovered, the sustained limit lets two more through
    assert!(at(&mut limiter, 100 * MILLI, &req).is_ok());
    assert!(at(&mut limiter, 100 * MILLI, &req).is_ok());
    let refusal = at(&mut limiter, 100 * MILLI, &req).unwrap_err();
    assert_eq!(refusal.limit_index, 1);
    assert_eq!(refusal.wait, Duration::from_millis(100));
}

#[test]
fn all_matching_routes_apply() {
    let mut limiter = RateLimitMiddleware::builder()
        .host("api.example.com", |host| {
            host.route(|r| r.limit(3, Duration::from_secs(10)))
                .route(|r| r.path("/book").limit(1, Duration::from_secs(10)))
        })
        .build();
    let book = get("https://api.example.com/book");
    let other = get("https://api.example.com/other");

    assert!(at(&mut limiter, 0, &book).is_ok());
    // The specific limit is exhausted, and the attempt counts towards the general one
    assert_eq!(at(&mut limiter, 0, &book).unwrap_err().route_index, 1);
    assert!(at(&mut limiter, 0, &other).is_ok());
    assert_eq!(at(&mut limiter, 0, &other).unwrap_err().route_index, 0);
}

#[test]
fn refusal_names_limit_wait_and_behavior() {
    let mut limiter = RateLimitMiddleware::builder()
        .route(|r| r.path("/none").limit(1, Duration::from_secs(1)))
        .route(|r| {
            r.limit(10, Duration::from_secs(1))
                .limit(1, Duration::from_secs(4))
                .on_limit(ThrottleBehavior::Error)
        })
        .build();
    let req = get(&local("/test"));
    assert!(at(&mut limiter, 7, &req).is_ok());
    let refusal = at(&mut limiter, 7, &req).unwrap_err();
    assert_eq!(refusal.route_index, 1);
    assert_eq!(refusal.limit_index, 1);
    assert_eq!(refusal.wait, Duration::from_secs(4));
    assert_eq!(refusal.behavior, ThrottleBehavior::Error);
}

// Many requests

#[test]
fn ten_requests_at_one_moment_respect_the_limit() {
    let mut limiter = RateLimitMiddleware::builder()
        .route(|r| {
            r.limit(5, Duration::from_millis(500))
                .on_limit(ThrottleBehavior::Error)
        })
        .build();
    let req = get(&local("/test"));

    // 10 requests at the same moment
    let mut success_count = 0;
    let mut error_count = 0;
    for _ in 0..10 {
        match at(&mut limiter, 0, &req) {
            Ok(_) => success_count += 1,
            Err(_) => error_count += 1,
        }
    }
    assert_eq!(success_count, 5, "Should have 5 successful requests");
    assert_eq!(error_count, 5, "Should have 5 rate-limited requests");
}

#[test]
fn test_very_high_burst_limit() {
    let mut limiter = RateLimitMiddleware::builder()
        .route(|r| {
            r.limit(1000, Duration::from_secs(10))
                .on_limit(ThrottleBehavior::Error)
        })
        .build();
    let req = get(&local("/test"));

    for i in 0..100 {
        assert!(
            passes(&mut limiter, &req),
            "Request {i} should succeed within high burst"
        );
    }
}

#[test]
fn test_rate_limit_recovers_after_window() {
    let mut limiter = RateLimitMiddleware::builder()
        .route(|r| {
            r.limit(2, Duration::from_millis(100))
                .on_limit(ThrottleBehavior::Error)
        })
        .build();
    let req = get(&local("/test"));

    // Exhaust the limit
    assert!(at(&mut limiter, 0, &req).is_ok());
    assert!(at(&mut limiter, 0, &req).is_ok());
    assert!(at(&mut limiter, 0, &req).is_err(), "Should be rate limited");

    // Wait for recovery (one emission interval = 50ms)
    assert!(
        at(&mut limiter, 60 * MILLI, &req).is_ok(),
        "Should recover after waiting"
    );
    assert!(at(&mut limiter, 60 * MILLI, &req).is_err());
}

#[test]
fn limit_is_not_exceeded_through_cleanups() {
    let mut limiter = RateLimitMiddleware::builder()
        .route(|r| {
            r.limit(4, Duration::from_millis(100))
                .on_limit(ThrottleBehavior::Error)
        })
        .build();
    let req = get(&local("/test"));
    let mut passed = 0u64;
    for step in 0..1_000u64 {
        let now = step * MILLI;
        if at(&mut limiter, now, &req).is_ok() {
            passed += 1;
        }
        if step % 7 == 0 {
            limiter.cleanup_at(now);
        }
    }
    // 4 at once, then one every 25ms
    assert_eq!(passed, 43);
    assert!(passed * 25 <= 999 + 100);
}

// State entries

#[test]
fn all_state_is_allocated_at_build_time() {
    let mut limiter = RateLimitMiddleware::builder()
        .route(|r| {
            r.path("/a")
                .limit(5, Duration::from_secs(1))
                .limit(50, Duration::from_secs(100))
        })
        .route(|r| r.path("/b").limit(5, Duration::from_secs(1)))
        .build();
    assert_eq!(limiter.state_count(), 3);
    for path in ["/a", "/a", "/b", "/c"] {
        assert!(passes(&mut limiter, &get(&local(path))));
        assert_eq!(limiter.state_count(), 3);
    }
    assert_eq!(RateLimitMiddleware::default().state_count(), 0);
}

#[test]
fn entries_that_were_cleaned_up_come_back_with_the_next_request() {
    let mut limiter = RateLimitMiddleware::builder()
        .route(|r| r.path("/a").limit(5, Duration::from_nanos(10)))
        .route(|r| r.path("/b").limit(5, Duration::from_nanos(10)))
        .build();
    limiter.cleanup_at(1_000);
    assert_eq!(limiter.state_count(), 0);
    assert!(at(&mut limiter, 1_000, &get(&local("/a"))).is_ok());
    assert_eq!(limiter.state_count(), 1);
    assert!(at(&mut limiter, 1_000, &get(&local("/b"))).is_ok());
    assert_eq!(limiter.state_count(), 2);
}

#[test]
fn check_stops_at_the_first_exhausted_limit() {
    let mut limiter = RateLimitMiddleware::builder()
        .route(|r| r.limit(1, Duration::from_secs(1)))
        .route(|r| r.path("/later").limit(1, Duration::from_secs(10)))
        .build();
    let later = get(&local("/later"));
    assert!(at(&mut limiter, 0, &get(&local("/now"))).is_ok());
    assert_eq!(at(&mut limiter, 0, &later).unwrap_err().route_index, 0);
    // Nothing was taken of the second limit, which would not have recovered yet
    assert!(at(&mut limiter, 1_000 * MILLI, &later).is_ok());
    assert_eq!(at(&mut limiter, 2_000 * MILLI, &later).unwrap_err().route_index, 1);
}

#[test]
fn cleanup_drops_stale_entries_only() {
    let mut limiter = RateLimitMiddleware::builder()
        .route(|r| r.path("/short").limit(1, Duration::from_nanos(10)))
        .route(|r| r.path("/long").limit(1, Duration::from_nanos(1_000)))
        .build();
    // Arrival times 110 and 1100
    assert!(at(&mut limiter, 100, &get(&local("/short"))).is_ok());
    assert!(at(&mut limiter, 100, &get(&local("/long"))).is_ok());
    limiter.cleanup_at(129);
    assert_eq!(limiter.state_count(), 2);
    limiter.cleanup_at(130);
    assert_eq!(limiter.state_count(), 1);
    limiter.cleanup_at(3_099);
    assert_eq!(limiter.state_count(), 1);
    limiter.cleanup_at(3_100);
    assert_eq!(limiter.state_count(), 0);
}

#[test]
fn cleanup_of_the_present_keeps_recent_entries() {
    let mut limiter = RateLimitMiddleware::builder()
        .route(|r| r.limit(1, Duration::from_secs(3600)))
        .build();
    assert!(passes(&mut limiter, &get(&local("/"))));
    limiter.cleanup();
    assert_eq!(limiter.state_count(), 1);
    assert!(!passes(&mut limiter, &get(&local("/"))));
}

#[test]
fn cleanup_changes_no_later_decision() {
    let build = || {
        RateLimitMiddleware::builder()
            .route(|r| r.limit(3, Duration::from_nanos(30)))
            .route(|r| r.path("/a").limit(2, Duration::from_nanos(50)))
            .build()
    };
    let mut kept = build();
    let mut cleaned = build();
    let times = [0u64, 0, 0, 4, 9, 60, 61, 61, 200, 201, 350, 350, 350, 350];
    for (i, now) in times.iter().enumerate() {
        let req = get(&local(if i % 2 == 0 { "/a" } else { "/b" }));
        let one = at(&mut kept, *now, &req).map_err(|r| (r.route_index, r.limit_index, r.wait));
        let other = at(&mut cleaned, *now, &req).map_err(|r| (r.route_index, r.limit_index, r.wait));
        assert_eq!(one, other);
        cleaned.cleanup_at(*now);
    }
}

#[test]
fn liveness_of_single_entries() {
    let limiter = RateLimitMiddleware::builder()
        .route(|r| r.limit(1, Duration::from_nanos(10)))
        .build();
    let routes = limiter.routes();
    let key = RouteKey::new(0, 0).0;
    assert!(entry_is_live(routes, key, 81, 100));
    assert!(!entry_is_live(routes, key, 80, 100));
    assert!(entry_is_live(routes, key, 1, 5));
    assert!(!entry_is_live(routes, key, 0, 5));
    // Keys that speak of no limit
    assert!(!entry_is_live(routes, RouteKey::new(1, 0).0, 100, 100));
    assert!(!entry_is_live(routes, RouteKey::new(0, 1).0, 100, 100));
}

#[test]
fn clock_of_a_limiter_runs_forward() {
    let limiter = RateLimitMiddleware::default();
    let first = limiter.now_nanos();
    let second = limiter.now_nanos();
    assert!(first <= second);
    // It starts with the limiter
    assert!(second < 60 * 1_000 * MILLI);
}

#[test]
fn limiter_reads_its_clock_for_every_check() {
    let mut limiter = RateLimitMiddleware::builder()
        .route(|r| {
            r.limit(1, Duration::from_millis(50))
                .on_limit(ThrottleBehavior::Error)
        })
        .build();
    let req = get(&local("/test"));
    let before = limiter.now_nanos();
    assert!(passes(&mut limiter, &req));
    let admitted = limiter.now_nanos();
    // Refused until the interval is over, and let through then
    while !passes(&mut limiter, &req) {}
    let again = limiter.now_nanos();
    assert!(before <= admitted && admitted <= again);
    assert!(again >= before + 50 * MILLI);
}

fn passed_at_once(requests: u32, window: Duration, attempts: u32) -> usize {
    let mut limiter = RateLimitMiddleware::builder()
        .route(|r| {
            r.limit(requests, window)
                .on_limit(ThrottleBehavior::Error)
        })
        .build();
    let req = get(&local("/test"));
    (0..attempts)
        .filter(|_| at(&mut limiter, 0, &req).is_ok())
        .count()
}

#[test]
fn no_more_than_requests_pass_at_one_moment() {
    // The interval rounds down to nothing
    assert_eq!(passed_at_once(10, Duration::from_nanos(5), 100), 10);
    assert_eq!(passed_at_once(2, Duration::from_nanos(1), 100), 2);
    // The division leaves an interval or more over
    assert_eq!(passed_at_once(3, Duration::from_nanos(5), 100), 3);
    assert_eq!(passed_at_once(6, Duration::from_nanos(11), 100), 6);
    assert_eq!(passed_at_once(60_000, Duration::from_secs(1), 60_010), 60_000);
    // It leaves less than an interval, or nothing
    assert_eq!(passed_at_once(3, Duration::from_millis(100), 100), 3);
    assert_eq!(passed_at_once(5, Duration::from_nanos(5), 100), 5);
    assert_eq!(passed_at_once(1, Duration::from_nanos(1), 100), 1);
    // Fewer attempts than the limit allows all pass
    assert_eq!(passed_at_once(10, Duration::from_nanos(5), 7), 7);
}

#[test]
fn eleventh_request_of_ten_is_refused() {
    let mut limiter = RateLimitMiddleware::builder()
        .route(|r| {
            r.limit(10, Duration::from_nanos(5))
                .on_limit(ThrottleBehavior::Error)
        })
        .build();
    let req = get("https://a.com/");
    for _ in 0..10 {
        assert!(at(&mut limiter, 0, &req).is_ok());
    }
    let refusal = at(&mut limiter, 0, &req).unwrap_err();
    assert_eq!(refusal.wait, Duration::from_nanos(1));
    assert!(matches!(
        refusal.decide(0),
        Decision::Reject(RateLimitError::RateLimited(_))
    ));
    // One nanosecond later there is room for one more
    assert!(at(&mut limiter, 1, &req).is_ok());
    assert!(at(&mut limiter, 1, &req).is_err());
}

#[test]
fn small_remainder_shortens_the_wait() {
    // 3 per 100 ms: interval 33,333,333 ns, and 1 ns is left over
    let mut limiter = RateLimitMiddleware::builder()
        .route(|r| r.limit(3, Duration::from_millis(100)))
        .build();
    let req = get(&local("/test"));
    for _ in 0..3 {
        assert!(at(&mut limiter, 0, &req).is_ok());
    }
    let refusal = at(&mut limiter, 0, &req).unwrap_err();
    assert_eq!(refusal.wait, Duration::from_nanos(33_333_332));
}

#[test]
fn one_more_request_passes_for_each_interval_begun() {
    let mut limiter = RateLimitMiddleware::builder()
        .route(|r| {
            r.limit(3, Duration::from_nanos(31))
                .on_limit(ThrottleBehavior::Error)
        })
        .build();
    let req = get(&local("/test"));
    let mut passed = 0u64;
    for now in 0..=1_000u64 {
        while at(&mut limiter, now, &req).is_ok() {
            passed += 1;
        }
        // Interval 10 ns
        assert!(passed <= 3 + (now + 9) / 10);
    }
    assert_eq!(passed, 103);
}

#[test]
fn rate_is_kept_where_times_come_out_of_order() {
    let mut limiter = RateLimitMiddleware::builder()
        .route(|r| {
            r.limit(4, Duration::from_nanos(40))
                .on_limit(ThrottleBehavior::Error)
        })
        .build();
    let req = get(&local("/test"));
    let mut passed = 0u64;
    for now in [90u64, 10, 70, 30, 100, 50, 100, 20, 0, 100, 100, 60, 100] {
        if at(&mut limiter, now, &req).is_ok() {
            passed += 1;
        }
    }
    assert_eq!(passed, 5);
    assert!(passed * 10 <= 100 + 40);
}

#[test]
fn burst_over_several_routes_passes_as_far_as_every_limit_allows() {
    let mut limiter = RateLimitMiddleware::builder()
        .route(|r| r.limit(6, Duration::from_millis(10)))
        .route(|r| r.path("/a").limit(4, Duration::from_secs(1)))
        .route(|r| r.path("/b").limit(4, Duration::from_secs(7)))
        .build();
    let a = get(&local("/a"));
    let b = get(&local("/b"));
    for req in [&a, &b, &a, &a] {
        assert!(at(&mut limiter, 5, req).is_ok());
    }
    assert!(at(&mut limiter, 5, &a).is_ok());
    let refusal = at(&mut limiter, 5, &a).unwrap_err();
    assert_eq!((refusal.route_index, refusal.limit_index), (1, 0));
    let refusal = at(&mut limiter, 5, &b).unwrap_err();
    assert_eq!((refusal.route_index, refusal.limit_index), (0, 0));
}

#[test]
fn entries_never_outnumber_the_limits() {
    let mut limiter = RateLimitMiddleware::builder()
        .route(|r| {
            r.limit(2, Duration::from_secs(1))
                .limit(3, Duration::from_secs(5))
        })
        .route(|r| r.path("/a").limit(1, Duration::from_secs(1)))
        .build();
    for step in 0..20u64 {
        let _ = at(&mut limiter, step * 100 * MILLI, &get(&local("/a")));
        assert!(limiter.state_count() <= 3);
    }
    assert_eq!(limiter.state_count(), 3);
    assert_eq!(limiter.route_offsets(), &vec![0, 2]);
}
