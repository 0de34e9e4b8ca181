# route-ratelimit

Route-based rate limiting for HTTP clients, verified with Verus.

Requests are matched by host, method and path prefix. All limits of all matching routes apply, in
the order in which they were configured. Each limit is a Generic Cell Rate Algorithm state. A
request that meets an exhausted limit is delayed or turned down, as its route says.

```rust
use route_ratelimit::{Decision, RateLimitMiddleware};
use std::time::Duration;

let mut limiter = RateLimitMiddleware::builder()
    .host("api.example.com", |host| {
        host.route(|r| r.limit(9000, Duration::from_secs(10)))
            .route(|r| r.path("/book").limit(1500, Duration::from_secs(10)))
    })
    .build();

match limiter.check_and_apply_limits(&request) {
    Decision::Proceed => { /* send it */ }
    Decision::Sleep(span) => { /* sleep, then check again */ }
    Decision::Reject(err) => { /* report err.to_string() */ }
}
```

## Layout

- `src/` is the verified library.
  - `gcra` is the rate algorithm, `gcra_laws` what it guarantees over several requests.
  - `types` holds limits, routes and keys; `request` and `text` match requests against routes.
  - `builder` is the configuration API.
  - `middleware` checks requests, `middleware_laws` states what holds over whole histories: a
    limit lets through no more requests at one moment than it allows, and over time one more for
    each emission interval; routes do not interfere; cleaning up changes no decision; the
    state allocated at build time is all that checks need until it is cleaned up.
  - `store`, `jitter`, `clock` and `error` hold the arrival times, the random slack, the clock and
    the error.
- `app/` shares a limiter between the clones of a `reqwest_middleware` middleware and sleeps where
  the decision is to wait. Its builders panic on a configuration that the library does not take.
- `tests/` runs the library with the real outside crates.

## What is trusted

The contracts of the few functions that call into std, `dashmap`, `http`, `rand` and `reqwest` are
believed rather than proved. Each says in its doc comment which function it calls and what it
claims of it.
