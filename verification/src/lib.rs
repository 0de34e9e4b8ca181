//! Route-based rate limiting for HTTP clients.
//!
//! A [`RateLimitMiddleware`] decides, from the host, method and path of a request, whether it may
//! go out now, has to wait, or is turned down.
//!
//! # Features
//!
//! - **Endpoint matching**: Match requests by host, HTTP method, and path prefix
//! - **Multiple rate limits**: Stack burst and sustained limits on the same endpoint
//! - **Configurable behavior**: Choose to delay requests or return errors per endpoint
//!
//! # Route Matching Behavior
//!
//! Routes are checked in the order they are defined, and **all matching routes' limits are
//! applied**. This means you can layer general limits with specific ones:
//!
//! ```rust,no_run
//! use route_ratelimit::RateLimitMiddleware;
//! use std::time::Duration;
//!
//! let limiter = RateLimitMiddleware::builder()
//!     // General limit: 9000 requests per 10 seconds for all endpoints
//!     .host("api.example.com", |host| {
//!         host.route(|r| r.limit(9000, Duration::from_secs(10)))
//!             // Specific limit: /book endpoints also limited to 1500/10s
//!             // Both limits are enforced - a request to /book must pass BOTH
//!             .route(|r| r.path("/book").limit(1500, Duration::from_secs(10)))
//!     })
//!     .build();
//! ```
//!
//! # Host Matching
//!
//! Host matching uses only the hostname portion of the URL, **excluding the port**. For example,
//! `host("api.example.com")` will match `https://api.example.com:8443/path`.
//!
//! # Path Matching
//!
//! Path matching uses **segment boundaries**, not simple prefix matching:
//! - `/order` matches `/order`, `/order/`, and `/order/123`
//! - `/order` does **NOT** match `/orders` or `/order-test`
//!
//! # What is proved
//!
//! Every function states its result over mathematical models: a route is its filters and limits,
//! the limiter is its routes, a map of theoretical arrival times and the start of its clock. What
//! each operation is for is said in [`laws`] of fields, indices and numbers alone, and what follows
//! for several requests is proved in [`gcra_laws`] and [`middleware_laws`]. Above all, a
//! limit keeps its maximum: at any one moment it lets through no more requests than it allows, and
//! between two moments one more for each emission interval (window divided by requests, in whole
//! nanoseconds and at least one) that has begun since the first.
pub mod builder;
pub mod clock;
pub mod error;
pub mod gcra;
pub mod gcra_laws;
pub mod jitter;
pub mod laws;
pub mod middleware;
pub mod middleware_laws;
pub mod request;
pub mod store;
pub mod text;
pub mod types;

pub use builder::{HostBuilder, HostRouteBuilder, RateLimitBuilder, RouteBuilder};
pub use error::RateLimitError;
pub use gcra::GcraState;
pub use http::Method;
pub use middleware::{Decision, RateLimitMiddleware, Refusal};
pub use request::RequestParts;
pub use types::{RateLimit, Route, RouteKey, ThrottleBehavior};
