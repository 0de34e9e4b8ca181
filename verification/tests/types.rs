use reqwest::Request;
use route_ratelimit::clock::{saturating_nanos, span_of_nanos};
use route_ratelimit::text::{prefix_covers, same_text};
use route_ratelimit::{Method, RateLimit, RequestParts, Route, RouteKey, ThrottleBehavior};
use std::time::Duration;

fn route_with(host: Option<&str>, method: Option<Method>, path_prefix: &str) -> Route {
    Route {
        host: host.map(|h| h.to_string()),
        method,
        path_prefix: path_prefix.to_string(),
        limits: vec![],
        on_limit: ThrottleBehavior::Delay,
    }
}

fn get(url: &str) -> Request {
    reqwest::Client::new().get(url).build().unwrap()
}

#[test]
fn test_route_matching_all() {
    let route = Route {
        host: None,
        method: None,
        path_prefix: String::new(),
        limits: vec![],
        on_limit: ThrottleBehavior::Delay,
    };

    let req = reqwest::Client::new()
        .get("https://example.com/test")
        .build()
        .unwrap();

    assert!(route.matches(&req));
}

#[test]
fn test_route_matching_host() {
    let route = Route {
        host: Some("api.example.com".to_string()),
        method: None,
        path_prefix: String::new(),
        limits: vec![],
        on_limit: ThrottleBehavior::Delay,
    };

    let req_match = reqwest::Client::new()
        .get("https://api.example.com/test")
        .build()
        .unwrap();
    let req_no_match = reqwest::Client::new()
        .get("https://other.example.com/test")
        .build()
        .unwrap();

    assert!(route.matches(&req_match));
    assert!(!route.matches(&req_no_match));
}

#[test]
fn test_route_matching_method() {
    let route = Route {
        host: None,
        method: Some(Method::POST),
        path_prefix: String::new(),
        limits: vec![],
        on_limit: ThrottleBehavior::Delay,
    };

    let req_match = reqwest::Client::new()
        .post("https://example.com/test")
        .build()
        .unwrap();
    let req_no_match = reqwest::Client::new()
        .get("https://example.com/test")
        .build()
        .unwrap();

    assert!(route.matches(&req_match));
    assert!(!route.matches(&req_no_match));
}

#[test]
fn test_route_matching_path_prefix() {
    let route = Route {
        host: None,
        method: None,
        path_prefix: "/api/v1".to_string(),
        limits: vec![],
        on_limit: ThrottleBehavior::Delay,
    };

    let req_match = reqwest::Client::new()
        .get("https://example.com/api/v1/users")
        .build()
        .unwrap();
    let req_no_match = reqwest::Client::new()
        .get("https://example.com/api/v2/users")
        .build()
        .unwrap();

    assert!(route.matches(&req_match));
    assert!(!route.matches(&req_no_match));
}

#[test]
fn test_route_matching_path_segment_boundary() {
    let route = Route {
        host: None,
        method: None,
        path_prefix: "/order".to_string(),
        limits: vec![],
        on_limit: ThrottleBehavior::Delay,
    };

    // Should match: exact, with trailing slash, with sub-path
    let req_exact = reqwest::Client::new()
        .get("https://example.com/order")
        .build()
        .unwrap();
    let req_trailing = reqwest::Client::new()
        .get("https://example.com/order/")
        .build()
        .unwrap();
    let req_subpath = reqwest::Client::new()
        .get("https://example.com/order/123")
        .build()
        .unwrap();

    assert!(route.matches(&req_exact), "/order should match /order");
    assert!(route.matches(&req_trailing), "/order should match /order/");
    assert!(
        route.matches(&req_subpath),
        "/order should match /order/123"
    );

    // Should NOT match: different path that starts with same chars
    let req_orders = reqwest::Client::new()
        .get("https://example.com/orders")
        .build()
        .unwrap();
    let req_order_dash = reqwest::Client::new()
        .get("https://example.com/order-test")
        .build()
        .unwrap();

    assert!(
        !route.matches(&req_orders),
        "/order should NOT match /orders"
    );
    assert!(
        !route.matches(&req_order_dash),
        "/order should NOT match /order-test"
    );
}

#[test]
fn test_emission_interval() {
    let limit = RateLimit::new(100, Duration::from_secs(10));
    assert_eq!(limit.emission_interval(), Duration::from_millis(100));

    let limit = RateLimit::new(1000, Duration::from_secs(60));
    assert_eq!(limit.emission_interval(), Duration::from_millis(60));
}

#[test]
fn interval_is_counted_in_whole_nanoseconds() {
    let limit = RateLimit::new(3, Duration::from_nanos(10));
    assert_eq!(limit.requests, 3);
    assert_eq!(limit.window, Duration::from_nanos(10));
    assert_eq!(limit.emission_interval(), Duration::from_nanos(3));

    let widest = RateLimit::new(1, Duration::from_nanos(u64::MAX));
    assert_eq!(widest.window, Duration::from_nanos(u64::MAX));
    assert_eq!(widest.emission_interval(), Duration::from_nanos(u64::MAX));
}

#[test]
fn limit_is_charged_by_the_interval_up_to_its_requests() {
    let charge = |requests, nanos| {
        let limit = RateLimit::new(requests, Duration::from_nanos(nanos));
        (limit.charge_interval(), limit.burst_span())
    };
    // Nothing, or less than an interval, is left over
    assert_eq!(charge(4, 40), (10, 40));
    assert_eq!(charge(4, 43), (10, 43));
    assert_eq!(charge(1, u64::MAX), (u64::MAX, u64::MAX));
    // An interval or more is left over
    assert_eq!(charge(3, 5), (1, 3));
    assert_eq!(charge(6, 17), (2, 13));
    assert_eq!(charge(60_000, 1_000_000_000), (16_666, 60_000 * 16_666 + 16_665));
    // The interval rounds down to nothing
    assert_eq!(charge(10, 5), (1, 10));
    assert_eq!(charge(u32::MAX, 1), (1, u32::MAX as u64));
}

#[test]
fn emission_interval_follows_the_public_fields() {
    let mut limit = RateLimit::new(2, Duration::from_secs(1));
    limit.window = Duration::MAX;
    limit.requests = 1;
    assert_eq!(limit.emission_interval(), Duration::MAX);
}

#[test]
fn throttling_delays_by_default() {
    assert_eq!(ThrottleBehavior::default(), ThrottleBehavior::Delay);
}

#[test]
fn host_matching_leaves_the_port_out() {
    let route = route_with(Some("api.example.com"), None, "");
    assert!(route.matches(&get("https://api.example.com/path")));
    assert!(route.matches(&get("https://api.example.com:8443/path")));
    assert!(!route.matches(&get("https://other.example.com/path")));
    assert!(!route.matches(&get("https://api.example.com.evil.org/path")));
}

#[test]
fn path_table_of_the_version_prefix() {
    let route = route_with(None, None, "/api/v1");
    assert!(route.matches(&get("https://example.com/api/v1/users")));
    assert!(route.matches(&get("https://example.com/api/v1/")));
    assert!(!route.matches(&get("https://example.com/api/v2")));
    assert!(!route.matches(&get("https://example.com/api/v10")));
}

#[test]
fn query_and_fragment_do_not_count() {
    let route = route_with(None, None, "/order");
    assert!(route.matches(&get("https://example.com/order?id=123&status=open")));
    assert!(route.matches(&get("https://example.com/order#top")));
    assert!(!route.matches(&get("https://example.com/?path=/order")));
}

#[test]
fn request_without_host_fails_a_host_filter_only() {
    let method = Method::GET;
    let parts = RequestParts {
        host: None,
        method: &method,
        path: "/order",
    };
    assert!(!route_with(Some("api.example.com"), None, "").matches_parts(&parts));
    assert!(route_with(None, None, "/order").matches_parts(&parts));
}

#[test]
fn parts_are_taken_from_the_request() {
    let request = reqwest::Client::new()
        .delete("http://User@Example.COM:8080/a/b?c=d#e")
        .build()
        .unwrap();
    let parts = RequestParts::of(&request);
    assert_eq!(parts.host, Some("example.com"));
    assert_eq!(parts.method, &Method::DELETE);
    assert_eq!(parts.path, "/a/b");
}

#[test]
fn extension_methods_are_told_apart() {
    let purge = Method::from_bytes(b"PURGE").unwrap();
    let other = Method::from_bytes(b"PURGED").unwrap();
    let route = route_with(None, Some(purge.clone()), "");
    let same = RequestParts {
        host: None,
        method: &purge,
        path: "/",
    };
    let different = RequestParts {
        host: None,
        method: &other,
        path: "/",
    };
    assert!(route.matches_parts(&same));
    assert!(!route.matches_parts(&different));
}

#[test]
fn catch_all_has_no_filter() {
    assert!(route_with(None, None, "").is_catch_all());
    assert!(!route_with(Some("a"), None, "").is_catch_all());
    assert!(!route_with(None, Some(Method::GET), "").is_catch_all());
    assert!(!route_with(None, None, "/").is_catch_all());
}

#[test]
fn cloned_route_is_the_same_route() {
    let mut route = route_with(Some("api.example.com"), Some(Method::PUT), "/x");
    route.limits.push(RateLimit::new(5, Duration::from_secs(1)));
    route.on_limit = ThrottleBehavior::Error;
    let copy = route.clone();
    assert_eq!(copy.host.as_deref(), Some("api.example.com"));
    assert_eq!(copy.method, Some(Method::PUT));
    assert_eq!(copy.path_prefix, "/x");
    assert_eq!(copy.limits.len(), 1);
    assert_eq!(copy.limits[0].requests, 5);
    assert_eq!(copy.on_limit, ThrottleBehavior::Error);
}

#[test]
fn keys_pack_and_unpack() {
    let key = RouteKey::new(7, 9);
    assert_eq!(key.0, (7u64 << 32) | 9);
    assert_eq!(key.route_index(), 7);
    assert_eq!(key.limit_index(), 9);

    let last = RouteKey::new(u32::MAX as usize, u32::MAX as usize);
    assert_eq!(last.0, u64::MAX);
    assert_eq!(last.route_index(), u32::MAX as usize);
    assert_eq!(last.limit_index(), u32::MAX as usize);

    assert_ne!(RouteKey::new(0, 1), RouteKey::new(1, 0));
}

#[test]
fn texts_are_compared_character_by_character() {
    assert!(same_text("", ""));
    assert!(same_text("käse", "käse"));
    assert!(!same_text("käse", "kase"));
    assert!(!same_text("a", "ab"));
}

#[test]
fn prefixes_cover_whole_segments() {
    assert!(prefix_covers("", ""));
    assert!(prefix_covers("", "anything"));
    assert!(prefix_covers("/é", "/é"));
    assert!(prefix_covers("/é", "/é/x"));
    assert!(!prefix_covers("/é", "/éx"));
    assert!(!prefix_covers("/é", "/è"));
    assert!(!prefix_covers("/order", "/orde"));
    // A prefix that ends with a slash still asks for a boundary after it
    assert!(prefix_covers("/order/", "/order/"));
    assert!(prefix_covers("/order/", "/order//1"));
    assert!(!prefix_covers("/order/", "/order/1"));
    assert!(!prefix_covers("/order/", "/order"));
}

#[test]
fn spans_and_nanoseconds_convert() {
    assert_eq!(span_of_nanos(1_500_000_000), Duration::from_millis(1_500));
    assert_eq!(
        span_of_nanos(u64::MAX as u128 * 2),
        Duration::from_nanos(u64::MAX) * 2
    );
    assert_eq!(saturating_nanos(Duration::from_micros(3)), 3_000);
    assert_eq!(saturating_nanos(Duration::MAX), u64::MAX);
}
