use route_ratelimit::{
    Method, RateLimit, RateLimitBuilder, RateLimitMiddleware, RouteBuilder, ThrottleBehavior,
};
use std::time::Duration;

#[test]
fn test_builder_api() {
    let middleware = RateLimitMiddleware::builder()
        .route(|r| {
            r.host("api.example.com")
                .method(Method::POST)
                .path("/order")
                .limit(100, Duration::from_secs(10))
                .limit(1000, Duration::from_secs(60))
                .on_limit(ThrottleBehavior::Delay)
        })
        .route(|r| {
            r.path("/data")
                .limit(50, Duration::from_secs(10))
                .on_limit(ThrottleBehavior::Error)
        })
        .build();

    assert_eq!(middleware.routes().len(), 2);
    assert_eq!(middleware.routes()[0].limits.len(), 2);
    assert_eq!(middleware.routes()[1].limits.len(), 1);
}

#[test]
fn test_host_scoped_builder() {
    let middleware = RateLimitMiddleware::builder()
        .host("clob.polymarket.com", |host| {
            host.route(|r| r.limit(9000, Duration::from_secs(10)))
                .route(|r| r.path("/book").limit(1500, Duration::from_secs(10)))
                .route(|r| r.path("/price").limit(1500, Duration::from_secs(10)))
                .route(|r| {
                    r.method(Method::POST)
                        .path("/order")
                        .limit(3500, Duration::from_secs(10))
                        .limit(36000, Duration::from_secs(600))
                        .on_limit(ThrottleBehavior::Delay)
                })
        })
        .host("data-api.polymarket.com", |host| {
            host.route(|r| r.limit(1000, Duration::from_secs(10)))
                .route(|r| r.path("/trades").limit(200, Duration::from_secs(10)))
        })
        .build();

    // 4 routes for CLOB + 2 routes for Data API = 6 routes
    assert_eq!(middleware.routes().len(), 6);

    // Check that all CLOB routes have the correct host
    for i in 0..4 {
        assert_eq!(
            middleware.routes()[i].host.as_deref(),
            Some("clob.polymarket.com")
        );
    }

    // Check that all Data API routes have the correct host
    for i in 4..6 {
        assert_eq!(
            middleware.routes()[i].host.as_deref(),
            Some("data-api.polymarket.com")
        );
    }

    // Check the trading endpoint has burst + sustained limits
    assert_eq!(middleware.routes()[3].path_prefix, "/order");
    assert_eq!(middleware.routes()[3].method, Some(Method::POST));
    assert_eq!(middleware.routes()[3].limits.len(), 2);
}

#[test]
fn test_mixed_builder_styles() {
    // Can mix host-scoped and non-scoped routes
    let middleware = RateLimitMiddleware::builder()
        // Global catch-all limit (no host)
        .route(|r| r.limit(15000, Duration::from_secs(10)))
        // Host-scoped routes
        .host("api.example.com", |host| {
            host.route(|r| r.path("/data").limit(100, Duration::from_secs(10)))
        })
        .build();

    assert_eq!(middleware.routes().len(), 2);
    assert!(middleware.routes()[0].host.is_none()); // Global route
    assert_eq!(
        middleware.routes()[1].host.as_deref(),
        Some("api.example.com")
    );
}

#[test]
fn test_single_line_routes() {
    // Demonstrate rustfmt-friendly one-line route syntax
    let middleware = RateLimitMiddleware::builder()
        .host("api.example.com", |host| {
            host.route(|r| r.path("/a").limit(100, Duration::from_secs(10)))
                .route(|r| r.path("/b").limit(200, Duration::from_secs(10)))
                .route(|r| r.path("/c").limit(300, Duration::from_secs(10)))
        })
        .build();

    assert_eq!(middleware.routes().len(), 3);
}

#[test]
fn configured_route_holds_what_was_said() {
    let route = RouteBuilder::default()
        .host(String::from("api.example.com"))
        .method(Method::PATCH)
        .path("/x")
        .limit(4, Duration::from_secs(2))
        .on_limit(ThrottleBehavior::Error)
        .build();
    assert_eq!(route.host.as_deref(), Some("api.example.com"));
    assert_eq!(route.method, Some(Method::PATCH));
    assert_eq!(route.path_prefix, "/x");
    assert_eq!(route.limits.len(), 1);
    assert_eq!(route.limits[0].requests, 4);
    assert_eq!(route.limits[0].window, Duration::from_secs(2));
    assert_eq!(route.limits[0].emission_interval(), Duration::from_millis(500));
    assert_eq!(route.on_limit, ThrottleBehavior::Error);
}

#[test]
fn unconfigured_route_has_no_filters_and_delays() {
    let route = RouteBuilder::default().limit(1, Duration::from_secs(1)).build();
    assert!(route.is_catch_all());
    assert_eq!(route.on_limit, ThrottleBehavior::Delay);
}

#[test]
fn later_settings_replace_earlier_ones() {
    let route = RouteBuilder::default()
        .host("a")
        .host("b")
        .path("/a")
        .path("/b")
        .method(Method::GET)
        .method(Method::PUT)
        .limit(1, Duration::from_secs(1))
        .on_limit(ThrottleBehavior::Error)
        .on_limit(ThrottleBehavior::Delay)
        .build();
    assert_eq!(route.host.as_deref(), Some("b"));
    assert_eq!(route.path_prefix, "/b");
    assert_eq!(route.method, Some(Method::PUT));
    assert_eq!(route.on_limit, ThrottleBehavior::Delay);
}

#[test]
fn added_route_comes_last() {
    let route = RouteBuilder::default()
        .path("/last")
        .limit(1, Duration::from_secs(1))
        .build();
    let middleware = RateLimitBuilder::new()
        .route(|r| r.path("/first").limit(1, Duration::from_secs(1)))
        .add_route(route)
        .build();
    assert_eq!(middleware.routes()[0].path_prefix, "/first");
    assert_eq!(middleware.routes()[1].path_prefix, "/last");
}

#[test]
fn offsets_count_the_limits_before_each_route() {
    let middleware = RateLimitMiddleware::builder()
        .route(|r| {
            r.limit(1, Duration::from_secs(1))
                .limit(2, Duration::from_secs(1))
        })
        .route(|r| r.limit(3, Duration::from_secs(1)))
        .route(|r| r.limit(4, Duration::from_secs(1)))
        .build();
    assert_eq!(middleware.route_offsets(), &vec![0, 2, 3]);
    // One entry for each limit
    assert_eq!(middleware.state_count(), 4);
}

#[test]
fn cloned_builders_go_their_own_ways() {
    let base = RateLimitBuilder::new().host("a", |host| {
        let copy = host.clone();
        let longer = host.route(|r| r.limit(9, Duration::from_secs(1)));
        drop(longer);
        copy.route(|r| {
            let blank = r.clone();
            drop(r.path("/unused"));
            blank.limit(1, Duration::from_secs(1))
        })
    });
    let more = base
        .clone()
        .route(|r| r.clone().limit(2, Duration::from_secs(1)));
    let one = base.build();
    let two = more.build();
    assert_eq!(one.routes().len(), 1);
    assert_eq!(one.routes()[0].path_prefix, "");
    assert_eq!(one.routes()[0].limits[0].requests, 1);
    assert_eq!(two.routes().len(), 2);
    assert_eq!(two.routes()[0].host.as_deref(), Some("a"));
}

#[test]
fn catch_all_before_a_specific_route_is_reported() {
    fn limit(r: RouteBuilder) -> RouteBuilder {
        r.limit(1, Duration::from_secs(1))
    }
    let builder = RateLimitBuilder::new()
        .route(|r| limit(r)) // 0: catch-all
        .route(|r| limit(r)) // 1: catch-all
        .route(|r| limit(r.path("/a"))) // 2: specific
        .route(|r| limit(r.path("/b"))) // 3: specific
        .route(|r| limit(r)) // 4: catch-all
        .route(|r| limit(r.method(Method::GET))) // 5: specific
        .route(|r| limit(r)); // 6: catch-all
    assert_eq!(builder.warn_catch_all_route_order(), vec![(1, 2), (4, 5)]);
}

#[test]
fn specific_before_catch_all_is_fine() {
    let builder = RateLimitBuilder::new()
        .host("a", |h| h.route(|r| r.limit(1, Duration::from_secs(1))))
        .route(|r| r.limit(1, Duration::from_secs(1)));
    assert!(builder.warn_catch_all_route_order().is_empty());
    assert!(RateLimitBuilder::default().warn_catch_all_route_order().is_empty());
}

#[test]
fn limits_stack_in_order() {
    let route = RouteBuilder::default()
        .limit(100, Duration::from_secs(10))
        .limit(1000, Duration::from_secs(600))
        .build();
    let burst: &RateLimit = &route.limits[0];
    let sustained: &RateLimit = &route.limits[1];
    assert_eq!(burst.emission_interval(), Duration::from_millis(100));
    assert_eq!(sustained.emission_interval(), Duration::from_millis(600));
}

#[test]
fn ordinary_configurations_can_be_built() {
    assert!(RateLimitBuilder::new().can_build());
    assert!(RateLimitBuilder::new()
        .route(|r| {
            r.limit(1, Duration::from_secs(1))
                .limit(2, Duration::from_secs(2))
        })
        .can_build());
}
