//! What the operations are for, said of fields, indices and numbers.
//!
//! Each law here takes what an operation was given and what it left behind, and says in plain
//! arithmetic how the two must relate.
use http::Method;
use reqwest::Request;
use std::time::{Duration, Instant};
use vstd::math::{max, min};
use vstd::prelude::*;

use crate::builder::{all_bound_to, all_limited, all_valid, shadows};
use crate::clock::{capped_nanos, duration_nanos, is_clock_reading, is_time_since};
use crate::error::RateLimitError;
use crate::gcra::{admits, excess_nanos, next_tat};
use crate::jitter::is_draw_up_to;
use crate::middleware::{
    all_have_room, applies, can_be_keyed, comes_before, has_limit, has_room, holds_up,
    initial_tats, is_check, is_cleanup, is_reached, limits_before, tat_at, tats_after,
    wait_for_room, Decision, MiddlewareModel, Refusal,
};
use crate::middleware_laws::{lemma_held_up_once, lemma_prefix_covers_whole_segments};
use crate::request::{
    host_of, method_of, path_of, request_model, url_of, RequestModel, RequestParts,
};
use crate::store::is_live;
use crate::types::{
    burst_span, charge_interval, key_limit, key_route, lemma_key_is_packed, lemma_key_round_trip,
    packed_key, route_models, LimitModel, Route, RouteModel, ThrottleBehavior,
};

verus! {

// Routes and requests

/// A route with a host matches no request to another host, nor one without a host, whatever its
/// other filters say.
pub proof fn lemma_other_host_never_matches(
    route: RouteModel,
    request: RequestModel,
    host: Seq<char>,
)
    requires
        route.host == Some(host),
        request.host != Some(host),
    ensures
        !route.matches(request),
{
}

/// A route with a method matches no request of another method, whatever its other filters say.
pub proof fn lemma_other_method_never_matches(
    route: RouteModel,
    request: RequestModel,
    method: Method,
)
    requires
        route.method == Some(method),
        request.method != method,
    ensures
        !route.matches(request),
{
}

/// A route with a path prefix matches only the path that is the prefix, and those that go on with a
/// slash after it, whatever its other filters say.
pub proof fn lemma_other_path_never_matches(route: RouteModel, request: RequestModel)
    requires
        route.path_prefix.len() > 0,
        request.path != route.path_prefix,
        forall|rest: Seq<char>| request.path != #[trigger] (route.path_prefix + seq!['/'] + rest),
    ensures
        !route.matches(request),
{
    lemma_prefix_covers_whole_segments(route.path_prefix, request.path);
}

/// A route matches every request that agrees with each filter that it has.
pub proof fn lemma_agreeing_request_matches(
    route: RouteModel,
    request: RequestModel,
    rest: Seq<char>,
)
    requires
        route.host is None || route.host == request.host,
        route.method is None || route.method == Some(request.method),
        route.path_prefix.len() == 0 || request.path == route.path_prefix || request.path
            == route.path_prefix + seq!['/'] + rest,
    ensures
        route.matches(request),
{
    if route.path_prefix.len() > 0 {
        lemma_prefix_covers_whole_segments(route.path_prefix, request.path);
    }
}

/// Filters do not stand in for one another: taking a filter away never turns a match into a miss,
/// and a route matches exactly when it does under each of its filters alone.
pub proof fn lemma_filters_count_separately(route: RouteModel, request: RequestModel)
    ensures
        route.matches(request) <==> {
            &&& (RouteModel { method: None, path_prefix: Seq::empty(), ..route }).matches(request)
            &&& (RouteModel { host: None, path_prefix: Seq::empty(), ..route }).matches(request)
            &&& (RouteModel { host: None, method: None, ..route }).matches(request)
        },
{
}

/// Limits and behavior have no say in what a route matches.
pub proof fn lemma_limits_do_not_affect_matching(
    route: RouteModel,
    other: RouteModel,
    request: RequestModel,
)
    requires
        route.host == other.host,
        route.method == other.method,
        route.path_prefix == other.path_prefix,
    ensures
        route.matches(request) == other.matches(request),
{
}

/// A route is a catch-all exactly when host, method and path prefix are all missing.
pub proof fn lemma_catch_all_has_no_filters(route: RouteModel)
    ensures
        route.is_catch_all() <==> route.host is None && route.method is None
            && route.path_prefix.len() == 0,
{
}

/// The model of a route holds what the route holds.
pub proof fn lemma_route_is_modelled(route: Route)
    ensures
        route.host is None <==> route@.host is None,
        route.host matches Some(text) ==> route@.host == Some(text@),
        route@.method == route.method,
        route@.path_prefix == route.path_prefix@,
        route@.limits.len() == route.limits@.len(),
        forall|i: int|
            0 <= i < route.limits@.len() ==> #[trigger] route@.limits[i] == route.limits@[i]@,
        route@.on_limit == route.on_limit,
{
}

/// The models of several routes are those of each, in order.
pub proof fn lemma_routes_are_modelled(routes: Seq<Route>)
    ensures
        route_models(routes).len() == routes.len(),
        forall|i: int| 0 <= i < routes.len() ==> #[trigger] route_models(routes)[i] == routes[i]@,
{
}

/// The model of a request holds the host and path of its URL, and its method.
pub proof fn lemma_request_is_modelled(request: Request)
    ensures
        request_model(request).host == host_of(url_of(request)),
        request_model(request).method == method_of(request),
        request_model(request).path == path_of(url_of(request)),
{
}

/// The model of the parts of a request holds the parts.
pub proof fn lemma_parts_are_modelled(parts: RequestParts)
    ensures
        parts.host is None <==> parts@.host is None,
        parts.host matches Some(text) ==> parts@.host == Some(text@),
        parts@.method == *parts.method,
        parts@.path == parts.path@,
{
}

// Limits, keys and the clock

/// A route that nothing has been said of filters nothing, has no limits and delays.
pub proof fn lemma_blank_route_says_nothing()
    ensures
        RouteModel::blank().host == None::<Seq<char>>,
        RouteModel::blank().method == None::<Method>,
        RouteModel::blank().path_prefix == Seq::<char>::empty(),
        RouteModel::blank().limits == Seq::<LimitModel>::empty(),
        RouteModel::blank().on_limit == ThrottleBehavior::Delay,
{
}

/// A limit holds the numbers it was made of, its window in nanoseconds, and that divided by the
/// number of requests.
pub proof fn lemma_limit_holds_its_numbers(requests: u32, window: Duration)
    requires
        requests > 0,
        duration_nanos(window) <= u64::MAX,
    ensures
        LimitModel::of(requests, window).requests == requests,
        LimitModel::of(requests, window).window == window,
        LimitModel::of(requests, window).window_nanos == duration_nanos(window),
        LimitModel::of(requests, window).emission_interval_nanos == duration_nanos(window) / (
        requests as nat),
{
    vstd::arithmetic::div_mod::lemma_div_is_ordered_by_denominator(
        duration_nanos(window) as int,
        1,
        requests as int,
    );
}

/// The numbers of a limit belong together where there is something to divide and to divide by, and
/// the interval is the quotient.
pub proof fn lemma_valid_limit_in_numbers(limit: LimitModel)
    ensures
        limit.is_valid() <==> {
            &&& limit.requests > 0
            &&& limit.window_nanos > 0
            &&& limit.window_nanos == duration_nanos(limit.window)
            &&& limit.emission_interval_nanos == limit.window_nanos as int / limit.requests as int
        },
{
}

/// Of routes with valid limits, each limit is valid.
pub proof fn lemma_valid_routes_have_valid_limits(
    routes: Seq<RouteModel>,
    route: int,
    limit: int,
)
    requires
        all_valid(routes),
        0 <= route < routes.len(),
        0 <= limit < routes[route].limits.len(),
    ensures
        routes[route].limits[limit].is_valid(),
{
    assert(routes[route].has_valid_limits());
}

/// A request is charged one emission interval, and one nanosecond where that is nothing. A limit
/// may be charged ahead by its window, unless one more charge than it allows requests would fit:
/// then by one nanosecond less than that.
pub proof fn lemma_charges_follow_the_numbers(limit: LimitModel)
    ensures
        charge_interval(limit) == max(limit.emission_interval_nanos as int, 1),
        limit.emission_interval_nanos == 0 ==> burst_span(limit) == limit.requests,
        limit.emission_interval_nanos > 0 ==> burst_span(limit) == min(
            limit.window_nanos as int,
            (limit.requests + 1) * limit.emission_interval_nanos - 1,
        ),
{
    let e = limit.emission_interval_nanos as int;
    vstd::arithmetic::mul::lemma_mul_is_distributive_add_other_way(e, limit.requests as int, 1);
    vstd::arithmetic::mul::lemma_mul_nonnegative(limit.requests as int, e);
}

/// A key is the index of the route in its upper and that of the limit in its lower 32 bits.
pub proof fn lemma_key_holds_both_indices(key: u64, route: int, limit: int)
    requires
        0 <= route < 0x1_0000_0000,
        0 <= limit < 0x1_0000_0000,
    ensures
        packed_key(route, limit) == route * 0x1_0000_0000 + limit,
        key_route(key) == key as int / 0x1_0000_0000,
        key_limit(key) == key as int % 0x1_0000_0000,
{
}

/// A limit exists exactly where the two indices lead to one.
pub proof fn lemma_limits_are_indexed(
    routes: Seq<RouteModel>,
    request: RequestModel,
    route: int,
    limit: int,
)
    ensures
        has_limit(routes, route, limit) <==> 0 <= route < routes.len() && 0 <= limit
            < routes[route].limits.len(),
        applies(routes, request, route, limit) <==> 0 <= route < routes.len() && 0 <= limit
            < routes[route].limits.len() && routes[route].matches(request),
{
}

/// The number of limits before a route is the sum over the routes before it.
pub proof fn lemma_limits_add_up(routes: Seq<RouteModel>, count: int)
    requires
        0 <= count < routes.len(),
    ensures
        limits_before(routes, 0) == 0,
        limits_before(routes, count + 1) == limits_before(routes, count)
            + routes[count].limits.len(),
{
}

/// Routes can be keyed unless there are too many of them, or of their limits, for 32-bit indices,
/// or too many limits to be counted.
pub proof fn lemma_ordinary_routes_can_be_keyed(routes: Seq<RouteModel>)
    ensures
        can_be_keyed(routes) <==> {
            &&& routes.len() <= 0x1_0000_0000
            &&& forall|i: int|
                0 <= i < routes.len() ==> (#[trigger] routes[i]).limits.len() <= 0x1_0000_0000
            &&& limits_before(routes, routes.len() as int) <= usize::MAX
        },
{
}

/// State is allocated where every limit of every route has an entry.
pub proof fn lemma_allocated_state_has_every_entry(
    limiter: MiddlewareModel,
    route: int,
    limit: int,
    key: u64,
)
    requires
        limiter.is_allocated(),
        0 <= route < limiter.routes.len(),
        0 <= limit < limiter.routes[route].limits.len(),
        limit < 0x1_0000_0000,
        key == route * 0x1_0000_0000 + limit,
    ensures
        limiter.tats.contains_key(key),
{
    lemma_key_round_trip(route, limit);
}

/// State is allocated if every limit of every route has an entry.
pub proof fn lemma_every_entry_makes_allocated_state(limiter: MiddlewareModel)
    requires
        forall|key: u64|
            key as int / 0x1_0000_0000 < limiter.routes.len() && key as int % 0x1_0000_0000
                < limiter.routes[key as int / 0x1_0000_0000].limits.len()
                ==> #[trigger] limiter.tats.contains_key(key),
    ensures
        limiter.is_allocated(),
{
}

/// A new limiter has an entry of zero for every limit, and no other entries.
pub proof fn lemma_new_limiter_is_idle(routes: Seq<RouteModel>, key: u64)
    ensures
        initial_tats(routes).contains_key(key) <==> (key as int / 0x1_0000_0000 < routes.len()
            && key as int % 0x1_0000_0000 < routes[key as int / 0x1_0000_0000].limits.len()),
        initial_tats(routes).contains_key(key) ==> initial_tats(routes)[key] == 0,
{
    lemma_key_is_packed(key);
}

/// The arrival time of a limit is that of its entry, and zero where it has none.
pub proof fn lemma_missing_entry_is_zero(tats: Map<u64, u64>, key: u64)
    ensures
        tats.contains_key(key) ==> tat_at(tats, key) == tats[key],
        !tats.contains_key(key) ==> tat_at(tats, key) == 0,
{
}

/// A request arrives one interval after the later of the present and the arrival time so far. It is
/// admitted where that is no more than the window ahead, and else has to wait for what it lies
/// beyond. Sums stop at the end of the clock.
pub proof fn lemma_admission_in_numbers(tat: u64, now: u64, interval: u64, window: u64)
    ensures
        next_tat(tat, now, interval) == min(max(tat as int, now as int) + interval, u64::MAX as int),
        admits(tat, now, interval, window) <==> min(
            max(tat as int, now as int) + interval,
            u64::MAX as int,
        ) <= min(now + window, u64::MAX as int),
        excess_nanos(tat, now, interval, window) == min(
            max(tat as int, now as int) + interval,
            u64::MAX as int,
        ) - min(now + window, u64::MAX as int),
{
}

/// A limiter's time is what its clock says has passed since its start, as far as 64 bits go.
pub proof fn lemma_time_is_told_by_the_clock(start: Instant, now: u64)
    requires
        is_time_since(start, now),
    ensures
        exists|elapsed: Duration| #[trigger]
            call_ensures(Instant::elapsed, (&start,), elapsed) && now == min(
                duration_nanos(elapsed) as int,
                u64::MAX as int,
            ),
{
    let elapsed = choose|elapsed: Duration| #[trigger]
        call_ensures(Instant::elapsed, (&start,), elapsed) && now == capped_nanos(elapsed);
    assert(call_ensures(Instant::elapsed, (&start,), elapsed));
}

/// The start of a limiter's clock was read off the clock.
pub proof fn lemma_start_is_told_by_the_clock(start: Instant)
    requires
        is_clock_reading(start),
    ensures
        call_ensures(Instant::now, (), start),
{
}

// Configuration

/// Routes bound to a host name that host, each of them.
pub proof fn lemma_bound_routes_name_their_host(
    host: Seq<char>,
    routes: Seq<RouteModel>,
    route: int,
)
    requires
        all_bound_to(host, routes),
        0 <= route < routes.len(),
    ensures
        routes[route].host == Some(host),
{
}

/// Of limited routes, each has a limit.
pub proof fn lemma_limited_routes_have_limits(routes: Seq<RouteModel>, route: int)
    requires
        all_limited(routes),
        0 <= route < routes.len(),
    ensures
        routes[route].limits.len() > 0,
{
}

/// What is warned of is a route without filters and, right after it, one with a filter.
pub proof fn lemma_warning_is_about_neighbours(
    routes: Seq<RouteModel>,
    catch_all: int,
    specific: int,
)
    ensures
        shadows(routes, catch_all, specific) <==> {
            &&& 0 <= catch_all < routes.len() - 1
            &&& specific == catch_all + 1
            &&& routes[catch_all].host is None
            &&& routes[catch_all].method is None
            &&& routes[catch_all].path_prefix.len() == 0
            &&& (routes[specific].host is Some || routes[specific].method is Some
                || routes[specific].path_prefix.len() > 0)
        },
{
}

// Checking requests

/// A request passes only if every limit of every route that matches it has room: one more charge
/// must leave the limit charged no further ahead than it may be.
pub proof fn lemma_every_matching_limit_must_have_room(
    routes: Seq<RouteModel>,
    tats: Map<u64, u64>,
    now: u64,
    request: RequestModel,
    route: int,
    limit: int,
)
    requires
        all_have_room(routes, tats, now, request),
        0 <= route < routes.len(),
        0 <= limit < routes[route].limits.len(),
        routes[route].matches(request),
    ensures
        min(
            max(tat_at(tats, packed_key(route, limit)) as int, now as int) + charge_interval(
                routes[route].limits[limit],
            ),
            u64::MAX as int,
        ) <= min(now + burst_span(routes[route].limits[limit]), u64::MAX as int),
{
    assert(applies(routes, request, route, limit));
    assert(has_room(routes, tats, now, route, limit));
}

/// A request passes if every limit of every route that matches it has room.
pub proof fn lemma_room_everywhere_is_enough(
    routes: Seq<RouteModel>,
    tats: Map<u64, u64>,
    now: u64,
    request: RequestModel,
)
    requires
        forall|r: int, l: int|
            #![trigger routes[r].limits[l]]
            0 <= r < routes.len() && 0 <= l < routes[r].limits.len() && routes[r].matches(request)
                ==> min(
                max(tat_at(tats, packed_key(r, l)) as int, now as int) + charge_interval(
                    routes[r].limits[l],
                ),
                u64::MAX as int,
            ) <= min(now + burst_span(routes[r].limits[l]), u64::MAX as int),
    ensures
        all_have_room(routes, tats, now, request),
{
    assert forall|route: int, limit: int| #[trigger]
        applies(routes, request, route, limit) implies has_room(
        routes,
        tats,
        now,
        route,
        limit,
    ) by {
        let one = routes[route].limits[limit];
        assert(has_limit(routes, route, limit));
    }
}

/// A check takes one charge of each limit that it gets to and that has room. It gets to the limits
/// of the matching routes in order, up to the first without room.
pub proof fn lemma_check_charges_what_it_gets_to(
    routes: Seq<RouteModel>,
    tats: Map<u64, u64>,
    now: u64,
    request: RequestModel,
    route: int,
    limit: int,
)
    requires
        0 <= route < routes.len(),
        0 <= limit < routes[route].limits.len(),
        route < 0x1_0000_0000,
        limit < 0x1_0000_0000,
        routes[route].matches(request),
        forall|r: int, l: int|
            #![trigger routes[r].limits[l]]
            0 <= r < routes.len() && 0 <= l < routes[r].limits.len() && routes[r].matches(request)
                && (r < route || (r == route && l < limit)) ==> min(
                max(tat_at(tats, packed_key(r, l)) as int, now as int) + charge_interval(
                    routes[r].limits[l],
                ),
                u64::MAX as int,
            ) <= min(now + burst_span(routes[r].limits[l]), u64::MAX as int),
        min(
                max(tat_at(tats, packed_key(route, limit)) as int, now as int) + charge_interval(
                    routes[route].limits[limit],
                ),
                u64::MAX as int,
            ) <= min(now + burst_span(routes[route].limits[limit]), u64::MAX as int),
    ensures
        tats_after(routes, tats, now, request).contains_key(packed_key(route, limit)),
        tats_after(routes, tats, now, request)[packed_key(route, limit)] == min(
            max(tat_at(tats, packed_key(route, limit)) as int, now as int) + charge_interval(
                routes[route].limits[limit],
            ),
            u64::MAX as int,
        ),
{
    lemma_key_round_trip(route, limit);
    lemma_written_out_is_reached(routes, tats, now, request, route, limit);
}

/// A check leaves everything else alone: the limits of routes that do not match, the first limit
/// without room, and all that come after it.
pub proof fn lemma_check_charges_nothing_else(
    routes: Seq<RouteModel>,
    tats: Map<u64, u64>,
    now: u64,
    request: RequestModel,
    full_route: int,
    full_limit: int,
    route: int,
    limit: int,
)
    requires
        0 <= route < 0x1_0000_0000,
        0 <= limit < 0x1_0000_0000,
        (route < routes.len() && !routes[route].matches(request)) || ({
            &&& 0 <= full_route < routes.len()
            &&& 0 <= full_limit < routes[full_route].limits.len()
            &&& routes[full_route].matches(request)
            &&& min(
                    max(tat_at(tats, packed_key(full_route, full_limit)) as int, now as int) + charge_interval(
                        routes[full_route].limits[full_limit],
                    ),
                    u64::MAX as int,
                ) > min(now + burst_span(routes[full_route].limits[full_limit]), u64::MAX as int)
            &&& (full_route < route || (full_route == route && full_limit <= limit))
        }),
    ensures
        tat_at(tats_after(routes, tats, now, request), packed_key(route, limit)) == tat_at(
            tats,
            packed_key(route, limit),
        ),
{
    lemma_key_round_trip(route, limit);
    let after = tats_after(routes, tats, now, request);
    if is_reached(routes, tats, now, request, route, limit) && has_room(
        routes,
        tats,
        now,
        route,
        limit,
    ) {
        assert(applies(routes, request, full_route, full_limit));
        assert(!has_room(routes, tats, now, full_route, full_limit));
        assert(comes_before(full_route, full_limit, route, limit) || (full_route == route
            && full_limit == limit));
    }
}

/// No entry goes away in a check, and no entry appears under a key that belongs to no limit of a
/// matching route.
pub proof fn lemma_check_keeps_entries(
    routes: Seq<RouteModel>,
    tats: Map<u64, u64>,
    now: u64,
    request: RequestModel,
    key: u64,
)
    ensures
        tats.contains_key(key) ==> tats_after(routes, tats, now, request).contains_key(key),
        tats_after(routes, tats, now, request).contains_key(key) && !tats.contains_key(key) ==> {
            &&& key as int / 0x1_0000_0000 < routes.len()
            &&& key as int % 0x1_0000_0000 < routes[key as int / 0x1_0000_0000].limits.len()
            &&& routes[key as int / 0x1_0000_0000].matches(request)
        },
        tat_at(tats_after(routes, tats, now, request), key) >= tat_at(tats, key),
{
    lemma_key_is_packed(key);
}

/// Where limit `limit` of route `route` is the first without room among the limits of the matching
/// routes, it is the one at which the request is held up, and the wait is what the charge would
/// lie beyond.
proof fn lemma_written_out_holds_up(
    routes: Seq<RouteModel>,
    tats: Map<u64, u64>,
    now: u64,
    request: RequestModel,
    route: int,
    limit: int,
)
    requires
        0 <= route < routes.len(),
        0 <= limit < routes[route].limits.len(),
        routes[route].matches(request),
        forall|r: int, l: int|
            #![trigger routes[r].limits[l]]
            0 <= r < routes.len() && 0 <= l < routes[r].limits.len() && routes[r].matches(request)
                && (r < route || (r == route && l < limit)) ==> min(
                max(tat_at(tats, packed_key(r, l)) as int, now as int) + charge_interval(
                    routes[r].limits[l],
                ),
                u64::MAX as int,
            ) <= min(now + burst_span(routes[r].limits[l]), u64::MAX as int),
        min(
                max(tat_at(tats, packed_key(route, limit)) as int, now as int) + charge_interval(
                    routes[route].limits[limit],
                ),
                u64::MAX as int,
            ) > min(now + burst_span(routes[route].limits[limit]), u64::MAX as int),
    ensures
        holds_up(routes, tats, now, request, route, limit),
        wait_for_room(routes, tats, now, route, limit) == min(
            max(tat_at(tats, packed_key(route, limit)) as int, now as int) + charge_interval(
                routes[route].limits[limit],
            ),
            u64::MAX as int,
        ) - min(now + burst_span(routes[route].limits[limit]), u64::MAX as int),
{
    lemma_written_out_is_reached(routes, tats, now, request, route, limit);
}

proof fn lemma_written_out_is_reached(
    routes: Seq<RouteModel>,
    tats: Map<u64, u64>,
    now: u64,
    request: RequestModel,
    route: int,
    limit: int,
)
    requires
        0 <= route < routes.len(),
        0 <= limit < routes[route].limits.len(),
        routes[route].matches(request),
        forall|r: int, l: int|
            #![trigger routes[r].limits[l]]
            0 <= r < routes.len() && 0 <= l < routes[r].limits.len() && routes[r].matches(request)
                && (r < route || (r == route && l < limit)) ==> min(
                max(tat_at(tats, packed_key(r, l)) as int, now as int) + charge_interval(
                    routes[r].limits[l],
                ),
                u64::MAX as int,
            ) <= min(now + burst_span(routes[r].limits[l]), u64::MAX as int),
    ensures
        is_reached(routes, tats, now, request, route, limit),
{
    assert forall|r: int, l: int| #[trigger]
        applies(routes, request, r, l) && comes_before(r, l, route, limit) implies has_room(
        routes,
        tats,
        now,
        r,
        l,
    ) by {
        let one = routes[r].limits[l];
        assert(has_limit(routes, r, l));
    }
}

/// A refusal names the first limit without room among the limits of the matching routes, how far
/// the charge would lie beyond what it may be charged ahead, and what its route does about it.
pub proof fn lemma_refusal_names_the_first_full_limit(
    refusal: Refusal,
    routes: Seq<RouteModel>,
    tats: Map<u64, u64>,
    now: u64,
    request: RequestModel,
)
    requires
        refusal.reports(routes, tats, now, request),
    ensures
        ({
            let route = refusal.route_index as int;
            let limit = refusal.limit_index as int;
            &&& 0 <= route < routes.len()
            &&& 0 <= limit < routes[route].limits.len()
            &&& routes[route].matches(request)
            &&& min(
                    max(tat_at(tats, packed_key(route, limit)) as int, now as int) + charge_interval(
                        routes[route].limits[limit],
                    ),
                    u64::MAX as int,
                ) > min(now + burst_span(routes[route].limits[limit]), u64::MAX as int)
            &&& forall|r: int, l: int|
                #![trigger routes[r].limits[l]]
                0 <= r < routes.len() && 0 <= l < routes[r].limits.len() && routes[r].matches(request)
                    && (r < route || (r == route && l < limit)) ==> min(
                    max(tat_at(tats, packed_key(r, l)) as int, now as int) + charge_interval(
                        routes[r].limits[l],
                    ),
                    u64::MAX as int,
                ) <= min(now + burst_span(routes[r].limits[l]), u64::MAX as int)
            &&& duration_nanos(refusal.wait) == min(
                max(tat_at(tats, packed_key(route, limit)) as int, now as int) + charge_interval(
                    routes[route].limits[limit],
                ),
                u64::MAX as int,
            ) - min(now + burst_span(routes[route].limits[limit]), u64::MAX as int)
            &&& refusal.behavior == routes[route].on_limit
        }),
{
    let route = refusal.route_index as int;
    let limit = refusal.limit_index as int;
    assert forall|r: int, l: int|
        #![trigger routes[r].limits[l]]
        0 <= r < routes.len() && 0 <= l < routes[r].limits.len() && routes[r].matches(request) && (r
            < route || (r == route && l < limit)) implies min(
                max(tat_at(tats, packed_key(r, l)) as int, now as int) + charge_interval(
                    routes[r].limits[l],
                ),
                u64::MAX as int,
            ) <= min(now + burst_span(routes[r].limits[l]), u64::MAX as int) by {
        assert(applies(routes, request, r, l));
        assert(comes_before(r, l, route, limit));
        assert(has_room(routes, tats, now, r, l));
    }
}

/// A request that is told to proceed found room in every limit of every route that matches it, and
/// has taken one charge of each.
pub proof fn lemma_proceeding_request_has_paid_everywhere(
    before: MiddlewareModel,
    after: MiddlewareModel,
    request: RequestModel,
    now: u64,
    jitter: u64,
    route: int,
    limit: int,
)
    requires
        is_check(before, after, request, now, jitter, Decision::Proceed),
        0 <= route < before.routes.len(),
        0 <= limit < before.routes[route].limits.len(),
        route < 0x1_0000_0000,
        limit < 0x1_0000_0000,
        before.routes[route].matches(request),
    ensures
        ({
            let one = before.routes[route].limits[limit];
            let key = (route * 0x1_0000_0000 + limit) as u64;
            let tat: int = if before.tats.contains_key(key) {
                before.tats[key] as int
            } else {
                0
            };
            let charged = min(max(tat, now as int) + charge_interval(one), u64::MAX as int);
            &&& has_room(before.routes, before.tats, now, route, limit)
            &&& charged <= min(now + burst_span(one), u64::MAX as int)
            &&& after.tats.contains_key(key)
            &&& after.tats[key] == charged
        }),
{
    let routes = before.routes;
    let tats = before.tats;
    assert forall|r: int, l: int|
        #![trigger routes[r].limits[l]]
        0 <= r < routes.len() && 0 <= l < routes[r].limits.len() && routes[r].matches(
            request,
        ) implies min(
                max(tat_at(tats, packed_key(r, l)) as int, now as int) + charge_interval(
                    routes[r].limits[l],
                ),
                u64::MAX as int,
            ) <= min(now + burst_span(routes[r].limits[l]), u64::MAX as int) by {
        lemma_every_matching_limit_must_have_room(routes, tats, now, request, r, l);
    }
    let one = routes[route].limits[limit];
    lemma_check_charges_what_it_gets_to(routes, tats, now, request, route, limit);
}

/// A request is told to proceed exactly when every limit of every route that matches it has room.
pub proof fn lemma_proceed_means_room_everywhere(
    before: MiddlewareModel,
    after: MiddlewareModel,
    request: RequestModel,
    now: u64,
    jitter: u64,
    decision: Decision,
)
    requires
        is_check(before, after, request, now, jitter, decision),
    ensures
        ({
            let routes = before.routes;
            let tats = before.tats;
            decision is Proceed <==> forall|r: int, l: int|
                #![trigger routes[r].limits[l]]
                0 <= r < routes.len() && 0 <= l < routes[r].limits.len() && routes[r].matches(request)
                    ==> min(
                    max(tat_at(tats, packed_key(r, l)) as int, now as int) + charge_interval(
                        routes[r].limits[l],
                    ),
                    u64::MAX as int,
                ) <= min(now + burst_span(routes[r].limits[l]), u64::MAX as int)
        }),
{
    let routes = before.routes;
    let tats = before.tats;
    if decision is Proceed {
        assert forall|r: int, l: int|
            #![trigger routes[r].limits[l]]
            0 <= r < routes.len() && 0 <= l < routes[r].limits.len() && routes[r].matches(
                request,
            ) implies min(
                    max(tat_at(tats, packed_key(r, l)) as int, now as int) + charge_interval(
                        routes[r].limits[l],
                    ),
                    u64::MAX as int,
                ) <= min(now + burst_span(routes[r].limits[l]), u64::MAX as int) by {
            lemma_every_matching_limit_must_have_room(routes, tats, now, request, r, l);
        }
    } else {
        let (route, limit) = choose|route: int, limit: int| #[trigger]
            holds_up(routes, tats, now, request, route, limit);
        let one = routes[route].limits[limit];
        assert(applies(routes, request, route, limit));
        assert(!has_room(routes, tats, now, route, limit));
    }
}

/// The route alone decides what becomes of a refused request. Where the first limit without room
/// belongs to a route that returns errors, the request is turned down at once, whatever the wait;
/// where it belongs to one that delays, the request sleeps for the wait and a random part of half
/// of it. The wait is what the charge would lie beyond.
pub proof fn lemma_behavior_of_the_route_decides(
    before: MiddlewareModel,
    after: MiddlewareModel,
    request: RequestModel,
    now: u64,
    jitter: u64,
    decision: Decision,
    route: int,
    limit: int,
)
    requires
        is_check(before, after, request, now, jitter, decision),
        0 <= route < before.routes.len(),
        0 <= limit < before.routes[route].limits.len(),
        before.routes[route].matches(request),
        ({
            let routes = before.routes;
            let tats = before.tats;
            &&& forall|r: int, l: int|
                #![trigger routes[r].limits[l]]
                0 <= r < routes.len() && 0 <= l < routes[r].limits.len() && routes[r].matches(request)
                    && (r < route || (r == route && l < limit)) ==> min(
                    max(tat_at(tats, packed_key(r, l)) as int, now as int) + charge_interval(
                        routes[r].limits[l],
                    ),
                    u64::MAX as int,
                ) <= min(now + burst_span(routes[r].limits[l]), u64::MAX as int)
            &&& min(
                    max(tat_at(tats, packed_key(route, limit)) as int, now as int) + charge_interval(
                        routes[route].limits[limit],
                    ),
                    u64::MAX as int,
                ) > min(now + burst_span(routes[route].limits[limit]), u64::MAX as int)
        }),
    ensures
        holds_up(before.routes, before.tats, now, request, route, limit),
        ({
            let routes = before.routes;
            let tats = before.tats;
            let wait = min(
                max(tat_at(tats, packed_key(route, limit)) as int, now as int) + charge_interval(
                    routes[route].limits[limit],
                ),
                u64::MAX as int,
            ) - min(now + burst_span(routes[route].limits[limit]), u64::MAX as int);
            match before.routes[route].on_limit {
                ThrottleBehavior::Error => decision matches Decision::Reject(
                    RateLimitError::RateLimited(told),
                ) && duration_nanos(told) == wait,
                ThrottleBehavior::Delay => decision matches Decision::Sleep(span) && {
                    &&& wait <= duration_nanos(span) <= wait + wait / 2
                    &&& duration_nanos(span) == wait + jitter
                    &&& wait >= 2 ==> is_draw_up_to((wait / 2) as u64, jitter)
                },
            }
        }),
{
    let routes = before.routes;
    let tats = before.tats;
    lemma_written_out_holds_up(routes, tats, now, request, route, limit);
    assert(applies(routes, request, route, limit));
    assert(!has_room(routes, tats, now, route, limit));
    assert forall|r: int, l: int| #[trigger]
        holds_up(routes, tats, now, request, r, l) implies r == route && l == limit by {
        lemma_held_up_once(routes, tats, now, request, route, limit, r, l);
    }
}

/// The same of whatever limit holds a request up: an error where its route says so, a delay where
/// it says so, and nothing else.
pub proof fn lemma_refused_as_the_route_says(
    before: MiddlewareModel,
    after: MiddlewareModel,
    request: RequestModel,
    now: u64,
    jitter: u64,
    decision: Decision,
    route: int,
    limit: int,
)
    requires
        is_check(before, after, request, now, jitter, decision),
        holds_up(before.routes, before.tats, now, request, route, limit),
    ensures
        before.routes[route].on_limit == ThrottleBehavior::Error <==> decision is Reject,
        before.routes[route].on_limit == ThrottleBehavior::Delay <==> decision is Sleep,
        !(decision is Proceed),
{
    let routes = before.routes;
    let tats = before.tats;
    assert(applies(routes, request, route, limit));
    assert forall|r: int, l: int| #[trigger]
        holds_up(routes, tats, now, request, r, l) implies r == route && l == limit by {
        lemma_held_up_once(routes, tats, now, request, route, limit, r, l);
    }
}

/// A check changes arrival times only: routes, offsets and the start of the clock stay.
pub proof fn lemma_check_keeps_the_configuration(
    before: MiddlewareModel,
    after: MiddlewareModel,
    request: RequestModel,
    now: u64,
    jitter: u64,
    decision: Decision,
)
    requires
        is_check(before, after, request, now, jitter, decision),
    ensures
        after.routes == before.routes,
        after.offsets == before.offsets,
        after.start == before.start,
        after.tats == tats_after(before.routes, before.tats, now, request),
{
}

// Cleaning up

/// Cleaning up removes what is stale: an entry whose arrival time lies two windows of its limit or
/// more back is gone afterwards.
pub proof fn lemma_stale_entries_go(
    before: MiddlewareModel,
    after: MiddlewareModel,
    now: u64,
    key: u64,
    route: int,
    limit: int,
)
    requires
        is_cleanup(before, after, now),
        0 <= route < before.routes.len(),
        0 <= limit < before.routes[route].limits.len(),
        limit < 0x1_0000_0000,
        key == route * 0x1_0000_0000 + limit,
        before.tats.contains_key(key),
        before.tats[key] + 2 * before.routes[route].limits[limit].window_nanos <= now,
    ensures
        !after.tats.contains_key(key),
{
    lemma_key_round_trip(route, limit);
}

/// Cleaning up keeps what is not stale: an entry that was used and whose arrival time lies less
/// than two windows of its limit back is still there, with its value.
pub proof fn lemma_recent_entries_stay(
    before: MiddlewareModel,
    after: MiddlewareModel,
    now: u64,
    key: u64,
    route: int,
    limit: int,
)
    requires
        is_cleanup(before, after, now),
        0 <= route < before.routes.len(),
        0 <= limit < before.routes[route].limits.len(),
        limit < 0x1_0000_0000,
        key == route * 0x1_0000_0000 + limit,
        before.tats.contains_key(key),
        before.tats[key] > 0,
        before.tats[key] + 2 * before.routes[route].limits[limit].window_nanos > now,
    ensures
        after.tats.contains_key(key),
        after.tats[key] == before.tats[key],
{
    lemma_key_round_trip(route, limit);
}

/// Cleaning up removes entries that were never used and those that belong to no limit, makes none,
/// changes none, and leaves routes, offsets and the start of the clock alone.
pub proof fn lemma_cleanup_only_removes(
    before: MiddlewareModel,
    after: MiddlewareModel,
    now: u64,
    key: u64,
)
    requires
        is_cleanup(before, after, now),
    ensures
        after.tats.contains_key(key) ==> {
            &&& before.tats.contains_key(key)
            &&& after.tats[key] == before.tats[key]
            &&& before.tats[key] > 0
            &&& key as int / 0x1_0000_0000 < before.routes.len()
            &&& key as int % 0x1_0000_0000
                < before.routes[key as int / 0x1_0000_0000].limits.len()
        },
        after.routes == before.routes,
        after.offsets == before.offsets,
        after.start == before.start,
{
}

/// What is cleaned up stays away: after clearing out at one moment, clearing out again at the same
/// moment changes nothing.
pub proof fn lemma_cleaning_up_twice_is_cleaning_up_once(
    before: MiddlewareModel,
    between: MiddlewareModel,
    after: MiddlewareModel,
    now: u64,
)
    requires
        is_cleanup(before, between, now),
        is_cleanup(between, after, now),
    ensures
        after.tats == between.tats,
{
    assert(after.tats =~= between.tats);
}

/// A single entry is worth keeping exactly when its key belongs to a limit, it was used, and its
/// arrival time lies less than two windows of the limit back.
pub proof fn lemma_live_entry_in_numbers(routes: Seq<RouteModel>, key: u64, tat: u64, now: u64)
    ensures
        is_live(routes, key, tat, now) <==> {
            &&& key as int / 0x1_0000_0000 < routes.len()
            &&& key as int % 0x1_0000_0000 < routes[key as int / 0x1_0000_0000].limits.len()
            &&& tat > 0
            &&& tat + 2 * routes[key as int / 0x1_0000_0000].limits[key as int
                % 0x1_0000_0000].window_nanos > now
        },
{
}

} // verus!
