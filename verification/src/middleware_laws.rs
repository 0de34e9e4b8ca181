//! What the limiter guarantees over several requests, routes and clean-ups.
use reqwest::Request;
use std::time::Duration;
use vstd::arithmetic::div_mod::{
    lemma_basic_div, lemma_div_by_multiple, lemma_div_is_ordered, lemma_div_pos_is_pos,
};
use vstd::arithmetic::mul::{lemma_mul_inequality, lemma_mul_is_distributive_add_other_way};
use vstd::prelude::*;

use crate::clock::duration_nanos;
use crate::error::RateLimitError;
use crate::gcra::next_tat;
use crate::gcra_laws::lemma_span_holds_the_requests;
use crate::middleware::{
    all_have_room, applies, can_be_keyed, comes_before, has_limit, has_room, holds_up, is_check,
    is_cleanup, is_decision, is_reached, is_slack_for, limits_before, tat_at, tats_after,
    wait_for_room, Decision, MiddlewareModel,
};
use crate::request::{host_of, method_of, path_of, request_model, url_of, RequestModel};
use crate::store::live_entries;
use crate::text::covers_path;
use crate::types::{
    burst_span, charge_interval, key_limit, key_route, lemma_key_is_packed, lemma_key_round_trip,
    packed_key, RouteModel, ThrottleBehavior,
};

verus! {

/// Matching looks at the host, the method and the path of a request and at nothing else: requests
/// that differ only in port, query or the like meet the same routes.
pub proof fn lemma_only_host_method_and_path_count(route: RouteModel, one: Request, other: Request)
    requires
        host_of(url_of(one)) == host_of(url_of(other)),
        method_of(one) == method_of(other),
        path_of(url_of(one)) == path_of(url_of(other)),
    ensures
        route.matches(request_model(one)) == route.matches(request_model(other)),
{
}

/// A catch-all route matches every request.
pub proof fn lemma_catch_all_matches_everything(route: RouteModel, request: RequestModel)
    requires
        route.is_catch_all(),
    ensures
        route.matches(request),
{
}

/// Paths are matched by whole segments: a prefix that is not empty covers itself, and itself
/// followed by a slash and anything, and nothing else.
pub proof fn lemma_prefix_covers_whole_segments(prefix: Seq<char>, path: Seq<char>)
    requires
        prefix.len() > 0,
    ensures
        covers_path(prefix, path) <==> path == prefix || exists|rest: Seq<char>|
            path == #[trigger] (prefix + seq!['/'] + rest),
{
    if covers_path(prefix, path) && path != prefix {
        assert(path.subrange(0, path.len() as int) =~= path);
        let rest = path.subrange(prefix.len() as int + 1, path.len() as int);
        assert(path =~= prefix + seq!['/'] + rest);
    }
    if path == prefix {
        assert(prefix =~= path.subrange(0, prefix.len() as int));
    }
    assert forall|rest: Seq<char>| path == #[trigger] (prefix + seq!['/'] + rest) implies covers_path(
        prefix,
        path,
    ) by {
        assert(prefix =~= path.subrange(0, prefix.len() as int));
        assert(path[prefix.len() as int] == '/');
    }
}

/// A request is held up by one limit only.
pub proof fn lemma_held_up_once(
    routes: Seq<RouteModel>,
    tats: Map<u64, u64>,
    now: u64,
    request: RequestModel,
    route: int,
    limit: int,
    other_route: int,
    other_limit: int,
)
    requires
        holds_up(routes, tats, now, request, route, limit),
        holds_up(routes, tats, now, request, other_route, other_limit),
    ensures
        route == other_route,
        limit == other_limit,
{
    assert(applies(routes, request, route, limit));
    assert(applies(routes, request, other_route, other_limit));
    if comes_before(route, limit, other_route, other_limit) {
        assert(has_room(routes, tats, now, route, limit));
    }
    if comes_before(other_route, other_limit, route, limit) {
        assert(has_room(routes, tats, now, other_route, other_limit));
    }
}

/// A request that no route matches is let through and leaves no trace. In particular, a limiter
/// without routes lets everything through.
pub proof fn lemma_unmatched_request_passes(
    routes: Seq<RouteModel>,
    tats: Map<u64, u64>,
    now: u64,
    request: RequestModel,
)
    requires
        forall|i: int| 0 <= i < routes.len() ==> !(#[trigger] routes[i]).matches(request),
    ensures
        all_have_room(routes, tats, now, request),
        tats_after(routes, tats, now, request) == tats,
{
    assert(tats_after(routes, tats, now, request) =~= tats);
}

/// Routes have separate limits: a request leaves the limits of a route that does not match it as
/// they were.
pub proof fn lemma_other_routes_are_untouched(
    routes: Seq<RouteModel>,
    tats: Map<u64, u64>,
    now: u64,
    request: RequestModel,
    route: int,
    limit: int,
)
    requires
        can_be_keyed(routes),
        has_limit(routes, route, limit),
        !routes[route].matches(request),
    ensures
        tats_after(routes, tats, now, request).contains_key(packed_key(route, limit))
            == tats.contains_key(packed_key(route, limit)),
        tat_at(tats_after(routes, tats, now, request), packed_key(route, limit)) == tat_at(
            tats,
            packed_key(route, limit),
        ),
{
    lemma_key_round_trip(route, limit);
}

/// All matching routes' limits are applied: a request that is let through has taken its share of
/// every limit that applies to it.
pub proof fn lemma_all_limits_are_applied(
    routes: Seq<RouteModel>,
    tats: Map<u64, u64>,
    now: u64,
    request: RequestModel,
    route: int,
    limit: int,
)
    requires
        can_be_keyed(routes),
        all_have_room(routes, tats, now, request),
        applies(routes, request, route, limit),
    ensures
        tats_after(routes, tats, now, request).contains_key(packed_key(route, limit)),
        tats_after(routes, tats, now, request)[packed_key(route, limit)] == next_tat(
            tat_at(tats, packed_key(route, limit)),
            now,
            charge_interval(routes[route].limits[limit]),
        ),
{
    lemma_key_round_trip(route, limit);
    assert(has_room(routes, tats, now, route, limit));
    assert(is_reached(routes, tats, now, request, route, limit));
}

/// A refused request takes nothing of the limit that refused it, nor of those that come after it.
pub proof fn lemma_refusal_takes_nothing_more(
    routes: Seq<RouteModel>,
    tats: Map<u64, u64>,
    now: u64,
    request: RequestModel,
    route: int,
    limit: int,
    later_route: int,
    later_limit: int,
)
    requires
        can_be_keyed(routes),
        holds_up(routes, tats, now, request, route, limit),
        has_limit(routes, later_route, later_limit),
        !comes_before(later_route, later_limit, route, limit),
    ensures
        tat_at(
            tats_after(routes, tats, now, request),
            packed_key(later_route, later_limit),
        ) == tat_at(tats, packed_key(later_route, later_limit)),
{
    lemma_key_round_trip(later_route, later_limit);
    assert(applies(routes, request, route, limit));
    if is_reached(routes, tats, now, request, later_route, later_limit) && comes_before(
        route,
        limit,
        later_route,
        later_limit,
    ) {
        assert(has_room(routes, tats, now, route, limit));
    }
}

/// A request whose limits have nothing pending is let through; so is the first request that a new
/// limiter sees.
pub proof fn lemma_idle_limits_let_through(
    routes: Seq<RouteModel>,
    tats: Map<u64, u64>,
    now: u64,
    request: RequestModel,
)
    requires
        forall|route: int, limit: int| #[trigger]
            applies(routes, request, route, limit) ==> tat_at(tats, packed_key(route, limit)) <= now
                && charge_interval(routes[route].limits[limit])
                <= burst_span(routes[route].limits[limit]),
    ensures
        all_have_room(routes, tats, now, request),
{
}

/// Delaying works: when a request has slept for as long as it was told, the limit that held it up
/// has room, unless another request took it in the meantime.
pub proof fn lemma_delayed_request_finds_room(
    routes: Seq<RouteModel>,
    tats: Map<u64, u64>,
    now: u64,
    request: RequestModel,
    jitter: u64,
    span: Duration,
    route: int,
    limit: int,
    later_tats: Map<u64, u64>,
    later: u64,
)
    requires
        is_decision(routes, tats, now, request, jitter, Decision::Sleep(span)),
        holds_up(routes, tats, now, request, route, limit),
        charge_interval(routes[route].limits[limit])
            <= burst_span(routes[route].limits[limit]),
        later >= now + duration_nanos(span),
        tat_at(later_tats, packed_key(route, limit)) == tat_at(tats, packed_key(route, limit)),
    ensures
        has_room(routes, later_tats, later, route, limit),
{
    let (r, l) = choose|r: int, l: int| #[trigger]
        holds_up(routes, tats, now, request, r, l) && duration_nanos(span) == wait_for_room(
            routes,
            tats,
            now,
            r,
            l,
        ) + jitter;
    lemma_held_up_once(routes, tats, now, request, route, limit, r, l);
}

/// Whether `requests`, checked one after the other at `now`, are all let through.
pub open spec fn all_pass(
    routes: Seq<RouteModel>,
    tats: Map<u64, u64>,
    now: u64,
    requests: Seq<RequestModel>,
) -> bool
    decreases requests.len(),
{
    requests.len() == 0 || (all_have_room(routes, tats, now, requests[0]) && all_pass(
        routes,
        tats_after(routes, tats, now, requests[0]),
        now,
        requests.drop_first(),
    ))
}

proof fn lemma_burst_goes_on(
    routes: Seq<RouteModel>,
    tats: Map<u64, u64>,
    now: u64,
    taken: nat,
    requests: Seq<RequestModel>,
)
    requires
        can_be_keyed(routes),
        forall|route: int, limit: int| #[trigger]
            has_limit(routes, route, limit) ==> {
                let interval = charge_interval(routes[route].limits[limit]);
                &&& tat_at(tats, packed_key(route, limit)) <= now + taken * interval
                &&& (taken + requests.len()) * interval
                    <= burst_span(routes[route].limits[limit])
            },
    ensures
        all_pass(routes, tats, now, requests),
    decreases requests.len(),
{
    if requests.len() > 0 {
        let request = requests[0];
        let after = tats_after(routes, tats, now, request);
        assert forall|route: int, limit: int| #[trigger] has_limit(routes, route, limit) implies {
            let interval = charge_interval(routes[route].limits[limit]);
            &&& has_room(routes, tats, now, route, limit)
            &&& tat_at(after, packed_key(route, limit)) <= now + (taken + 1) * interval
        } by {
            let interval = charge_interval(routes[route].limits[limit]) as int;
            lemma_key_round_trip(route, limit);
            lemma_mul_is_distributive_add_other_way(interval, taken as int, 1);
            lemma_mul_inequality(0, taken as int, interval);
            lemma_mul_inequality(
                taken as int + 1,
                (taken + requests.len()) as int,
                interval,
            );
        }
        assert forall|route: int, limit: int| #[trigger]
            applies(routes, request, route, limit) implies has_room(
            routes,
            tats,
            now,
            route,
            limit,
        ) by {
            assert(has_limit(routes, route, limit));
        }
        lemma_burst_goes_on(routes, after, now, taken + 1, requests.drop_first());
    }
}

/// A burst is let through: when nothing is pending, as many requests at the same moment as every
/// limit allows all pass, whatever routes they match.
pub proof fn lemma_burst_passes(
    routes: Seq<RouteModel>,
    tats: Map<u64, u64>,
    now: u64,
    requests: Seq<RequestModel>,
)
    requires
        can_be_keyed(routes),
        forall|route: int, limit: int| #[trigger]
            has_limit(routes, route, limit) ==> {
                &&& tat_at(tats, packed_key(route, limit)) <= now
                &&& routes[route].limits[limit].is_valid()
                &&& requests.len() <= routes[route].limits[limit].requests
            },
    ensures
        all_pass(routes, tats, now, requests),
{
    assert forall|route: int, limit: int| #[trigger] has_limit(routes, route, limit) implies {
        let interval = charge_interval(routes[route].limits[limit]);
        &&& tat_at(tats, packed_key(route, limit)) <= now + 0 * interval
        &&& (0 + requests.len()) * interval <= burst_span(routes[route].limits[limit])
    } by {
        let one = routes[route].limits[limit];
        lemma_span_holds_the_requests(one);
        lemma_mul_inequality(
            requests.len() as int,
            one.requests as int,
            charge_interval(one) as int,
        );
    }
    lemma_burst_goes_on(routes, tats, now, 0, requests);
}

/// The position of a limit among the limits of all routes, counted from the offset of its route.
pub open spec fn slot(limiter: MiddlewareModel, route: int, limit: int) -> int {
    limiter.offsets[route] + limit
}

/// The offsets number the limits of all routes: each limit has its own position, below the number
/// of limits.
pub proof fn lemma_offsets_number_the_limits(
    limiter: MiddlewareModel,
    route: int,
    limit: int,
    other_route: int,
    other_limit: int,
)
    requires
        limiter.is_sound(),
        has_limit(limiter.routes, route, limit),
        has_limit(limiter.routes, other_route, other_limit),
    ensures
        0 <= slot(limiter, route, limit) < limits_before(
            limiter.routes,
            limiter.routes.len() as int,
        ),
        slot(limiter, route, limit) == slot(limiter, other_route, other_limit) ==> route
            == other_route && limit == other_limit,
{
    let routes = limiter.routes;
    lemma_slot_is_below(routes, route, limit, routes.len() as int);
    if route < other_route {
        lemma_slot_is_below(routes, route, limit, other_route);
    }
    if other_route < route {
        lemma_slot_is_below(routes, other_route, other_limit, route);
    }
}

/// The offsets leave no gap: every position below the number of limits is that of some limit.
pub proof fn lemma_offsets_cover_all_positions(limiter: MiddlewareModel, position: int)
    requires
        limiter.is_sound(),
        0 <= position < limits_before(limiter.routes, limiter.routes.len() as int),
    ensures
        exists|route: int, limit: int| #[trigger]
            has_limit(limiter.routes, route, limit) && slot(limiter, route, limit) == position,
{
    let (route, limit) = lemma_position_is_taken(
        limiter.routes,
        position,
        limiter.routes.len() as int,
    );
    assert(has_limit(limiter.routes, route, limit) && slot(limiter, route, limit) == position);
}

proof fn lemma_position_is_taken(routes: Seq<RouteModel>, position: int, bound: int) -> (place: (
    int,
    int,
))
    requires
        0 <= bound <= routes.len(),
        0 <= position < limits_before(routes, bound),
    ensures
        has_limit(routes, place.0, place.1),
        limits_before(routes, place.0) + place.1 == position,
    decreases bound,
{
    if position < limits_before(routes, bound - 1) {
        lemma_position_is_taken(routes, position, bound - 1)
    } else {
        (bound - 1, position - limits_before(routes, bound - 1))
    }
}

/// The limiter never holds more entries than there are limits.
pub proof fn lemma_entries_are_bounded(limiter: MiddlewareModel)
    requires
        limiter.is_sound(),
    ensures
        limiter.tats.len() <= limits_before(limiter.routes, limiter.routes.len() as int),
{
    let total = limits_before(limiter.routes, limiter.routes.len() as int) as int;
    let keys = limiter.tats.dom();
    let place = |key: u64| slot(limiter, key_route(key), key_limit(key));
    assert forall|a: u64, b: u64| keys.contains(a) && keys.contains(b) implies {
        &&& 0 <= #[trigger] place(a) < total
        &&& place(a) == #[trigger] place(b) ==> a == b
    } by {
        lemma_key_is_packed(a);
        lemma_key_is_packed(b);
        lemma_offsets_number_the_limits(
            limiter,
            key_route(a),
            key_limit(a),
            key_route(b),
            key_limit(b),
        );
    }
    let places = keys.map(place);
    vstd::set_lib::lemma_map_size(keys, places, place);
    vstd::set_lib::lemma_int_range(0, total);
    assert(places.subset_of(vstd::set_lib::set_int_range(0, total)));
    vstd::set_lib::lemma_len_subset(places, vstd::set_lib::set_int_range(0, total));
}

proof fn lemma_slot_is_below(routes: Seq<RouteModel>, route: int, limit: int, bound: int)
    requires
        has_limit(routes, route, limit),
        route < bound <= routes.len(),
    ensures
        limits_before(routes, route) + limit < limits_before(routes, bound),
    decreases bound,
{
    if route + 1 < bound {
        lemma_slot_is_below(routes, route, limit, bound - 1);
    }
}

/// Whether two sets of arrival times act alike from `now` on: each limit has the same arrival time
/// in both, or one that has passed.
pub open spec fn act_alike(
    routes: Seq<RouteModel>,
    one: Map<u64, u64>,
    other: Map<u64, u64>,
    now: u64,
) -> bool {
    forall|route: int, limit: int| #[trigger]
        has_limit(routes, route, limit) ==> {
            let key = packed_key(route, limit);
            tat_at(one, key) == tat_at(other, key) || (tat_at(one, key) <= now && tat_at(
                other,
                key,
            ) <= now)
        }
}

/// Cleaning up changes nothing that matters: what it leaves acts as what was there before.
pub proof fn lemma_cleanup_acts_alike(routes: Seq<RouteModel>, tats: Map<u64, u64>, now: u64)
    requires
        can_be_keyed(routes),
    ensures
        act_alike(routes, tats, live_entries(routes, tats, now), now),
{
    assert forall|route: int, limit: int| #[trigger] has_limit(routes, route, limit) implies {
        let key = packed_key(route, limit);
        let kept = live_entries(routes, tats, now);
        tat_at(tats, key) == tat_at(kept, key) || (tat_at(tats, key) <= now && tat_at(kept, key)
            <= now)
    } by {
        lemma_key_round_trip(route, limit);
    }
}

/// Arrival times that act alike lead to the same decisions, now and at any later moment, and act
/// alike after each of them. So a limiter that is cleaned up treats all later requests as one that
/// is not.
pub proof fn lemma_alike_tats_decide_alike(
    routes: Seq<RouteModel>,
    one: Map<u64, u64>,
    other: Map<u64, u64>,
    now: u64,
    later: u64,
    request: RequestModel,
    jitter: u64,
    decision: Decision,
)
    requires
        can_be_keyed(routes),
        act_alike(routes, one, other, now),
        now <= later,
    ensures
        is_decision(routes, one, later, request, jitter, decision) == is_decision(
            routes,
            other,
            later,
            request,
            jitter,
            decision,
        ),
        act_alike(
            routes,
            tats_after(routes, one, later, request),
            tats_after(routes, other, later, request),
            later,
        ),
{
    assert(same_room(routes, one, other, later));
    assert(same_room(routes, other, one, later));
    if is_decision(routes, one, later, request, jitter, decision) {
        lemma_decided_alike(routes, one, other, later, request, jitter, decision);
    }
    if is_decision(routes, other, later, request, jitter, decision) {
        lemma_decided_alike(routes, other, one, later, request, jitter, decision);
    }
    assert forall|route: int, limit: int| #[trigger] has_limit(routes, route, limit) implies {
        let key = packed_key(route, limit);
        let a = tats_after(routes, one, later, request);
        let b = tats_after(routes, other, later, request);
        tat_at(a, key) == tat_at(b, key) || (tat_at(a, key) <= later && tat_at(b, key) <= later)
    } by {
        lemma_key_round_trip(route, limit);
        lemma_reached_alike(routes, one, other, later, request, route, limit);
        lemma_reached_alike(routes, other, one, later, request, route, limit);
    }
}

/// Whether each limit has room in one set of arrival times exactly when it has in the other, and
/// asks for the same wait.
spec fn same_room(
    routes: Seq<RouteModel>,
    one: Map<u64, u64>,
    other: Map<u64, u64>,
    now: u64,
) -> bool {
    forall|route: int, limit: int| #[trigger]
        has_limit(routes, route, limit) ==> has_room(routes, one, now, route, limit) == has_room(
            routes,
            other,
            now,
            route,
            limit,
        ) && wait_for_room(routes, one, now, route, limit) == wait_for_room(
            routes,
            other,
            now,
            route,
            limit,
        )
}

proof fn lemma_reached_alike(
    routes: Seq<RouteModel>,
    one: Map<u64, u64>,
    other: Map<u64, u64>,
    now: u64,
    request: RequestModel,
    route: int,
    limit: int,
)
    requires
        same_room(routes, one, other, now),
    ensures
        is_reached(routes, one, now, request, route, limit) ==> is_reached(
            routes,
            other,
            now,
            request,
            route,
            limit,
        ),
        holds_up(routes, one, now, request, route, limit) ==> holds_up(
            routes,
            other,
            now,
            request,
            route,
            limit,
        ),
{
    if is_reached(routes, one, now, request, route, limit) {
        assert(has_limit(routes, route, limit));
        assert forall|r: int, l: int| #[trigger]
            applies(routes, request, r, l) && comes_before(r, l, route, limit) implies has_room(
            routes,
            other,
            now,
            r,
            l,
        ) by {
            assert(has_limit(routes, r, l));
            assert(has_room(routes, one, now, r, l));
        }
    }
}

proof fn lemma_decided_alike(
    routes: Seq<RouteModel>,
    one: Map<u64, u64>,
    other: Map<u64, u64>,
    now: u64,
    request: RequestModel,
    jitter: u64,
    decision: Decision,
)
    requires
        same_room(routes, one, other, now),
        is_decision(routes, one, now, request, jitter, decision),
    ensures
        is_decision(routes, other, now, request, jitter, decision),
{
    match decision {
        Decision::Proceed => {
            assert forall|route: int, limit: int| #[trigger]
                applies(routes, request, route, limit) implies has_room(
                routes,
                other,
                now,
                route,
                limit,
            ) by {
                assert(has_limit(routes, route, limit));
                assert(has_room(routes, one, now, route, limit));
            }
        },
        Decision::Sleep(span) => {
            let (route, limit) = choose|route: int, limit: int| #[trigger]
                holds_up(routes, one, now, request, route, limit) && routes[route].on_limit
                    == ThrottleBehavior::Delay && is_slack_for(
                    wait_for_room(routes, one, now, route, limit),
                    jitter,
                ) && duration_nanos(span) == wait_for_room(routes, one, now, route, limit)
                    + jitter;
            assert(has_limit(routes, route, limit));
            lemma_reached_alike(routes, one, other, now, request, route, limit);
        },
        Decision::Reject(RateLimitError::RateLimited(wait)) => {
            let (route, limit) = choose|route: int, limit: int| #[trigger]
                holds_up(routes, one, now, request, route, limit) && routes[route].on_limit
                    == ThrottleBehavior::Error && duration_nanos(wait) == wait_for_room(
                    routes,
                    one,
                    now,
                    route,
                    limit,
                );
            assert(has_limit(routes, route, limit));
            lemma_reached_alike(routes, one, other, now, request, route, limit);
        },
    }
}

/// Something that happens to a limiter.
pub ghost enum Event {
    /// A request is checked.
    Check { now: u64, request: RequestModel },
    /// Stale entries are removed.
    Cleanup { now: u64 },
}

impl Event {
    /// When it happens.
    pub open spec fn time(self) -> u64 {
        match self {
            Event::Check { now, .. } => now,
            Event::Cleanup { now } => now,
        }
    }

    /// The arrival times afterwards.
    pub open spec fn tats_after(self, routes: Seq<RouteModel>, tats: Map<u64, u64>) -> Map<
        u64,
        u64,
    > {
        match self {
            Event::Check { now, request } => tats_after(routes, tats, now, request),
            Event::Cleanup { now } => live_entries(routes, tats, now),
        }
    }

    /// Whether it is a request that limit `limit` of route `route` applies to and that is let
    /// through.
    pub open spec fn passes(
        self,
        routes: Seq<RouteModel>,
        tats: Map<u64, u64>,
        route: int,
        limit: int,
    ) -> bool {
        match self {
            Event::Check { now, request } => applies(routes, request, route, limit)
                && all_have_room(routes, tats, now, request),
            Event::Cleanup { .. } => false,
        }
    }
}

/// What a check does to a limiter is what the event does to the arrival times, and the request is
/// told to proceed exactly when every limit that applies to it has room.
pub proof fn lemma_check_is_event(
    before: MiddlewareModel,
    after: MiddlewareModel,
    request: RequestModel,
    now: u64,
    jitter: u64,
    decision: Decision,
)
    requires
        is_check(before, after, request, now, jitter, decision),
    ensures
        after.tats == (Event::Check { now, request }).tats_after(before.routes, before.tats),
        decision is Proceed <==> all_have_room(before.routes, before.tats, now, request),
        forall|route: int, limit: int|
            applies(before.routes, request, route, limit) ==> (decision is Proceed
                <==> #[trigger] (Event::Check { now, request }).passes(
                before.routes,
                before.tats,
                route,
                limit,
            )),
{
    if !(decision is Proceed) {
        let (route, limit) = choose|route: int, limit: int| #[trigger]
            holds_up(before.routes, before.tats, now, request, route, limit);
        assert(applies(before.routes, request, route, limit));
        assert(!has_room(before.routes, before.tats, now, route, limit));
    }
}

/// What cleaning up does to a limiter is what the event does to the arrival times.
pub proof fn lemma_cleanup_is_event(before: MiddlewareModel, after: MiddlewareModel, now: u64)
    requires
        is_cleanup(before, after, now),
    ensures
        after.tats == (Event::Cleanup { now }).tats_after(before.routes, before.tats),
{
}

/// Whether nothing that follows a clean-up has an earlier time than it.
pub open spec fn cleanups_look_back(events: Seq<Event>) -> bool {
    forall|i: int, j: int|
        0 <= i < j < events.len() && (#[trigger] events[i]) is Cleanup ==> events[i].time() <= (
        #[trigger] events[j]).time()
}

/// How many requests that limit `limit` of route `route` applies to are let through in the course
/// of `events`.
pub open spec fn passed_count(
    routes: Seq<RouteModel>,
    tats: Map<u64, u64>,
    events: Seq<Event>,
    route: int,
    limit: int,
) -> nat
    decreases events.len(),
{
    if events.len() == 0 {
        0
    } else {
        let later = passed_count(
            routes,
            events[0].tats_after(routes, tats),
            events.drop_first(),
            route,
            limit,
        );
        if events[0].passes(routes, tats, route, limit) {
            1 + later
        } else {
            later
        }
    }
}

proof fn lemma_limit_holds_from(
    routes: Seq<RouteModel>,
    tats: Map<u64, u64>,
    start: u64,
    events: Seq<Event>,
    route: int,
    limit: int,
    end: u64,
)
    requires
        can_be_keyed(routes),
        has_limit(routes, route, limit),
        cleanups_look_back(events),
        forall|i: int| 0 <= i < events.len() ==> start <= (#[trigger] events[i]).time() <= end,
        end + burst_span(routes[route].limits[limit]) < u64::MAX,
        passed_count(routes, tats, events, route, limit) > 0,
    ensures
        ({
            let interval = charge_interval(routes[route].limits[limit]);
            let window = burst_span(routes[route].limits[limit]);
            let passed = passed_count(routes, tats, events, route, limit);
            &&& start + passed * interval <= end + window
            &&& tat_at(tats, packed_key(route, limit)) + passed * interval <= end + window
        }),
    decreases events.len(),
{
    let interval = charge_interval(routes[route].limits[limit]);
    let key = packed_key(route, limit);
    let first = events[0];
    let rest = events.drop_first();
    let after = first.tats_after(routes, tats);
    let later = passed_count(routes, after, rest, route, limit);
    lemma_key_round_trip(route, limit);
    assert(start <= first.time() <= end);
    let from = if first is Cleanup {
        first.time()
    } else {
        start
    };
    assert forall|i: int| 0 <= i < rest.len() implies from <= (#[trigger] rest[i]).time()
        <= end by {
        assert(rest[i] == events[i + 1]);
    }
    assert forall|i: int, j: int|
        0 <= i < j < rest.len() && (#[trigger] rest[i]) is Cleanup implies rest[i].time() <= (
    #[trigger] rest[j]).time() by {
        assert(rest[i] == events[i + 1] && rest[j] == events[j + 1]);
    }
    if later > 0 {
        lemma_limit_holds_from(routes, after, from, rest, route, limit, end);
    }
    if first.passes(routes, tats, route, limit) {
        let now = first.time();
        let request = first->request;
        lemma_all_limits_are_applied(routes, tats, now, request, route, limit);
        assert(has_room(routes, tats, now, route, limit));
        lemma_mul_is_distributive_add_other_way(interval as int, 1, later as int);
    }
}

/// Limits hold over time: however requests are checked and entries cleaned up between two moments,
/// the requests that a limit applies to and that are let through take up, at one charge each, no
/// more than the time between the two and the span that the limit may be charged ahead.
///
/// Times may come out of order, as long as nothing that follows a clean-up has an earlier time than
/// it, and the sums must stay clear of the end of the clock, where they saturate.
pub proof fn lemma_limits_hold_over_time(
    routes: Seq<RouteModel>,
    tats: Map<u64, u64>,
    events: Seq<Event>,
    route: int,
    limit: int,
    start: u64,
    end: u64,
)
    requires
        can_be_keyed(routes),
        has_limit(routes, route, limit),
        start <= end,
        forall|i: int| 0 <= i < events.len() ==> start <= (#[trigger] events[i]).time() <= end,
        cleanups_look_back(events),
        end + burst_span(routes[route].limits[limit]) < u64::MAX,
    ensures
        passed_count(routes, tats, events, route, limit)
            * charge_interval(routes[route].limits[limit]) <= end - start
            + burst_span(routes[route].limits[limit]),
{
    if passed_count(routes, tats, events, route, limit) > 0 {
        lemma_limit_holds_from(routes, tats, start, events, route, limit, end);
    }
}

/// The maximum is kept: between two moments a limit lets through at most as many requests as it
/// allows, and one more for each charge interval that has begun since the first. So at any one
/// moment, no more than it allows are let through, whatever went before.
///
/// The conditions are those of [`lemma_limits_hold_over_time`].
pub proof fn lemma_no_more_than_requests_pass(
    routes: Seq<RouteModel>,
    tats: Map<u64, u64>,
    events: Seq<Event>,
    route: int,
    limit: int,
    start: u64,
    end: u64,
)
    requires
        can_be_keyed(routes),
        has_limit(routes, route, limit),
        routes[route].limits[limit].is_valid(),
        start <= end,
        forall|i: int| 0 <= i < events.len() ==> start <= (#[trigger] events[i]).time() <= end,
        cleanups_look_back(events),
        end + burst_span(routes[route].limits[limit]) < u64::MAX,
    ensures
        ({
            let one = routes[route].limits[limit];
            let passed = passed_count(routes, tats, events, route, limit);
            let charge = charge_interval(one) as int;
            &&& passed <= one.requests + (end - start + (charge - 1)) / charge
            &&& start == end ==> passed <= one.requests
        }),
{
    let one = routes[route].limits[limit];
    let charge = charge_interval(one) as int;
    let requests = one.requests as int;
    let more = passed_count(routes, tats, events, route, limit) - requests;
    let begun = end - start + (charge - 1);
    lemma_limits_hold_over_time(routes, tats, events, route, limit, start, end);
    lemma_span_holds_the_requests(one);
    lemma_mul_is_distributive_add_other_way(charge, requests, 1);
    lemma_mul_is_distributive_add_other_way(charge, requests, more);
    assert(more * charge <= begun);
    lemma_div_pos_is_pos(begun, charge);
    if more > 0 {
        lemma_div_is_ordered(more * charge, begun, charge);
        lemma_div_by_multiple(more, charge);
    }
    if start == end {
        lemma_basic_div(begun, charge);
    }
}

} // verus!
