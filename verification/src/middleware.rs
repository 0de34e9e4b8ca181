//! The rate limiter: routes, their states, and what becomes of a request.
use dashmap::DashMap;
use reqwest::Request;
use std::time::{Duration, Instant};
use vstd::prelude::*;

use crate::builder::RateLimitBuilder;
use crate::clock::{
    duration_nanos, is_clock_reading, is_time_since, saturating_nanos, span_of_nanos,
};
use crate::error::RateLimitError;
use crate::gcra::{admits, excess_nanos, next_tat, GcraState};
use crate::jitter::{is_draw_up_to, pick_jitter_nanos};
use crate::request::{request_model, RequestModel, RequestParts};
use crate::store::{
    count_entries, entries_of, entry_or_insert, get_entry, live_entries, new_map, no_entries,
    retain_live, set_entry,
};
use crate::types::{
    burst_span, charge_interval, key_limit, key_route, lemma_key_is_packed, lemma_key_round_trip,
    packed_key, route_models, Route, RouteKey, RouteModel, ThrottleBehavior, KEY_STRIDE,
};

verus! {

/// How many limits the first `count` routes have together.
pub open spec fn limits_before(routes: Seq<RouteModel>, count: int) -> nat
    decreases count,
{
    if count <= 0 {
        0
    } else {
        limits_before(routes, count - 1) + routes[count - 1].limits.len()
    }
}

/// Whether every limit of the routes can be given a key and be counted: indices fit in 32 bits,
/// and the number of limits fits in a `usize`.
pub open spec fn can_be_keyed(routes: Seq<RouteModel>) -> bool {
    &&& routes.len() <= KEY_STRIDE
    &&& forall|i: int| 0 <= i < routes.len() ==> (#[trigger] routes[i]).limits.len() <= KEY_STRIDE
    &&& limits_before(routes, routes.len() as int) <= usize::MAX
}

/// Whether limit `limit` of route `route` exists.
pub open spec fn has_limit(routes: Seq<RouteModel>, route: int, limit: int) -> bool {
    0 <= route < routes.len() && 0 <= limit < routes[route].limits.len()
}

/// The arrival time under a key. Where there is no entry, nothing is pending.
pub open spec fn tat_at(tats: Map<u64, u64>, key: u64) -> u64 {
    if tats.contains_key(key) {
        tats[key]
    } else {
        0
    }
}

/// The arrival times that a new limiter starts with: one for each limit, and nothing pending.
pub open spec fn initial_tats(routes: Seq<RouteModel>) -> Map<u64, u64> {
    Map::new(|key: u64| has_limit(routes, key_route(key), key_limit(key)), |key: u64| 0)
}

/// Whether limit `limit` of route `route` exists and applies to the request.
pub open spec fn applies(
    routes: Seq<RouteModel>,
    request: RequestModel,
    route: int,
    limit: int,
) -> bool {
    has_limit(routes, route, limit) && routes[route].matches(request)
}

/// Whether limit `limit` of route `route` has room for one more request at `now`.
pub open spec fn has_room(
    routes: Seq<RouteModel>,
    tats: Map<u64, u64>,
    now: u64,
    route: int,
    limit: int,
) -> bool {
    admits(
        tat_at(tats, packed_key(route, limit)),
        now,
        charge_interval(routes[route].limits[limit]),
        burst_span(routes[route].limits[limit]),
    )
}

/// How long a request at `now` would have to wait for limit `limit` of route `route`, where it has
/// no room.
pub open spec fn wait_for_room(
    routes: Seq<RouteModel>,
    tats: Map<u64, u64>,
    now: u64,
    route: int,
    limit: int,
) -> int {
    excess_nanos(
        tat_at(tats, packed_key(route, limit)),
        now,
        charge_interval(routes[route].limits[limit]),
        burst_span(routes[route].limits[limit]),
    )
}

/// Limits are looked at in the order in which they were configured.
pub open spec fn comes_before(route: int, limit: int, other_route: int, other_limit: int) -> bool {
    route < other_route || (route == other_route && limit < other_limit)
}

/// Whether every limit that applies to the request has room.
pub open spec fn all_have_room(
    routes: Seq<RouteModel>,
    tats: Map<u64, u64>,
    now: u64,
    request: RequestModel,
) -> bool {
    forall|route: int, limit: int| #[trigger]
        applies(routes, request, route, limit) ==> has_room(routes, tats, now, route, limit)
}

/// Whether every limit that applies to the request and comes before limit `limit` of route
/// `route` has room.
pub open spec fn earlier_have_room(
    routes: Seq<RouteModel>,
    tats: Map<u64, u64>,
    now: u64,
    request: RequestModel,
    route: int,
    limit: int,
) -> bool {
    forall|r: int, l: int| #[trigger]
        applies(routes, request, r, l) && comes_before(r, l, route, limit) ==> has_room(
            routes,
            tats,
            now,
            r,
            l,
        )
}

/// Whether the check of a request gets as far as limit `limit` of route `route`: the limit applies
/// and nothing before it is exhausted.
pub open spec fn is_reached(
    routes: Seq<RouteModel>,
    tats: Map<u64, u64>,
    now: u64,
    request: RequestModel,
    route: int,
    limit: int,
) -> bool {
    applies(routes, request, route, limit) && earlier_have_room(
        routes,
        tats,
        now,
        request,
        route,
        limit,
    )
}

/// Whether limit `limit` of route `route` is the one at which the request is held up: the first
/// that applies and has no room.
pub open spec fn holds_up(
    routes: Seq<RouteModel>,
    tats: Map<u64, u64>,
    now: u64,
    request: RequestModel,
    route: int,
    limit: int,
) -> bool {
    is_reached(routes, tats, now, request, route, limit) && !has_room(
        routes,
        tats,
        now,
        route,
        limit,
    )
}

/// The arrival times after a request was checked at `now`. Each limit that the check reached has
/// an entry afterwards; where it had room, the request has taken it. All else is as it was.
pub open spec fn tats_after(
    routes: Seq<RouteModel>,
    tats: Map<u64, u64>,
    now: u64,
    request: RequestModel,
) -> Map<u64, u64> {
    Map::new(
        |key: u64|
            tats.contains_key(key) || is_reached(
                routes,
                tats,
                now,
                request,
                key_route(key),
                key_limit(key),
            ),
        |key: u64|
            if is_reached(routes, tats, now, request, key_route(key), key_limit(key)) && has_room(
                routes,
                tats,
                now,
                key_route(key),
                key_limit(key),
            ) {
                next_tat(
                    tat_at(tats, key),
                    now,
                    charge_interval(routes[key_route(key)].limits[key_limit(key)]),
                )
            } else {
                tat_at(tats, key)
            },
    )
}

/// The arrival times while a request is checked, when everything before limit `limit` of route
/// `route` has been taken.
spec fn tats_up_to(
    routes: Seq<RouteModel>,
    tats: Map<u64, u64>,
    now: u64,
    request: RequestModel,
    route: int,
    limit: int,
) -> Map<u64, u64> {
    Map::new(
        |key: u64|
            tats.contains_key(key) || (applies(routes, request, key_route(key), key_limit(key))
                && comes_before(key_route(key), key_limit(key), route, limit)),
        |key: u64|
            if applies(routes, request, key_route(key), key_limit(key)) && comes_before(
                key_route(key),
                key_limit(key),
                route,
                limit,
            ) {
                next_tat(
                    tat_at(tats, key),
                    now,
                    charge_interval(routes[key_route(key)].limits[key_limit(key)]),
                )
            } else {
                tat_at(tats, key)
            },
    )
}

/// Nothing has been taken before the first limit.
proof fn lemma_nothing_taken(
    routes: Seq<RouteModel>,
    tats: Map<u64, u64>,
    now: u64,
    request: RequestModel,
)
    ensures
        tats_up_to(routes, tats, now, request, 0, 0) == tats,
{
    assert forall|key: u64| 0 <= #[trigger] key_route(key) && 0 <= key_limit(key) by {
        lemma_key_is_packed(key);
    }
    assert(tats_up_to(routes, tats, now, request, 0, 0) =~= tats);
}

/// A limit that has not been reached yet still has the arrival time it had at the beginning, and
/// taking it leads to the next limit.
proof fn lemma_take(
    routes: Seq<RouteModel>,
    tats: Map<u64, u64>,
    now: u64,
    request: RequestModel,
    route: int,
    limit: int,
)
    requires
        can_be_keyed(routes),
        applies(routes, request, route, limit),
    ensures
        ({
            let key = packed_key(route, limit);
            let current = tats_up_to(routes, tats, now, request, route, limit);
            let interval = charge_interval(routes[route].limits[limit]);
            &&& tat_at(current, key) == tat_at(tats, key)
            &&& current.insert(key, next_tat(tat_at(tats, key), now, interval)) == tats_up_to(
                routes,
                tats,
                now,
                request,
                route,
                limit + 1,
            )
        }),
{
    let key = packed_key(route, limit);
    lemma_key_round_trip(route, limit);
    let current = tats_up_to(routes, tats, now, request, route, limit);
    let interval = charge_interval(routes[route].limits[limit]);
    assert forall|k: u64| #[trigger] key_route(k) == route && key_limit(k) == limit implies k
        == key by {
        lemma_key_is_packed(k);
    }
    assert(current.insert(key, next_tat(tat_at(tats, key), now, interval)) =~= tats_up_to(
        routes,
        tats,
        now,
        request,
        route,
        limit + 1,
    ));
}

/// Where the request is held up, the check ends with the arrival times that it should leave.
proof fn lemma_held_up(
    routes: Seq<RouteModel>,
    tats: Map<u64, u64>,
    now: u64,
    request: RequestModel,
    route: int,
    limit: int,
)
    requires
        can_be_keyed(routes),
        holds_up(routes, tats, now, request, route, limit),
    ensures
        ({
            let key = packed_key(route, limit);
            tats_up_to(routes, tats, now, request, route, limit).insert(key, tat_at(tats, key))
                == tats_after(routes, tats, now, request)
        }),
{
    let key = packed_key(route, limit);
    lemma_key_round_trip(route, limit);
    let left = tats_up_to(routes, tats, now, request, route, limit).insert(key, tat_at(tats, key));
    let right = tats_after(routes, tats, now, request);
    assert forall|k: u64| #[trigger]
        left.contains_key(k) == right.contains_key(k) && (left.contains_key(k) ==> left[k]
            == right[k]) by {
        let r = key_route(k);
        let l = key_limit(k);
        lemma_key_is_packed(k);
        if applies(routes, request, r, l) {
            if comes_before(r, l, route, limit) {
                assert(has_room(routes, tats, now, r, l));
                assert(is_reached(routes, tats, now, request, r, l));
            } else if !(r == route && l == limit) {
                assert(comes_before(route, limit, r, l));
                assert(applies(routes, request, route, limit));
                assert(!is_reached(routes, tats, now, request, r, l));
            }
        }
    }
    assert(left =~= right);
}

/// Where every limit has room, the check ends with the arrival times that it should leave.
proof fn lemma_passed(
    routes: Seq<RouteModel>,
    tats: Map<u64, u64>,
    now: u64,
    request: RequestModel,
)
    requires
        earlier_have_room(routes, tats, now, request, routes.len() as int, 0),
    ensures
        all_have_room(routes, tats, now, request),
        tats_up_to(routes, tats, now, request, routes.len() as int, 0) == tats_after(
            routes,
            tats,
            now,
            request,
        ),
{
    assert(all_have_room(routes, tats, now, request));
    assert(tats_up_to(routes, tats, now, request, routes.len() as int, 0) =~= tats_after(
        routes,
        tats,
        now,
        request,
    )) by {
        assert forall|key: u64| applies(routes, request, #[trigger] key_route(key), key_limit(key))
            implies has_room(routes, tats, now, key_route(key), key_limit(key)) && is_reached(
            routes,
            tats,
            now,
            request,
            key_route(key),
            key_limit(key),
        ) by {
        }
    }
}

/// From the end of one route, or past one that does not match, the check goes on with the next.
proof fn lemma_next_route(
    routes: Seq<RouteModel>,
    tats: Map<u64, u64>,
    now: u64,
    request: RequestModel,
    route: int,
    limit: int,
)
    requires
        0 <= route < routes.len(),
        !routes[route].matches(request) || limit == routes[route].limits.len(),
        earlier_have_room(routes, tats, now, request, route, limit),
    ensures
        earlier_have_room(routes, tats, now, request, route + 1, 0),
        tats_up_to(routes, tats, now, request, route, limit) == tats_up_to(
            routes,
            tats,
            now,
            request,
            route + 1,
            0,
        ),
{
    assert(tats_up_to(routes, tats, now, request, route, limit) =~= tats_up_to(
        routes,
        tats,
        now,
        request,
        route + 1,
        0,
    )) by {
        assert forall|key: u64| 0 <= #[trigger] key_limit(key) by {
            lemma_key_is_packed(key);
        }
    }
}

/// The arrival times of a new limiter, as far as the limits before limit `limit` of route `route`
/// go.
spec fn initial_tats_up_to(routes: Seq<RouteModel>, route: int, limit: int) -> Map<u64, u64> {
    Map::new(
        |key: u64|
            has_limit(routes, key_route(key), key_limit(key)) && comes_before(
                key_route(key),
                key_limit(key),
                route,
                limit,
            ),
        |key: u64| 0,
    )
}

/// The first limit has none before it, and the limits of all routes come before the end.
proof fn lemma_initial_tats_from_first_to_last(routes: Seq<RouteModel>)
    ensures
        initial_tats_up_to(routes, 0, 0) == no_entries(),
        initial_tats_up_to(routes, routes.len() as int, 0) == initial_tats(routes),
{
    assert(initial_tats_up_to(routes, 0, 0) =~= no_entries());
    assert(initial_tats_up_to(routes, routes.len() as int, 0) =~= initial_tats(routes));
}

/// A limit that has not been reached has no entry yet, and one for it leads to the next limit.
proof fn lemma_initial_tats_next_limit(routes: Seq<RouteModel>, route: int, limit: int)
    requires
        can_be_keyed(routes),
        has_limit(routes, route, limit),
    ensures
        !initial_tats_up_to(routes, route, limit).contains_key(packed_key(route, limit)),
        initial_tats_up_to(routes, route, limit).insert(packed_key(route, limit), 0)
            == initial_tats_up_to(routes, route, limit + 1),
{
    lemma_key_round_trip(route, limit);
    assert forall|k: u64| #[trigger] key_route(k) == route && key_limit(k) == limit implies k
        == packed_key(route, limit) by {
        lemma_key_is_packed(k);
    }
    assert(initial_tats_up_to(routes, route, limit).insert(packed_key(route, limit), 0)
        =~= initial_tats_up_to(routes, route, limit + 1));
}

/// The end of one route is the beginning of the next.
proof fn lemma_initial_tats_next_route(routes: Seq<RouteModel>, route: int)
    requires
        0 <= route < routes.len(),
    ensures
        initial_tats_up_to(routes, route, routes[route].limits.len() as int)
            == initial_tats_up_to(routes, route + 1, 0),
{
    assert(initial_tats_up_to(routes, route, routes[route].limits.len() as int)
        =~= initial_tats_up_to(routes, route + 1, 0));
}

/// A map with one entry for each limit of the routes, and nothing pending in any of them.
fn allocate(routes: &Vec<Route>) -> (state: DashMap<u64, u64>)
    requires
        can_be_keyed(route_models(routes@)),
    ensures
        entries_of(state) == initial_tats(route_models(routes@)),
        entries_of(state).dom().finite(),
        entries_of(state).len() == limits_before(
            route_models(routes@),
            routes@.len() as int,
        ),
{
    let ghost models = route_models(routes@);
    let mut state = new_map();
    let n: usize = routes.len();
    let mut route_index: usize = 0;
    proof {
        lemma_initial_tats_from_first_to_last(models);
    }
    while route_index < n
        invariant
            route_index <= n,
            n == routes@.len(),
            models == route_models(routes@),
            can_be_keyed(models),
            entries_of(state) == initial_tats_up_to(models, route_index as int, 0),
            entries_of(state).dom().finite(),
            entries_of(state).len() == limits_before(models, route_index as int),
        decreases n - route_index,
    {
        let ghost route = route_index as int;
        assert(routes@[route]@ == models[route]);
        let m: usize = routes[route_index].limits.len();
        let mut limit_index: usize = 0;
        while limit_index < m
            invariant
                route == route_index,
                route_index < n,
                limit_index <= m,
                n == models.len(),
                m == models[route].limits.len(),
                can_be_keyed(models),
                entries_of(state) == initial_tats_up_to(models, route, limit_index as int),
                entries_of(state).dom().finite(),
                entries_of(state).len() == limits_before(models, route) + limit_index,
            decreases m - limit_index,
        {
            proof {
                lemma_initial_tats_next_limit(models, route, limit_index as int);
            }
            let key = RouteKey::new(route_index, limit_index);
            set_entry(&mut state, key.0, GcraState::new().tat());
            limit_index += 1;
        }
        proof {
            lemma_initial_tats_next_route(models, route);
        }
        route_index += 1;
    }
    state
}

/// Where every limit has its entry, a check leaves the same entries behind: it makes none.
pub proof fn lemma_check_makes_no_entries(limiter: MiddlewareModel, now: u64, request: RequestModel)
    requires
        limiter.is_allocated(),
    ensures
        tats_after(limiter.routes, limiter.tats, now, request).dom() == limiter.tats.dom(),
{
    let after = tats_after(limiter.routes, limiter.tats, now, request);
    assert forall|key: u64| #[trigger] after.dom().contains(key) implies limiter.tats.dom().contains(
        key,
    ) by {
        if !limiter.tats.contains_key(key) {
            assert(has_limit(limiter.routes, key_route(key), key_limit(key)));
        }
    }
    assert(after.dom() =~= limiter.tats.dom());
}

/// The rate limiter as its routes, their offsets, the arrival times and the start of its clock
/// describe it.
pub ghost struct MiddlewareModel {
    pub routes: Seq<RouteModel>,
    pub offsets: Seq<usize>,
    pub tats: Map<u64, u64>,
    pub start: Instant,
}

impl MiddlewareModel {
    /// Every limit can be keyed; the offset of a route is the number of limits before it; and each
    /// entry belongs to a limit of one of the routes.
    pub open spec fn is_sound(self) -> bool {
        &&& can_be_keyed(self.routes)
        &&& self.offsets.len() == self.routes.len()
        &&& forall|i: int|
            0 <= i < self.offsets.len() ==> #[trigger] self.offsets[i] == limits_before(
                self.routes,
                i,
            )
        &&& self.tats.dom().finite()
        &&& forall|key: u64| #[trigger]
            self.tats.contains_key(key) ==> has_limit(self.routes, key_route(key), key_limit(key))
    }

    /// Every limit has its entry, so that no check has to make one.
    pub open spec fn is_allocated(self) -> bool {
        forall|key: u64|
            has_limit(self.routes, key_route(key), key_limit(key))
                ==> #[trigger] self.tats.contains_key(key)
    }
}

/// A request that met an exhausted limit.
#[derive(Debug, Clone, Copy)]
pub struct Refusal {
    /// Index of the route that the limit belongs to.
    pub route_index: usize,
    /// Index of the limit within the route.
    pub limit_index: usize,
    /// Time after which the limit has room for the request.
    pub wait: Duration,
    /// What the route does about it.
    pub behavior: ThrottleBehavior,
}

/// What is to be done about a request.
#[derive(Debug, Clone, Copy)]
pub enum Decision {
    /// All limits passed, the request can proceed.
    Proceed,
    /// The request has to sleep for the given time and then be checked again.
    Sleep(Duration),
    /// The request is turned down.
    Reject(RateLimitError),
}

impl Refusal {
    /// Whether this is what a request meets that is checked at `now` against arrival times `tats`.
    pub open spec fn reports(
        self,
        routes: Seq<RouteModel>,
        tats: Map<u64, u64>,
        now: u64,
        request: RequestModel,
    ) -> bool {
        let route = self.route_index as int;
        let limit = self.limit_index as int;
        &&& holds_up(routes, tats, now, request, route, limit)
        &&& duration_nanos(self.wait) == wait_for_room(routes, tats, now, route, limit)
        &&& self.behavior == routes[route].on_limit
    }

    /// What is to be done about the refused request, when `jitter_nanos` of slack were drawn for
    /// the case that it is delayed.
    pub fn decide(self, jitter_nanos: u64) -> (decision: Decision)
        requires
            duration_nanos(self.wait) <= u64::MAX,
        ensures
            match self.behavior {
                ThrottleBehavior::Delay => decision matches Decision::Sleep(span) && duration_nanos(
                    span,
                ) == duration_nanos(self.wait) + jitter_nanos,
                ThrottleBehavior::Error => decision == Decision::Reject(
                    RateLimitError::RateLimited(self.wait),
                ),
            },
    {
        match self.behavior {
            ThrottleBehavior::Delay => {
                let total: u128 = self.wait.as_nanos() + jitter_nanos as u128;
                Decision::Sleep(span_of_nanos(total))
            },
            ThrottleBehavior::Error => Decision::Reject(RateLimitError::RateLimited(self.wait)),
        }
    }
}

/// Whether `jitter` is slack for a wait of `wait` nanoseconds: a random draw for which the first
/// half of the wait is open. A wait too short to be halved gets none.
pub open spec fn is_slack_for(wait: int, jitter: u64) -> bool {
    jitter <= wait / 2 && (wait >= 2 ==> is_draw_up_to((wait / 2) as u64, jitter))
}

/// Whether `decision` is right for a request that was checked at `now` against arrival times
/// `tats`, with `jitter` nanoseconds of slack for a delay.
pub open spec fn is_decision(
    routes: Seq<RouteModel>,
    tats: Map<u64, u64>,
    now: u64,
    request: RequestModel,
    jitter: u64,
    decision: Decision,
) -> bool {
    match decision {
        Decision::Proceed => all_have_room(routes, tats, now, request),
        Decision::Sleep(span) => exists|route: int, limit: int| #[trigger]
            holds_up(routes, tats, now, request, route, limit) && routes[route].on_limit
                == ThrottleBehavior::Delay && is_slack_for(
                wait_for_room(routes, tats, now, route, limit),
                jitter,
            ) && duration_nanos(span) == wait_for_room(routes, tats, now, route, limit) + jitter,
        Decision::Reject(RateLimitError::RateLimited(wait)) => exists|route: int, limit: int|
         #[trigger]
            holds_up(routes, tats, now, request, route, limit) && routes[route].on_limit
                == ThrottleBehavior::Error && duration_nanos(wait) == wait_for_room(
                routes,
                tats,
                now,
                route,
                limit,
            ),
    }
}

/// Whether a check of `request` at `now`, with `jitter` nanoseconds of slack, leads from one state
/// of the limiter to another and to `decision`.
pub open spec fn is_check(
    before: MiddlewareModel,
    after: MiddlewareModel,
    request: RequestModel,
    now: u64,
    jitter: u64,
    decision: Decision,
) -> bool {
    &&& after.routes == before.routes
    &&& after.offsets == before.offsets
    &&& after.start == before.start
    &&& after.tats == tats_after(before.routes, before.tats, now, request)
    &&& is_decision(before.routes, before.tats, now, request, jitter, decision)
}

/// Whether clearing out at `now` leads from one state of the limiter to another.
pub open spec fn is_cleanup(before: MiddlewareModel, after: MiddlewareModel, now: u64) -> bool {
    &&& after.routes == before.routes
    &&& after.offsets == before.offsets
    &&& after.start == before.start
    &&& after.tats == live_entries(before.routes, before.tats, now)
}

/// The rate limiting middleware.
///
/// It tracks rate limits and decides which requests to let through, to delay or to reject, based
/// on the configured routes. Routes are checked in the order in which they are defined, and all
/// matching routes' limits are applied.
#[derive(Debug)]
pub struct RateLimitMiddleware {
    routes: Vec<Route>,
    route_offsets: Vec<usize>,
    state: DashMap<u64, u64>,
    start_instant: Instant,
}

impl View for RateLimitMiddleware {
    type V = MiddlewareModel;

    closed spec fn view(&self) -> MiddlewareModel {
        MiddlewareModel {
            routes: route_models(self.routes@),
            offsets: self.route_offsets@,
            tats: entries_of(self.state),
            start: self.start_instant,
        }
    }
}

impl Default for RateLimitMiddleware {
    /// Create a middleware with no routes configured.
    ///
    /// All requests will pass through without any rate limiting. Use
    /// [`RateLimitMiddleware::builder`] to configure routes.
    fn default() -> (limiter: Self)
        ensures
            limiter@.is_sound(),
            limiter@.routes.len() == 0,
            limiter@.tats == no_entries(),
            is_clock_reading(limiter@.start),
    {
        let builder = Self::builder();
        assert(can_be_keyed(builder@));
        assert(initial_tats(builder@) =~= no_entries());
        builder.build()
    }
}

impl RateLimitMiddleware {
    /// Create a new builder for configuring the middleware.
    #[must_use]
    pub fn builder() -> (builder: RateLimitBuilder)
        ensures
            builder@ == Seq::<RouteModel>::empty(),
    {
        RateLimitBuilder::new()
    }

    /// A limiter for the given routes, with an entry for each limit and nothing pending anywhere,
    /// whose clock starts now.
    pub(crate) fn assemble(routes: Vec<Route>, route_offsets: Vec<usize>) -> (limiter: Self)
        requires
            can_be_keyed(route_models(routes@)),
        ensures
            limiter@.routes == route_models(routes@),
            limiter@.offsets == route_offsets@,
            limiter@.tats == initial_tats(limiter@.routes),
            limiter@.tats.dom().finite(),
            limiter@.tats.len() == limits_before(limiter@.routes, limiter@.routes.len() as int),
            is_clock_reading(limiter@.start),
    {
        let state = allocate(&routes);
        let start_instant = Instant::now();
        assert(call_ensures(Instant::now, (), start_instant));
        RateLimitMiddleware { routes, route_offsets, state, start_instant }
    }

    /// The configured routes, in order.
    pub fn routes(&self) -> (routes: &Vec<Route>)
        ensures
            route_models(routes@) == self@.routes,
    {
        &self.routes
    }

    /// For each route, the number of limits that the routes before it have together.
    pub fn route_offsets(&self) -> (offsets: &Vec<usize>)
        ensures
            offsets@ == self@.offsets,
    {
        &self.route_offsets
    }

    /// Nanoseconds since the limiter was built, saturating at `u64::MAX`.
    pub fn now_nanos(&self) -> (now: u64)
        ensures
            is_time_since(self@.start, now),
    {
        let elapsed = self.start_instant.elapsed();
        assert(call_ensures(Instant::elapsed, (&self.start_instant,), elapsed));
        saturating_nanos(elapsed)
    }

    /// Remove stale rate limit state entries that haven't been accessed recently.
    ///
    /// An entry is considered stale when its theoretical arrival time (TAT) lies two windows or
    /// more back, meaning the burst capacity has been fully recovered for an extended period. So is
    /// one that no request has ever touched. A limit without an entry acts as a new one.
    ///
    /// This method should be called periodically in long-running applications.
    pub fn cleanup(&mut self)
        requires
            old(self)@.is_sound(),
        ensures
            final(self)@.is_sound(),
            exists|now: u64| #[trigger]
                is_cleanup(old(self)@, final(self)@, now) && is_time_since(old(self)@.start, now),
    {
        let now: u64 = self.now_nanos();
        self.cleanup_at(now);
    }

    /// Remove the state entries that are stale at `now`.
    pub fn cleanup_at(&mut self, now: u64)
        requires
            old(self)@.is_sound(),
        ensures
            final(self)@.is_sound(),
            is_cleanup(old(self)@, final(self)@, now),
    {
        let ghost before = self@;
        retain_live(&mut self.state, &self.routes, now);
        proof {
            assert(self@.tats.dom().subset_of(before.tats.dom()));
            vstd::set_lib::lemma_len_subset(self@.tats.dom(), before.tats.dom());
        }
    }

    /// Returns the number of active rate limit state entries.
    ///
    /// This can be useful for monitoring memory usage.
    pub fn state_count(&self) -> (count: usize)
        ensures
            count == self@.tats.len(),
    {
        count_entries(&self.state)
    }

    /// Take one request's share of one limit as of `now`, or report how long to wait for it.
    fn take_one(&mut self, now: u64, route_index: usize, limit_index: usize) -> (outcome: Result<
        (),
        Duration,
    >)
        requires
            old(self)@.is_sound(),
            has_limit(old(self)@.routes, route_index as int, limit_index as int),
        ensures
            final(self)@.is_sound(),
            final(self)@.routes == old(self)@.routes,
            final(self)@.offsets == old(self)@.offsets,
            final(self)@.start == old(self)@.start,
            outcome is Ok <==> has_room(
                old(self)@.routes,
                old(self)@.tats,
                now,
                route_index as int,
                limit_index as int,
            ),
            ({
                let key = packed_key(route_index as int, limit_index as int);
                let limit = old(self)@.routes[route_index as int].limits[limit_index as int];
                let tat = tat_at(old(self)@.tats, key);
                final(self)@.tats == old(self)@.tats.insert(
                    key,
                    if outcome is Ok {
                        next_tat(tat, now, charge_interval(limit))
                    } else {
                        tat
                    },
                )
            }),
            outcome matches Err(wait) ==> duration_nanos(wait) == wait_for_room(
                old(self)@.routes,
                old(self)@.tats,
                now,
                route_index as int,
                limit_index as int,
            ),
    {
        let ghost before = self@;
        assert(self.routes@[route_index as int]@ == before.routes[route_index as int]);
        assert(self.routes@[route_index as int].limits@[limit_index as int]@
            == before.routes[route_index as int].limits[limit_index as int]);
        let limit = self.routes[route_index].limits[limit_index];
        let key = RouteKey::new(route_index, limit_index);
        // Only where the entry was cleaned up does one have to be made again
        let tat: u64 = match get_entry(&self.state, key.0) {
            Some(tat) => tat,
            None => entry_or_insert(&mut self.state, key.0, GcraState::new().tat()),
        };
        let mut gcra = GcraState { tat_nanos: tat };
        let outcome = gcra.try_acquire(now, limit.charge_interval(), limit.burst_span());
        if outcome.is_ok() {
            set_entry(&mut self.state, key.0, gcra.tat());
        }
        proof {
            let after = before.tats.insert(key.0, gcra.tat_nanos);
            assert(self@.tats =~= after);
        }
        outcome
    }

    /// Take one request's share of every limit that applies to it, in order, as of `now`.
    ///
    /// At the first limit without room the check ends there and reports it. What was taken of the
    /// limits before it stays taken.
    pub fn apply_limits_at(&mut self, now: u64, parts: &RequestParts) -> (outcome: Result<
        (),
        Refusal,
    >)
        requires
            old(self)@.is_sound(),
        ensures
            final(self)@.is_sound(),
            final(self)@.routes == old(self)@.routes,
            final(self)@.offsets == old(self)@.offsets,
            final(self)@.start == old(self)@.start,
            final(self)@.tats == tats_after(old(self)@.routes, old(self)@.tats, now, parts@),
            old(self)@.is_allocated() ==> final(self)@.tats.dom() == old(self)@.tats.dom(),
            outcome is Ok <==> all_have_room(old(self)@.routes, old(self)@.tats, now, parts@),
            outcome matches Err(refusal) ==> refusal.reports(
                old(self)@.routes,
                old(self)@.tats,
                now,
                parts@,
            ),
    {
        let ghost routes = self@.routes;
        let ghost tats = self@.tats;
        let ghost offsets = self@.offsets;
        let ghost start = self@.start;
        let n: usize = self.routes.len();
        let mut route_index: usize = 0;
        proof {
            if self@.is_allocated() {
                lemma_check_makes_no_entries(self@, now, parts@);
            }
            lemma_nothing_taken(routes, tats, now, parts@);
        }
        while route_index < n
            invariant
                route_index <= n,
                n == self.routes@.len(),
                self@.routes == routes,
                self@.offsets == offsets,
                self@.start == start,
                self@.is_sound(),
                self@.tats == tats_up_to(routes, tats, now, parts@, route_index as int, 0),
                earlier_have_room(routes, tats, now, parts@, route_index as int, 0),
                routes == old(self)@.routes,
                tats == old(self)@.tats,
                offsets == old(self)@.offsets,
                start == old(self)@.start,
            decreases n - route_index,
        {
            let ghost route = route_index as int;
            assert(self.routes@[route]@ == routes[route]);
            if !self.routes[route_index].matches_parts(parts) {
                proof {
                    lemma_next_route(routes, tats, now, parts@, route, 0);
                }
                route_index += 1;
                continue;
            }
            let m: usize = self.routes[route_index].limits.len();
            let mut limit_index: usize = 0;
            while limit_index < m
                invariant
                    route == route_index,
                    route_index < n,
                    limit_index <= m,
                    n == self.routes@.len(),
                    n == routes.len(),
                    m == routes[route].limits.len(),
                    routes[route].matches(parts@),
                    self@.routes == routes,
                    self@.offsets == offsets,
                    self@.start == start,
                    self@.is_sound(),
                    self@.tats == tats_up_to(
                        routes,
                        tats,
                        now,
                        parts@,
                        route,
                        limit_index as int,
                    ),
                    earlier_have_room(routes, tats, now, parts@, route, limit_index as int),
                    routes == old(self)@.routes,
                    tats == old(self)@.tats,
                    offsets == old(self)@.offsets,
                    start == old(self)@.start,
                decreases m - limit_index,
            {
                proof {
                    lemma_take(routes, tats, now, parts@, route, limit_index as int);
                }
                match self.take_one(now, route_index, limit_index) {
                    Ok(()) => {},
                    Err(wait) => {
                        proof {
                            assert(applies(routes, parts@, route, limit_index as int));
                            lemma_held_up(routes, tats, now, parts@, route, limit_index as int);
                        }
                        assert(self.routes@[route]@ == routes[route]);
                        let behavior = self.routes[route_index].on_limit;
                        return Err(Refusal { route_index, limit_index, wait, behavior });
                    },
                }
                limit_index += 1;
            }
            proof {
                lemma_next_route(routes, tats, now, parts@, route, m as int);
            }
            route_index += 1;
        }
        proof {
            lemma_passed(routes, tats, now, parts@);
        }
        Ok(())
    }

    /// Check and apply all rate limits for a request, once, as of the present moment.
    ///
    /// Where the decision is to sleep, the caller does so and then checks again, from the first
    /// route and with a fresh timestamp. The time to sleep is what the exhausted limit asks for
    /// and up to half as much again, so that delayed requests do not all come back at once.
    ///
    /// All state was allocated when the limiter was built. A check makes an entry only for a limit
    /// whose entry was cleaned up in the meantime.
    pub fn check_and_apply_limits(&mut self, req: &Request) -> (decision: Decision)
        requires
            old(self)@.is_sound(),
        ensures
            final(self)@.is_sound(),
            old(self)@.is_allocated() ==> final(self)@.tats.dom() == old(self)@.tats.dom(),
            exists|now: u64, jitter: u64| #[trigger]
                is_check(
                    old(self)@,
                    final(self)@,
                    request_model(*req),
                    now,
                    jitter,
                    decision,
                ) && is_time_since(old(self)@.start, now),
    {
        let ghost before = self@;
        let parts = RequestParts::of(req);
        let now: u64 = self.now_nanos();
        match self.apply_limits_at(now, &parts) {
            Ok(()) => {
                assert(is_check(before, self@, parts@, now, 0, Decision::Proceed));
                Decision::Proceed
            },
            Err(refusal) => {
                let jitter: u64 = match refusal.behavior {
                    ThrottleBehavior::Delay => pick_jitter_nanos(refusal.wait),
                    ThrottleBehavior::Error => 0,
                };
                let decision = refusal.decide(jitter);
                assert(is_check(before, self@, parts@, now, jitter, decision));
                decision
            },
        }
    }
}

} // verus!
