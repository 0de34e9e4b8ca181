//! Core types for rate limit configuration.
use http::Method;
use reqwest::Request;
use std::time::Duration;
use vstd::prelude::*;

use crate::clock::{duration_nanos, span_of_nanos};
use crate::request::{host_of, method_of, request_model, url_of, RequestModel, RequestParts};
use crate::text::{covers_path, prefix_covers, same_text};

verus! {

/// Behavior when a rate limit is exceeded.
#[derive(Debug, Clone, Copy, PartialEq, Eq, Structural)]
pub enum ThrottleBehavior {
    /// Delay the request until the rate limit window allows it.
    Delay,
    /// Return an error immediately.
    Error,
}

impl Default for ThrottleBehavior {
    /// Requests are delayed unless asked otherwise.
    fn default() -> (behavior: Self)
        ensures
            behavior == ThrottleBehavior::Delay,
    {
        ThrottleBehavior::Delay
    }
}

/// A single rate limit configuration.
#[derive(Debug, Clone, Copy)]
pub struct RateLimit {
    /// Maximum number of requests allowed in the window.
    pub requests: u32,
    /// Time window for the rate limit.
    pub window: Duration,
    /// Precomputed emission interval in nanoseconds (window / requests).
    pub(crate) emission_interval_nanos: u64,
    /// Precomputed window duration in nanoseconds.
    pub(crate) window_nanos: u64,
}

/// A limit as its numbers describe it.
pub ghost struct LimitModel {
    pub requests: u32,
    pub window: Duration,
    pub emission_interval_nanos: u64,
    pub window_nanos: u64,
}

impl LimitModel {
    /// The limit of `requests` per `window`.
    pub open spec fn of(requests: u32, window: Duration) -> LimitModel {
        LimitModel {
            requests,
            window,
            emission_interval_nanos: (duration_nanos(window) / (requests as nat)) as u64,
            window_nanos: duration_nanos(window) as u64,
        }
    }

    /// Whether the numbers belong together.
    pub open spec fn is_valid(self) -> bool {
        &&& self.requests > 0
        &&& self.window_nanos > 0
        &&& self.window_nanos == duration_nanos(self.window)
        &&& self.emission_interval_nanos == self.window_nanos / (self.requests as u64)
    }
}

/// What one request takes of a limit, in nanoseconds: one emission interval. Where the limit is so
/// fine that its interval rounds down to nothing, the least there is.
pub open spec fn charge_interval(limit: LimitModel) -> u64 {
    if limit.emission_interval_nanos == 0 {
        1
    } else {
        limit.emission_interval_nanos
    }
}

/// How far ahead of the present a limit may be charged, in nanoseconds: its window, cut down to
/// what stays below one more charge than it allows requests. Dividing the window may have left a
/// remainder, which must not let further requests in.
pub open spec fn burst_span(limit: LimitModel) -> u64 {
    let charged = limit.requests * limit.emission_interval_nanos;
    if limit.emission_interval_nanos == 0 {
        limit.requests as u64
    } else if limit.window_nanos - charged >= limit.emission_interval_nanos {
        (charged + (limit.emission_interval_nanos - 1)) as u64
    } else {
        limit.window_nanos
    }
}

impl View for RateLimit {
    type V = LimitModel;

    closed spec fn view(&self) -> LimitModel {
        LimitModel {
            requests: self.requests,
            window: self.window,
            emission_interval_nanos: self.emission_interval_nanos,
            window_nanos: self.window_nanos,
        }
    }
}

impl RateLimit {
    /// Create a new rate limit.
    ///
    /// `requests` and `window` must not be zero, and `window` must not exceed `u64::MAX`
    /// nanoseconds (about 585 years).
    pub fn new(requests: u32, window: Duration) -> (limit: Self)
        requires
            requests > 0,
            0 < duration_nanos(window) <= u64::MAX,
        ensures
            limit@ == LimitModel::of(requests, window),
            limit@.requests == requests,
            limit@.window == window,
            limit@.window_nanos == duration_nanos(window),
            limit@.emission_interval_nanos == duration_nanos(window) / (requests as nat),
            limit@.is_valid(),
    {
        let window_nanos: u64 = window.as_nanos() as u64;
        let emission_interval_nanos: u64 = window_nanos / (requests as u64);
        proof {
            vstd::arithmetic::div_mod::lemma_div_is_ordered_by_denominator(
                window_nanos as int,
                1,
                requests as int,
            );
        }
        RateLimit { requests, window, emission_interval_nanos, window_nanos }
    }

    /// Calculate the emission interval (time between requests).
    pub fn emission_interval(&self) -> (span: Duration)
        requires
            self@.requests > 0,
        ensures
            duration_nanos(span) == duration_nanos(self@.window) / (self@.requests as nat),
    {
        let total: u128 = self.window.as_nanos();
        proof {
            vstd::arithmetic::div_mod::lemma_div_is_ordered_by_denominator(
                total as int,
                1,
                self.requests as int,
            );
        }
        span_of_nanos(total / (self.requests as u128))
    }

    /// The window in nanoseconds.
    pub(crate) fn window_nanos(&self) -> (nanos: u64)
        ensures
            nanos == self@.window_nanos,
    {
        self.window_nanos
    }

    /// What one request takes of the limit, in nanoseconds.
    pub fn charge_interval(&self) -> (nanos: u64)
        ensures
            nanos == charge_interval(self@),
    {
        if self.emission_interval_nanos == 0 {
            1
        } else {
            self.emission_interval_nanos
        }
    }

    /// How far ahead of the present the limit may be charged, in nanoseconds.
    pub fn burst_span(&self) -> (nanos: u64)
        ensures
            nanos == burst_span(self@),
    {
        let interval: u64 = self.emission_interval_nanos;
        if interval == 0 {
            return self.requests as u64;
        }
        proof {
            let requests = self.requests as int;
            assert(requests * interval <= 0xffff_ffff * 0xffff_ffff_ffff_ffff) by (nonlinear_arith)
                requires
                    0 <= requests <= 0xffff_ffff,
                    0 <= interval <= 0xffff_ffff_ffff_ffff,
            ;
        }
        let charged: u128 = self.requests as u128 * interval as u128;
        if charged + interval as u128 <= self.window_nanos as u128 {
            // What the division left over would make up another request
            (charged + (interval - 1) as u128) as u64
        } else {
            self.window_nanos
        }
    }
}

/// The model of a limit holds what the limit holds.
pub(crate) proof fn lemma_limit_is_modelled(limit: RateLimit)
    ensures
        limit@.requests == limit.requests,
        limit@.window == limit.window,
        limit@.emission_interval_nanos == limit.emission_interval_nanos,
        limit@.window_nanos == limit.window_nanos,
{
}

/// The models of a list of limits.
pub open spec fn limit_models(limits: Seq<RateLimit>) -> Seq<LimitModel> {
    limits.map_values(|limit: RateLimit| limit@)
}

/// A route as its filters, limits and behavior describe it.
#[verifier::ext_equal]
pub ghost struct RouteModel {
    pub host: Option<Seq<char>>,
    pub method: Option<Method>,
    pub path_prefix: Seq<char>,
    pub limits: Seq<LimitModel>,
    pub on_limit: ThrottleBehavior,
}

impl RouteModel {
    /// A route before anything has been said of it: no filters, no limits, delaying.
    pub open spec fn blank() -> RouteModel {
        RouteModel {
            host: None,
            method: None,
            path_prefix: Seq::empty(),
            limits: Seq::empty(),
            on_limit: ThrottleBehavior::Delay,
        }
    }

    /// Whether the route applies to a request: each filter that it has must agree.
    pub open spec fn matches(self, request: RequestModel) -> bool {
        &&& self.host matches Some(host) ==> request.host == Some(host)
        &&& self.method matches Some(method) ==> request.method == method
        &&& covers_path(self.path_prefix, request.path)
    }

    /// Whether the numbers of every limit belong together.
    pub open spec fn has_valid_limits(self) -> bool {
        forall|i: int| 0 <= i < self.limits.len() ==> (#[trigger] self.limits[i]).is_valid()
    }

    /// Whether the route has no filters at all.
    pub open spec fn is_catch_all(self) -> bool {
        self.host is None && self.method is None && self.path_prefix.len() == 0
    }
}

/// A route definition that matches requests and applies rate limits.
#[derive(Debug)]
pub struct Route {
    /// Optional host to match (e.g., "api.example.com").
    pub host: Option<String>,
    /// Optional HTTP method to match.
    pub method: Option<Method>,
    /// Path prefix to match (e.g., "/order"). Empty matches all paths.
    pub path_prefix: String,
    /// Rate limits to apply (all must pass).
    pub limits: Vec<RateLimit>,
    /// Behavior when rate limit is exceeded.
    pub on_limit: ThrottleBehavior,
}

/// The text of an optional string.
pub open spec fn optional_text(text: Option<String>) -> Option<Seq<char>> {
    match text {
        Some(text) => Some(text@),
        None => None,
    }
}

impl View for Route {
    type V = RouteModel;

    open spec fn view(&self) -> RouteModel {
        RouteModel {
            host: optional_text(self.host),
            method: self.method,
            path_prefix: self.path_prefix@,
            limits: limit_models(self.limits@),
            on_limit: self.on_limit,
        }
    }
}

impl Clone for Route {
    fn clone(&self) -> (copy: Self)
        ensures
            copy@ == self@,
    {
        let limits = self.limits.clone();
        assert(limits@ =~= self.limits@);
        Route {
            host: self.host.clone(),
            method: self.method.clone(),
            path_prefix: self.path_prefix.clone(),
            limits,
            on_limit: self.on_limit,
        }
    }
}

/// The models of a list of routes.
pub open spec fn route_models(routes: Seq<Route>) -> Seq<RouteModel> {
    routes.map_values(|route: Route| route@)
}

impl Route {
    /// Returns `true` if this route has no filters (matches all requests).
    ///
    /// A catch-all route has no host, no method, and no path prefix constraints.
    pub fn is_catch_all(&self) -> (catch_all: bool)
        ensures
            catch_all == self@.is_catch_all(),
            catch_all <==> self.host is None && self.method is None && self.path_prefix@.len() == 0,
    {
        self.host.is_none() && self.method.is_none() && self.path_prefix.as_str().is_empty()
    }

    /// Check if this route matches a request.
    pub fn matches(&self, req: &Request) -> (applies: bool)
        ensures
            applies == self@.matches(request_model(*req)),
            self.host matches Some(host) && host_of(url_of(*req)) != Some(host@) ==> !applies,
            self.method matches Some(method) && method_of(*req) != method ==> !applies,
    {
        self.matches_parts(&RequestParts::of(req))
    }

    /// Check if this route matches a request of which the parts are at hand.
    pub fn matches_parts(&self, parts: &RequestParts) -> (applies: bool)
        ensures
            applies == self@.matches(parts@),
            self.host matches Some(host) && !(parts.host matches Some(text) && text@ == host@)
                ==> !applies,
            self.method matches Some(method) && *parts.method != method ==> !applies,
            self.path_prefix@.len() > 0 && parts.path@ != self.path_prefix@ && (
            !self.path_prefix@.is_prefix_of(parts.path@)
                || parts.path@[self.path_prefix@.len() as int] != '/') ==> !applies,
            !applies ==> {
                ||| self.host matches Some(host) && !(parts.host matches Some(text) && text@
                    == host@)
                ||| self.method matches Some(method) && *parts.method != method
                ||| self.path_prefix@.len() > 0 && parts.path@ != self.path_prefix@ && (
                !self.path_prefix@.is_prefix_of(parts.path@)
                    || parts.path@[self.path_prefix@.len() as int] != '/')
            },
    {
        assert(self.path_prefix@.is_prefix_of(parts.path@) && parts.path@.len()
            == self.path_prefix@.len() ==> parts.path@ =~= self.path_prefix@);
        assert(parts.path@ == self.path_prefix@ ==> self.path_prefix@.is_prefix_of(
            parts.path@,
        )) by {
            assert(self.path_prefix@ =~= self.path_prefix@.subrange(
                0,
                self.path_prefix@.len() as int,
            ));
        }
        // Check host
        if let Some(host) = &self.host {
            match parts.host {
                Some(req_host) => {
                    if !same_text(req_host, host.as_str()) {
                        return false;
                    }
                },
                None => {
                    return false;
                },
            }
        }
        // Check method
        if let Some(method) = &self.method {
            if !(*parts.method == *method) {
                return false;
            }
        }
        // Check path prefix
        prefix_covers(self.path_prefix.as_str(), parts.path)
    }
}

/// Number of limits that one route index spans in a key.
pub const KEY_STRIDE: u64 = 0x1_0000_0000;

/// The key of limit `limit` of route `route`, packed into one number.
pub open spec fn packed_key(route: int, limit: int) -> u64 {
    (route * KEY_STRIDE + limit) as u64
}

/// The route that a packed key speaks of.
pub open spec fn key_route(key: u64) -> int {
    key as int / KEY_STRIDE as int
}

/// The limit that a packed key speaks of.
pub open spec fn key_limit(key: u64) -> int {
    key as int % KEY_STRIDE as int
}

/// Unique key for a route's rate limit state.
///
/// Packed as a single `u64`: upper 32 bits = route_index, lower 32 bits = limit_index.
#[derive(Debug, Clone, Copy, PartialEq, Eq, Hash, Structural)]
pub struct RouteKey(pub u64);

impl RouteKey {
    /// The key of one limit of one route. Both indices must fit in 32 bits.
    pub fn new(route_index: usize, limit_index: usize) -> (key: Self)
        requires
            route_index <= u32::MAX,
            limit_index <= u32::MAX,
        ensures
            key.0 == packed_key(route_index as int, limit_index as int),
            key.0 == route_index * 0x1_0000_0000 + limit_index,
            key_route(key.0) == route_index,
            key_limit(key.0) == limit_index,
    {
        let high: u64 = route_index as u64;
        let low: u64 = limit_index as u64;
        assert((high << 32) | low == high * 0x1_0000_0000 + low) by (bit_vector)
            requires
                high <= 0xffff_ffff,
                low <= 0xffff_ffff,
        ;
        RouteKey((high << 32) | low)
    }

    /// Index of the route.
    pub fn route_index(self) -> (index: usize)
        ensures
            index == key_route(self.0),
            index == self.0 as int / 0x1_0000_0000,
    {
        let key: u64 = self.0;
        assert(key >> 32 == key / 0x1_0000_0000) by (bit_vector);
        (key >> 32) as usize
    }

    /// Index of the limit within the route.
    pub fn limit_index(self) -> (index: usize)
        ensures
            index == key_limit(self.0),
            index == self.0 as int % 0x1_0000_0000,
    {
        let key: u64 = self.0;
        assert(key & 0xffff_ffff == key % 0x1_0000_0000) by (bit_vector);
        (key & 0xffff_ffff) as usize
    }
}

/// Packing loses nothing: the two indices come back from the key, so two different limits never
/// share one.
pub proof fn lemma_key_round_trip(route: int, limit: int)
    requires
        0 <= route <= u32::MAX,
        0 <= limit <= u32::MAX,
    ensures
        packed_key(route, limit) == route * KEY_STRIDE + limit,
        key_route(packed_key(route, limit)) == route,
        key_limit(packed_key(route, limit)) == limit,
{
}

/// Every key is the key of the two indices that it speaks of.
pub proof fn lemma_key_is_packed(key: u64)
    ensures
        packed_key(key_route(key), key_limit(key)) == key,
        0 <= key_route(key) <= u32::MAX,
        0 <= key_limit(key) <= u32::MAX,
{
}

} // verus!
