//! Builder API for configuring the rate limiting middleware.
use http::Method;
use std::time::Duration;
use vstd::prelude::*;

use crate::clock::{duration_nanos, is_clock_reading};
use crate::middleware::{
    can_be_keyed, has_limit, initial_tats, limits_before, tat_at, RateLimitMiddleware,
};
use crate::types::{
    key_limit, key_route, limit_models, optional_text, packed_key, route_models, LimitModel,
    RateLimit, Route, RouteModel, ThrottleBehavior, KEY_STRIDE,
};

verus! {

/// Builder for configuring a single route (without host scope).
///
/// Handed to the closure of [`RateLimitBuilder::route`]. Configure the route and the closure's
/// result is added to the middleware.
#[derive(Debug)]
pub struct RouteBuilder {
    host: Option<String>,
    method: Option<Method>,
    path_prefix: String,
    limits: Vec<RateLimit>,
    on_limit: ThrottleBehavior,
}

impl View for RouteBuilder {
    type V = RouteModel;

    closed spec fn view(&self) -> RouteModel {
        RouteModel {
            host: optional_text(self.host),
            method: self.method,
            path_prefix: self.path_prefix@,
            limits: limit_models(self.limits@),
            on_limit: self.on_limit,
        }
    }
}

impl Clone for RouteBuilder {
    fn clone(&self) -> (copy: Self)
        ensures
            copy@ == self@,
    {
        proof {
            use_type_invariant(self);
        }
        let limits = self.limits.clone();
        assert(limits@ =~= self.limits@);
        RouteBuilder {
            host: self.host.clone(),
            method: self.method.clone(),
            path_prefix: self.path_prefix.clone(),
            limits,
            on_limit: self.on_limit,
        }
    }
}

impl Default for RouteBuilder {
    fn default() -> (builder: Self)
        ensures
            builder@ == RouteModel::blank(),
    {
        RouteBuilder {
            host: None,
            method: None,
            path_prefix: String::new(),
            limits: Vec::new(),
            on_limit: ThrottleBehavior::default(),
        }
    }
}

impl RouteBuilder {
    #[verifier::type_invariant]
    spec fn holds_valid_limits(self) -> bool {
        forall|i: int| 0 <= i < self.limits@.len() ==> (#[trigger] self.limits@[i])@.is_valid()
    }

    fn new() -> (builder: Self)
        ensures
            builder@ == RouteModel::blank(),
    {
        Self::default()
    }

    /// Build the route, for which at least one limit must have been set with `.limit()`.
    ///
    /// Returns a [`Route`] that can be passed to [`RateLimitBuilder::add_route`].
    #[must_use]
    pub fn build(self) -> (route: Route)
        requires
            self@.limits.len() > 0,
        ensures
            route@ == self@,
            route@.has_valid_limits(),
    {
        proof {
            use_type_invariant(&self);
        }
        Route {
            host: self.host,
            method: self.method,
            path_prefix: self.path_prefix,
            limits: self.limits,
            on_limit: self.on_limit,
        }
    }

    /// Set the host to match (e.g., "api.example.com").
    ///
    /// Note: Consider using [`RateLimitBuilder::host`] instead if you're configuring multiple
    /// routes for the same host.
    #[must_use]
    pub fn host<S: Into<String>>(self, host: S) -> (builder: Self)
        ensures
            exists|text: String| #[trigger]
                call_ensures(<S as Into<String>>::into, (host,), text) && builder@ == (RouteModel {
                    host: Some(text@),
                    ..self@
                }),
    {
        proof {
            use_type_invariant(&self);
        }
        let text: String = host.into();
        assert(call_ensures(<S as Into<String>>::into, (host,), text));
        RouteBuilder { host: Some(text), ..self }
    }

    /// Set the HTTP method to match.
    #[must_use]
    pub fn method(self, method: Method) -> (builder: Self)
        ensures
            builder@ == (RouteModel { method: Some(method), ..self@ }),
    {
        proof {
            use_type_invariant(&self);
        }
        RouteBuilder { method: Some(method), ..self }
    }

    /// Set the path prefix to match (e.g., "/order").
    #[must_use]
    pub fn path<S: Into<String>>(self, path_prefix: S) -> (builder: Self)
        ensures
            exists|text: String| #[trigger]
                call_ensures(<S as Into<String>>::into, (path_prefix,), text) && builder@ == (
                RouteModel { path_prefix: text@, ..self@ }),
    {
        proof {
            use_type_invariant(&self);
        }
        let text: String = path_prefix.into();
        assert(call_ensures(<S as Into<String>>::into, (path_prefix,), text));
        RouteBuilder { path_prefix: text, ..self }
    }

    /// Add a rate limit.
    #[must_use]
    pub fn limit(self, requests: u32, window: Duration) -> (builder: Self)
        requires
            requests > 0,
            0 < duration_nanos(window) <= u64::MAX,
        ensures
            builder@ == (RouteModel {
                limits: self@.limits.push(LimitModel::of(requests, window)),
                ..self@
            }),
    {
        proof {
            use_type_invariant(&self);
        }
        let ghost before = self@;
        let mut limits = self.limits;
        limits.push(RateLimit::new(requests, window));
        assert(limit_models(limits@) =~= before.limits.push(LimitModel::of(requests, window)));
        RouteBuilder {
            host: self.host,
            method: self.method,
            path_prefix: self.path_prefix,
            limits,
            on_limit: self.on_limit,
        }
    }

    /// Set the behavior when rate limit is exceeded.
    ///
    /// Defaults to [`ThrottleBehavior::Delay`] if not called.
    #[must_use]
    pub fn on_limit(self, behavior: ThrottleBehavior) -> (builder: Self)
        ensures
            builder@ == (RouteModel { on_limit: behavior, ..self@ }),
    {
        proof {
            use_type_invariant(&self);
        }
        RouteBuilder { on_limit: behavior, ..self }
    }
}

/// Builder for configuring a single route within a host scope.
///
/// Handed to the closure of [`HostBuilder::route`]. Configure the route and the closure's result
/// is added to the host.
#[derive(Debug)]
pub struct HostRouteBuilder {
    method: Option<Method>,
    path_prefix: String,
    limits: Vec<RateLimit>,
    on_limit: ThrottleBehavior,
}

impl View for HostRouteBuilder {
    type V = RouteModel;

    closed spec fn view(&self) -> RouteModel {
        RouteModel {
            host: None,
            method: self.method,
            path_prefix: self.path_prefix@,
            limits: limit_models(self.limits@),
            on_limit: self.on_limit,
        }
    }
}

impl Clone for HostRouteBuilder {
    fn clone(&self) -> (copy: Self)
        ensures
            copy@ == self@,
    {
        proof {
            use_type_invariant(self);
        }
        let limits = self.limits.clone();
        assert(limits@ =~= self.limits@);
        HostRouteBuilder {
            method: self.method.clone(),
            path_prefix: self.path_prefix.clone(),
            limits,
            on_limit: self.on_limit,
        }
    }
}

impl Default for HostRouteBuilder {
    fn default() -> (builder: Self)
        ensures
            builder@ == RouteModel::blank(),
    {
        HostRouteBuilder {
            method: None,
            path_prefix: String::new(),
            limits: Vec::new(),
            on_limit: ThrottleBehavior::default(),
        }
    }
}

impl HostRouteBuilder {
    #[verifier::type_invariant]
    spec fn holds_valid_limits(self) -> bool {
        forall|i: int| 0 <= i < self.limits@.len() ==> (#[trigger] self.limits@[i])@.is_valid()
    }

    fn new() -> (builder: Self)
        ensures
            builder@ == RouteModel::blank(),
    {
        Self::default()
    }

    /// Set the HTTP method to match.
    #[must_use]
    pub fn method(self, method: Method) -> (builder: Self)
        ensures
            builder@ == (RouteModel { method: Some(method), ..self@ }),
    {
        proof {
            use_type_invariant(&self);
        }
        HostRouteBuilder { method: Some(method), ..self }
    }

    /// Set the path prefix to match (e.g., "/order").
    #[must_use]
    pub fn path<S: Into<String>>(self, path_prefix: S) -> (builder: Self)
        ensures
            exists|text: String| #[trigger]
                call_ensures(<S as Into<String>>::into, (path_prefix,), text) && builder@ == (
                RouteModel { path_prefix: text@, ..self@ }),
    {
        proof {
            use_type_invariant(&self);
        }
        let text: String = path_prefix.into();
        assert(call_ensures(<S as Into<String>>::into, (path_prefix,), text));
        HostRouteBuilder { path_prefix: text, ..self }
    }

    /// Add a rate limit.
    #[must_use]
    pub fn limit(self, requests: u32, window: Duration) -> (builder: Self)
        requires
            requests > 0,
            0 < duration_nanos(window) <= u64::MAX,
        ensures
            builder@ == (RouteModel {
                limits: self@.limits.push(LimitModel::of(requests, window)),
                ..self@
            }),
    {
        proof {
            use_type_invariant(&self);
        }
        let ghost before = self@;
        let mut limits = self.limits;
        limits.push(RateLimit::new(requests, window));
        assert(limit_models(limits@) =~= before.limits.push(LimitModel::of(requests, window)));
        HostRouteBuilder {
            method: self.method,
            path_prefix: self.path_prefix,
            limits,
            on_limit: self.on_limit,
        }
    }

    /// Set the behavior when rate limit is exceeded.
    ///
    /// Defaults to [`ThrottleBehavior::Delay`] if not called.
    #[must_use]
    pub fn on_limit(self, behavior: ThrottleBehavior) -> (builder: Self)
        ensures
            builder@ == (RouteModel { on_limit: behavior, ..self@ }),
    {
        proof {
            use_type_invariant(&self);
        }
        HostRouteBuilder { on_limit: behavior, ..self }
    }
}

/// A host and the routes configured for it so far.
#[verifier::ext_equal]
pub ghost struct HostModel {
    pub host: Seq<char>,
    pub routes: Seq<RouteModel>,
}

/// Whether every route has at least one limit.
pub open spec fn all_limited(routes: Seq<RouteModel>) -> bool {
    forall|i: int| 0 <= i < routes.len() ==> (#[trigger] routes[i]).limits.len() > 0
}

/// Whether the numbers of every limit of every route belong together.
pub open spec fn all_valid(routes: Seq<RouteModel>) -> bool {
    forall|i: int| 0 <= i < routes.len() ==> (#[trigger] routes[i]).has_valid_limits()
}

/// Whether every route is bound to `host`.
pub open spec fn all_bound_to(host: Seq<char>, routes: Seq<RouteModel>) -> bool {
    forall|i: int| 0 <= i < routes.len() ==> (#[trigger] routes[i]).host == Some(host)
}

/// Builder for configuring routes within a specific host scope.
///
/// Created by [`RateLimitBuilder::host`]. All routes created within this builder have the host
/// set.
#[derive(Debug)]
pub struct HostBuilder {
    host: String,
    routes: Vec<Route>,
}

impl View for HostBuilder {
    type V = HostModel;

    closed spec fn view(&self) -> HostModel {
        HostModel { host: self.host@, routes: route_models(self.routes@) }
    }
}

impl Clone for HostBuilder {
    fn clone(&self) -> (copy: Self)
        ensures
            copy@ == self@,
    {
        proof {
            use_type_invariant(self);
        }
        let routes = self.routes.clone();
        assert(route_models(routes@) =~= route_models(self.routes@));
        HostBuilder { host: self.host.clone(), routes }
    }
}

impl HostBuilder {
    #[verifier::type_invariant]
    spec fn is_scoped(self) -> bool {
        all_limited(self@.routes) && all_valid(self@.routes) && all_bound_to(
            self@.host,
            self@.routes,
        )
    }

    fn new(host: String) -> (builder: Self)
        ensures
            builder@ == (HostModel { host: host@, routes: Seq::empty() }),
    {
        let builder = HostBuilder { host, routes: Vec::new() };
        assert(builder@.routes =~= Seq::empty());
        builder
    }

    /// Add a route within this host using a closure-based configuration, which must set at least
    /// one limit.
    ///
    /// The host is automatically set for each route.
    #[must_use]
    pub fn route<F>(self, configure: F) -> (builder: Self) where
        F: FnOnce(HostRouteBuilder) -> HostRouteBuilder,

        requires
            forall|blank: HostRouteBuilder|
                blank@ == RouteModel::blank() ==> #[trigger] call_requires(configure, (blank,)),
            forall|blank: HostRouteBuilder, configured: HostRouteBuilder|
                blank@ == RouteModel::blank() && #[trigger] call_ensures(
                    configure,
                    (blank,),
                    configured,
                ) ==> configured@.limits.len() > 0,
        ensures
            builder@.host == self@.host,
            all_valid(builder@.routes),
            exists|blank: HostRouteBuilder, configured: HostRouteBuilder|
                blank@ == RouteModel::blank() && #[trigger] call_ensures(
                    configure,
                    (blank,),
                    configured,
                ) && builder@.routes == self@.routes.push(
                    RouteModel { host: Some(self@.host), ..configured@ },
                ),
    {
        proof {
            use_type_invariant(&self);
        }
        let ghost before = self@;
        let blank = HostRouteBuilder::new();
        let ghost given = blank;
        let configured = configure(blank);
        proof {
            use_type_invariant(&configured);
        }
        let ghost result = configured;
        let route = Route {
            host: Some(self.host.clone()),
            method: configured.method,
            path_prefix: configured.path_prefix,
            limits: configured.limits,
            on_limit: configured.on_limit,
        };
        let ghost added = route@;
        let mut routes = self.routes;
        routes.push(route);
        proof {
            assert(added == (RouteModel { host: Some(before.host), ..result@ }));
            assert(route_models(routes@) =~= before.routes.push(added));
            assert(call_ensures(configure, (given,), result));
        }
        HostBuilder { host: self.host, routes }
    }
}

/// Builder for configuring a [`RateLimitMiddleware`].
#[derive(Debug)]
pub struct RateLimitBuilder {
    routes: Vec<Route>,
}

impl View for RateLimitBuilder {
    type V = Seq<RouteModel>;

    closed spec fn view(&self) -> Seq<RouteModel> {
        route_models(self.routes@)
    }
}

impl Clone for RateLimitBuilder {
    fn clone(&self) -> (copy: Self)
        ensures
            copy@ == self@,
    {
        proof {
            use_type_invariant(self);
        }
        let routes = self.routes.clone();
        assert(route_models(routes@) =~= route_models(self.routes@));
        RateLimitBuilder { routes }
    }
}

impl Default for RateLimitBuilder {
    fn default() -> (builder: Self)
        ensures
            builder@ == Seq::<RouteModel>::empty(),
    {
        let builder = RateLimitBuilder { routes: Vec::new() };
        assert(builder@ =~= Seq::empty());
        builder
    }
}

impl RateLimitBuilder {
    #[verifier::type_invariant]
    spec fn is_limited(self) -> bool {
        all_limited(self@)
    }

    /// Create a new builder.
    #[must_use]
    pub fn new() -> (builder: Self)
        ensures
            builder@ == Seq::<RouteModel>::empty(),
    {
        Self::default()
    }

    /// Add a route using a closure-based configuration, which must set at least one limit.
    #[must_use]
    pub fn route<F>(self, configure: F) -> (builder: Self) where
        F: FnOnce(RouteBuilder) -> RouteBuilder,

        requires
            forall|blank: RouteBuilder|
                blank@ == RouteModel::blank() ==> #[trigger] call_requires(configure, (blank,)),
            forall|blank: RouteBuilder, configured: RouteBuilder|
                blank@ == RouteModel::blank() && #[trigger] call_ensures(
                    configure,
                    (blank,),
                    configured,
                ) ==> configured@.limits.len() > 0,
        ensures
            exists|blank: RouteBuilder, configured: RouteBuilder|
                blank@ == RouteModel::blank() && #[trigger] call_ensures(
                    configure,
                    (blank,),
                    configured,
                ) && builder@ == self@.push(configured@),
            all_valid(self@) ==> all_valid(builder@),
    {
        let blank = RouteBuilder::new();
        let ghost given = blank;
        let configured = configure(blank);
        let ghost result = configured;
        assert(call_ensures(configure, (given,), result));
        self.add_route(configured.build())
    }

    /// Configure routes for a specific host using a scoped builder.
    ///
    /// This is the preferred way to configure multiple routes for the same host, as it avoids
    /// repeating the host for each route.
    #[must_use]
    pub fn host<S, F>(self, host: S, configure: F) -> (builder: Self) where
        S: Into<String>,
        F: FnOnce(HostBuilder) -> HostBuilder,

        requires
            forall|text: String, blank: HostBuilder|
                #![trigger call_ensures(<S as Into<String>>::into, (host,), text), call_requires(configure, (blank,))]
                call_ensures(<S as Into<String>>::into, (host,), text) && blank@ == (HostModel {
                    host: text@,
                    routes: Seq::empty(),
                }) ==> call_requires(configure, (blank,)),
        ensures
            exists|text: String, blank: HostBuilder, configured: HostBuilder|
                #![trigger call_ensures(<S as Into<String>>::into, (host,), text), call_ensures(configure, (blank,), configured)]
                call_ensures(<S as Into<String>>::into, (host,), text) && blank@ == (HostModel {
                    host: text@,
                    routes: Seq::empty(),
                }) && call_ensures(configure, (blank,), configured) && builder@ == self@
                    + configured@.routes && all_bound_to(configured@.host, configured@.routes),
            all_valid(self@) ==> all_valid(builder@),
    {
        proof {
            use_type_invariant(&self);
        }
        let ghost before = self@;
        let text: String = host.into();
        let ghost given_text = text;
        let blank = HostBuilder::new(text);
        let ghost given = blank;
        assert(call_ensures(<S as Into<String>>::into, (host,), given_text));
        let configured = configure(blank);
        proof {
            use_type_invariant(&configured);
        }
        let ghost result = configured;
        let mut routes = self.routes;
        let mut scoped = configured.routes;
        routes.append(&mut scoped);
        proof {
            assert(route_models(routes@) =~= before + result@.routes);
            assert(call_ensures(configure, (given,), result));
        }
        RateLimitBuilder { routes }
    }

    /// Add a pre-configured route built via [`RouteBuilder::build`]. It must have at least one
    /// limit.
    #[must_use]
    pub fn add_route(self, route: Route) -> (builder: Self)
        requires
            route@.limits.len() > 0,
        ensures
            builder@ == self@.push(route@),
            all_valid(self@) && route@.has_valid_limits() ==> all_valid(builder@),
    {
        proof {
            use_type_invariant(&self);
        }
        let ghost before = self@;
        let ghost added = route@;
        let mut routes = self.routes;
        routes.push(route);
        assert(route_models(routes@) =~= before.push(added));
        RateLimitBuilder { routes }
    }

    /// Whether the routes are few enough to be built: route and limit indices must fit in 32 bits,
    /// and the number of limits must fit in a `usize`.
    pub fn can_build(&self) -> (possible: bool)
        ensures
            possible == can_be_keyed(self@),
    {
        let n: usize = self.routes.len();
        if n as u64 > KEY_STRIDE {
            return false;
        }
        let mut total: usize = 0;
        let mut i: usize = 0;
        while i < n
            invariant
                i <= n,
                n == self.routes@.len(),
                n == self@.len(),
                n <= KEY_STRIDE,
                total == limits_before(self@, i as int),
                forall|j: int| 0 <= j < i ==> (#[trigger] self@[j]).limits.len() <= KEY_STRIDE,
            decreases n - i,
        {
            proof {
                lemma_limits_before_grows(self@, i + 1, n as int);
                assert(self.routes@[i as int]@ == self@[i as int]);
            }
            let count: usize = self.routes[i].limits.len();
            if count as u64 > KEY_STRIDE {
                return false;
            }
            match total.checked_add(count) {
                Some(sum) => {
                    total = sum;
                },
                None => {
                    return false;
                },
            }
            i += 1;
        }
        true
    }

    /// Build the middleware.
    ///
    /// The routes keep their order. For each one, the number of limits before it is worked out. All
    /// state is allocated here: each limit gets its entry, with nothing pending, and there are no
    /// others. The clock of the limiter starts now. Route and limit indices must fit in 32 bits.
    #[must_use]
    pub fn build(self) -> (limiter: RateLimitMiddleware)
        requires
            can_be_keyed(self@),
        ensures
            limiter@.is_sound(),
            limiter@.routes == self@,
            limiter@.offsets.len() == self@.len(),
            forall|i: int|
                0 <= i < self@.len() ==> #[trigger] limiter@.offsets[i] == limits_before(self@, i),
            limiter@.tats == initial_tats(self@),
            forall|key: u64| #[trigger]
                limiter@.tats.contains_key(key) <==> has_limit(
                    self@,
                    key_route(key),
                    key_limit(key),
                ),
            limiter@.is_allocated(),
            limiter@.tats.len() == limits_before(self@, self@.len() as int),
            forall|route: int, limit: int|
                has_limit(self@, route, limit) ==> #[trigger] tat_at(
                    limiter@.tats,
                    packed_key(route, limit),
                ) == 0,
            all_limited(limiter@.routes),
            all_valid(self@) ==> all_valid(limiter@.routes),
            is_clock_reading(limiter@.start),
    {
        proof {
            use_type_invariant(&self);
        }
        let ghost models = self@;
        let routes = self.routes;
        let n: usize = routes.len();
        // Precompute flat offsets for each route's state entries
        let mut offsets: Vec<usize> = Vec::with_capacity(n);
        let mut total: usize = 0;
        let mut i: usize = 0;
        while i < n
            invariant
                i <= n,
                n == routes@.len(),
                models == route_models(routes@),
                can_be_keyed(models),
                total == limits_before(models, i as int),
                offsets@.len() == i,
                forall|j: int|
                    0 <= j < i ==> #[trigger] offsets@[j] == limits_before(models, j),
            decreases n - i,
        {
            proof {
                lemma_limits_before_grows(models, i + 1, n as int);
                assert(routes@[i as int]@ == models[i as int]);
            }
            offsets.push(total);
            total += routes[i].limits.len();
            i += 1;
        }
        RateLimitMiddleware::assemble(routes, offsets)
    }

    /// The places where a catch-all route directly precedes a more specific one, as pairs of their
    /// indices, in order.
    ///
    /// All matching routes' limits are applied, so there the catch-all affects requests intended
    /// for the specific route. That may be a mistake in the configuration.
    pub fn warn_catch_all_route_order(&self) -> (warnings: Vec<(usize, usize)>)
        ensures
            forall|k: int|
                0 <= k < warnings@.len() ==> shadows(
                    self@,
                    (#[trigger] warnings@[k]).0 as int,
                    warnings@[k].1 as int,
                ),
            forall|c: int, s: int| #[trigger]
                shadows(self@, c, s) ==> exists|k: int|
                    0 <= k < warnings@.len() && #[trigger] warnings@[k] == (c as usize, s as usize),
            forall|j: int, k: int|
                0 <= j < k < warnings@.len() ==> (#[trigger] warnings@[j]).1 < (
                #[trigger] warnings@[k]).1,
    {
        let mut warnings: Vec<(usize, usize)> = Vec::new();
        let mut last_catch_all: Option<usize> = None;
        let n: usize = self.routes.len();
        let mut i: usize = 0;
        while i < n
            invariant
                i <= n,
                n == self.routes@.len(),
                n == self@.len(),
                last_catch_all == (if i > 0 && self@[i - 1].is_catch_all() {
                    Some((i - 1) as usize)
                } else {
                    None
                }),
                forall|k: int|
                    0 <= k < warnings@.len() ==> shadows(
                        self@,
                        (#[trigger] warnings@[k]).0 as int,
                        warnings@[k].1 as int,
                    ) && warnings@[k].1 < i,
                forall|c: int, s: int| #[trigger]
                    shadows(self@, c, s) && s < i ==> exists|k: int|
                        0 <= k < warnings@.len() && #[trigger] warnings@[k] == (
                            c as usize,
                            s as usize,
                        ),
                forall|j: int, k: int|
                    0 <= j < k < warnings@.len() ==> (#[trigger] warnings@[j]).1 < (
                    #[trigger] warnings@[k]).1,
            decreases n - i,
        {
            let ghost earlier = warnings@;
            assert(self.routes@[i as int]@ == self@[i as int]);
            if self.routes[i].is_catch_all() {
                last_catch_all = Some(i);
            } else if let Some(catch_all_index) = last_catch_all {
                warnings.push((catch_all_index, i));
                assert(shadows(self@, catch_all_index as int, i as int));
                last_catch_all = None;
            }
            proof {
                assert forall|c: int, s: int| #[trigger]
                    shadows(self@, c, s) && s < i + 1 implies exists|k: int|
                    0 <= k < warnings@.len() && #[trigger] warnings@[k] == (
                        c as usize,
                        s as usize,
                    ) by {
                    if s < i {
                        let k = choose|k: int|
                            0 <= k < earlier.len() && #[trigger] earlier[k] == (
                                c as usize,
                                s as usize,
                            );
                        assert(warnings@[k] == earlier[k]);
                    } else {
                        assert(warnings@[warnings@.len() - 1] == (c as usize, s as usize));
                    }
                }
            }
            i += 1;
        }
        warnings
    }
}

/// Whether the routes at `catch_all` and `specific` are a catch-all and a specific route right
/// after it.
pub open spec fn shadows(routes: Seq<RouteModel>, catch_all: int, specific: int) -> bool {
    &&& 0 <= catch_all
    &&& specific == catch_all + 1
    &&& specific < routes.len()
    &&& routes[catch_all].is_catch_all()
    &&& !routes[specific].is_catch_all()
}

proof fn lemma_limits_before_grows(routes: Seq<RouteModel>, from: int, to: int)
    requires
        from <= to,
    ensures
        limits_before(routes, from) <= limits_before(routes, to),
    decreases to - from,
{
    if from < to {
        lemma_limits_before_grows(routes, from, to - 1);
    }
}

} // verus!
