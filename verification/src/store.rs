//! Where the arrival times are kept: a map from packed route keys to theoretical arrival times.
//!
//! The map could be changed through a shared reference by several threads. Here it is always
//! changed through `&mut`, so no other change falls between two steps of one check.
use dashmap::DashMap;
use vstd::prelude::*;

use crate::types::{key_limit, key_route, route_models, Route, RouteKey, RouteModel};

verus! {

/// A concurrent hash map.
#[verifier::external_type_specification]
#[verifier::external_body]
#[verifier::reject_recursive_types(K)]
#[verifier::reject_recursive_types(V)]
#[verifier::reject_recursive_types(S)]
pub struct ExDashMap<K, V, S>(DashMap<K, V, S>);

/// What the map holds: for each key that has an entry, its arrival time.
pub uninterp spec fn entries_of(map: DashMap<u64, u64>) -> Map<u64, u64>;

/// What an empty map holds.
pub open spec fn no_entries() -> Map<u64, u64> {
    Map::empty()
}

/// Calls `DashMap::new`: the new map has no entries.
#[verifier::external_body]
pub(crate) fn new_map() -> (map: DashMap<u64, u64>)
    ensures
        entries_of(map) == no_entries(),
{
    DashMap::new()
}

/// Calls `DashMap::get`: the value of the entry under `key`, or `None` where there is none. The
/// guard that the call returns is given up at once.
#[verifier::external_body]
pub(crate) fn get_entry(map: &DashMap<u64, u64>, key: u64) -> (value: Option<u64>)
    ensures
        value == if entries_of(*map).contains_key(key) {
            Some(entries_of(*map)[key])
        } else {
            None
        },
{
    map.get(&key).map(|entry| *entry)
}

/// Calls `DashMap::entry` and `Entry::or_insert`: makes an entry of `value` under `key` where there
/// is none, and returns the value that is there afterwards. Other entries stay as they were.
#[verifier::external_body]
pub(crate) fn entry_or_insert(map: &mut DashMap<u64, u64>, key: u64, value: u64) -> (held: u64)
    ensures
        entries_of(*final(map)) == if entries_of(*old(map)).contains_key(key) {
            entries_of(*old(map))
        } else {
            entries_of(*old(map)).insert(key, value)
        },
        held == entries_of(*final(map))[key],
{
    *map.entry(key).or_insert(value)
}

/// Calls `DashMap::insert`: afterwards the entry under `key` holds `value`, and the others are as
/// they were.
#[verifier::external_body]
pub(crate) fn set_entry(map: &mut DashMap<u64, u64>, key: u64, value: u64)
    ensures
        entries_of(*final(map)) == entries_of(*old(map)).insert(key, value),
{
    map.insert(key, value);
}

/// Calls `DashMap::len`: the number of entries.
#[verifier::external_body]
pub(crate) fn count_entries(map: &DashMap<u64, u64>) -> (count: usize)
    ensures
        count == entries_of(*map).len(),
{
    map.len()
}

/// Calls `DashMap::retain` with [`entry_is_live`] as the test: the entries that pass it stay with
/// their values, the others go.
#[verifier::external_body]
pub(crate) fn retain_live(map: &mut DashMap<u64, u64>, routes: &Vec<Route>, now: u64)
    ensures
        entries_of(*final(map)) == live_entries(
            route_models(routes@),
            entries_of(*old(map)),
            now,
        ),
{
    map.retain(|key, tat| entry_is_live(routes, *key, *tat, now));
}

/// Whether an entry is worth keeping at `now`: its key speaks of a limit of one of the routes, and
/// its arrival time lies less than two windows back. An arrival time of zero is that of a state
/// nothing ever happened to, and is never worth keeping.
pub open spec fn is_live(routes: Seq<RouteModel>, key: u64, tat: u64, now: u64) -> bool {
    &&& key_route(key) < routes.len()
    &&& key_limit(key) < routes[key_route(key)].limits.len()
    &&& tat > 0
    &&& tat + 2 * routes[key_route(key)].limits[key_limit(key)].window_nanos > now
}

/// The entries that are worth keeping at `now`.
pub open spec fn live_entries(
    routes: Seq<RouteModel>,
    entries: Map<u64, u64>,
    now: u64,
) -> Map<u64, u64> {
    Map::new(
        |key: u64| entries.contains_key(key) && is_live(routes, key, entries[key], now),
        |key: u64| entries[key],
    )
}

/// Whether an entry is worth keeping at `now`.
pub fn entry_is_live(routes: &Vec<Route>, key: u64, tat: u64, now: u64) -> (live: bool)
    ensures
        live == is_live(route_models(routes@), key, tat, now),
        live <==> {
            &&& key as int / 0x1_0000_0000 < routes@.len()
            &&& key as int % 0x1_0000_0000 < routes@[key as int / 0x1_0000_0000].limits@.len()
            &&& tat > 0
            &&& tat + 2 * routes@[key as int / 0x1_0000_0000].limits@[key as int
                % 0x1_0000_0000]@.window_nanos > now
        },
{
    let key = RouteKey(key);
    // Bounds check to handle edge cases
    if key.route_index() >= routes.len() {
        return false;
    }
    let route = &routes[key.route_index()];
    if key.limit_index() >= route.limits.len() {
        return false;
    }
    let window: u64 = route.limits[key.limit_index()].window_nanos();
    // Keep if TAT is within 2x window of now (recently active)
    let two_windows: u64 = window.saturating_add(window);
    tat > now.saturating_sub(two_windows)
}

} // verus!
