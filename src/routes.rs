//! The route table: built once from service entries and a response store, then
//! consulted for each request path.

use vstd::prelude::*;

use crate::store::{is_json_text, ResponseStore};
use crate::text::{lemma_stripped_has_no_leading_slash, normalize_path, strip_slashes};

verus! {

/// A mocked endpoint as the service description gives it: the path it answers,
/// the delay before answering, and the name of its response body in the store.
#[derive(Debug, Clone)]
pub struct ServiceEntry {
    pub path: String,
    pub delay_millis: u64,
    pub source: String,
}

/// One row of the route table: a normalized path, its delay and its body.
#[derive(Debug, Clone)]
pub struct Route {
    pub path: String,
    pub delay_millis: u64,
    pub payload: String,
}

/// What a request path resolves to.
#[derive(Debug, Clone, PartialEq, Eq)]
pub enum DispatchResult {
    Found { payload: String, delay_millis: u64 },
    NotFound,
}

impl View for DispatchResult {
    type V = Option<(u64, Seq<char>)>;

    open spec fn view(&self) -> Option<(u64, Seq<char>)> {
        match self {
            DispatchResult::Found { payload, delay_millis } => Some((*delay_millis, payload@)),
            DispatchResult::NotFound => None,
        }
    }
}

/// Why a route table could not be built.
#[derive(Debug, Clone, Copy, PartialEq, Eq)]
pub enum BuildError {
    /// The entry at this position names a response source the store lacks.
    UnresolvedResponse { index: usize },
}

/// What the last of `entries` whose normalized path is `key` serves: its delay
/// and the body its source names in `store`.
pub open spec fn resolve(
    entries: Seq<ServiceEntry>,
    store: Map<Seq<char>, Seq<char>>,
    key: Seq<char>,
) -> Option<(u64, Seq<char>)>
    decreases entries.len(),
{
    if entries.len() == 0 {
        None
    } else if strip_slashes(entries.last().path@) == key {
        Some((entries.last().delay_millis, store[entries.last().source@]))
    } else {
        resolve(entries.drop_last(), store, key)
    }
}

/// The routes that `entries` describe: one per normalized path, the entry
/// registered last for a path winning over earlier ones.
pub open spec fn route_map(entries: Seq<ServiceEntry>, store: Map<Seq<char>, Seq<char>>) -> Map<
    Seq<char>,
    (u64, Seq<char>),
> {
    Map::new(
        |k: Seq<char>| resolve(entries, store, k) is Some,
        |k: Seq<char>| resolve(entries, store, k)->Some_0,
    )
}

/// Every entry's response source is in `store`.
pub open spec fn sources_resolved(
    entries: Seq<ServiceEntry>,
    store: Map<Seq<char>, Seq<char>>,
) -> bool {
    forall|i: int| 0 <= i < entries.len() ==> store.contains_key(#[trigger] entries[i].source@)
}

/// The dispatch outcome for `request_path` in a table whose routes are `table`.
pub open spec fn dispatch_outcome(
    table: Map<Seq<char>, (u64, Seq<char>)>,
    request_path: Seq<char>,
) -> Option<(u64, Seq<char>)> {
    let key = strip_slashes(request_path);
    if table.contains_key(key) {
        Some(table[key])
    } else {
        None
    }
}

pub open spec fn route_view(r: Route) -> (u64, Seq<char>) {
    (r.delay_millis, r.payload@)
}

/// The last row of `routes` for `key`.
pub open spec fn route_lookup(routes: Seq<Route>, key: Seq<char>) -> Option<(u64, Seq<char>)>
    decreases routes.len(),
{
    if routes.len() == 0 {
        None
    } else if routes.last().path@ == key {
        Some(route_view(routes.last()))
    } else {
        route_lookup(routes.drop_last(), key)
    }
}

/// No two rows share a path.
pub open spec fn routes_unique(routes: Seq<Route>) -> bool {
    forall|i: int, j: int|
        0 <= i < routes.len() && 0 <= j < routes.len() && i != j ==> (#[trigger] routes[i]).path@
            != (#[trigger] routes[j]).path@
}

/// No row's path starts with `/`.
pub open spec fn routes_normalized(routes: Seq<Route>) -> bool {
    forall|i: int|
        0 <= i < routes.len() && (#[trigger] routes[i]).path@.len() > 0 ==> routes[i].path@[0]
            != '/'
}

proof fn lemma_lookup_last(routes: Seq<Route>, key: Seq<char>, i: int)
    requires
        0 <= i < routes.len(),
        routes[i].path@ == key,
        forall|j: int| i < j < routes.len() ==> (#[trigger] routes[j]).path@ != key,
    ensures
        route_lookup(routes, key) == Some(route_view(routes[i])),
    decreases routes.len(),
{
    if i < routes.len() - 1 {
        assert(routes.last() == routes[routes.len() - 1]);
        let rest = routes.drop_last();
        assert forall|j: int| i < j < rest.len() implies (#[trigger] rest[j]).path@ != key by {
            assert(rest[j] == routes[j]);
        }
        lemma_lookup_last(rest, key, i);
    }
}

proof fn lemma_lookup_absent(routes: Seq<Route>, key: Seq<char>)
    requires
        forall|j: int| 0 <= j < routes.len() ==> (#[trigger] routes[j]).path@ != key,
    ensures
        route_lookup(routes, key) is None,
    decreases routes.len(),
{
    if routes.len() > 0 {
        let rest = routes.drop_last();
        assert(routes.last() == routes[routes.len() - 1]);
        assert forall|j: int| 0 <= j < rest.len() implies (#[trigger] rest[j]).path@ != key by {
            assert(rest[j] == routes[j]);
        }
        lemma_lookup_absent(rest, key);
    }
}

proof fn lemma_lookup_replace(routes: Seq<Route>, idx: int, r: Route, key: Seq<char>)
    requires
        routes_unique(routes),
        0 <= idx < routes.len(),
        r.path@ == routes[idx].path@,
    ensures
        route_lookup(routes.update(idx, r), key) == if key == r.path@ {
            Some(route_view(r))
        } else {
            route_lookup(routes, key)
        },
{
    let updated = routes.update(idx, r);
    if key == r.path@ {
        assert forall|j: int| idx < j < updated.len() implies (#[trigger] updated[j]).path@
            != key by {
            assert(updated[j] == routes[j]);
            assert(routes[j].path@ != routes[idx].path@);
        }
        lemma_lookup_last(updated, key, idx);
    } else if exists|i: int| 0 <= i < routes.len() && (#[trigger] routes[i]).path@ == key {
        let i = choose|i: int| 0 <= i < routes.len() && (#[trigger] routes[i]).path@ == key;
        assert forall|j: int| i < j < routes.len() implies (#[trigger] routes[j]).path@ != key by {
            assert(routes[i].path@ != routes[j].path@);
        }
        lemma_lookup_last(routes, key, i);
        assert forall|j: int| i < j < updated.len() implies (#[trigger] updated[j]).path@
            != key by {
            if j != idx {
                assert(updated[j] == routes[j]);
            }
        }
        assert(updated[i] == routes[i]);
        lemma_lookup_last(updated, key, i);
    } else {
        lemma_lookup_absent(routes, key);
        assert forall|j: int| 0 <= j < updated.len() implies (#[trigger] updated[j]).path@
            != key by {
            if j != idx {
                assert(updated[j] == routes[j]);
            }
        }
        lemma_lookup_absent(updated, key);
    }
}

proof fn lemma_resolve_last(
    entries: Seq<ServiceEntry>,
    store: Map<Seq<char>, Seq<char>>,
    key: Seq<char>,
    i: int,
)
    requires
        0 <= i < entries.len(),
        strip_slashes(entries[i].path@) == key,
        forall|j: int| i < j < entries.len() ==> strip_slashes((#[trigger] entries[j]).path@) != key,
    ensures
        resolve(entries, store, key) == Some((entries[i].delay_millis, store[entries[i].source@])),
    decreases entries.len(),
{
    assert(entries.last() == entries[entries.len() - 1]);
    if i < entries.len() - 1 {
        let rest = entries.drop_last();
        assert forall|j: int| i < j < rest.len() implies strip_slashes((#[trigger] rest[j]).path@)
            != key by {
            assert(rest[j] == entries[j]);
        }
        lemma_resolve_last(rest, store, key, i);
    }
}

proof fn lemma_resolve_absent(
    entries: Seq<ServiceEntry>,
    store: Map<Seq<char>, Seq<char>>,
    key: Seq<char>,
)
    requires
        forall|j: int| 0 <= j < entries.len() ==> strip_slashes((#[trigger] entries[j]).path@) != key,
    ensures
        resolve(entries, store, key) is None,
    decreases entries.len(),
{
    if entries.len() > 0 {
        let rest = entries.drop_last();
        assert(entries.last() == entries[entries.len() - 1]);
        assert forall|j: int| 0 <= j < rest.len() implies strip_slashes((#[trigger] rest[j]).path@)
            != key by {
            assert(rest[j] == entries[j]);
        }
        lemma_resolve_absent(rest, store, key);
    }
}

proof fn lemma_resolve_some(
    entries: Seq<ServiceEntry>,
    store: Map<Seq<char>, Seq<char>>,
    key: Seq<char>,
    i: int,
)
    requires
        0 <= i < entries.len(),
        strip_slashes(entries[i].path@) == key,
    ensures
        resolve(entries, store, key) is Some,
    decreases entries.len(),
{
    assert(entries.last() == entries[entries.len() - 1]);
    if strip_slashes(entries.last().path@) != key {
        let rest = entries.drop_last();
        assert(rest[i] == entries[i]);
        lemma_resolve_some(rest, store, key, i);
    }
}

/// Every registered entry is reachable: dispatching its path, with or without
/// leading slashes, finds a route.
pub proof fn lemma_registered_path_found(
    entries: Seq<ServiceEntry>,
    store: Map<Seq<char>, Seq<char>>,
    i: int,
    request_path: Seq<char>,
)
    requires
        0 <= i < entries.len(),
        strip_slashes(request_path) == strip_slashes(entries[i].path@),
    ensures
        dispatch_outcome(route_map(entries, store), request_path) is Some,
{
    lemma_resolve_some(entries, store, strip_slashes(request_path), i);
}

/// A request for the path of an entry that no later entry overrides is
/// answered with that entry's delay and the body its source names.
pub proof fn lemma_registered_path_serves_entry(
    entries: Seq<ServiceEntry>,
    store: Map<Seq<char>, Seq<char>>,
    i: int,
    request_path: Seq<char>,
)
    requires
        0 <= i < entries.len(),
        strip_slashes(request_path) == strip_slashes(entries[i].path@),
        forall|j: int|
            i < j < entries.len() ==> strip_slashes((#[trigger] entries[j]).path@)
                != strip_slashes(entries[i].path@),
    ensures
        dispatch_outcome(route_map(entries, store), request_path) == Some(
            (entries[i].delay_millis, store[entries[i].source@]),
        ),
{
    lemma_resolve_last(entries, store, strip_slashes(entries[i].path@), i);
}

/// A request whose normalized path matches no entry is not found.
pub proof fn lemma_unregistered_path_not_found(
    entries: Seq<ServiceEntry>,
    store: Map<Seq<char>, Seq<char>>,
    request_path: Seq<char>,
)
    requires
        forall|j: int|
            0 <= j < entries.len() ==> strip_slashes((#[trigger] entries[j]).path@)
                != strip_slashes(request_path),
    ensures
        dispatch_outcome(route_map(entries, store), request_path) is None,
{
    lemma_resolve_absent(entries, store, strip_slashes(request_path));
}

/// Two entries with the same normalized path yield one route, and it is the
/// later one's: a request for the earlier entry's path gets the later entry's
/// delay and body.
pub proof fn lemma_duplicate_path_last_wins(
    entries: Seq<ServiceEntry>,
    store: Map<Seq<char>, Seq<char>>,
    i: int,
    j: int,
)
    requires
        0 <= i < j < entries.len(),
        strip_slashes(entries[i].path@) == strip_slashes(entries[j].path@),
        forall|m: int|
            j < m < entries.len() ==> strip_slashes((#[trigger] entries[m]).path@)
                != strip_slashes(entries[j].path@),
    ensures
        dispatch_outcome(route_map(entries, store), entries[i].path@) == Some(
            (entries[j].delay_millis, store[entries[j].source@]),
        ),
        dispatch_outcome(route_map(entries, store), entries[i].path@) == dispatch_outcome(
            route_map(entries, store),
            entries[j].path@,
        ),
{
    lemma_registered_path_serves_entry(entries, store, j, entries[i].path@);
    lemma_registered_path_serves_entry(entries, store, j, entries[j].path@);
}

proof fn lemma_resolve_body(
    entries: Seq<ServiceEntry>,
    store: Map<Seq<char>, Seq<char>>,
    key: Seq<char>,
)
    ensures
        resolve(entries, store, key) matches Some(o) ==> exists|i: int|
            0 <= i < entries.len() && o.1 == store[(#[trigger] entries[i]).source@],
    decreases entries.len(),
{
    if entries.len() > 0 {
        let rest = entries.drop_last();
        lemma_resolve_body(rest, store, key);
        if strip_slashes(entries.last().path@) == key {
            assert(entries.last() == entries[entries.len() - 1]);
        } else if resolve(rest, store, key) is Some {
            let i = choose|i: int|
                0 <= i < rest.len() && resolve(rest, store, key)->Some_0.1 == store[(
                #[trigger] rest[i]).source@];
            assert(rest[i] == entries[i]);
        }
    }
}

/// Whatever a request is answered with is JSON text that serde_json accepts,
/// when the bodies come from a loaded store.
pub proof fn lemma_served_bodies_are_json(
    entries: Seq<ServiceEntry>,
    store: &ResponseStore,
    request_path: Seq<char>,
)
    requires
        store.wf(),
        sources_resolved(entries, store@),
    ensures
        dispatch_outcome(route_map(entries, store@), request_path) matches Some(o) ==> is_json_text(
            o.1,
        ),
{
    let key = strip_slashes(request_path);
    lemma_resolve_body(entries, store@, key);
    if resolve(entries, store@, key) is Some {
        let i = choose|i: int|
            0 <= i < entries.len() && resolve(entries, store@, key)->Some_0.1 == store@[(
            #[trigger] entries[i]).source@];
        store.lemma_bodies_are_json(entries[i].source@);
    }
}

/// Immutable mapping from normalized path to delay and response body.
#[derive(Debug)]
pub struct RouteTable {
    routes: Vec<Route>,
}

impl View for RouteTable {
    type V = Map<Seq<char>, (u64, Seq<char>)>;

    closed spec fn view(&self) -> Map<Seq<char>, (u64, Seq<char>)> {
        Map::new(
            |k: Seq<char>| route_lookup(self.routes@, k) is Some,
            |k: Seq<char>| route_lookup(self.routes@, k)->Some_0,
        )
    }
}

impl RouteTable {
    /// Paths are unique and normalized.
    pub closed spec fn wf(&self) -> bool {
        routes_unique(self.routes@) && routes_normalized(self.routes@)
    }

    /// No path of a well-formed table starts with `/`.
    pub proof fn lemma_keys_normalized(&self, key: Seq<char>)
        requires
            self.wf(),
        ensures
            self@.contains_key(key) && key.len() > 0 ==> key[0] != '/',
    {
        if !(exists|i: int|
            0 <= i < self.routes@.len() && (#[trigger] self.routes@[i]).path@ == key) {
            lemma_lookup_absent(self.routes@, key);
        }
    }

    /// Builds the table for `entries`, bodies taken from `store`; a path given
    /// more than once keeps its last entry. Fails on the first entry whose
    /// response source the store lacks.
    pub fn build(entries: &Vec<ServiceEntry>, store: &ResponseStore) -> (r: Result<
        RouteTable,
        BuildError,
    >)
        ensures
            r is Ok <==> sources_resolved(entries@, store@),
            r matches Ok(t) ==> t.wf() && t@ == route_map(entries@, store@),
            r matches Err(BuildError::UnresolvedResponse { index }) ==> index < entries@.len()
                && !store@.contains_key(entries@[index as int].source@) && forall|j: int|
                0 <= j < index ==> store@.contains_key(#[trigger] entries@[j].source@),
    {
        let mut routes: Vec<Route> = Vec::new();
        let mut i: usize = 0;
        while i < entries.len()
            invariant
                0 <= i <= entries@.len(),
                forall|j: int| 0 <= j < i ==> store@.contains_key(#[trigger] entries@[j].source@),
                routes_unique(routes@),
                routes_normalized(routes@),
                forall|k: Seq<char>|
                    #[trigger] route_lookup(routes@, k) == resolve(
                        entries@.take(i as int),
                        store@,
                        k,
                    ),
            decreases entries@.len() - i,
        {
            let entry = &entries[i];
            let body = match store.get(&entry.source) {
                Some(b) => b,
                None => {
                    return Err(BuildError::UnresolvedResponse { index: i });
                },
            };
            let key = normalize_path(entry.path.as_str());
            proof {
                lemma_stripped_has_no_leading_slash(entry.path@);
            }
            let ghost old_routes = routes@;
            let route = Route { path: key, delay_millis: entry.delay_millis, payload: body.clone() };
            let mut j: usize = 0;
            let mut found = false;
            while j < routes.len()
                invariant_except_break
                    !found,
                invariant
                    0 <= j <= routes@.len(),
                    routes@ == old_routes,
                    forall|m: int| 0 <= m < j ==> (#[trigger] routes@[m]).path@ != route.path@,
                ensures
                    routes@ == old_routes,
                    found ==> j < routes@.len() && routes@[j as int].path@ == route.path@,
                    !found ==> forall|m: int|
                        0 <= m < routes@.len() ==> (#[trigger] routes@[m]).path@ != route.path@,
                decreases routes@.len() - j,
            {
                if routes[j].path == route.path {
                    found = true;
                    break;
                }
                j = j + 1;
            }
            proof {
                let prefix = entries@.take(i as int + 1);
                assert(prefix.drop_last() =~= entries@.take(i as int));
                assert(prefix.last() == entries@[i as int]);
            }
            if found {
                proof {
                    assert forall|k: Seq<char>| #[trigger]
                        route_lookup(old_routes.update(j as int, route), k) == resolve(
                            entries@.take(i as int + 1),
                            store@,
                            k,
                        ) by {
                        lemma_lookup_replace(old_routes, j as int, route, k);
                    }
                }
                routes[j] = route;
            } else {
                routes.push(route);
                proof {
                    assert forall|k: Seq<char>| #[trigger] route_lookup(routes@, k) == resolve(
                        entries@.take(i as int + 1),
                        store@,
                        k,
                    ) by {
                        assert(routes@.drop_last() =~= old_routes);
                        assert(routes@.last() == route);
                        assert(route_lookup(old_routes, k) == resolve(
                            entries@.take(i as int),
                            store@,
                            k,
                        ));
                    }
                }
            }
            i = i + 1;
        }
        proof {
            assert(entries@.take(i as int) =~= entries@);
        }
        let table = RouteTable { routes };
        assert(table@ =~= route_map(entries@, store@));
        Ok(table)
    }

    /// Resolves a request path: its leading slashes are removed and the rest
    /// must equal a route's path exactly.
    pub fn dispatch(&self, request_path: &str) -> (r: DispatchResult)
        ensures
            r@ == dispatch_outcome(self@, request_path@),
    {
        let key = normalize_path(request_path);
        let mut i: usize = self.routes.len();
        while i > 0
            invariant
                0 <= i <= self.routes@.len(),
                key@ == strip_slashes(request_path@),
                forall|j: int|
                    i <= j < self.routes@.len() ==> (#[trigger] self.routes@[j]).path@ != key@,
            decreases i,
        {
            let route = &self.routes[i - 1];
            if route.path == key {
                proof {
                    lemma_lookup_last(self.routes@, key@, i - 1);
                }
                return DispatchResult::Found {
                    payload: route.payload.clone(),
                    delay_millis: route.delay_millis,
                };
            }
            i = i - 1;
        }
        proof {
            lemma_lookup_absent(self.routes@, key@);
        }
        DispatchResult::NotFound
    }
}

} // verus!
