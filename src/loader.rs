//! Per-route data loaders and the resources they create.
use crate::params::ParamsMap;
use crate::route::RouteContext;
use crate::url::Url;
use vstd::prelude::*;

verus! {

/// A resource created by a loader, with the parameters and query it was
/// created for.
pub struct CachedResource {
    pub id: u64,
    pub params: ParamsMap,
    pub query: String,
}

/// The loader that a route declares, with the resource it last created.
pub struct Loader {
    pub resource: Option<CachedResource>,
}

impl Loader {
    /// A loader that has created no resource yet.
    pub fn new() -> (r: Loader)
        ensures
            r.resource is None,
    {
        Loader { resource: None }
    }
}

/// Whether `loader` holds a resource created for `params` and `query`.
pub open spec fn reusable(loader: Loader, params: Map<Seq<char>, Seq<char>>, query: Seq<char>) -> bool {
    match loader.resource {
        Some(c) => c.params@ == params && c.query@ == query,
        None => false,
    }
}

/// The resource of the route's loader for the route's parameters and
/// `query`: the one cached on the route where it was created for the same
/// parameters and query, else a fresh one from `factory`, which is then
/// cached in its place.
pub fn use_loader<F: FnOnce() -> u64>(route: &mut RouteContext, query: &str, factory: F) -> (r: u64)
    requires
        old(route).loader is Some,
        factory.requires(()),
    ensures
        final(route).base_path == old(route).base_path,
        final(route).path == old(route).path,
        final(route).params == old(route).params,
        final(route).child == old(route).child,
        reusable(old(route).loader.unwrap(), old(route).params@, query@) ==> {
            &&& r == old(route).loader.unwrap().resource.unwrap().id
            &&& final(route).loader == old(route).loader
        },
        !reusable(old(route).loader.unwrap(), old(route).params@, query@) ==> {
            &&& factory.ensures((), r)
            &&& final(route).loader matches Some(l) && l.resource matches Some(c) && c.id == r
                && c.params@ == old(route).params@ && c.query@ == query@
        },
{
    if let Some(l) = &route.loader {
        if let Some(c) = &l.resource {
            if c.params.same_as(&route.params) && same_text(c.query.as_str(), query) {
                return c.id;
            }
        }
    }
    let id = factory();
    let params = route.params.duplicate();
    route.loader = Some(
        Loader { resource: Some(CachedResource { id, params, query: String::from_str(query) }) },
    );
    id
}

/// The key of a resource that fetches a route's data from the server: the
/// route's parameters, and a URL of the route's own path and the current
/// query, with no origin and no fragment, so that a change of fragment alone
/// fetches nothing anew.
pub fn transport_key(params: &ParamsMap, route_path: &str, search: &str) -> (r: (ParamsMap, Url))
    ensures
        r.0@ == params@,
        r.1.origin@.len() == 0,
        r.1.pathname@ == route_path@,
        r.1.search@ == search@,
        r.1.hash@.len() == 0,
{
    let url = Url {
        origin: String::new(),
        pathname: String::from_str(route_path),
        search: String::from_str(search),
        hash: String::new(),
    };
    (params.duplicate(), url)
}

/// The address from which a route's data is fetched: the route's path
/// followed by the query.
pub fn transport_url(route_path: &str, search: &str) -> (r: String)
    ensures
        r@ == route_path@ + search@,
{
    String::from_str(route_path).concat(search)
}

/// Whether two strings hold the same characters.
fn same_text(a: &str, b: &str) -> (r: bool)
    ensures
        r == (a@ == b@),
{
    let n = a.unicode_len();
    if n != b.unicode_len() {
        return false;
    }
    let mut i: usize = 0;
    while i < n
        invariant
            n == a@.len(),
            n == b@.len(),
            i <= n,
            forall|k: int| 0 <= k < i ==> a@[k] == b@[k],
        decreases n - i,
    {
        if a.get_char(i) != b.get_char(i) {
            return false;
        }
        i = i + 1;
    }
    assert(a@ =~= b@);
    true
}

} // verus!
