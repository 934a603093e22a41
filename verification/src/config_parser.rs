//! The configuration's records: static endpoints, store mounts, and the
//! search of an endpoint list by request path.
use crate::utils::{compare_path, path_matches};
use vstd::prelude::*;

verus! {

/// A static route: a path template with the status and body template to answer with.
#[derive(Debug)]
pub struct Endpoint {
    pub path: String,
    pub status: u16,
    pub body: String,
}

/// A store to mount: its path prefix and the JSON text of its first document.
#[derive(Debug)]
pub struct DB {
    pub path: String,
    pub data: String,
}

/// The whole configuration: per method, in the order given, the endpoints
/// in the order given; and the stores to mount.
#[derive(Debug)]
pub struct Config {
    pub endpoints: Vec<(String, Vec<Endpoint>)>,
    pub db: Option<Vec<DB>>,
}

/// The model of an endpoint.
pub struct Route {
    pub path: Seq<char>,
    pub status: u16,
    pub body: Seq<char>,
}

impl View for Endpoint {
    type V = Route;

    open spec fn view(&self) -> Route {
        Route { path: self.path@, status: self.status, body: self.body@ }
    }
}

impl Clone for Endpoint {
    fn clone(&self) -> (r: Self)
        ensures
            r@ == self@,
    {
        Endpoint { path: self.path.clone(), status: self.status, body: self.body.clone() }
    }
}

impl Clone for DB {
    fn clone(&self) -> (r: Self)
        ensures
            r.path@ == self.path@,
            r.data@ == self.data@,
    {
        DB { path: self.path.clone(), data: self.data.clone() }
    }
}

/// The models of a list of endpoints.
pub open spec fn routes(endpoints: Seq<Endpoint>) -> Seq<Route> {
    Seq::new(endpoints.len(), |i: int| endpoints[i]@)
}

/// The first route at or after `from` whose template matches `path`.
pub open spec fn route_index_from(list: Seq<Route>, path: Seq<char>, from: int) -> Option<int>
    decreases list.len() - from,
{
    if from >= list.len() {
        None
    } else if path_matches(list[from].path, path) {
        Some(from)
    } else {
        route_index_from(list, path, from + 1)
    }
}

/// The first route whose template matches `path`.
pub open spec fn first_route(list: Seq<Route>, path: Seq<char>) -> Option<Route> {
    match route_index_from(list, path, 0) {
        Some(i) => Some(list[i]),
        None => None,
    }
}

/// What `route_index_from` finds is the first route that matches, and `None`
/// means that none does.
pub proof fn lemma_route_index_from(list: Seq<Route>, path: Seq<char>, from: int)
    requires
        0 <= from,
    ensures
        match route_index_from(list, path, from) {
            Some(i) => from <= i < list.len() && path_matches(list[i].path, path) && forall|j: int|
                from <= j < i ==> !path_matches(#[trigger] list[j].path, path),
            None => forall|j: int| from <= j < list.len() ==> !path_matches(#[trigger] list[j].path, path),
        },
    decreases list.len() - from,
{
    if from < list.len() && !path_matches(list[from].path, path) {
        lemma_route_index_from(list, path, from + 1);
    }
}

/// The model of an optional endpoint.
pub open spec fn optional_route(e: Option<Endpoint>) -> Option<Route> {
    match e {
        Some(x) => Some(x@),
        None => None,
    }
}

/// Search of a list of endpoints by request path.
pub trait EndpointSearch {
    /// The routes that are searched, in order.
    spec fn listed(&self) -> Seq<Route>;

    /// The first endpoint whose template matches `key`.
    fn get_iter(&self, key: &str) -> (r: Option<Endpoint>)
        ensures
            optional_route(r) == first_route(self.listed(), key@),
    ;
}

impl EndpointSearch for Vec<Endpoint> {
    open spec fn listed(&self) -> Seq<Route> {
        routes(self@)
    }

    fn get_iter(&self, key: &str) -> (r: Option<Endpoint>) {
        let mut i: usize = 0;
        while i < self.len()
            invariant
                i <= self@.len(),
                route_index_from(routes(self@), key@, 0) == route_index_from(
                    routes(self@),
                    key@,
                    i as int,
                ),
            decreases self@.len() - i,
        {
            assert(routes(self@)[i as int] == self@[i as int]@);
            if compare_path(self[i].path.clone(), key.to_owned()) {
                return Some(self[i].clone());
            }
            i += 1;
        }
        None
    }
}

} // verus!
