//! Resolution of a request: the first store mounted over its path answers
//! it; else the first static route of its method that matches its path.
use crate::assoc::{find_key, key_index, keys_of, names};
use crate::codec::parsed;
use crate::config_parser::{first_route, routes, Config, Endpoint, EndpointSearch, Route, DB};
use crate::db_handle::{outcome, process_model, DbHandle, Failure, HttpErr};
use crate::json::Json;
use crate::text::{text_pairs, texts};
use crate::utils::{extract, get_path_args};
use hteapot::HttpStatus;
use vstd::prelude::*;

verus! {

/// An answer that is ready to send.
pub struct Reply {
    pub status: HttpStatus,
    pub body: String,
}

/// What the static routes make of a request.
pub enum Routed {
    /// No route: the answer to send.
    Missing(Reply),
    /// The route that matched, and the parameters that its template binds in
    /// the request path, for the body template to be filled in.
    Found { endpoint: Endpoint, params: Option<Vec<(String, String)>> },
}

/// The model of a reply: its status and the characters of its body.
pub struct Answer {
    pub status: HttpStatus,
    pub body: Seq<char>,
}

impl View for Reply {
    type V = Answer;

    open spec fn view(&self) -> Answer {
        Answer { status: self.status, body: self.body@ }
    }
}

/// The model of what the static routes make of a request.
pub enum RoutedModel {
    Missing(Answer),
    Found { route: Route, params: Option<Seq<(Seq<char>, Seq<char>)>> },
}

/// The model of optional path parameters.
pub open spec fn optional_pairs(p: Option<Vec<(String, String)>>) -> Option<
    Seq<(Seq<char>, Seq<char>)>,
> {
    match p {
        Some(v) => Some(text_pairs(v@)),
        None => None,
    }
}

impl View for Routed {
    type V = RoutedModel;

    open spec fn view(&self) -> RoutedModel {
        match *self {
            Routed::Missing(reply) => RoutedModel::Missing(reply@),
            Routed::Found { endpoint, params } => RoutedModel::Found {
                route: endpoint@,
                params: optional_pairs(params),
            },
        }
    }
}

/// The mount paths of a list of stores.
pub open spec fn mounts(stores: Seq<DbHandle>) -> Seq<Seq<char>> {
    Seq::new(stores.len(), |i: int| stores[i].mount())
}

/// The documents of a list of stores.
pub open spec fn documents(stores: Seq<DbHandle>) -> Seq<Json> {
    Seq::new(stores.len(), |i: int| stores[i].document())
}

/// The first mount at or after `from` that begins `path`.
pub open spec fn mount_index_from(mounted: Seq<Seq<char>>, path: Seq<char>, from: int) -> Option<
    int,
>
    decreases mounted.len() - from,
{
    if from >= mounted.len() {
        None
    } else if mounted[from].is_prefix_of(path) {
        Some(from)
    } else {
        mount_index_from(mounted, path, from + 1)
    }
}

/// The first mount that begins `path`.
pub open spec fn mount_index(mounted: Seq<Seq<char>>, path: Seq<char>) -> Option<int> {
    mount_index_from(mounted, path, 0)
}

/// The reply for a store's result: 200 with the text, or the failure's own
/// status and message.
pub open spec fn store_answer(result: Result<Seq<char>, Failure>) -> Answer {
    match result {
        Ok(text) => Answer { status: HttpStatus::OK, body: text },
        Err(failure) => Answer { status: failure.status, body: failure.text },
    }
}

/// The documents after the stores have been asked, and the reply if one of
/// them is mounted over the path: the first such store serves the request.
pub open spec fn stores_model(
    mounted: Seq<Seq<char>>,
    docs: Seq<Json>,
    method: Seq<char>,
    path: Seq<char>,
    filters: Seq<(Seq<char>, Seq<char>)>,
    body: Seq<char>,
) -> (Seq<Json>, Option<Answer>) {
    match mount_index(mounted, path) {
        Some(i) => {
            let served = process_model(mounted[i], docs[i], method, path, filters, body);
            (docs.update(i, served.0), Some(store_answer(served.1)))
        },
        None => (docs, None),
    }
}

/// What the static routes make of a request: the first route, among those
/// listed for the method, whose template matches the path; 404 where the
/// method has no list, and where no route of its list matches.
pub open spec fn routes_model(
    table: Seq<(Seq<char>, Seq<Route>)>,
    method: Seq<char>,
    path: Seq<char>,
) -> RoutedModel {
    match key_index(table, method) {
        Some(m) => match first_route(table[m].1, path) {
            Some(route) => RoutedModel::Found { route, params: extract(path, route.path) },
            None => RoutedModel::Missing(
                Answer { status: HttpStatus::NotFound, body: "Not Found"@ },
            ),
        },
        None => RoutedModel::Missing(
            Answer { status: HttpStatus::NotFound, body: "Method Not Found"@ },
        ),
    }
}

/// The model of a route table.
pub open spec fn table_model(endpoints: Seq<(String, Vec<Endpoint>)>) -> Seq<
    (Seq<char>, Seq<Route>),
> {
    Seq::new(endpoints.len(), |i: int| (endpoints[i].0@, routes(endpoints[i].1@)))
}

/// The stores that a list of mounts gives, as mount path and document, in
/// the order of the list: a mount whose text is no JSON gives none.
pub open spec fn loaded(mounts: Seq<DB>) -> Seq<(Seq<char>, Json)>
    decreases mounts.len(),
{
    if mounts.len() == 0 {
        Seq::empty()
    } else {
        let before = loaded(mounts.drop_last());
        match parsed(mounts.last().data@) {
            Some(doc) => before.push((mounts.last().path@, doc)),
            None => before,
        }
    }
}

/// The mount paths, in the order of the list, whose text is no JSON.
pub open spec fn refused(mounts: Seq<DB>) -> Seq<Seq<char>>
    decreases mounts.len(),
{
    if mounts.len() == 0 {
        Seq::empty()
    } else {
        let before = refused(mounts.drop_last());
        match parsed(mounts.last().data@) {
            Some(_) => before,
            None => before.push(mounts.last().path@),
        }
    }
}

/// The stores of a list, as mount path and document.
pub open spec fn mounted(stores: Seq<DbHandle>) -> Seq<(Seq<char>, Json)> {
    Seq::new(stores.len(), |i: int| (stores[i].mount(), stores[i].document()))
}

/// What `mount_index_from` finds is the first mount that begins the path,
/// and `None` means that none does.
pub proof fn lemma_mount_index_from(mounted: Seq<Seq<char>>, path: Seq<char>, from: int)
    requires
        0 <= from,
    ensures
        match mount_index_from(mounted, path, from) {
            Some(i) => from <= i < mounted.len() && mounted[i].is_prefix_of(path) && forall|j: int|
                from <= j < i ==> !(#[trigger] mounted[j]).is_prefix_of(path),
            None => forall|j: int|
                from <= j < mounted.len() ==> !(#[trigger] mounted[j]).is_prefix_of(path),
        },
    decreases mounted.len() - from,
{
    if from < mounted.len() && !mounted[from].is_prefix_of(path) {
        lemma_mount_index_from(mounted, path, from + 1);
    }
}

/// Makes the stores of the configured mounts, in their order. A mount whose
/// text is no JSON is passed over; its path is handed back in the second list.
pub fn load_stores(mounts: &Vec<DB>) -> (r: (Vec<DbHandle>, Vec<String>))
    ensures
        mounted(r.0@) == loaded(mounts@),
        texts(r.1@) == refused(mounts@),
{
    let mut stores: Vec<DbHandle> = Vec::new();
    let mut skipped: Vec<String> = Vec::new();
    let mut i: usize = 0;
    proof {
        assert(mounts@.take(0) =~= Seq::<DB>::empty());
        assert(mounted(stores@) =~= loaded(mounts@.take(0)));
        assert(texts(skipped@) =~= refused(mounts@.take(0)));
    }
    while i < mounts.len()
        invariant
            i <= mounts@.len(),
            mounted(stores@) == loaded(mounts@.take(i as int)),
            texts(skipped@) == refused(mounts@.take(i as int)),
        decreases mounts@.len() - i,
    {
        let ghost had = mounted(stores@);
        let ghost missed = texts(skipped@);
        proof {
            assert(mounts@.take(i + 1).drop_last() =~= mounts@.take(i as int));
            assert(mounts@.take(i + 1).last() == mounts@[i as int]);
        }
        match DbHandle::new(mounts[i].path.clone(), mounts[i].data.clone()) {
            Ok(store) => {
                stores.push(store);
                assert(mounted(stores@) =~= had.push((store.mount(), store.document())));
            },
            Err(_) => {
                let path = mounts[i].path.clone();
                skipped.push(path);
                assert(texts(skipped@) =~= missed.push(path@));
            },
        }
        i += 1;
    }
    assert(mounts@.take(i as int) =~= mounts@);
    (stores, skipped)
}

/// Finds the first store that is mounted over `path`.
pub fn find_store(stores: &Vec<DbHandle>, path: &String) -> (r: Option<usize>)
    ensures
        r is Some == mount_index(mounts(stores@), path@) is Some,
        r matches Some(i) ==> mount_index(mounts(stores@), path@) == Some(i as int) && i
            < stores@.len(),
{
    let mut i: usize = 0;
    while i < stores.len()
        invariant
            i <= stores@.len(),
            mount_index(mounts(stores@), path@) == mount_index_from(
                mounts(stores@),
                path@,
                i as int,
            ),
        decreases stores@.len() - i,
    {
        assert(mounts(stores@)[i as int] == stores@[i as int].mount());
        if stores[i].is_match(path) {
            return Some(i);
        }
        i += 1;
    }
    None
}

/// Turns a store's result into a reply.
pub fn reply_of(result: Result<String, HttpErr>) -> (r: Reply)
    ensures
        r@ == store_answer(outcome(result)),
{
    match result {
        Ok(text) => Reply { status: HttpStatus::OK, body: text },
        Err(e) => Reply { status: e.status, body: e.text.to_owned() },
    }
}

/// Hands the request to the first store that is mounted over its path.
/// `None` where no store is: the static routes are next.
pub fn answer_from_stores(
    stores: &mut Vec<DbHandle>,
    method: &str,
    path: String,
    args: Vec<(String, String)>,
    body: String,
) -> (r: Option<Reply>)
    ensures
        mounts(final(stores)@) == mounts(old(stores)@),
        (documents(final(stores)@), match r {
            Some(reply) => Some(reply@),
            None => None,
        }) == stores_model(
            mounts(old(stores)@),
            documents(old(stores)@),
            method@,
            path@,
            text_pairs(args@),
            body@,
        ),
{
    let ghost before = stores@;
    match find_store(stores, &path) {
        Some(i) => {
            assert(mounts(before)[i as int] == before[i as int].mount());
            assert(documents(before)[i as int] == before[i as int].document());
            let result = stores[i].process(method, path, args, body);
            proof {
                assert(stores@ =~= before.update(i as int, stores@[i as int]));
                assert(mounts(stores@) =~= mounts(before));
                assert(documents(stores@) =~= documents(before).update(
                    i as int,
                    stores@[i as int].document(),
                ));
            }
            Some(reply_of(result))
        },
        None => None,
    }
}

/// Looks the request up in the static routes.
pub fn answer_from_routes(config: &Config, method: &str, path: &str) -> (r: Routed)
    ensures
        r@ == routes_model(table_model(config.endpoints@), method@, path@),
{
    let ghost table = table_model(config.endpoints@);
    proof {
        assert(keys_of(table) =~= names(config.endpoints@));
    }
    match find_key(&config.endpoints, method) {
        Some(m) => {
            assert(table[m as int] == (config.endpoints@[m as int].0@, routes(config.endpoints@[m as int].1@)));
            match config.endpoints[m].1.get_iter(path) {
                Some(endpoint) => {
                    let params = get_path_args(path.to_owned(), endpoint.path.clone());
                    Routed::Found { endpoint, params }
                },
                None => Routed::Missing(
                    Reply { status: HttpStatus::NotFound, body: "Not Found".to_owned() },
                ),
            }
        },
        None => Routed::Missing(
            Reply { status: HttpStatus::NotFound, body: "Method Not Found".to_owned() },
        ),
    }
}

} // verus!
