//! The document store: one JSON document mounted under a path prefix, read
//! and changed by GET, POST, PATCH and DELETE on paths into it.
use crate::assoc::{
    find_key, keys_of, lemma_key_index, lemma_remove_distinct, names, overwrite_all, upsert_all,
    without_key,
};
use crate::codec::{optional_text, parse, parsed, render, serialized};
use crate::json::{
    check_filters, entry_models, is_well_formed, lemma_array_model, lemma_array_well_formed,
    lemma_items_well_formed, lemma_object_model, lemma_overwrite_all_well_formed,
    lemma_upsert_all_well_formed, merge_entries, models, passes, well_formed, Json, JsonValue,
};
use crate::pointer::{
    index_within, lemma_node_at_well_formed, locate, locate_in, node_at, node_ref, put_back,
    replace_at, slots, take_out, valid_location,
};
use crate::text::{
    after_prefix, parse_index, same_text, segments, split_segments, starts_with, strip_prefix,
    strip_trailing_slash, text_pairs, texts, trim_slash,
};
use hteapot::HttpStatus;
use vstd::prelude::*;

verus! {

/// `hteapot::HttpStatus`, an enum of plain variants, read as it is declared.
#[verifier::external_type_specification]
pub struct ExHttpStatus(HttpStatus);

/// A store: the path prefix it is mounted under, and its document.
pub struct DbHandle {
    root_path: String,
    db_data: JsonValue,
}

/// A failed operation: the status to answer with, and a message.
pub struct HttpErr {
    pub status: HttpStatus,
    pub text: &'static str,
}

/// The model of a failure: its status and the characters of its message.
pub struct Failure {
    pub status: HttpStatus,
    pub text: Seq<char>,
}

impl View for HttpErr {
    type V = Failure;

    open spec fn view(&self) -> Failure {
        Failure { status: self.status, text: self.text@ }
    }
}

/// The model of an operation's result.
pub open spec fn outcome(r: Result<String, HttpErr>) -> Result<Seq<char>, Failure> {
    match r {
        Ok(s) => Ok(s@),
        Err(e) => Err(e@),
    }
}

/// The path does not suit the operation.
pub open spec fn bad_path() -> Failure {
    Failure { status: HttpStatus::BadRequest, text: "Invalid Path"@ }
}

/// The request body is missing or does not suit the operation.
pub open spec fn bad_body() -> Failure {
    Failure { status: HttpStatus::BadRequest, text: "Invalid Body"@ }
}

/// The request would remove the document itself.
pub open spec fn whole_document() -> Failure {
    Failure { status: HttpStatus::BadRequest, text: "Can't remove all the db"@ }
}

/// Nothing stands at the path, or `null` does.
pub open spec fn not_found() -> Failure {
    Failure { status: HttpStatus::NotFound, text: "Not Found"@ }
}

/// PATCH found nothing at the path.
pub open spec fn path_not_found() -> Failure {
    Failure { status: HttpStatus::NotFound, text: "Path Not Found"@ }
}

/// DELETE found no parent for the last segment.
pub open spec fn parent_not_found() -> Failure {
    Failure { status: HttpStatus::NotFound, text: "Parent not found"@ }
}

/// The store does not know the method.
pub open spec fn not_allowed() -> Failure {
    Failure { status: HttpStatus::MethodNotAllowed, text: "Method Not Allowed"@ }
}

/// The result could not be written as text.
pub open spec fn not_written() -> Failure {
    Failure { status: HttpStatus::InternalServerError, text: "Error parsing result"@ }
}

/// What an operation answers with the text of its result node: the text
/// itself, except that `null` counts as not found and a node that could not
/// be written is a server error.
pub open spec fn reply(text: Option<Seq<char>>) -> Result<Seq<char>, Failure> {
    match text {
        Some(t) => if t == "null"@ {
            Err(not_found())
        } else {
            Ok(t)
        },
        None => Err(not_written()),
    }
}

/// The predicate "meets every filter".
pub open spec fn passing(filters: Seq<(Seq<char>, Seq<char>)>) -> spec_fn(Json) -> bool {
    |j: Json| passes(j, filters)
}

/// The predicate "fails some filter".
pub open spec fn failing(filters: Seq<(Seq<char>, Seq<char>)>) -> spec_fn(Json) -> bool {
    |j: Json| !passes(j, filters)
}

/// What GET shows of a node: of an array the items that meet every filter,
/// of any other node the node itself.
pub open spec fn selected(node: Json, filters: Seq<(Seq<char>, Seq<char>)>) -> Json {
    match node {
        Json::Array(items) => Json::Array(items.filter(passing(filters))),
        _ => node,
    }
}

/// The result of GET on `path` inside the document.
pub open spec fn get_model(
    doc: Json,
    path: Seq<char>,
    filters: Seq<(Seq<char>, Seq<char>)>,
) -> Result<Seq<char>, Failure> {
    match locate(doc, segments(path)) {
        Some(loc) => reply(serialized(selected(node_at(doc, loc), filters))),
        None => Err(not_found()),
    }
}

/// The node that POST makes of `node`: an array gains the body as its last
/// item; an object takes every entry of an object body, new keys at the end.
pub open spec fn posted(node: Json, body: Option<Json>) -> Result<Json, Failure> {
    match node {
        Json::Array(items) => match body {
            Some(b) => Ok(Json::Array(items.push(b))),
            None => Err(bad_body()),
        },
        _ => match body {
            Some(Json::Object(changes)) => match node {
                Json::Object(entries) => Ok(Json::Object(upsert_all(entries, changes))),
                _ => Err(bad_path()),
            },
            _ => Err(bad_body()),
        },
    }
}

/// The node that PATCH makes of `node`: an object takes the entries of an
/// object body whose keys it already holds; an array cannot be patched.
pub open spec fn patched(node: Json, body: Option<Json>) -> Result<Json, Failure> {
    match node {
        Json::Array(_) => Err(bad_path()),
        _ => match body {
            Some(Json::Object(changes)) => match node {
                Json::Object(entries) => Ok(Json::Object(overwrite_all(entries, changes))),
                _ => Ok(node),
            },
            _ => Err(bad_body()),
        },
    }
}

/// The node that DELETE without filters makes of the parent `node`: an
/// object loses the key `last`, an array the item at the index `last`, and
/// anything else stays as it is.
pub open spec fn pruned(node: Json, last: Seq<char>) -> Json {
    match node {
        Json::Object(entries) => Json::Object(without_key(entries, last)),
        Json::Array(items) => match index_within(last, items.len()) {
            Some(n) => Json::Array(items.remove(n)),
            None => node,
        },
        _ => node,
    }
}

/// Whether some segment is not empty.
pub open spec fn has_name(segs: Seq<Seq<char>>) -> bool {
    exists|i: int| 0 <= i < segs.len() && (#[trigger] segs[i]).len() > 0
}

/// The document after a change at `loc`, and the answer: the new node's text.
pub open spec fn changed(doc: Json, loc: Seq<int>, node: Json) -> (Json, Result<Seq<char>, Failure>) {
    (replace_at(doc, loc, node), reply(serialized(node)))
}

/// The document after POST on `path`, and the answer.
pub open spec fn post_model(doc: Json, path: Seq<char>, body: Option<Json>) -> (
    Json,
    Result<Seq<char>, Failure>,
) {
    match locate(doc, segments(path)) {
        Some(loc) => match posted(node_at(doc, loc), body) {
            Ok(node) => changed(doc, loc, node),
            Err(e) => (doc, Err(e)),
        },
        None => (doc, Err(bad_path())),
    }
}

/// The document after PATCH on `path`, and the answer.
pub open spec fn patch_model(doc: Json, path: Seq<char>, body: Option<Json>) -> (
    Json,
    Result<Seq<char>, Failure>,
) {
    match locate(doc, segments(path)) {
        Some(loc) => match patched(node_at(doc, loc), body) {
            Ok(node) => changed(doc, loc, node),
            Err(e) => (doc, Err(e)),
        },
        None => (doc, Err(path_not_found())),
    }
}

/// The document after DELETE on `path`, and the answer. With filters, the
/// array at `path` loses the items that meet them all. Without, the parent
/// of the last segment loses what that segment names.
pub open spec fn delete_model(
    doc: Json,
    path: Seq<char>,
    filters: Seq<(Seq<char>, Seq<char>)>,
) -> (Json, Result<Seq<char>, Failure>) {
    if filters.len() > 0 {
        match locate(doc, segments(path)) {
            Some(loc) => match node_at(doc, loc) {
                Json::Array(items) => changed(
                    doc,
                    loc,
                    Json::Array(items.filter(failing(filters))),
                ),
                _ => (doc, Err(bad_path())),
            },
            None => (doc, Err(not_found())),
        }
    } else if !has_name(segments(path)) {
        (doc, Err(whole_document()))
    } else {
        match locate(doc, segments(path).drop_last()) {
            Some(loc) => changed(doc, loc, pruned(node_at(doc, loc), segments(path).last())),
            None => (doc, Err(parent_not_found())),
        }
    }
}

/// The document after a request, and the answer. The mount path, less one
/// trailing `/`, must begin the request path; what follows it, less one
/// trailing `/`, is the path inside the document.
pub open spec fn process_model(
    root_path: Seq<char>,
    doc: Json,
    method: Seq<char>,
    path: Seq<char>,
    filters: Seq<(Seq<char>, Seq<char>)>,
    body: Seq<char>,
) -> (Json, Result<Seq<char>, Failure>) {
    match after_prefix(trim_slash(root_path), path) {
        Some(rest) => {
            let inner = trim_slash(rest);
            if method == "GET"@ {
                (doc, get_model(doc, inner, filters))
            } else if method == "POST"@ {
                post_model(doc, inner, parsed(body))
            } else if method == "PATCH"@ {
                patch_model(doc, inner, parsed(body))
            } else if method == "DELETE"@ {
                delete_model(doc, inner, filters)
            } else {
                (doc, Err(not_allowed()))
            }
        },
        None => (doc, Err(bad_path())),
    }
}

/// The model of an optional request body.
pub open spec fn body_model(body: Option<JsonValue>) -> Option<Json> {
    match body {
        Some(b) => Some(b.model()),
        None => None,
    }
}

/// The model of a request body as the store takes it: a body that is not
/// well formed counts as none.
pub open spec fn usable(body: Option<JsonValue>) -> Option<Json> {
    match body {
        Some(b) => if well_formed(b.model()) {
            Some(b.model())
        } else {
            None
        },
        None => None,
    }
}

/// Keeps a body that is well formed, and drops one that is not.
pub fn sound_body(body: Option<JsonValue>) -> (r: Option<JsonValue>)
    ensures
        body_model(r) == usable(body),
        r matches Some(b) ==> well_formed(b.model()),
{
    match body {
        Some(b) => if is_well_formed(&b) {
            Some(b)
        } else {
            None
        },
        None => None,
    }
}

/// Turns the text of a result node into the answer.
pub fn finish(text: Option<String>) -> (r: Result<String, HttpErr>)
    ensures
        outcome(r) == reply(optional_text(text)),
{
    match text {
        Some(t) => {
            if same_text(t.as_str(), "null") {
                Err(HttpErr { status: HttpStatus::NotFound, text: "Not Found" })
            } else {
                Ok(t)
            }
        },
        None => Err(HttpErr { status: HttpStatus::InternalServerError, text: "Error parsing result" }),
    }
}

/// The items of `items` that meet every filter (`keep`), or those that fail
/// one (`!keep`), copied in order.
pub fn filter_items(items: &Vec<JsonValue>, filters: &Vec<(String, String)>, keep: bool) -> (out:
    Vec<JsonValue>)
    requires
        forall|i: int| 0 <= i < items@.len() ==> well_formed(#[trigger] items@[i].model()),
    ensures
        models(out@) == models(items@).filter(
            if keep {
                passing(text_pairs(filters@))
            } else {
                failing(text_pairs(filters@))
            },
        ),
        forall|i: int| 0 <= i < out@.len() ==> well_formed(#[trigger] out@[i].model()),
{
    let ghost pred = if keep {
        passing(text_pairs(filters@))
    } else {
        failing(text_pairs(filters@))
    };
    let mut out: Vec<JsonValue> = Vec::new();
    let mut i: usize = 0;
    proof {
        reveal(Seq::filter);
        assert(models(items@).take(0) =~= Seq::<Json>::empty());
        assert(models(out@) =~= Seq::<Json>::empty());
    }
    while i < items.len()
        invariant
            forall|k: int| 0 <= k < items@.len() ==> well_formed(#[trigger] items@[k].model()),
            pred == if keep {
                passing(text_pairs(filters@))
            } else {
                failing(text_pairs(filters@))
            },
            i <= items@.len(),
            models(out@) == models(items@).take(i as int).filter(pred),
            forall|k: int| 0 <= k < out@.len() ==> well_formed(#[trigger] out@[k].model()),
        decreases items@.len() - i,
    {
        let ghost before = models(out@);
        let ghost head = models(items@).take(i as int);
        let ghost item = items@[i as int].model();
        proof {
            assert(models(items@)[i as int] == item);
            assert(models(items@).take(i + 1) =~= head.push(item));
            head.lemma_filter_push(item, pred);
        }
        let meets = check_filters(&items[i], filters);
        if meets == keep {
            out.push(items[i].clone());
            assert(models(out@) =~= before.push(item));
        }
        i += 1;
    }
    assert(models(items@).take(i as int) =~= models(items@));
    out
}

/// The model of what a node operation hands back: the node, and the failure if any.
pub open spec fn step_outcome(r: (JsonValue, Option<HttpErr>)) -> Result<Json, Failure> {
    match r.1 {
        Some(e) => Err(e@),
        None => Ok(r.0.model()),
    }
}

/// Applies POST to a node. On failure the node comes back unchanged.
pub fn post_node(node: JsonValue, body: Option<JsonValue>) -> (r: (JsonValue, Option<HttpErr>))
    requires
        well_formed(node.model()),
        body matches Some(b) ==> well_formed(b.model()),
    ensures
        step_outcome(r) == posted(node.model(), body_model(body)),
        r.1 is Some ==> r.0.model() == node.model(),
        well_formed(r.0.model()),
{
    match node {
        JsonValue::Array(items) => match body {
            Some(b) => {
                let mut items = items;
                let ghost before = models(items@);
                proof {
                    lemma_array_model(items);
                }
                items.push(b);
                proof {
                    lemma_array_model(items);
                    assert(models(items@) =~= before.push(b.model()));
                    assert forall|i: int| 0 <= i < models(items@).len() implies well_formed(
                        #[trigger] models(items@)[i],
                    ) by {
                        if i < before.len() {
                            assert(models(items@)[i] == before[i]);
                        }
                    }
                }
                (JsonValue::Array(items), None)
            },
            None => (
                JsonValue::Array(items),
                Some(HttpErr { status: HttpStatus::BadRequest, text: "Invalid Body" }),
            ),
        },
        other => match body {
            Some(JsonValue::Object(changes)) => match other {
                JsonValue::Object(entries) => {
                    let mut entries = entries;
                    proof {
                        lemma_object_model(entries);
                        lemma_object_model(changes);
                        lemma_upsert_all_well_formed(
                            entry_models(entries@),
                            entry_models(changes@),
                        );
                    }
                    merge_entries(&mut entries, &changes, true);
                    proof {
                        lemma_object_model(entries);
                    }
                    (JsonValue::Object(entries), None)
                },
                scalar => (
                    scalar,
                    Some(HttpErr { status: HttpStatus::BadRequest, text: "Invalid Path" }),
                ),
            },
            _ => (other, Some(HttpErr { status: HttpStatus::BadRequest, text: "Invalid Body" })),
        },
    }
}

/// Applies PATCH to a node. On failure the node comes back unchanged.
pub fn patch_node(node: JsonValue, body: Option<JsonValue>) -> (r: (JsonValue, Option<HttpErr>))
    requires
        well_formed(node.model()),
        body matches Some(b) ==> well_formed(b.model()),
    ensures
        step_outcome(r) == patched(node.model(), body_model(body)),
        r.1 is Some ==> r.0.model() == node.model(),
        well_formed(r.0.model()),
{
    match node {
        JsonValue::Array(items) => (
            JsonValue::Array(items),
            Some(HttpErr { status: HttpStatus::BadRequest, text: "Invalid Path" }),
        ),
        other => match body {
            Some(JsonValue::Object(changes)) => match other {
                JsonValue::Object(entries) => {
                    let mut entries = entries;
                    proof {
                        lemma_object_model(entries);
                        lemma_object_model(changes);
                        lemma_overwrite_all_well_formed(
                            entry_models(entries@),
                            entry_models(changes@),
                        );
                    }
                    merge_entries(&mut entries, &changes, false);
                    proof {
                        lemma_object_model(entries);
                    }
                    (JsonValue::Object(entries), None)
                },
                scalar => (scalar, None),
            },
            _ => (other, Some(HttpErr { status: HttpStatus::BadRequest, text: "Invalid Body" })),
        },
    }
}

/// Removes from a parent node what the segment `last` names.
pub fn prune_node(node: JsonValue, last: &str) -> (r: JsonValue)
    requires
        well_formed(node.model()),
    ensures
        r.model() == pruned(node.model(), last@),
        well_formed(r.model()),
{
    match node {
        JsonValue::Object(entries) => {
            let mut entries = entries;
            let ghost before = entry_models(entries@);
            proof {
                lemma_object_model(entries);
                assert(keys_of(before) =~= names(entries@));
                lemma_key_index(before, last@);
            }
            match find_key(&entries, last) {
                Some(i) => {
                    let _ = entries.remove(i);
                    proof {
                        lemma_object_model(entries);
                        assert(entry_models(entries@) =~= before.remove(i as int));
                        lemma_remove_distinct(before, i as int);
                        assert forall|k: int| 0 <= k < before.remove(i as int).len() implies well_formed(
                            (#[trigger] before.remove(i as int)[k]).1,
                        ) by {
                            let k0 = if k < i { k } else { k + 1 };
                            assert(well_formed(before[k0].1));
                        }
                    }
                },
                None => {},
            }
            JsonValue::Object(entries)
        },
        JsonValue::Array(items) => {
            let mut items = items;
            let ghost before = models(items@);
            proof {
                lemma_array_model(items);
            }
            match parse_index(last) {
                Some(n) => {
                    if n < items.len() {
                        let _ = items.remove(n);
                        proof {
                            lemma_array_model(items);
                            assert(models(items@) =~= before.remove(n as int));
                            assert forall|k: int| 0 <= k < before.remove(n as int).len() implies well_formed(
                                #[trigger] before.remove(n as int)[k],
                            ) by {
                                let k0 = if k < n { k } else { k + 1 };
                                assert(well_formed(before[k0]));
                            }
                        }
                    }
                },
                None => {},
            }
            JsonValue::Array(items)
        },
        other => other,
    }
}

/// Whether some segment is not empty.
pub fn any_name(segs: &Vec<String>) -> (r: bool)
    ensures
        r == has_name(texts(segs@)),
{
    let mut i: usize = 0;
    while i < segs.len()
        invariant
            i <= segs@.len(),
            forall|k: int| 0 <= k < i ==> (#[trigger] texts(segs@)[k]).len() == 0,
        decreases segs@.len() - i,
    {
        assert(texts(segs@)[i as int] == segs@[i as int]@);
        if segs[i].as_str().unicode_len() > 0 {
            return true;
        }
        i += 1;
    }
    false
}

impl DbHandle {
    /// The document that the store holds.
    pub closed spec fn document(&self) -> Json {
        self.db_data.model()
    }

    /// The path prefix that the store is mounted under.
    pub closed spec fn mount(&self) -> Seq<char> {
        self.root_path@
    }

    /// The store's invariant: its document is well formed.
    #[verifier::type_invariant]
    spec fn wf(&self) -> bool {
        well_formed(self.db_data.model())
    }

    /// The path prefix that the store is mounted under.
    pub fn root_path(&self) -> (r: &String)
        ensures
            r@ == self.mount(),
    {
        &self.root_path
    }

    /// A store mounted under `root_path`, holding the document that `json` writes.
    pub fn new(root_path: String, json: String) -> (r: Result<Self, &'static str>)
        ensures
            r is Ok == parsed(json@) is Some,
            r matches Ok(db) ==> db.mount() == root_path@ && Some(db.document()) == parsed(json@)
                && well_formed(db.document()),
            r matches Err(e) ==> e@ == "Invalid db json"@,
    {
        match parse(json.as_str()) {
            Some(db_data) => Ok(DbHandle { root_path, db_data }),
            None => Err("Invalid db json"),
        }
    }

    /// Whether a request path falls under this store: whether it begins with the mount path.
    pub fn is_match(&self, path: &String) -> (r: bool)
        ensures
            r == self.mount().is_prefix_of(path@),
    {
        starts_with(path.as_str(), self.root_path.as_str())
    }

    /// Reads the node at `path`; of an array, the items that meet every filter.
    pub fn get(&self, path: String, args: Vec<(String, String)>) -> (r: Result<String, HttpErr>)
        ensures
            outcome(r) == get_model(self.document(), path@, text_pairs(args@)),
    {
        let segs = split_segments(path.as_str());
        proof {
            use_type_invariant(self);
            assert(texts(segs@).take(segs@.len() as int) =~= texts(segs@));
        }
        match locate_in(&self.db_data, &segs, segs.len()) {
            Some(loc) => {
                proof {
                    lemma_node_at_well_formed(self.document(), slots(loc@));
                }
                let node = node_ref(&self.db_data, &loc);
                match node {
                    JsonValue::Array(items) => {
                        proof {
                            lemma_array_model(*items);
                            lemma_items_well_formed(*items);
                        }
                        let chosen = filter_items(items, &args, true);
                        proof {
                            lemma_array_model(chosen);
                            lemma_array_well_formed(chosen);
                        }
                        finish(render(&JsonValue::Array(chosen)))
                    },
                    _ => finish(render(node)),
                }
            },
            None => Err(HttpErr { status: HttpStatus::NotFound, text: "Not Found" }),
        }
    }

    /// Puts `node` where `loc` leads to and answers with its text.
    fn replace_node(&mut self, loc: &Vec<usize>, node: JsonValue, Ghost(initial): Ghost<Json>) -> (r:
        Result<String, HttpErr>)
        requires
            well_formed(initial),
            valid_location(initial, slots(loc@)),
            old(self).document() == replace_at(initial, slots(loc@), Json::Null),
            well_formed(node.model()),
        ensures
            final(self).mount() == old(self).mount(),
            well_formed(final(self).document()),
            (final(self).document(), outcome(r)) == changed(initial, slots(loc@), node.model()),
    {
        let text = render(&node);
        put_back(&mut self.db_data, loc, node, Ghost(initial));
        finish(text)
    }

    /// Adds to the node at `path`: an array gains `body` as its last item, an
    /// object takes the entries of an object `body`. A body that is not well
    /// formed counts as no body.
    pub fn post(&mut self, path: String, args: Vec<(String, String)>, body: Option<JsonValue>) -> (r:
        Result<String, HttpErr>)
        ensures
            final(self).mount() == old(self).mount(),
            well_formed(final(self).document()),
            (final(self).document(), outcome(r)) == post_model(
                old(self).document(),
                path@,
                usable(body),
            ),
    {
        self.post_valid(path, args, sound_body(body))
    }

    /// POST with a well-formed body, or none.
    fn post_valid(&mut self, path: String, _args: Vec<(String, String)>, body: Option<JsonValue>) -> (r:
        Result<String, HttpErr>)
        requires
            body matches Some(b) ==> well_formed(b.model()),
        ensures
            final(self).mount() == old(self).mount(),
            well_formed(final(self).document()),
            (final(self).document(), outcome(r)) == post_model(
                old(self).document(),
                path@,
                body_model(body),
            ),
    {
        let ghost initial = self.document();
        let segs = split_segments(path.as_str());
        proof {
            use_type_invariant(&*self);
            assert(texts(segs@).take(segs@.len() as int) =~= texts(segs@));
        }
        match locate_in(&self.db_data, &segs, segs.len()) {
            Some(loc) => {
                let node = take_out(&mut self.db_data, &loc);
                let (node, failure) = post_node(node, body);
                match failure {
                    Some(e) => {
                        put_back(&mut self.db_data, &loc, node, Ghost(initial));
                        Err(e)
                    },
                    None => self.replace_node(&loc, node, Ghost(initial)),
                }
            },
            None => Err(HttpErr { status: HttpStatus::BadRequest, text: "Invalid Path" }),
        }
    }

    /// Updates the node at `path`: an object takes the entries of an object
    /// `body` whose keys it already holds. A body that is not well formed
    /// counts as no body.
    pub fn patch(&mut self, path: String, args: Vec<(String, String)>, body: Option<JsonValue>) -> (r:
        Result<String, HttpErr>)
        ensures
            final(self).mount() == old(self).mount(),
            well_formed(final(self).document()),
            (final(self).document(), outcome(r)) == patch_model(
                old(self).document(),
                path@,
                usable(body),
            ),
    {
        self.patch_valid(path, args, sound_body(body))
    }

    /// PATCH with a well-formed body, or none.
    fn patch_valid(&mut self, path: String, _args: Vec<(String, String)>, body: Option<JsonValue>) -> (r:
        Result<String, HttpErr>)
        requires
            body matches Some(b) ==> well_formed(b.model()),
        ensures
            final(self).mount() == old(self).mount(),
            well_formed(final(self).document()),
            (final(self).document(), outcome(r)) == patch_model(
                old(self).document(),
                path@,
                body_model(body),
            ),
    {
        let ghost initial = self.document();
        let segs = split_segments(path.as_str());
        proof {
            use_type_invariant(&*self);
            assert(texts(segs@).take(segs@.len() as int) =~= texts(segs@));
        }
        match locate_in(&self.db_data, &segs, segs.len()) {
            Some(loc) => {
                let node = take_out(&mut self.db_data, &loc);
                let (node, failure) = patch_node(node, body);
                match failure {
                    Some(e) => {
                        put_back(&mut self.db_data, &loc, node, Ghost(initial));
                        Err(e)
                    },
                    None => self.replace_node(&loc, node, Ghost(initial)),
                }
            },
            None => Err(HttpErr { status: HttpStatus::NotFound, text: "Path Not Found" }),
        }
    }

    /// Removes from the document. With filters, the array at `path` loses
    /// the items that meet them all. Without, the parent of the last segment
    /// loses what that segment names.
    pub fn delete(&mut self, path: String, args: Vec<(String, String)>) -> (r: Result<String, HttpErr>)
        ensures
            final(self).mount() == old(self).mount(),
            well_formed(final(self).document()),
            (final(self).document(), outcome(r)) == delete_model(
                old(self).document(),
                path@,
                text_pairs(args@),
            ),
    {
        let ghost initial = self.document();
        let segs = split_segments(path.as_str());
        proof {
            use_type_invariant(&*self);
            assert(texts(segs@).take(segs@.len() as int) =~= texts(segs@));
            assert(text_pairs(args@).len() == args@.len());
        }
        if args.len() > 0 {
            match locate_in(&self.db_data, &segs, segs.len()) {
                Some(loc) => {
                    let node = take_out(&mut self.db_data, &loc);
                    match node {
                        JsonValue::Array(items) => {
                            proof {
                                lemma_array_model(items);
                                lemma_items_well_formed(items);
                            }
                            let rest = filter_items(&items, &args, false);
                            proof {
                                lemma_array_model(rest);
                                lemma_array_well_formed(rest);
                            }
                            self.replace_node(&loc, JsonValue::Array(rest), Ghost(initial))
                        },
                        other => {
                            put_back(&mut self.db_data, &loc, other, Ghost(initial));
                            Err(HttpErr { status: HttpStatus::BadRequest, text: "Invalid Path" })
                        },
                    }
                },
                None => Err(HttpErr { status: HttpStatus::NotFound, text: "Not Found" }),
            }
        } else if !any_name(&segs) {
            Err(HttpErr { status: HttpStatus::BadRequest, text: "Can't remove all the db" })
        } else {
            let count = segs.len() - 1;
            proof {
                assert(texts(segs@).take(count as int) =~= texts(segs@).drop_last());
                assert(texts(segs@).last() == segs@[count as int]@);
            }
            match locate_in(&self.db_data, &segs, count) {
                Some(loc) => {
                    let node = take_out(&mut self.db_data, &loc);
                    let node = prune_node(node, segs[count].as_str());
                    self.replace_node(&loc, node, Ghost(initial))
                },
                None => Err(HttpErr { status: HttpStatus::NotFound, text: "Parent not found" }),
            }
        }
    }

    /// Serves one request: checks the mount path, takes the path inside the
    /// document, reads the body, and carries out the method.
    pub fn process(
        &mut self,
        method: &str,
        path: String,
        args: Vec<(String, String)>,
        body: String,
    ) -> (r: Result<String, HttpErr>)
        ensures
            final(self).mount() == old(self).mount(),
            well_formed(final(self).document()),
            (final(self).document(), outcome(r)) == process_model(
                old(self).mount(),
                old(self).document(),
                method@,
                path@,
                text_pairs(args@),
                body@,
            ),
    {
        proof {
            use_type_invariant(&*self);
        }
        let root = strip_trailing_slash(self.root_path.as_str());
        match strip_prefix(path.as_str(), root.as_str()) {
            Some(rest) => {
                let inner = strip_trailing_slash(rest.as_str());
                let body = parse(body.as_str());
                if same_text(method, "GET") {
                    self.get(inner, args)
                } else if same_text(method, "POST") {
                    self.post_valid(inner, args, body)
                } else if same_text(method, "PATCH") {
                    self.patch_valid(inner, args, body)
                } else if same_text(method, "DELETE") {
                    self.delete(inner, args)
                } else {
                    Err(HttpErr { status: HttpStatus::MethodNotAllowed, text: "Method Not Allowed" })
                }
            },
            None => Err(HttpErr { status: HttpStatus::BadRequest, text: "Invalid Path" }),
        }
    }
}

} // verus!
