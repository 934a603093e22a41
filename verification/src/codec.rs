//! The boundary to `serde_json`, which reads and writes JSON text. What the
//! crate does is named, not spelled out; the conversion between its values
//! and the store's is verified level by level.
use crate::assoc::{distinct, keys_of, names};
use crate::json::{
    entry_models, lemma_array_model, lemma_array_parts, lemma_items_well_formed,
    lemma_object_model, lemma_object_parts, models, well_formed, Json, JsonValue,
};
use vstd::prelude::*;

verus! {

/// `serde_json::Value`, taken as it is: nothing is seen inside it.
#[verifier::external_type_specification]
#[verifier::external_body]
pub struct ExValue(serde_json::Value);

/// `serde_json::Error`, taken as it is: nothing is seen inside it.
#[verifier::external_type_specification]
#[verifier::external_body]
pub struct ExError(serde_json::Error);

/// The tree that a `serde_json::Value` holds.
pub uninterp spec fn content(v: serde_json::Value) -> Json;

/// What `serde_json::from_str` reads from a text: the tree, or `None` where
/// it reports an error.
pub uninterp spec fn parsed(text: Seq<char>) -> Option<Json>;

/// What `serde_json::to_string` writes for a tree, or `None` where it reports
/// an error.
pub uninterp spec fn serialized(j: Json) -> Option<Seq<char>>;

/// Calls `serde_json::from_str` for a `serde_json::Value`. The contract names
/// the outcome `parsed`: the same text always reads as the same tree, or
/// always fails.
#[verifier::external_body]
pub(crate) fn value_from_text(text: &str) -> (r: Result<serde_json::Value, serde_json::Error>)
    ensures
        r is Ok == parsed(text@) is Some,
        r matches Ok(v) ==> Some(content(v)) == parsed(text@),
{
    serde_json::from_str::<serde_json::Value>(text)
}

/// Calls `serde_json::to_string` on a `serde_json::Value`. The contract names
/// the outcome `serialized`: what is written depends on the tree alone.
#[verifier::external_body]
pub(crate) fn value_to_text(v: &serde_json::Value) -> (r: Result<String, serde_json::Error>)
    ensures
        r is Ok == serialized(content(*v)) is Some,
        r matches Ok(s) ==> Some(s@) == serialized(content(*v)),
{
    serde_json::to_string(v)
}

/// One level of a `serde_json::Value`: its variant, with the children still
/// as `serde_json::Value`s and the entries of an object as a list.
pub enum Parts {
    Null,
    Bool(bool),
    Number(serde_json::Number),
    String(String),
    Array(Vec<serde_json::Value>),
    Object(Vec<(String, serde_json::Value)>),
}

/// The trees that a sequence of `serde_json::Value`s holds.
pub open spec fn contents(items: Seq<serde_json::Value>) -> Seq<Json> {
    Seq::new(items.len(), |i: int| content(items[i]))
}

/// The keys of a sequence of entries, each with the tree that its value holds.
pub open spec fn entry_contents(entries: Seq<(String, serde_json::Value)>) -> Seq<
    (Seq<char>, Json),
> {
    Seq::new(entries.len(), |i: int| (entries[i].0@, content(entries[i].1)))
}

/// The tree that one level and its children hold.
pub open spec fn parts_model(p: Parts) -> Json {
    match p {
        Parts::Null => Json::Null,
        Parts::Bool(b) => Json::Bool(b),
        Parts::Number(n) => Json::Number(n),
        Parts::String(s) => Json::String(s@),
        Parts::Array(items) => Json::Array(contents(items@)),
        Parts::Object(entries) => Json::Object(entry_contents(entries@)),
    }
}

/// Takes the top level of a `serde_json::Value` apart: one arm for each
/// variant, the fields moved as they are, the entries of a `serde_json::Map`
/// in the map's own order. A map holds each key once.
#[verifier::external_body]
pub(crate) fn value_parts(v: serde_json::Value) -> (p: Parts)
    ensures
        parts_model(p) == content(v),
        p matches Parts::Object(entries) ==> distinct(names(entries@)),
{
    match v {
        serde_json::Value::Null => Parts::Null,
        serde_json::Value::Bool(b) => Parts::Bool(b),
        serde_json::Value::Number(n) => Parts::Number(n),
        serde_json::Value::String(s) => Parts::String(s),
        serde_json::Value::Array(a) => Parts::Array(a),
        serde_json::Value::Object(m) => Parts::Object(m.into_iter().collect()),
    }
}

/// Builds the `serde_json::Value` of one level and its children: one variant
/// for each arm, the fields moved as they are. Entries with distinct keys
/// enter the `serde_json::Map` in their order, which the map keeps.
#[verifier::external_body]
pub(crate) fn value_of_parts(p: Parts) -> (v: serde_json::Value)
    requires
        p matches Parts::Object(entries) ==> distinct(names(entries@)),
    ensures
        content(v) == parts_model(p),
{
    match p {
        Parts::Null => serde_json::Value::Null,
        Parts::Bool(b) => serde_json::Value::Bool(b),
        Parts::Number(n) => serde_json::Value::Number(n),
        Parts::String(s) => serde_json::Value::String(s),
        Parts::Array(a) => serde_json::Value::Array(a),
        Parts::Object(e) => serde_json::Value::Object(e.into_iter().collect()),
    }
}

/// Turns a list around.
pub fn reversed<T>(items: Vec<T>) -> (r: Vec<T>)
    ensures
        r@ == items@.reverse(),
{
    let mut rest = items;
    let mut out: Vec<T> = Vec::new();
    while rest.len() > 0
        invariant
            rest@.len() <= items@.len(),
            rest@ == items@.take(rest@.len() as int),
            out@.len() + rest@.len() == items@.len(),
            forall|k: int| 0 <= k < out@.len() ==> out@[k] == items@[items@.len() - 1 - k],
        decreases rest@.len(),
    {
        let ghost n = rest@.len();
        match rest.pop() {
            Some(x) => {
                assert(rest@ =~= items@.take(n - 1));
                out.push(x);
            },
            None => {},
        }
    }
    assert(out@ =~= items@.reverse());
    out
}

/// The `JsonValue` that holds the same tree as a `serde_json::Value`.
#[verifier::loop_isolation(false)]
pub fn json_from_value(v: serde_json::Value) -> (j: JsonValue)
    ensures
        j.model() == content(v),
        well_formed(j.model()),
    decreases content(v),
{
    let ghost tree = content(v);
    match value_parts(v) {
        Parts::Null => JsonValue::Null,
        Parts::Bool(b) => JsonValue::Bool(b),
        Parts::Number(n) => JsonValue::Number(n),
        Parts::String(s) => JsonValue::String(s),
        Parts::Array(items) => {
            let ghost n = items@.len();
            let ghost all = items@;
            assert(tree == Json::Array(contents(all)));
            let mut rest = items;
            let mut back: Vec<JsonValue> = Vec::new();
            while rest.len() > 0
                invariant
                    rest@ == all.take(rest@.len() as int),
                    rest@.len() <= n,
                    back@.len() + rest@.len() == n,
                    forall|k: int|
                        0 <= k < back@.len() ==> (#[trigger] back@[k]).model() == content(
                            all[n - 1 - k],
                        ) && well_formed(back@[k].model()),
                decreases rest@.len(),
            {
                let ghost m = rest@.len();
                match rest.pop() {
                    Some(child) => {
                        assert(rest@ =~= all.take(m - 1));
                        assert(child == all[m - 1]);
                        assert(contents(all)[m - 1] == content(child));
                        assert(tree->Array_0[m - 1] == content(child));
                        back.push(json_from_value(child));
                    },
                    None => {},
                }
            }
            let out = reversed(back);
            proof {
                lemma_array_model(out);
                assert(models(out@) =~= contents(all));
                lemma_array_parts(models(out@));
            }
            JsonValue::Array(out)
        },
        Parts::Object(entries) => {
            let ghost n = entries@.len();
            let ghost all = entries@;
            assert(tree == Json::Object(entry_contents(all)));
            let mut rest = entries;
            let mut back: Vec<(String, JsonValue)> = Vec::new();
            while rest.len() > 0
                invariant
                    rest@ == all.take(rest@.len() as int),
                    rest@.len() <= n,
                    back@.len() + rest@.len() == n,
                    forall|k: int|
                        0 <= k < back@.len() ==> (#[trigger] back@[k]).0@ == all[n - 1 - k].0@
                            && back@[k].1.model() == content(all[n - 1 - k].1) && well_formed(
                            back@[k].1.model(),
                        ),
                decreases rest@.len(),
            {
                let ghost m = rest@.len();
                match rest.pop() {
                    Some(entry) => {
                        assert(rest@ =~= all.take(m - 1));
                        assert(entry == all[m - 1]);
                        assert(entry_contents(all)[m - 1] == (entry.0@, content(entry.1)));
                        assert(tree->Object_0[m - 1].1 == content(entry.1));
                        let (key, child) = entry;
                        back.push((key, json_from_value(child)));
                    },
                    None => {},
                }
            }
            let out = reversed(back);
            proof {
                lemma_object_model(out);
                assert(entry_models(out@) =~= entry_contents(all));
                assert(keys_of(entry_models(out@)) =~= names(all));
                lemma_object_parts(entry_models(out@));
            }
            JsonValue::Object(out)
        },
    }
}

/// The `serde_json::Value` that holds the same tree as a well-formed `JsonValue`.
#[verifier::loop_isolation(false)]
pub fn value_from_json(j: &JsonValue) -> (v: serde_json::Value)
    requires
        well_formed(j.model()),
    ensures
        content(v) == j.model(),
    decreases j,
{
    match j {
        JsonValue::Null => value_of_parts(Parts::Null),
        JsonValue::Bool(b) => value_of_parts(Parts::Bool(*b)),
        JsonValue::Number(n) => value_of_parts(Parts::Number(n.clone())),
        JsonValue::String(s) => value_of_parts(Parts::String(s.clone())),
        JsonValue::Array(items) => {
            proof {
                lemma_array_model(*items);
                lemma_items_well_formed(*items);
            }
            let mut out: Vec<serde_json::Value> = Vec::new();
            let mut i: usize = 0;
            while i < items.len()
                invariant
                    i <= items@.len(),
                    out@.len() == i,
                    forall|k: int| 0 <= k < i ==> content(#[trigger] out@[k]) == items@[k].model(),
                decreases items@.len() - i,
            {
                out.push(value_from_json(&items[i]));
                i += 1;
            }
            assert(contents(out@) =~= models(items@));
            value_of_parts(Parts::Array(out))
        },
        JsonValue::Object(entries) => {
            proof {
                lemma_object_model(*entries);
                lemma_object_parts(entry_models(entries@));
            }
            let mut out: Vec<(String, serde_json::Value)> = Vec::new();
            let mut i: usize = 0;
            while i < entries.len()
                invariant
                    i <= entries@.len(),
                    out@.len() == i,
                    forall|k: int|
                        0 <= k < i ==> (#[trigger] out@[k]).0@ == entries@[k].0@ && content(
                            out@[k].1,
                        ) == entries@[k].1.model(),
                decreases entries@.len() - i,
            {
                assert(entry_models(entries@)[i as int] == (
                    entries@[i as int].0@,
                    entries@[i as int].1.model(),
                ));
                assert(well_formed(entry_models(entries@)[i as int].1));
                out.push((entries[i].0.clone(), value_from_json(&entries[i].1)));
                i += 1;
            }
            assert(entry_contents(out@) =~= entry_models(entries@));
            assert(names(out@) =~= keys_of(entry_models(entries@)));
            value_of_parts(Parts::Object(out))
        },
    }
}

/// The characters of an optional string.
pub open spec fn optional_text(s: Option<String>) -> Option<Seq<char>> {
    match s {
        Some(t) => Some(t@),
        None => None,
    }
}

/// Reads a JSON text.
pub fn parse(text: &str) -> (r: Option<JsonValue>)
    ensures
        r is Some == parsed(text@) is Some,
        r matches Some(j) ==> Some(j.model()) == parsed(text@) && well_formed(j.model()),
{
    match value_from_text(text) {
        Ok(v) => Some(json_from_value(v)),
        Err(_) => None,
    }
}

/// Writes a value as compact JSON text.
pub fn render(j: &JsonValue) -> (r: Option<String>)
    requires
        well_formed(j.model()),
    ensures
        optional_text(r) == serialized(j.model()),
{
    let v = value_from_json(j);
    match value_to_text(&v) {
        Ok(s) => Some(s),
        Err(_) => None,
    }
}

} // verus!
