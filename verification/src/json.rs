//! JSON documents: the value type that the store works on, its mathematical
//! model, and what the store asks of a value: its fields, their text, and
//! whether it meets a list of filters.
use crate::assoc::{
    distinct, distinct_names, find_key, key_index, keys_of, lemma_key_index, lemma_overwrite_keys,
    lemma_upsert_distinct, names, overwrite, overwrite_all, upsert, upsert_all,
};
use crate::codec::{optional_text, render, serialized};
use crate::text::{same_text, text_pairs};
use vstd::prelude::*;

verus! {

/// `serde_json::Number`, taken as it is: nothing is seen inside it.
#[verifier::external_type_specification]
#[verifier::external_body]
pub struct ExNumber(serde_json::Number);

/// A JSON value. An object lists its entries in the order in which they are
/// written out.
#[derive(Debug, PartialEq)]
pub enum JsonValue {
    Null,
    Bool(bool),
    Number(serde_json::Number),
    String(String),
    Array(Vec<JsonValue>),
    Object(Vec<(String, JsonValue)>),
}

/// The mathematical model of a JSON value.
pub enum Json {
    Null,
    Bool(bool),
    Number(serde_json::Number),
    String(Seq<char>),
    Array(Seq<Json>),
    Object(Seq<(Seq<char>, Json)>),
}

impl JsonValue {
    /// The model of this value.
    pub open spec fn model(self) -> Json
        decreases self,
    {
        match self {
            JsonValue::Null => Json::Null,
            JsonValue::Bool(b) => Json::Bool(b),
            JsonValue::Number(n) => Json::Number(n),
            JsonValue::String(s) => Json::String(s@),
            JsonValue::Array(items) => Json::Array(
                Seq::new(
                    items@.len(),
                    |i: int|
                        if 0 <= i < items@.len() {
                            items@[i].model()
                        } else {
                            Json::Null
                        },
                ),
            ),
            JsonValue::Object(entries) => Json::Object(
                Seq::new(
                    entries@.len(),
                    |i: int|
                        if 0 <= i < entries@.len() {
                            (entries@[i].0@, entries@[i].1.model())
                        } else {
                            (Seq::empty(), Json::Null)
                        },
                ),
            ),
        }
    }
}

/// The models of a sequence of values.
pub open spec fn models(items: Seq<JsonValue>) -> Seq<Json> {
    Seq::new(items.len(), |i: int| items[i].model())
}

/// The models of a sequence of entries.
pub open spec fn entry_models(entries: Seq<(String, JsonValue)>) -> Seq<(Seq<char>, Json)> {
    Seq::new(entries.len(), |i: int| (entries[i].0@, entries[i].1.model()))
}

/// The model of an array is the models of its items.
pub proof fn lemma_array_model(items: Vec<JsonValue>)
    ensures
        JsonValue::Array(items).model() == Json::Array(models(items@)),
{
    assert(JsonValue::Array(items).model()->Array_0 =~= models(items@));
}

/// The model of an object is the models of its entries.
pub proof fn lemma_object_model(entries: Vec<(String, JsonValue)>)
    ensures
        JsonValue::Object(entries).model() == Json::Object(entry_models(entries@)),
{
    assert(JsonValue::Object(entries).model()->Object_0 =~= entry_models(entries@));
}

/// A value is well formed when no object in it, at any depth, holds a key twice.
pub open spec fn well_formed(j: Json) -> bool
    decreases j,
{
    match j {
        Json::Array(items) => forall|i: int|
            0 <= i < items.len() ==> well_formed(#[trigger] items[i]),
        Json::Object(entries) => distinct(keys_of(entries)) && forall|i: int|
            0 <= i < entries.len() ==> well_formed((#[trigger] entries[i]).1),
        _ => true,
    }
}

/// An array is well formed exactly when its items are.
pub proof fn lemma_array_parts(items: Seq<Json>)
    ensures
        well_formed(Json::Array(items)) <==> forall|i: int|
            0 <= i < items.len() ==> well_formed(#[trigger] items[i]),
{
    let node = Json::Array(items);
    assert(node->Array_0 == items);
    if well_formed(node) {
        assert forall|i: int| 0 <= i < items.len() implies well_formed(#[trigger] items[i]) by {
            assert(well_formed(node->Array_0[i]));
        }
    }
}

/// Every value of a list of entries is well formed.
pub open spec fn values_well_formed(entries: Seq<(Seq<char>, Json)>) -> bool {
    forall|i: int| 0 <= i < entries.len() ==> well_formed((#[trigger] entries[i]).1)
}

/// An object is well formed exactly when its keys are distinct and its
/// values well formed.
pub proof fn lemma_object_parts(entries: Seq<(Seq<char>, Json)>)
    ensures
        well_formed(Json::Object(entries)) <==> distinct(keys_of(entries)) && values_well_formed(
            entries,
        ),
{
    let node = Json::Object(entries);
    assert(node->Object_0 == entries);
    if well_formed(node) {
        assert forall|i: int| 0 <= i < entries.len() implies well_formed(
            (#[trigger] entries[i]).1,
        ) by {
            assert(well_formed(node->Object_0[i].1));
        }
    }
}

/// The items of a well-formed array are well formed.
pub proof fn lemma_items_well_formed(items: Vec<JsonValue>)
    requires
        well_formed(JsonValue::Array(items).model()),
    ensures
        forall|i: int| 0 <= i < items@.len() ==> well_formed(#[trigger] items@[i].model()),
{
    lemma_array_model(items);
    let ms = models(items@);
    lemma_array_parts(ms);
    assert forall|i: int| 0 <= i < items@.len() implies well_formed(
        #[trigger] items@[i].model(),
    ) by {
        assert(ms[i] == items@[i].model());
    }
}

/// An array of well-formed items is well formed.
pub proof fn lemma_array_well_formed(items: Vec<JsonValue>)
    requires
        forall|i: int| 0 <= i < items@.len() ==> well_formed(#[trigger] items@[i].model()),
    ensures
        well_formed(JsonValue::Array(items).model()),
{
    lemma_array_model(items);
    let ms = models(items@);
    lemma_array_parts(ms);
    assert forall|i: int| 0 <= i < ms.len() implies well_formed(#[trigger] ms[i]) by {
        assert(ms[i] == items@[i].model());
    }
}

/// `Clone` of a `serde_json::Number` gives the same number.
pub assume_specification[ <serde_json::Number as Clone>::clone ](
    n: &serde_json::Number,
) -> (r: serde_json::Number)
    ensures
        r == *n,
;

impl Clone for JsonValue {
    /// A copy that holds the same tree.
    #[verifier::loop_isolation(false)]
    fn clone(&self) -> (r: Self)
        ensures
            r.model() == self.model(),
        decreases self,
    {
        match self {
            JsonValue::Null => JsonValue::Null,
            JsonValue::Bool(b) => JsonValue::Bool(*b),
            JsonValue::Number(n) => JsonValue::Number(n.clone()),
            JsonValue::String(s) => JsonValue::String(s.clone()),
            JsonValue::Array(items) => {
                let mut out: Vec<JsonValue> = Vec::new();
                let mut i: usize = 0;
                while i < items.len()
                    invariant
                        i <= items@.len(),
                        out@.len() == i,
                        forall|k: int| 0 <= k < i ==> out@[k].model() == items@[k].model(),
                    decreases items@.len() - i,
                {
                    out.push(items[i].clone());
                    i += 1;
                }
                proof {
                    lemma_array_model(out);
                    lemma_array_model(*items);
                    assert(models(out@) =~= models(items@));
                }
                JsonValue::Array(out)
            },
            JsonValue::Object(entries) => {
                let mut out: Vec<(String, JsonValue)> = Vec::new();
                let mut i: usize = 0;
                while i < entries.len()
                    invariant
                        i <= entries@.len(),
                        out@.len() == i,
                        forall|k: int|
                            0 <= k < i ==> out@[k].0@ == entries@[k].0@ && out@[k].1.model()
                                == entries@[k].1.model(),
                    decreases entries@.len() - i,
                {
                    out.push((entries[i].0.clone(), entries[i].1.clone()));
                    i += 1;
                }
                proof {
                    lemma_object_model(out);
                    lemma_object_model(*entries);
                    assert(entry_models(out@) =~= entry_models(entries@));
                }
                JsonValue::Object(out)
            },
        }
    }
}

/// Whether `j` is an object that holds `key`.
pub open spec fn has_field(j: Json, key: Seq<char>) -> bool {
    j matches Json::Object(entries) && key_index(entries, key) is Some
}

/// The value that `j` holds under `key`; `Null` where `j` is no object or
/// lacks the key.
pub open spec fn field(j: Json, key: Seq<char>) -> Json {
    match j {
        Json::Object(entries) => match key_index(entries, key) {
            Some(i) => entries[i].1,
            None => Json::Null,
        },
        _ => Json::Null,
    }
}

/// A value as the text that paths and query arguments are held against: a
/// string stands for its own characters, `null` and the two booleans for
/// their names, and a number, an array or an object for its JSON text.
pub open spec fn text_of(j: Json) -> Option<Seq<char>> {
    match j {
        Json::String(s) => Some(s),
        Json::Null => Some("null"@),
        Json::Bool(b) => Some(
            if b {
                "true"@
            } else {
                "false"@
            },
        ),
        _ => serialized(j),
    }
}

/// The text of the value that `j` holds under `key`.
pub open spec fn field_text(j: Json, key: Seq<char>) -> Option<Seq<char>> {
    text_of(field(j, key))
}

/// Whether `j` meets every filter: for each pair, the text of the field that
/// the pair names equals the pair's value.
pub open spec fn passes(j: Json, filters: Seq<(Seq<char>, Seq<char>)>) -> bool {
    forall|i: int|
        0 <= i < filters.len() ==> field_text(j, (#[trigger] filters[i]).0) == Some(filters[i].1)
}

/// The parts of a well-formed value are well formed.
pub proof fn lemma_field_well_formed(j: Json, key: Seq<char>)
    requires
        well_formed(j),
    ensures
        well_formed(field(j, key)),
{
    match j {
        Json::Object(entries) => {
            lemma_key_index(entries, key);
        },
        _ => {},
    }
}

/// Looks `key` up in `j`.
pub fn get_field<'a>(j: &'a JsonValue, key: &str) -> (r: Option<&'a JsonValue>)
    ensures
        r is Some == has_field(j.model(), key@),
        r matches Some(v) ==> v.model() == field(j.model(), key@),
        r is None ==> field(j.model(), key@) == Json::Null,
{
    match j {
        JsonValue::Object(entries) => {
            proof {
                lemma_object_model(*entries);
                assert(keys_of(entry_models(entries@)) =~= names(entries@));
            }
            match find_key(entries, key) {
                Some(i) => Some(&entries[i].1),
                None => None,
            }
        },
        _ => None,
    }
}

/// The text of a value: the characters of a string, the name of `null` or
/// of a boolean, the JSON text of anything else.
pub fn as_text(j: &JsonValue) -> (r: Option<String>)
    requires
        well_formed(j.model()),
    ensures
        optional_text(r) == text_of(j.model()),
{
    match j {
        JsonValue::String(s) => Some(s.clone()),
        JsonValue::Null => Some("null".to_owned()),
        JsonValue::Bool(b) => Some(
            if *b {
                "true".to_owned()
            } else {
                "false".to_owned()
            },
        ),
        _ => render(j),
    }
}

/// The text of the value under `key`.
pub fn field_as_text(j: &JsonValue, key: &str) -> (r: Option<String>)
    requires
        well_formed(j.model()),
    ensures
        optional_text(r) == field_text(j.model(), key@),
{
    proof {
        lemma_field_well_formed(j.model(), key@);
    }
    match get_field(j, key) {
        Some(v) => as_text(v),
        None => Some("null".to_owned()),
    }
}

/// Whether the text of the field `key` of `j` is `value`.
pub fn field_is(j: &JsonValue, key: &str, value: &str) -> (r: bool)
    requires
        well_formed(j.model()),
    ensures
        r == (field_text(j.model(), key@) == Some(value@)),
{
    match field_as_text(j, key) {
        Some(t) => same_text(t.as_str(), value),
        None => false,
    }
}

/// Whether `j` meets every filter.
pub fn check_filters(j: &JsonValue, filters: &Vec<(String, String)>) -> (r: bool)
    requires
        well_formed(j.model()),
    ensures
        r == passes(j.model(), text_pairs(filters@)),
{
    let mut i: usize = 0;
    while i < filters.len()
        invariant
            well_formed(j.model()),
            i <= filters@.len(),
            forall|k: int|
                0 <= k < i ==> field_text(j.model(), (#[trigger] text_pairs(filters@)[k]).0)
                    == Some(text_pairs(filters@)[k].1),
        decreases filters@.len() - i,
    {
        assert(text_pairs(filters@)[i as int] == (filters@[i as int].0@, filters@[i as int].1@));
        if !field_is(j, filters[i].0.as_str(), filters[i].1.as_str()) {
            return false;
        }
        i += 1;
    }
    true
}

/// `upsert` of a well-formed value keeps an object well formed.
pub proof fn lemma_upsert_well_formed(entries: Seq<(Seq<char>, Json)>, key: Seq<char>, value: Json)
    requires
        well_formed(Json::Object(entries)),
        well_formed(value),
    ensures
        well_formed(Json::Object(upsert(entries, key, value))),
{
    lemma_key_index(entries, key);
    lemma_upsert_distinct(entries, key, value);
    let after = upsert(entries, key, value);
    assert forall|i: int| 0 <= i < after.len() implies well_formed((#[trigger] after[i]).1) by {
        if i < entries.len() && after[i] == entries[i] {
            assert(well_formed(entries[i].1));
        }
    }
}

/// `overwrite` with a well-formed value keeps an object well formed.
pub proof fn lemma_overwrite_well_formed(
    entries: Seq<(Seq<char>, Json)>,
    key: Seq<char>,
    value: Json,
)
    requires
        well_formed(Json::Object(entries)),
        well_formed(value),
    ensures
        well_formed(Json::Object(overwrite(entries, key, value))),
{
    lemma_key_index(entries, key);
    lemma_overwrite_keys(entries, key, value);
    let after = overwrite(entries, key, value);
    assert forall|i: int| 0 <= i < after.len() implies well_formed((#[trigger] after[i]).1) by {
        if after[i] == entries[i] {
            assert(well_formed(entries[i].1));
        }
    }
}

/// `upsert_all` of well-formed values keeps an object well formed.
pub proof fn lemma_upsert_all_well_formed(
    entries: Seq<(Seq<char>, Json)>,
    changes: Seq<(Seq<char>, Json)>,
)
    requires
        well_formed(Json::Object(entries)),
        values_well_formed(changes),
    ensures
        well_formed(Json::Object(upsert_all(entries, changes))),
    decreases changes.len(),
{
    if changes.len() > 0 {
        let init = changes.drop_last();
        assert forall|i: int| 0 <= i < init.len() implies well_formed((#[trigger] init[i]).1) by {
            assert(init[i] == changes[i]);
        }
        lemma_upsert_all_well_formed(entries, init);
        assert(well_formed(changes[changes.len() - 1].1));
        lemma_upsert_well_formed(upsert_all(entries, init), changes.last().0, changes.last().1);
    }
}

/// `overwrite_all` with well-formed values keeps an object well formed.
pub proof fn lemma_overwrite_all_well_formed(
    entries: Seq<(Seq<char>, Json)>,
    changes: Seq<(Seq<char>, Json)>,
)
    requires
        well_formed(Json::Object(entries)),
        values_well_formed(changes),
    ensures
        well_formed(Json::Object(overwrite_all(entries, changes))),
    decreases changes.len(),
{
    if changes.len() > 0 {
        let init = changes.drop_last();
        assert forall|i: int| 0 <= i < init.len() implies well_formed((#[trigger] init[i]).1) by {
            assert(init[i] == changes[i]);
        }
        lemma_overwrite_all_well_formed(entries, init);
        assert(well_formed(changes[changes.len() - 1].1));
        lemma_overwrite_well_formed(
            overwrite_all(entries, init),
            changes.last().0,
            changes.last().1,
        );
    }
}

/// Sets each entry of `changes` in `entries`, in turn. With `create`, a key
/// that `entries` lacks is added at the end; without, it is passed over.
pub fn merge_entries(
    entries: &mut Vec<(String, JsonValue)>,
    changes: &Vec<(String, JsonValue)>,
    create: bool,
)
    ensures
        entry_models(final(entries)@) == if create {
            upsert_all(entry_models(old(entries)@), entry_models(changes@))
        } else {
            overwrite_all(entry_models(old(entries)@), entry_models(changes@))
        },
{
    let ghost start = entry_models(entries@);
    let ghost all = entry_models(changes@);
    let mut i: usize = 0;
    assert(all.take(0) =~= Seq::empty());
    while i < changes.len()
        invariant
            i <= changes@.len(),
            all == entry_models(changes@),
            entry_models(entries@) == if create {
                upsert_all(start, all.take(i as int))
            } else {
                overwrite_all(start, all.take(i as int))
            },
        decreases changes@.len() - i,
    {
        let ghost before = entry_models(entries@);
        let ghost head = all.take(i + 1);
        let key = changes[i].0.clone();
        let value = changes[i].1.clone();
        proof {
            assert(head.drop_last() =~= all.take(i as int));
            assert(head.last() == (key@, value.model()));
            assert(keys_of(before) =~= names(entries@));
        }
        match find_key(entries, key.as_str()) {
            Some(k) => {
                entries[k] = (key, value);
                assert(entry_models(entries@) =~= before.update(k as int, (key@, value.model())));
            },
            None => {
                if create {
                    entries.push((key, value));
                    assert(entry_models(entries@) =~= before.push((key@, value.model())));
                }
            },
        }
        i += 1;
    }
    assert(all.take(i as int) =~= all);
}

/// Whether a value is well formed.
#[verifier::loop_isolation(false)]
pub fn is_well_formed(j: &JsonValue) -> (r: bool)
    ensures
        r == well_formed(j.model()),
    decreases j,
{
    match j {
        JsonValue::Array(items) => {
            proof {
                lemma_array_model(*items);
                lemma_array_parts(models(items@));
            }
            let mut i: usize = 0;
            while i < items.len()
                invariant
                    i <= items@.len(),
                    forall|k: int| 0 <= k < i ==> well_formed(#[trigger] models(items@)[k]),
                decreases items@.len() - i,
            {
                assert(models(items@)[i as int] == items@[i as int].model());
                if !is_well_formed(&items[i]) {
                    return false;
                }
                i += 1;
            }
            true
        },
        JsonValue::Object(entries) => {
            proof {
                lemma_object_model(*entries);
                lemma_object_parts(entry_models(entries@));
                assert(keys_of(entry_models(entries@)) =~= names(entries@));
            }
            if !distinct_names(entries) {
                return false;
            }
            let mut i: usize = 0;
            while i < entries.len()
                invariant
                    i <= entries@.len(),
                    forall|k: int|
                        0 <= k < i ==> well_formed((#[trigger] entry_models(entries@)[k]).1),
                decreases entries@.len() - i,
            {
                assert(entry_models(entries@)[i as int].1 == entries@[i as int].1.model());
                if !is_well_formed(&entries[i].1) {
                    return false;
                }
                i += 1;
            }
            true
        },
        _ => true,
    }
}

} // verus!
