//! What holds of the store and of the path matcher across calls.
use crate::assoc::{
    distinct, key_index, keys_of, lemma_key_index, lemma_key_index_unique,
    lemma_overwrite_all_keys, overwrite_all,
};
use crate::db_handle::{
    bad_path, failing, get_model, passing, patch_model, patched, post_model, process_model, pruned, reply,
    selected, Failure,
};
use crate::codec::serialized;
use crate::json::{passes, Json};
use crate::pointer::{
    lemma_locate_valid, lemma_object_path_stable, lemma_read_replaced, lemma_replace_same,
    lemma_replace_twice, locate, node_at, replace_at, through_objects, valid_location,
};
use crate::text::{index_of, segments};
use crate::utils::{bind, bindings, extract, is_wildcard, path_matches, segments_match};
use vstd::prelude::*;

verus! {

/// A GET changes nothing, so a second GET with the same arguments, with no
/// write in between, answers exactly as the first did.
pub proof fn lemma_get_repeats(
    root_path: Seq<char>,
    doc: Json,
    path: Seq<char>,
    filters: Seq<(Seq<char>, Seq<char>)>,
    body: Seq<char>,
)
    ensures
        process_model(root_path, doc, "GET"@, path, filters, body).0 == doc,
        process_model(
            root_path,
            process_model(root_path, doc, "GET"@, path, filters, body).0,
            "GET"@,
            path,
            filters,
            body,
        ) == process_model(root_path, doc, "GET"@, path, filters, body),
{
}

/// A POST on a path that leads to an array puts the new element last: the
/// array is one longer, what it held stays in place, and nothing else in the
/// document changes.
pub proof fn lemma_post_appends(doc: Json, path: Seq<char>, item: Json)
    requires
        locate(doc, segments(path)) is Some,
        node_at(doc, locate(doc, segments(path))->0) is Array,
    ensures
        ({
            let loc = locate(doc, segments(path))->0;
            let items = node_at(doc, loc)->Array_0;
            let after = post_model(doc, path, Some(item));
            &&& after.0 == replace_at(doc, loc, Json::Array(items.push(item)))
            &&& node_at(after.0, loc) == Json::Array(items.push(item))
            &&& items.push(item).len() == items.len() + 1
            &&& items.push(item).last() == item
            &&& items.push(item).drop_last() == items
            &&& after.1 == reply(serialized(Json::Array(items.push(item))))
        }),
{
    let loc = locate(doc, segments(path))->0;
    let items = node_at(doc, loc)->Array_0;
    lemma_locate_valid(doc, segments(path), 0);
    lemma_read_replaced(doc, loc, Json::Array(items.push(item)));
    assert(items.push(item).drop_last() =~= items);
}

/// The document after a POST of each of `bodies`, in turn, on `path`.
pub open spec fn post_each(doc: Json, path: Seq<char>, bodies: Seq<Json>) -> Json
    decreases bodies.len(),
{
    if bodies.len() == 0 {
        doc
    } else {
        post_model(post_each(doc, path, bodies.drop_last()), path, Some(bodies.last())).0
    }
}

/// POSTs one after another on a path that keeps leading to the same array
/// lose nothing and repeat nothing: the array ends as what it held followed
/// by the new elements in the order of the POSTs, and nothing else in the
/// document changes.
pub proof fn lemma_posts_accumulate(doc: Json, path: Seq<char>, bodies: Seq<Json>, loc: Seq<int>)
    requires
        valid_location(doc, loc),
        node_at(doc, loc) is Array,
        forall|k: int|
            0 <= k < bodies.len() ==> locate(
                #[trigger] post_each(doc, path, bodies.take(k)),
                segments(path),
            ) == Some(loc),
    ensures
        post_each(doc, path, bodies) == replace_at(
            doc,
            loc,
            Json::Array(node_at(doc, loc)->Array_0 + bodies),
        ),
        node_at(post_each(doc, path, bodies), loc) == Json::Array(
            node_at(doc, loc)->Array_0 + bodies,
        ),
        (node_at(doc, loc)->Array_0 + bodies).len() == node_at(doc, loc)->Array_0.len()
            + bodies.len(),
    decreases bodies.len(),
{
    let items = node_at(doc, loc)->Array_0;
    if bodies.len() == 0 {
        assert(items + bodies =~= items);
        lemma_replace_same(doc, loc);
    } else {
        let init = bodies.drop_last();
        assert(bodies.take(0) =~= Seq::<Json>::empty());
        assert(post_each(doc, path, bodies.take(0)) == doc);
        lemma_locate_valid(doc, segments(path), 0);
        assert forall|k: int| 0 <= k < init.len() implies locate(
            #[trigger] post_each(doc, path, init.take(k)),
            segments(path),
        ) == Some(loc) by {
            assert(init.take(k) =~= bodies.take(k));
        }
        lemma_posts_accumulate(doc, path, init, loc);
        let mid = post_each(doc, path, init);
        assert(bodies.take(init.len() as int) =~= init);
        assert(locate(mid, segments(path)) == Some(loc));
        let grown = Json::Array((items + init).push(bodies.last()));
        assert((items + init).push(bodies.last()) =~= items + bodies);
        lemma_replace_twice(doc, loc, Json::Array(items + init), grown);
        lemma_read_replaced(doc, loc, grown);
    }
}

/// On a path that passes through objects alone, POSTs one after another
/// always reach the same array, so none is lost: the array ends as what it
/// held followed by the new elements in the order of the POSTs.
pub proof fn lemma_posts_accumulate_below_objects(doc: Json, path: Seq<char>, bodies: Seq<Json>)
    requires
        locate(doc, segments(path)) is Some,
        through_objects(doc, locate(doc, segments(path))->0),
        node_at(doc, locate(doc, segments(path))->0) is Array,
    ensures
        ({
            let loc = locate(doc, segments(path))->0;
            let items = node_at(doc, loc)->Array_0;
            &&& post_each(doc, path, bodies) == replace_at(doc, loc, Json::Array(items + bodies))
            &&& locate(post_each(doc, path, bodies), segments(path)) == Some(loc)
            &&& node_at(post_each(doc, path, bodies), loc) == Json::Array(items + bodies)
            &&& (items + bodies).len() == items.len() + bodies.len()
        }),
    decreases bodies.len(),
{
    let loc = locate(doc, segments(path))->0;
    let items = node_at(doc, loc)->Array_0;
    lemma_locate_valid(doc, segments(path), 0);
    if bodies.len() == 0 {
        assert(items + bodies =~= items);
        lemma_replace_same(doc, loc);
    } else {
        let init = bodies.drop_last();
        lemma_posts_accumulate_below_objects(doc, path, init);
        let mid = post_each(doc, path, init);
        lemma_read_replaced(doc, loc, Json::Array(items + init));
        let grown = Json::Array((items + init).push(bodies.last()));
        assert((items + init).push(bodies.last()) =~= items + bodies);
        lemma_replace_twice(doc, loc, Json::Array(items + init), grown);
        lemma_read_replaced(doc, loc, grown);
        lemma_object_path_stable(doc, segments(path), 0, loc, grown);
    }
}

/// Read your writes: on a path that passes through objects alone, what a
/// POST to an array answers is what a GET without filters then shows.
pub proof fn lemma_get_shows_post(doc: Json, path: Seq<char>, item: Json)
    requires
        locate(doc, segments(path)) is Some,
        through_objects(doc, locate(doc, segments(path))->0),
        node_at(doc, locate(doc, segments(path))->0) is Array,
    ensures
        get_model(post_model(doc, path, Some(item)).0, path, Seq::empty()) == post_model(
            doc,
            path,
            Some(item),
        ).1,
{
    let loc = locate(doc, segments(path))->0;
    let items = node_at(doc, loc)->Array_0;
    let grown = Json::Array(items.push(item));
    lemma_locate_valid(doc, segments(path), 0);
    lemma_read_replaced(doc, loc, grown);
    lemma_object_path_stable(doc, segments(path), 0, loc, grown);
    lemma_no_filter_selects_all(items.push(item));
}

/// After DELETE with filters, a GET with the same filters finds nothing left.
pub proof fn lemma_deleted_are_gone(items: Seq<Json>, filters: Seq<(Seq<char>, Seq<char>)>)
    ensures
        items.filter(failing(filters)).filter(passing(filters)) == Seq::<Json>::empty(),
{
    let rest = items.filter(failing(filters));
    let keep = passing(filters);
    assert forall|i: int| 0 <= i < rest.len() implies !keep(#[trigger] rest[i]) by {
        items.lemma_filter_pred(failing(filters), i);
    }
    rest.lemma_all_neg_filter_empty(keep);
}

/// PATCH on a path that leads to an array is a bad request, whatever the
/// body, and changes nothing.
pub proof fn lemma_patch_rejects_arrays(doc: Json, path: Seq<char>, body: Option<Json>)
    requires
        locate(doc, segments(path)) is Some,
        node_at(doc, locate(doc, segments(path))->0) is Array,
    ensures
        patch_model(doc, path, body) == (doc, Err::<Seq<char>, Failure>(bad_path())),
{
}

/// PATCH of an object adds no key and drops none: the keys stay as they
/// were, in their order. An entry whose key the body holds takes the body's
/// value, and every other entry keeps its own.
pub proof fn lemma_patch_updates_known_keys(
    entries: Seq<(Seq<char>, Json)>,
    changes: Seq<(Seq<char>, Json)>,
)
    requires
        distinct(keys_of(entries)),
        distinct(keys_of(changes)),
    ensures
        patched(Json::Object(entries), Some(Json::Object(changes))) == Ok::<Json, Failure>(
            Json::Object(overwrite_all(entries, changes)),
        ),
        keys_of(overwrite_all(entries, changes)) == keys_of(entries),
        forall|i: int|
            0 <= i < entries.len() ==> (#[trigger] overwrite_all(entries, changes)[i]).1 == (
            match key_index(changes, entries[i].0) {
                Some(j) => changes[j].1,
                None => entries[i].1,
            }),
    decreases changes.len(),
{
    lemma_overwrite_all_keys(entries, changes);
    let after = overwrite_all(entries, changes);
    assert(after.len() == keys_of(after).len());
    if changes.len() == 0 {
        assert forall|i: int| 0 <= i < entries.len() implies key_index(changes, entries[i].0)
            is None by {
            lemma_key_index(changes, entries[i].0);
        }
    } else {
        let init = changes.drop_last();
        let last = changes.last();
        let n = init.len() as int;
        assert(keys_of(init) =~= keys_of(changes).drop_last());
        lemma_patch_updates_known_keys(entries, init);
        let mid = overwrite_all(entries, init);
        lemma_overwrite_all_keys(entries, init);
        assert(mid.len() == keys_of(mid).len());
        lemma_key_index(mid, last.0);
        assert forall|i: int| 0 <= i < entries.len() implies (#[trigger] after[i]).1 == (
        match key_index(changes, entries[i].0) {
            Some(j) => changes[j].1,
            None => entries[i].1,
        }) by {
            let key = entries[i].0;
            assert(keys_of(mid)[i] == keys_of(entries)[i]);
            assert(mid[i].0 == key);
            lemma_key_index(changes, key);
            lemma_key_index(init, key);
            if key == last.0 {
                lemma_key_index_unique(mid, i);
                lemma_key_index_unique(changes, n);
            } else {
                match key_index(mid, last.0) {
                    Some(m) => {
                        assert(m != i);
                    },
                    None => {},
                }
                match key_index(init, key) {
                    Some(j) => {
                        assert(init[j] == changes[j]);
                        lemma_key_index_unique(changes, j);
                    },
                    None => {
                        assert forall|j: int| 0 <= j < changes.len() implies changes[j].0
                            != key by {
                            if j < n {
                                assert(init[j] == changes[j]);
                            }
                        }
                    },
                }
            }
        }
    }
}

/// DELETE of an index takes that item out and moves each later item one
/// place down: what stood at the next index stands at the deleted one.
pub proof fn lemma_delete_shifts(items: Seq<Json>, last: Seq<char>, n: usize)
    requires
        index_of(last) == Some(n),
        n < items.len(),
    ensures
        pruned(Json::Array(items), last) == Json::Array(items.remove(n as int)),
        items.remove(n as int).len() == items.len() - 1,
        forall|k: int| 0 <= k < n ==> #[trigger] items.remove(n as int)[k] == items[k],
        forall|k: int|
            n <= k < items.len() - 1 ==> #[trigger] items.remove(n as int)[k] == items[k + 1],
{
}

/// Filters are joined by "and": an element meets two lists of filters taken
/// together exactly when it meets each, in whichever order they stand.
pub proof fn lemma_filters_conjoin(
    j: Json,
    a: Seq<(Seq<char>, Seq<char>)>,
    b: Seq<(Seq<char>, Seq<char>)>,
)
    ensures
        passes(j, a + b) == (passes(j, a) && passes(j, b)),
        passes(j, a + b) == passes(j, b + a),
{
    lemma_filters_split(j, a, b);
    lemma_filters_split(j, b, a);
}

/// An element meets two lists of filters taken together exactly when it meets each.
pub proof fn lemma_filters_split(
    j: Json,
    a: Seq<(Seq<char>, Seq<char>)>,
    b: Seq<(Seq<char>, Seq<char>)>,
)
    ensures
        passes(j, a + b) == (passes(j, a) && passes(j, b)),
{
    let ab = a + b;
    if passes(j, ab) {
        assert forall|i: int| 0 <= i < a.len() implies crate::json::field_text(
            j,
            (#[trigger] a[i]).0,
        ) == Some(a[i].1) by {
            assert(ab[i] == a[i]);
        }
        assert forall|i: int| 0 <= i < b.len() implies crate::json::field_text(
            j,
            (#[trigger] b[i]).0,
        ) == Some(b[i].1) by {
            assert(ab[a.len() + i] == b[i]);
        }
    }
    if passes(j, a) && passes(j, b) {
        assert forall|i: int| 0 <= i < ab.len() implies crate::json::field_text(
            j,
            (#[trigger] ab[i]).0,
        ) == Some(ab[i].1) by {
            if i < a.len() {
                assert(ab[i] == a[i]);
            } else {
                assert(ab[i] == b[i - a.len()]);
            }
        }
    }
}

/// Filters narrow step by step: the items that meet two lists of filters
/// taken together are those that meet the second among those that meet the
/// first.
pub proof fn lemma_filters_narrow(
    items: Seq<Json>,
    a: Seq<(Seq<char>, Seq<char>)>,
    b: Seq<(Seq<char>, Seq<char>)>,
)
    ensures
        items.filter(passing(a + b)) == items.filter(passing(a)).filter(passing(b)),
    decreases items.len(),
{
    reveal(Seq::filter);
    if items.len() > 0 {
        let init = items.drop_last();
        let last = items.last();
        lemma_filters_narrow(init, a, b);
        lemma_filters_split(last, a, b);
        assert(passing(a + b)(last) == passes(last, a + b));
        assert(passing(a)(last) == passes(last, a));
        assert(passing(b)(last) == passes(last, b));
        if passes(last, a) {
            init.filter(passing(a)).lemma_filter_push(last, passing(b));
        }
    } else {
        assert(items.filter(passing(a)) =~= Seq::<Json>::empty());
    }
}

/// With no filter, GET shows an array whole.
pub proof fn lemma_no_filter_selects_all(items: Seq<Json>)
    ensures
        selected(Json::Array(items), Seq::empty()) == Json::Array(items),
    decreases items.len(),
{
    let pred = passing(Seq::empty());
    reveal(Seq::filter);
    if items.len() > 0 {
        lemma_no_filter_selects_all(items.drop_last());
        assert(items.drop_last().filter(pred) == items.drop_last());
        assert(pred(items.last()));
        assert(items.drop_last().push(items.last()) =~= items);
    }
    assert(items.filter(pred) =~= items);
}

/// What DELETE with filters removes is what GET with the same filters
/// shows: between them, the two hold every element of the array once.
pub proof fn lemma_delete_complements_get(items: Seq<Json>, filters: Seq<(Seq<char>, Seq<char>)>)
    ensures
        items.filter(passing(filters)).len() + items.filter(failing(filters)).len() == items.len(),
        forall|i: int|
            0 <= i < items.len() ==> (items.filter(passing(filters)).contains(#[trigger] items[i])
                <==> passes(items[i], filters)),
        forall|i: int|
            0 <= i < items.len() ==> (items.filter(failing(filters)).contains(#[trigger] items[i])
                <==> !passes(items[i], filters)),
    decreases items.len(),
{
    let keep = passing(filters);
    let drop = failing(filters);
    reveal(Seq::filter);
    if items.len() > 0 {
        lemma_delete_complements_get(items.drop_last(), filters);
    }
    assert forall|i: int| 0 <= i < items.len() implies (items.filter(keep).contains(
        #[trigger] items[i],
    ) <==> passes(items[i], filters)) by {
        if passes(items[i], filters) {
            assert(keep(items[i]));
            items.lemma_filter_contains(keep, i);
        }
        if items.filter(keep).contains(items[i]) {
            items.lemma_filter_contains_rev(keep, items[i]);
        }
    }
    assert forall|i: int| 0 <= i < items.len() implies (items.filter(drop).contains(
        #[trigger] items[i],
    ) <==> !passes(items[i], filters)) by {
        if !passes(items[i], filters) {
            assert(drop(items[i]));
            items.lemma_filter_contains(drop, i);
        }
        if items.filter(drop).contains(items[i]) {
            items.lemma_filter_contains_rev(drop, items[i]);
        }
    }
}

/// A template that matches a path has as many segments as the path, and its
/// parameters can be extracted from it.
pub proof fn lemma_match_extracts(template: Seq<char>, path: Seq<char>)
    requires
        path_matches(template, path),
    ensures
        segments(template).len() == segments(path).len(),
        extract(path, template) is Some,
{
    lemma_matching_prefix_binds(segments(path), segments(template), segments(path).len());
}

/// Where the first `n` pieces match their patterns, they bind.
pub proof fn lemma_matching_prefix_binds(
    pieces: Seq<Seq<char>>,
    patterns: Seq<Seq<char>>,
    n: nat,
)
    requires
        segments_match(patterns, pieces),
        n <= pieces.len(),
    ensures
        bindings(pieces, patterns, n) is Some,
    decreases n,
{
    if n > 0 {
        lemma_matching_prefix_binds(pieces, patterns, (n - 1) as nat);
        assert(patterns[n - 1] == pieces[n - 1] || is_wildcard(patterns[n - 1]));
    }
}

} // verus!
