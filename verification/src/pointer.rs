//! Addressing inside a document: from path segments to a location in the
//! tree, and reading and replacing the node at a location.
use crate::assoc::{find_key, key_index, keys_of, lemma_key_index, names};
use crate::json::{
    entry_models, field_is, field_text, lemma_array_model, lemma_items_well_formed,
    lemma_object_model, models,
    well_formed, Json, JsonValue,
};
use crate::text::{index_of, parse_index, texts};
use vstd::prelude::*;

verus! {

/// The first item at or after `from` whose `id` field has the text `segment`.
pub open spec fn id_index_from(items: Seq<Json>, segment: Seq<char>, from: int) -> Option<int>
    decreases items.len() - from,
{
    if from >= items.len() {
        None
    } else if field_text(items[from], "id"@) == Some(segment) {
        Some(from)
    } else {
        id_index_from(items, segment, from + 1)
    }
}

/// The first item whose `id` field has the text `segment`.
pub open spec fn id_index(items: Seq<Json>, segment: Seq<char>) -> Option<int> {
    id_index_from(items, segment, 0)
}

/// The item that `segment` denotes as a decimal index within `len` items.
pub open spec fn index_within(segment: Seq<char>, len: nat) -> Option<int> {
    match index_of(segment) {
        Some(n) => if n < len {
            Some(n as int)
        } else {
            None
        },
        None => None,
    }
}

/// The child of `node` that `segment` denotes. In an array: the first item
/// whose `id` has that text, else the item at that decimal index. In an
/// object: the entry of that key. Other nodes have no children.
pub open spec fn child_slot(node: Json, segment: Seq<char>) -> Option<int> {
    match node {
        Json::Array(items) => match id_index(items, segment) {
            Some(i) => Some(i),
            None => index_within(segment, items.len()),
        },
        Json::Object(entries) => key_index(entries, segment),
        _ => None,
    }
}

/// Whether `node` has a child at `slot`.
pub open spec fn has_child(node: Json, slot: int) -> bool {
    match node {
        Json::Array(items) => 0 <= slot < items.len(),
        Json::Object(entries) => 0 <= slot < entries.len(),
        _ => false,
    }
}

/// The child of `node` at `slot`.
pub open spec fn child(node: Json, slot: int) -> Json {
    match node {
        Json::Array(items) => items[slot],
        Json::Object(entries) => entries[slot].1,
        _ => Json::Null,
    }
}

/// `node` with `new` in place of its child at `slot`.
pub open spec fn with_child(node: Json, slot: int, new: Json) -> Json {
    match node {
        Json::Array(items) => Json::Array(items.update(slot, new)),
        Json::Object(entries) => Json::Object(entries.update(slot, (entries[slot].0, new))),
        _ => node,
    }
}

/// Whether `loc`, a list of slots, leads from `node` to a node below it.
pub open spec fn valid_location(node: Json, loc: Seq<int>) -> bool
    decreases loc.len(),
{
    loc.len() == 0 || (has_child(node, loc[0]) && valid_location(
        child(node, loc[0]),
        loc.drop_first(),
    ))
}

/// The node that `loc` leads to.
pub open spec fn node_at(node: Json, loc: Seq<int>) -> Json
    decreases loc.len(),
{
    if loc.len() == 0 {
        node
    } else {
        node_at(child(node, loc[0]), loc.drop_first())
    }
}

/// `node` with `new` in place of the node that `loc` leads to.
pub open spec fn replace_at(node: Json, loc: Seq<int>, new: Json) -> Json
    decreases loc.len(),
{
    if loc.len() == 0 {
        new
    } else {
        with_child(node, loc[0], replace_at(child(node, loc[0]), loc.drop_first(), new))
    }
}

/// The location that the segments from `from` on lead to, starting at `node`.
/// Empty segments are passed over; a segment that denotes no child fails.
pub open spec fn locate_from(node: Json, segs: Seq<Seq<char>>, from: int) -> Option<Seq<int>>
    decreases segs.len() - from,
{
    if from >= segs.len() {
        Some(Seq::empty())
    } else if segs[from].len() == 0 {
        locate_from(node, segs, from + 1)
    } else {
        match child_slot(node, segs[from]) {
            Some(k) => match locate_from(child(node, k), segs, from + 1) {
                Some(rest) => Some(seq![k] + rest),
                None => None,
            },
            None => None,
        }
    }
}

/// The location that `segs` lead to from `node`.
pub open spec fn locate(node: Json, segs: Seq<Seq<char>>) -> Option<Seq<int>> {
    locate_from(node, segs, 0)
}

/// A list of indices, as slots.
pub open spec fn slots(loc: Seq<usize>) -> Seq<int> {
    Seq::new(loc.len(), |i: int| loc[i] as int)
}

/// `loc` in front of what was found below it.
pub open spec fn extend(loc: Seq<int>, rest: Option<Seq<int>>) -> Option<Seq<int>> {
    match rest {
        Some(r) => Some(loc + r),
        None => None,
    }
}

/// What `id_index_from` finds is the first match, and `None` means there is none.
pub proof fn lemma_id_index_from(items: Seq<Json>, segment: Seq<char>, from: int)
    requires
        0 <= from,
    ensures
        match id_index_from(items, segment, from) {
            Some(i) => from <= i < items.len() && field_text(items[i], "id"@) == Some(segment)
                && forall|j: int|
                from <= j < i ==> field_text(#[trigger] items[j], "id"@) != Some(segment),
            None => forall|j: int|
                from <= j < items.len() ==> field_text(#[trigger] items[j], "id"@) != Some(
                    segment,
                ),
        },
    decreases items.len() - from,
{
    if from < items.len() && field_text(items[from], "id"@) != Some(segment) {
        lemma_id_index_from(items, segment, from + 1);
    }
}

/// The slot that a segment denotes holds a child.
pub proof fn lemma_child_slot(node: Json, segment: Seq<char>)
    ensures
        child_slot(node, segment) matches Some(k) ==> has_child(node, k),
{
    match node {
        Json::Array(items) => {
            lemma_id_index_from(items, segment, 0);
        },
        Json::Object(entries) => {
            lemma_key_index(entries, segment);
        },
        _ => {},
    }
}

/// The children of a well-formed node are well formed.
pub proof fn lemma_child_well_formed(node: Json, slot: int)
    requires
        well_formed(node),
        has_child(node, slot),
    ensures
        well_formed(child(node, slot)),
{
    match node {
        Json::Array(items) => {
            assert(well_formed(items[slot]));
        },
        Json::Object(entries) => {
            assert(well_formed(entries[slot].1));
        },
        _ => {},
    }
}

/// Replacing a child by a well-formed value keeps a node well formed.
pub proof fn lemma_with_child_well_formed(node: Json, slot: int, new: Json)
    requires
        well_formed(node),
        has_child(node, slot),
        well_formed(new),
    ensures
        well_formed(with_child(node, slot, new)),
        has_child(with_child(node, slot, new), slot),
        child(with_child(node, slot, new), slot) == new,
{
    match node {
        Json::Array(items) => {
            let after = items.update(slot, new);
            assert forall|i: int| 0 <= i < after.len() implies well_formed(
                #[trigger] after[i],
            ) by {
                if i != slot {
                    assert(well_formed(items[i]));
                }
            }
        },
        Json::Object(entries) => {
            let after = entries.update(slot, (entries[slot].0, new));
            assert(keys_of(after) =~= keys_of(entries));
            assert forall|i: int| 0 <= i < after.len() implies well_formed(
                (#[trigger] after[i]).1,
            ) by {
                if i != slot {
                    assert(well_formed(entries[i].1));
                }
            }
        },
        _ => {},
    }
}

/// What `locate_from` finds is a valid location.
pub proof fn lemma_locate_valid(node: Json, segs: Seq<Seq<char>>, from: int)
    requires
        0 <= from,
    ensures
        locate_from(node, segs, from) matches Some(loc) ==> valid_location(node, loc),
    decreases segs.len() - from,
{
    if from < segs.len() {
        if segs[from].len() == 0 {
            lemma_locate_valid(node, segs, from + 1);
        } else {
            match child_slot(node, segs[from]) {
                Some(k) => {
                    lemma_child_slot(node, segs[from]);
                    lemma_locate_valid(child(node, k), segs, from + 1);
                    match locate_from(child(node, k), segs, from + 1) {
                        Some(rest) => {
                            assert((seq![k] + rest).drop_first() =~= rest);
                        },
                        None => {},
                    }
                },
                None => {},
            }
        }
    }
}

/// The node at a valid location of a well-formed document is well formed.
pub proof fn lemma_node_at_well_formed(node: Json, loc: Seq<int>)
    requires
        well_formed(node),
        valid_location(node, loc),
    ensures
        well_formed(node_at(node, loc)),
    decreases loc.len(),
{
    if loc.len() > 0 {
        lemma_child_well_formed(node, loc[0]);
        lemma_node_at_well_formed(child(node, loc[0]), loc.drop_first());
    }
}

/// Replacing the node at a valid location by a well-formed value keeps the
/// document well formed and the location valid, and the new value is what
/// the location then leads to.
pub proof fn lemma_replace_at(node: Json, loc: Seq<int>, new: Json)
    requires
        well_formed(node),
        valid_location(node, loc),
        well_formed(new),
    ensures
        well_formed(replace_at(node, loc, new)),
        valid_location(replace_at(node, loc, new), loc),
        node_at(replace_at(node, loc, new), loc) == new,
    decreases loc.len(),
{
    if loc.len() > 0 {
        lemma_child_well_formed(node, loc[0]);
        lemma_replace_at(child(node, loc[0]), loc.drop_first(), new);
        lemma_with_child_well_formed(
            node,
            loc[0],
            replace_at(child(node, loc[0]), loc.drop_first(), new),
        );
    }
}

/// After a replacement at a valid location, the location is still valid and
/// leads to the new node.
pub proof fn lemma_read_replaced(node: Json, loc: Seq<int>, new: Json)
    requires
        valid_location(node, loc),
    ensures
        valid_location(replace_at(node, loc, new), loc),
        node_at(replace_at(node, loc, new), loc) == new,
    decreases loc.len(),
{
    if loc.len() > 0 {
        lemma_read_replaced(child(node, loc[0]), loc.drop_first(), new);
    }
}

/// Whether every node that `loc` passes through, above the one it leads to,
/// is an object.
pub open spec fn through_objects(node: Json, loc: Seq<int>) -> bool
    decreases loc.len(),
{
    loc.len() == 0 || (node is Object && through_objects(child(node, loc[0]), loc.drop_first()))
}

/// A path that passes through objects alone leads to the same place after
/// the node at its end has been replaced.
pub proof fn lemma_object_path_stable(
    node: Json,
    segs: Seq<Seq<char>>,
    from: int,
    loc: Seq<int>,
    new: Json,
)
    requires
        0 <= from,
        locate_from(node, segs, from) == Some(loc),
        through_objects(node, loc),
    ensures
        locate_from(replace_at(node, loc, new), segs, from) == Some(loc),
        through_objects(replace_at(node, loc, new), loc),
    decreases segs.len() - from,
{
    if from >= segs.len() {
        assert(loc.len() == 0);
    } else if segs[from].len() == 0 {
        lemma_object_path_stable(node, segs, from + 1, loc, new);
    } else {
        let k = child_slot(node, segs[from])->0;
        let rest = locate_from(child(node, k), segs, from + 1)->0;
        assert(loc =~= seq![k] + rest);
        assert(loc.drop_first() =~= rest);
        assert(loc[0] == k);
        lemma_child_slot(node, segs[from]);
        lemma_object_path_stable(child(node, k), segs, from + 1, rest, new);
        let entries = node->Object_0;
        let below = replace_at(child(node, k), rest, new);
        let after = entries.update(k, (entries[k].0, below));
        assert(replace_at(node, loc, new) == Json::Object(after));
        assert(keys_of(after) =~= keys_of(entries));
        assert(child(Json::Object(after), k) == below);
    }
}

/// A second replacement at a location undoes the first.
pub proof fn lemma_replace_twice(node: Json, loc: Seq<int>, first: Json, second: Json)
    requires
        valid_location(node, loc),
    ensures
        replace_at(replace_at(node, loc, first), loc, second) == replace_at(node, loc, second),
    decreases loc.len(),
{
    if loc.len() > 0 {
        let k = loc[0];
        let rest = loc.drop_first();
        lemma_replace_twice(child(node, k), rest, first, second);
        let mid = replace_at(child(node, k), rest, first);
        match node {
            Json::Array(items) => {
                assert(items.update(k, mid).update(k, replace_at(mid, rest, second))
                    =~= items.update(k, replace_at(child(node, k), rest, second)));
            },
            Json::Object(entries) => {
                assert(entries.update(k, (entries[k].0, mid)).update(
                    k,
                    (entries[k].0, replace_at(mid, rest, second)),
                ) =~= entries.update(k, (entries[k].0, replace_at(child(node, k), rest, second))));
            },
            _ => {},
        }
    }
}

/// Putting back the node that stands at a location changes nothing.
pub proof fn lemma_replace_same(node: Json, loc: Seq<int>)
    requires
        valid_location(node, loc),
    ensures
        replace_at(node, loc, node_at(node, loc)) == node,
    decreases loc.len(),
{
    if loc.len() > 0 {
        let k = loc[0];
        lemma_replace_same(child(node, k), loc.drop_first());
        match node {
            Json::Array(items) => {
                assert(items.update(k, items[k]) =~= items);
            },
            Json::Object(entries) => {
                assert(entries.update(k, (entries[k].0, entries[k].1)) =~= entries);
            },
            _ => {},
        }
    }
}

/// Finds the first item whose `id` field has the text `segment`.
pub fn find_id(items: &Vec<JsonValue>, segment: &str) -> (r: Option<usize>)
    requires
        forall|i: int| 0 <= i < items@.len() ==> well_formed(#[trigger] items@[i].model()),
    ensures
        r is Some == id_index(models(items@), segment@) is Some,
        r matches Some(i) ==> id_index(models(items@), segment@) == Some(i as int) && i
            < items@.len(),
{
    let mut i: usize = 0;
    while i < items.len()
        invariant
            forall|i: int| 0 <= i < items@.len() ==> well_formed(#[trigger] items@[i].model()),
            i <= items@.len(),
            id_index(models(items@), segment@) == id_index_from(
                models(items@),
                segment@,
                i as int,
            ),
        decreases items@.len() - i,
    {
        assert(models(items@)[i as int] == items@[i as int].model());
        if field_is(&items[i], "id", segment) {
            return Some(i);
        }
        i += 1;
    }
    None
}

/// Finds the child of `node` that `segment` denotes.
pub fn find_slot(node: &JsonValue, segment: &str) -> (r: Option<usize>)
    requires
        well_formed(node.model()),
    ensures
        r is Some == child_slot(node.model(), segment@) is Some,
        r matches Some(k) ==> child_slot(node.model(), segment@) == Some(k as int) && has_child(
            node.model(),
            k as int,
        ),
{
    proof {
        lemma_child_slot(node.model(), segment@);
    }
    match node {
        JsonValue::Array(items) => {
            proof {
                lemma_array_model(*items);
                lemma_items_well_formed(*items);
            }
            match find_id(items, segment) {
                Some(i) => Some(i),
                None => match parse_index(segment) {
                    Some(n) => if n < items.len() {
                        Some(n)
                    } else {
                        None
                    },
                    None => None,
                },
            }
        },
        JsonValue::Object(entries) => {
            proof {
                lemma_object_model(*entries);
                assert(keys_of(entry_models(entries@)) =~= names(entries@));
            }
            find_key(entries, segment)
        },
        _ => None,
    }
}

/// Walks the first `count` segments down from `root`.
pub fn locate_in(root: &JsonValue, segs: &Vec<String>, count: usize) -> (r: Option<Vec<usize>>)
    requires
        well_formed(root.model()),
        count <= segs@.len(),
    ensures
        r is Some == locate(root.model(), texts(segs@).take(count as int)) is Some,
        r matches Some(loc) ==> Some(slots(loc@)) == locate(
            root.model(),
            texts(segs@).take(count as int),
        ) && valid_location(root.model(), slots(loc@)),
{
    let ghost names = texts(segs@).take(count as int);
    let mut cur: &JsonValue = root;
    let mut loc: Vec<usize> = Vec::new();
    let mut i: usize = 0;
    proof {
        assert(slots(loc@) =~= Seq::<int>::empty());
        match locate_from(root.model(), names, 0) {
            Some(rest) => {
                assert(Seq::<int>::empty() + rest =~= rest);
            },
            None => {},
        }
        lemma_locate_valid(root.model(), names, 0);
    }
    while i < count
        invariant
            names == texts(segs@).take(count as int),
            count <= segs@.len(),
            i <= count,
            well_formed(cur.model()),
            locate(root.model(), names) == extend(slots(loc@), locate_from(cur.model(), names, i as int)),
        decreases count - i,
    {
        assert(names[i as int] == segs@[i as int]@);
        let segment = segs[i].as_str();
        if segment.unicode_len() > 0 {
            match find_slot(cur, segment) {
                Some(k) => {
                    let ghost before = slots(loc@);
                    let ghost parent = cur.model();
                    proof {
                        lemma_child_well_formed(parent, k as int);
                    }
                    match cur {
                        JsonValue::Array(items) => {
                            cur = &items[k];
                        },
                        JsonValue::Object(entries) => {
                            cur = &entries[k].1;
                        },
                        _ => {},
                    }
                    assert(cur.model() == child(parent, k as int));
                    loc.push(k);
                    proof {
                        assert(slots(loc@) =~= before.push(k as int));
                        match locate_from(cur.model(), names, i + 1) {
                            Some(rest) => {
                                assert(before + (seq![k as int] + rest) =~= before.push(k as int)
                                    + rest);
                            },
                            None => {},
                        }
                    }
                },
                None => {
                    return None;
                },
            }
        }
        i += 1;
    }
    proof {
        assert(slots(loc@) + Seq::<int>::empty() =~= slots(loc@));
        lemma_locate_valid(root.model(), names, 0);
    }
    Some(loc)
}

/// The node that `loc` leads to from `root`.
pub fn node_ref<'a>(root: &'a JsonValue, loc: &Vec<usize>) -> (r: &'a JsonValue)
    requires
        valid_location(root.model(), slots(loc@)),
    ensures
        r.model() == node_at(root.model(), slots(loc@)),
{
    let mut cur: &JsonValue = root;
    let mut i: usize = 0;
    proof {
        assert(slots(loc@).skip(0) =~= slots(loc@));
    }
    while i < loc.len()
        invariant
            i <= loc@.len(),
            valid_location(cur.model(), slots(loc@).skip(i as int)),
            node_at(root.model(), slots(loc@)) == node_at(cur.model(), slots(loc@).skip(i as int)),
        decreases loc@.len() - i,
    {
        let k = loc[i];
        let ghost rest = slots(loc@).skip(i as int);
        assert(rest[0] == k as int);
        assert(rest.drop_first() =~= slots(loc@).skip(i + 1));
        match cur {
            JsonValue::Array(items) => {
                cur = &items[k];
            },
            JsonValue::Object(entries) => {
                cur = &entries[k].1;
            },
            _ => {},
        }
        i += 1;
    }
    cur
}

/// Puts `new` where `loc` leads to, from position `depth` of `loc` on, and
/// returns what stood there.
pub fn exchange_at(node: &mut JsonValue, loc: &Vec<usize>, depth: usize, new: JsonValue) -> (prev:
    JsonValue)
    requires
        depth <= loc@.len(),
        valid_location(old(node).model(), slots(loc@).skip(depth as int)),
    ensures
        prev.model() == node_at(old(node).model(), slots(loc@).skip(depth as int)),
        final(node).model() == replace_at(
            old(node).model(),
            slots(loc@).skip(depth as int),
            new.model(),
        ),
    decreases loc@.len() - depth,
    no_unwind
{
    let ghost rest = slots(loc@).skip(depth as int);
    if depth == loc.len() {
        assert(rest.len() == 0);
        let mut swapped = new;
        std::mem::swap(node, &mut swapped);
        swapped
    } else {
        let k = loc[depth];
        assert(rest[0] == k as int);
        assert(rest.drop_first() =~= slots(loc@).skip(depth + 1));
        match node {
            JsonValue::Array(items) => {
                let prev = exchange_at(&mut items[k], loc, depth + 1, new);
                assert(final(node).model()->Array_0 =~= old(node).model()->Array_0.update(
                    k as int,
                    items@[k as int].model(),
                ));
                prev
            },
            JsonValue::Object(entries) => {
                let prev = exchange_at(&mut entries[k].1, loc, depth + 1, new);
                assert(final(node).model()->Object_0 =~= old(node).model()->Object_0.update(
                    k as int,
                    (old(node).model()->Object_0[k as int].0, entries@[k as int].1.model()),
                ));
                prev
            },
            // A valid location leads through arrays and objects alone.
            _ => new,
        }
    }
}

/// Puts `new` where `loc` leads to, and returns what stood there.
pub fn exchange(root: &mut JsonValue, loc: &Vec<usize>, new: JsonValue) -> (prev: JsonValue)
    requires
        valid_location(old(root).model(), slots(loc@)),
    ensures
        prev.model() == node_at(old(root).model(), slots(loc@)),
        final(root).model() == replace_at(old(root).model(), slots(loc@), new.model()),
    no_unwind
{
    proof {
        assert(slots(loc@).skip(0) =~= slots(loc@));
    }
    exchange_at(root, loc, 0, new)
}

/// Takes out the node that `loc` leads to, leaving `null` in its place.
pub fn take_out(root: &mut JsonValue, loc: &Vec<usize>) -> (node: JsonValue)
    requires
        well_formed(old(root).model()),
        valid_location(old(root).model(), slots(loc@)),
    ensures
        node.model() == node_at(old(root).model(), slots(loc@)),
        well_formed(node.model()),
        final(root).model() == replace_at(old(root).model(), slots(loc@), Json::Null),
        well_formed(final(root).model()),
    no_unwind
{
    proof {
        lemma_replace_at(root.model(), slots(loc@), Json::Null);
    }
    proof {
        lemma_node_at_well_formed(root.model(), slots(loc@));
    }
    exchange(root, loc, JsonValue::Null)
}

/// Puts `node` where `take_out` left `null`.
pub(crate) fn put_back(root: &mut JsonValue, loc: &Vec<usize>, node: JsonValue, Ghost(initial): Ghost<Json>)
    requires
        well_formed(initial),
        valid_location(initial, slots(loc@)),
        old(root).model() == replace_at(initial, slots(loc@), Json::Null),
        well_formed(node.model()),
    ensures
        final(root).model() == replace_at(initial, slots(loc@), node.model()),
        well_formed(final(root).model()),
        node.model() == node_at(initial, slots(loc@)) ==> final(root).model() == initial,
    no_unwind
{
    proof {
        lemma_replace_at(initial, slots(loc@), Json::Null);
        lemma_replace_twice(initial, slots(loc@), Json::Null, node.model());
        lemma_replace_at(initial, slots(loc@), node.model());
        lemma_replace_same(initial, slots(loc@));
    }
    let _ = exchange(root, loc, node);
}

} // verus!
