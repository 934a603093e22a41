//! Ordered lists of entries keyed by text: lookup by first match, and the
//! updates that keep every key at most once.
use crate::text::same_text;
use vstd::prelude::*;

verus! {

/// The keys of a list of entries, in order.
pub open spec fn keys_of<V>(entries: Seq<(Seq<char>, V)>) -> Seq<Seq<char>> {
    Seq::new(entries.len(), |i: int| entries[i].0)
}

/// The first position at or after `from` that holds `key`.
pub open spec fn position_from(keys: Seq<Seq<char>>, key: Seq<char>, from: int) -> Option<int>
    decreases keys.len() - from,
{
    if from >= keys.len() {
        None
    } else if keys[from] == key {
        Some(from)
    } else {
        position_from(keys, key, from + 1)
    }
}

/// The first position that holds `key`.
pub open spec fn position(keys: Seq<Seq<char>>, key: Seq<char>) -> Option<int> {
    position_from(keys, key, 0)
}

/// The first entry whose key is `key`.
pub open spec fn key_index<V>(entries: Seq<(Seq<char>, V)>, key: Seq<char>) -> Option<int> {
    position(keys_of(entries), key)
}

/// No key stands twice.
pub open spec fn distinct(keys: Seq<Seq<char>>) -> bool {
    forall|i: int, j: int| 0 <= i < j < keys.len() ==> keys[i] != keys[j]
}

/// Sets `key` to `value`: in place where the key is present, at the end where it is not.
pub open spec fn upsert<V>(entries: Seq<(Seq<char>, V)>, key: Seq<char>, value: V) -> Seq<
    (Seq<char>, V),
> {
    match key_index(entries, key) {
        Some(i) => entries.update(i, (key, value)),
        None => entries.push((key, value)),
    }
}

/// Sets `key` to `value` where the key is present, and changes nothing where it is not.
pub open spec fn overwrite<V>(entries: Seq<(Seq<char>, V)>, key: Seq<char>, value: V) -> Seq<
    (Seq<char>, V),
> {
    match key_index(entries, key) {
        Some(i) => entries.update(i, (key, value)),
        None => entries,
    }
}

/// Removes the entry of `key`, if there is one.
pub open spec fn without_key<V>(entries: Seq<(Seq<char>, V)>, key: Seq<char>) -> Seq<
    (Seq<char>, V),
> {
    match key_index(entries, key) {
        Some(i) => entries.remove(i),
        None => entries,
    }
}

/// `upsert` of each entry of `changes` in turn.
pub open spec fn upsert_all<V>(entries: Seq<(Seq<char>, V)>, changes: Seq<(Seq<char>, V)>) -> Seq<
    (Seq<char>, V),
>
    decreases changes.len(),
{
    if changes.len() == 0 {
        entries
    } else {
        upsert(upsert_all(entries, changes.drop_last()), changes.last().0, changes.last().1)
    }
}

/// `overwrite` of each entry of `changes` in turn.
pub open spec fn overwrite_all<V>(
    entries: Seq<(Seq<char>, V)>,
    changes: Seq<(Seq<char>, V)>,
) -> Seq<(Seq<char>, V)>
    decreases changes.len(),
{
    if changes.len() == 0 {
        entries
    } else {
        overwrite(
            overwrite_all(entries, changes.drop_last()),
            changes.last().0,
            changes.last().1,
        )
    }
}

/// What `position_from` finds is the first match, and `None` means there is none.
pub proof fn lemma_position_from(keys: Seq<Seq<char>>, key: Seq<char>, from: int)
    requires
        0 <= from,
    ensures
        match position_from(keys, key, from) {
            Some(i) => from <= i < keys.len() && keys[i] == key && forall|j: int|
                from <= j < i ==> keys[j] != key,
            None => forall|j: int| from <= j < keys.len() ==> keys[j] != key,
        },
    decreases keys.len() - from,
{
    if from < keys.len() && keys[from] != key {
        lemma_position_from(keys, key, from + 1);
    }
}

/// What `key_index` finds is the first entry of that key, and `None` means there is none.
pub proof fn lemma_key_index<V>(entries: Seq<(Seq<char>, V)>, key: Seq<char>)
    ensures
        match key_index(entries, key) {
            Some(i) => 0 <= i < entries.len() && entries[i].0 == key && forall|j: int|
                0 <= j < i ==> entries[j].0 != key,
            None => forall|j: int| 0 <= j < entries.len() ==> entries[j].0 != key,
        },
{
    let keys = keys_of(entries);
    lemma_position_from(keys, key, 0);
    match key_index(entries, key) {
        Some(i) => {
            assert(keys[i] == entries[i].0);
            assert forall|j: int| 0 <= j < i implies entries[j].0 != key by {
                assert(keys[j] == entries[j].0);
            }
        },
        None => {
            assert forall|j: int| 0 <= j < entries.len() implies entries[j].0 != key by {
                assert(keys[j] == entries[j].0);
            }
        },
    }
}

/// With distinct keys, the entry at `i` is the one that its key finds.
pub proof fn lemma_key_index_unique<V>(entries: Seq<(Seq<char>, V)>, i: int)
    requires
        distinct(keys_of(entries)),
        0 <= i < entries.len(),
    ensures
        key_index(entries, entries[i].0) == Some(i),
{
    lemma_key_index(entries, entries[i].0);
    let found = key_index(entries, entries[i].0);
    assert(keys_of(entries)[i] == entries[i].0);
    if found is Some && found->0 != i {
        assert(keys_of(entries)[found->0] == keys_of(entries)[i]);
    }
}

/// `upsert` keeps the keys distinct.
pub proof fn lemma_upsert_distinct<V>(entries: Seq<(Seq<char>, V)>, key: Seq<char>, value: V)
    requires
        distinct(keys_of(entries)),
    ensures
        distinct(keys_of(upsert(entries, key, value))),
        key_index(upsert(entries, key, value), key) is Some,
        upsert(entries, key, value)[key_index(upsert(entries, key, value), key)->0].1 == value,
{
    lemma_key_index(entries, key);
    let after = upsert(entries, key, value);
    let ks = keys_of(entries);
    let ka = keys_of(after);
    match key_index(entries, key) {
        Some(i) => {
            assert(ka =~= ks);
            lemma_key_index_unique(after, i);
        },
        None => {
            assert(ka =~= ks.push(key));
            assert forall|i: int, j: int| 0 <= i < j < ka.len() implies ka[i] != ka[j] by {
                if j < ks.len() {
                    assert(ks[i] != ks[j]);
                } else {
                    assert(ks[i] == entries[i].0);
                }
            }
            lemma_key_index_unique(after, entries.len() as int);
        },
    }
}

/// `overwrite` keeps the keys as they are.
pub proof fn lemma_overwrite_keys<V>(entries: Seq<(Seq<char>, V)>, key: Seq<char>, value: V)
    ensures
        keys_of(overwrite(entries, key, value)) == keys_of(entries),
{
    lemma_key_index(entries, key);
    assert(keys_of(overwrite(entries, key, value)) =~= keys_of(entries));
}

/// Removing an entry keeps the keys distinct.
pub proof fn lemma_remove_distinct<V>(entries: Seq<(Seq<char>, V)>, i: int)
    requires
        distinct(keys_of(entries)),
        0 <= i < entries.len(),
    ensures
        distinct(keys_of(entries.remove(i))),
{
    let ks = keys_of(entries);
    let ka = keys_of(entries.remove(i));
    assert(ka =~= ks.remove(i));
    assert forall|a: int, b: int| 0 <= a < b < ka.len() implies ka[a] != ka[b] by {
        let a0 = if a < i { a } else { a + 1 };
        let b0 = if b < i { b } else { b + 1 };
        assert(ks[a0] != ks[b0]);
    }
}

/// `overwrite_all` keeps the keys as they are.
pub proof fn lemma_overwrite_all_keys<V>(
    entries: Seq<(Seq<char>, V)>,
    changes: Seq<(Seq<char>, V)>,
)
    ensures
        keys_of(overwrite_all(entries, changes)) == keys_of(entries),
    decreases changes.len(),
{
    if changes.len() > 0 {
        lemma_overwrite_all_keys(entries, changes.drop_last());
        lemma_overwrite_keys(
            overwrite_all(entries, changes.drop_last()),
            changes.last().0,
            changes.last().1,
        );
    }
}

/// The keys of a vector of entries, as character sequences.
pub open spec fn names<T>(entries: Seq<(String, T)>) -> Seq<Seq<char>> {
    Seq::new(entries.len(), |i: int| entries[i].0@)
}

/// Finds the first entry whose key is `key`.
pub fn find_key<T>(entries: &Vec<(String, T)>, key: &str) -> (r: Option<usize>)
    ensures
        r is Some == position(names(entries@), key@) is Some,
        r matches Some(i) ==> position(names(entries@), key@) == Some(i as int) && i
            < entries@.len(),
{
    let mut i: usize = 0;
    while i < entries.len()
        invariant
            i <= entries@.len(),
            position(names(entries@), key@) == position_from(names(entries@), key@, i as int),
        decreases entries@.len() - i,
    {
        if same_text(entries[i].0.as_str(), key) {
            return Some(i);
        }
        i += 1;
    }
    None
}

/// Whether no key stands twice in `entries`.
pub fn distinct_names<T>(entries: &Vec<(String, T)>) -> (r: bool)
    ensures
        r == distinct(names(entries@)),
{
    let ghost keys = names(entries@);
    let mut i: usize = 0;
    while i < entries.len()
        invariant
            keys == names(entries@),
            i <= entries@.len(),
            forall|a: int, b: int| 0 <= a < b < i ==> keys[a] != keys[b],
        decreases entries@.len() - i,
    {
        proof {
            lemma_position_from(keys, keys[i as int], 0);
        }
        match find_key(entries, entries[i].0.as_str()) {
            Some(k) => {
                if k != i {
                    assert(keys[k as int] == keys[i as int]);
                    return false;
                }
            },
            None => {},
        }
        i += 1;
    }
    true
}

} // verus!
