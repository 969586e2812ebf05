//! Sequences of keyed entries: the ordered maps that the tools build.
use vstd::prelude::*;

verus! {

/// Keys of `entries` that occur at most once.
pub open spec fn distinct_keys<V>(entries: Seq<(Seq<char>, V)>) -> bool {
    forall|i: int, j: int|
        0 <= i < entries.len() && 0 <= j < entries.len() && i != j ==> entries[i].0
            != entries[j].0
}

/// Whether some entry of `entries` has the key `key`.
pub open spec fn has_key<V>(entries: Seq<(Seq<char>, V)>, key: Seq<char>) -> bool {
    exists|j: int| 0 <= j < entries.len() && #[trigger] entries[j].0 == key
}

/// The position of the entry with key `key` (meaningful where `has_key`
/// holds and the keys are distinct).
pub open spec fn key_index<V>(entries: Seq<(Seq<char>, V)>, key: Seq<char>) -> int {
    choose|j: int| 0 <= j < entries.len() && #[trigger] entries[j].0 == key
}

/// Where the keys are distinct, an entry with key `key` is the one at
/// `key_index`.
pub proof fn lemma_key_index_unique<V>(entries: Seq<(Seq<char>, V)>, key: Seq<char>, j: int)
    requires
        distinct_keys(entries),
        0 <= j < entries.len(),
        entries[j].0 == key,
    ensures
        has_key(entries, key),
        key_index(entries, key) == j,
{
    assert(has_key(entries, key));
}

/// `entries` with `key` mapped to `value`: the entry with that key is
/// replaced in place, or a new entry is appended.
pub open spec fn upsert<V>(entries: Seq<(Seq<char>, V)>, key: Seq<char>, value: V) -> Seq<
    (Seq<char>, V),
> {
    if has_key(entries, key) {
        entries.update(key_index(entries, key), (key, value))
    } else {
        entries.push((key, value))
    }
}

/// Setting a key keeps the keys distinct.
pub proof fn lemma_upsert_distinct<V>(entries: Seq<(Seq<char>, V)>, key: Seq<char>, value: V)
    requires
        distinct_keys(entries),
    ensures
        distinct_keys(upsert(entries, key, value)),
{
    if has_key(entries, key) {
        let j = choose|j: int| 0 <= j < entries.len() && #[trigger] entries[j].0 == key;
        let r = upsert(entries, key, value);
        assert forall|a: int, b: int|
            0 <= a < r.len() && 0 <= b < r.len() && a != b implies r[a].0 != r[b].0 by {
            if a != j && b != j {
                assert(r[a] == entries[a] && r[b] == entries[b]);
            } else if a == j {
                assert(r[b] == entries[b]);
            } else {
                assert(r[a] == entries[a]);
            }
        }
    } else {
        let r = upsert(entries, key, value);
        assert forall|a: int, b: int|
            0 <= a < r.len() && 0 <= b < r.len() && a != b implies r[a].0 != r[b].0 by {
            if a < entries.len() && b < entries.len() {
                assert(r[a] == entries[a] && r[b] == entries[b]);
            } else if a < entries.len() {
                assert(r[a] == entries[a]);
                assert(!(entries[a].0 == key));
            } else {
                assert(r[b] == entries[b]);
                assert(!(entries[b].0 == key));
            }
        }
    }
}

/// Maps `key` to `value`: the entry with that key gets the new value in
/// place, or a new entry is appended.
pub fn insert_entry<V: DeepView>(entries: &mut Vec<(String, V)>, key: String, value: V)
    requires
        distinct_keys(old(entries).deep_view()),
    ensures
        final(entries).deep_view() == upsert(
            old(entries).deep_view(),
            key@,
            value.deep_view(),
        ),
{
    let ghost before = entries.deep_view();
    let ghost k = key@;
    let ghost rv = value.deep_view();
    let mut j: usize = 0;
    while j < entries.len()
        invariant
            j <= entries.len(),
            entries.deep_view() == before,
            before == old(entries).deep_view(),
            k == key@,
            rv == value.deep_view(),
            distinct_keys(before),
            forall|k: int| 0 <= k < j ==> before[k].0 != key@,
        decreases entries.len() - j,
    {
        if entries[j].0 == key {
            proof {
                assert(before[j as int].0 == key@);
                assert(has_key(before, key@));
                let c = choose|c: int| 0 <= c < before.len() && #[trigger] before[c].0 == key@;
                assert(c == j);
            }
            let ghost new_entry = (key, value);
            entries.set(j, (key, value));
            assert(entries.deep_view() =~= before.update(j as int, new_entry.deep_view()));
            assert(new_entry.deep_view() == (k, rv));
            assert(entries.deep_view() == upsert(before, k, rv));
            return;
        }
        j += 1;
    }
    proof {
        assert(!has_key(before, key@));
    }
    let ghost new_entry = (key, value);
    entries.push((key, value));
    assert(entries.deep_view() =~= before.push(new_entry.deep_view()));
    assert(entries.deep_view() == upsert(before, k, rv));
}

/// Setting `key` to `value` in entries with distinct keys: afterwards `key`
/// is found with `value`, every other key keeps its entry, and no key other
/// than `key` appears or disappears.
pub proof fn lemma_upsert_lookup<V>(entries: Seq<(Seq<char>, V)>, key: Seq<char>, value: V)
    requires
        distinct_keys(entries),
    ensures
        distinct_keys(upsert(entries, key, value)),
        has_key(upsert(entries, key, value), key),
        upsert(entries, key, value)[key_index(upsert(entries, key, value), key)] == (key, value),
        forall|k: Seq<char>|
            k != key ==> (has_key(upsert(entries, key, value), k) <==> has_key(entries, k)),
        forall|k: Seq<char>|
            k != key && has_key(entries, k) ==> upsert(entries, key, value)[key_index(
                upsert(entries, key, value),
                k,
            )] == entries[key_index(entries, k)],
{
    lemma_upsert_distinct(entries, key, value);
    let r = upsert(entries, key, value);
    let w = if has_key(entries, key) {
        key_index(entries, key)
    } else {
        entries.len() as int
    };
    assert(r[w] == (key, value));
    lemma_key_index_unique(r, key, w);
    assert forall|k: Seq<char>| k != key implies (has_key(r, k) <==> has_key(entries, k)) by {
        if has_key(r, k) {
            let j = key_index(r, k);
            assert(j != w);
            assert(r[j] == entries[j]);
        }
        if has_key(entries, k) {
            let j = key_index(entries, k);
            assert(r[j] == entries[j]);
        }
    }
    assert forall|k: Seq<char>| k != key && has_key(entries, k) implies r[key_index(r, k)]
        == entries[key_index(entries, k)] by {
        let j = key_index(entries, k);
        assert(r[j] == entries[j]);
        lemma_key_index_unique(r, k, j);
    }
}

/// Setting a key keeps every key and adds the key set.
pub proof fn lemma_upsert_has_key<V>(
    acc: Seq<(Seq<char>, V)>,
    key: Seq<char>,
    value: V,
    other: Seq<char>,
)
    requires
        has_key(acc, other) || other == key,
    ensures
        has_key(upsert(acc, key, value), other),
{
    let r = upsert(acc, key, value);
    if other == key {
        if has_key(acc, key) {
            let w = key_index(acc, key);
            assert(r[w].0 == key);
        } else {
            assert(r[acc.len() as int].0 == key);
        }
    } else {
        let j = key_index(acc, other);
        if has_key(acc, key) {
            let w = key_index(acc, key);
            if j == w {
                assert(acc[w].0 == key);
            } else {
                assert(r[j].0 == other);
            }
        } else {
            assert(r[j].0 == other);
        }
    }
}

/// The entries with their keys taken as character sequences.
pub open spec fn named<H>(entries: Seq<(String, H)>) -> Seq<(Seq<char>, H)> {
    entries.map_values(|e: (String, H)| (e.0@, e.1))
}

/// Maps `key` to `value` in a table of named entries: the entry with that
/// key gets the new value in place, or a new entry is appended.
pub fn insert_named<H>(entries: &mut Vec<(String, H)>, key: String, value: H)
    requires
        distinct_keys(named(old(entries)@)),
    ensures
        named(final(entries)@) == upsert(named(old(entries)@), key@, value),
        distinct_keys(named(final(entries)@)),
{
    let ghost before = named(entries@);
    let ghost k = key@;
    proof {
        lemma_upsert_distinct(before, k, value);
    }
    let mut j: usize = 0;
    while j < entries.len()
        invariant
            j <= entries.len(),
            named(entries@) == before,
            before == named(old(entries)@),
            k == key@,
            distinct_keys(before),
            distinct_keys(upsert(before, k, value)),
            forall|i: int| 0 <= i < j ==> before[i].0 != k,
        decreases entries.len() - j,
    {
        if entries[j].0 == key {
            proof {
                assert(before[j as int].0 == k);
                lemma_key_index_unique(before, k, j as int);
            }
            let ghost v = value;
            entries.set(j, (key, value));
            assert(named(entries@) =~= upsert(before, k, v));
            return;
        }
        j += 1;
    }
    assert(!has_key(before, k));
    let ghost v = value;
    entries.push((key, value));
    assert(named(entries@) =~= upsert(before, k, v));
}

} // verus!
