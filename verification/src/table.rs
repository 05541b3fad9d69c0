//! Association lists keyed by text.
//!
//! A list of entries stands for a finite map from texts to values. The list
//! keeps the order in which the keys came; the map is meant where no key
//! occurs twice.

use vstd::prelude::*;
use vstd::hash_map::StringHashMap;

verus! {

/// A text key and the value that belongs to it.
#[derive(Clone, Debug, PartialEq, Eq)]
pub struct Entry<V> {
    pub key: String,
    pub value: V,
}

/// The keys of a list, in the order of its entries.
pub open spec fn keys<V>(entries: Seq<Entry<V>>) -> Seq<Seq<char>> {
    entries.map_values(|e: Entry<V>| e.key@)
}

/// No key occurs twice.
pub open spec fn distinct_keys<V>(entries: Seq<Entry<V>>) -> bool {
    keys(entries).no_duplicates()
}

/// The map that a list stands for. Each key of the list is mapped to the
/// value of an entry with that key, which is the only one where the keys are
/// distinct.
pub open spec fn as_map<V>(entries: Seq<Entry<V>>) -> Map<Seq<char>, V> {
    Map::new(
        |k: Seq<char>| keys(entries).contains(k),
        |k: Seq<char>| entries[keys(entries).index_of(k)].value,
    )
}

/// In a list with distinct keys, the map gives each key the value that stands
/// beside it.
pub proof fn lemma_as_map_at<V>(entries: Seq<Entry<V>>, i: int)
    requires
        distinct_keys(entries),
        0 <= i < entries.len(),
    ensures
        as_map(entries).contains_key(entries[i].key@),
        as_map(entries)[entries[i].key@] == entries[i].value,
{
    let ks = keys(entries);
    assert(ks[i] == entries[i].key@);
    let j = ks.index_of(entries[i].key@);
    assert(0 <= j < ks.len() && ks[j] == ks[i]);
}

/// Appending an entry appends its key.
pub proof fn lemma_keys_push<V>(entries: Seq<Entry<V>>, e: Entry<V>)
    ensures
        keys(entries.push(e)) == keys(entries).push(e.key@),
{
    assert(keys(entries.push(e)) =~= keys(entries).push(e.key@));
}

/// A key that the list lacks is no key of its map.
pub proof fn lemma_as_map_absent<V>(entries: Seq<Entry<V>>, key: Seq<char>)
    requires
        !keys(entries).contains(key),
    ensures
        !as_map(entries).contains_key(key),
{
}

/// Replacing the value of an entry replaces the value of its key in the map.
pub proof fn lemma_as_map_update<V>(entries: Seq<Entry<V>>, i: int, e: Entry<V>)
    requires
        distinct_keys(entries),
        0 <= i < entries.len(),
        e.key@ == entries[i].key@,
    ensures
        keys(entries.update(i, e)) == keys(entries),
        as_map(entries.update(i, e)) == as_map(entries).insert(e.key@, e.value),
{
    let after = entries.update(i, e);
    assert(keys(after) =~= keys(entries));
    assert(keys(entries)[i] == e.key@);
    assert forall|k: Seq<char>| #[trigger] as_map(after).contains_key(k) implies as_map(after)[k]
        == as_map(entries).insert(e.key@, e.value)[k] by {
        let j = keys(entries).index_of(k);
        assert(keys(entries)[j] == entries[j].key@);
        lemma_as_map_at(after, j);
        lemma_as_map_at(entries, j);
    }
    assert(as_map(after) =~= as_map(entries).insert(e.key@, e.value));
}

/// Appending an entry with a new key adds the key with its value to the map.
pub proof fn lemma_as_map_push<V>(entries: Seq<Entry<V>>, e: Entry<V>)
    requires
        distinct_keys(entries),
        !keys(entries).contains(e.key@),
    ensures
        distinct_keys(entries.push(e)),
        as_map(entries.push(e)) == as_map(entries).insert(e.key@, e.value),
{
    let after = entries.push(e);
    lemma_keys_push(entries, e);
    assert(distinct_keys(after)) by {
        assert forall|a: int, b: int|
            0 <= a < keys(after).len() && 0 <= b < keys(after).len() && a != b implies keys(
            after,
        )[a] != keys(after)[b] by {
            if a < entries.len() {
                assert(keys(entries)[a] == keys(after)[a]);
            }
            if b < entries.len() {
                assert(keys(entries)[b] == keys(after)[b]);
            }
        }
    }
    assert forall|k: Seq<char>| as_map(after).contains_key(k) <==> as_map(entries).insert(
        e.key@,
        e.value,
    ).contains_key(k) by {
        if keys(after).contains(k) {
            let j = choose|j: int| 0 <= j < keys(after).len() && keys(after)[j] == k;
            if j < entries.len() {
                assert(keys(entries)[j] == k);
            }
        }
        if keys(entries).contains(k) {
            let j = choose|j: int| 0 <= j < keys(entries).len() && keys(entries)[j] == k;
            assert(keys(after)[j] == k);
        }
        if k == e.key@ {
            assert(keys(after)[entries.len() as int] == k);
        }
    }
    assert forall|k: Seq<char>| #[trigger] as_map(after).contains_key(k) implies as_map(after)[k]
        == as_map(entries).insert(e.key@, e.value)[k] by {
        let j = keys(after).index_of(k);
        assert(keys(after)[j] == after[j].key@);
        lemma_as_map_at(after, j);
        if j < entries.len() {
            assert(keys(entries)[j] == k);
            lemma_as_map_at(entries, j);
        }
    }
    assert(as_map(after) =~= as_map(entries).insert(e.key@, e.value));
}

/// The map of the empty list is empty.
pub proof fn lemma_as_map_empty<V>()
    ensures
        as_map(Seq::<Entry<V>>::empty()) == Map::<Seq<char>, V>::empty(),
        distinct_keys(Seq::<Entry<V>>::empty()),
{
    assert(as_map(Seq::<Entry<V>>::empty()) =~= Map::<Seq<char>, V>::empty());
}

/// The position of the first entry with the given key, if there is one.
pub fn find<V>(entries: &Vec<Entry<V>>, key: &String) -> (found: Option<usize>)
    ensures
        match found {
            Some(i) => {
                &&& i < entries.len()
                &&& entries[i as int].key@ == key@
                &&& forall|j: int| 0 <= j < i ==> entries[j].key@ != key@
            },
            None => !keys(entries@).contains(key@),
        },
{
    let mut i: usize = 0;
    while i < entries.len()
        invariant
            i <= entries.len(),
            forall|j: int| 0 <= j < i ==> entries[j].key@ != key@,
        decreases entries.len() - i,
    {
        if entries[i].key == *key {
            return Some(i);
        }
        i = i + 1;
    }
    assert forall|j: int| 0 <= j < keys(entries@).len() implies keys(entries@)[j] != key@ by {
        assert(keys(entries@)[j] == entries[j].key@);
    }
    None
}

/// The index gives each key of the list its position, and nothing else a
/// position.
pub open spec fn indexes<V>(index: Map<Seq<char>, usize>, entries: Seq<Entry<V>>) -> bool {
    &&& forall|k: Seq<char>| #[trigger]
        index.contains_key(k) ==> index[k] < entries.len() && entries[index[k] as int].key@ == k
    &&& forall|i: int|
        0 <= i < entries.len() ==> index.contains_key((#[trigger] entries[i]).key@)
            && index[entries[i].key@] == i
}

/// A list that has an index has distinct keys.
pub proof fn lemma_indexed_distinct<V>(index: Map<Seq<char>, usize>, entries: Seq<Entry<V>>)
    requires
        indexes(index, entries),
    ensures
        distinct_keys(entries),
{
    assert forall|a: int, b: int|
        0 <= a < keys(entries).len() && 0 <= b < keys(entries).len() && a != b implies keys(
        entries,
    )[a] != keys(entries)[b] by {
        assert(index[entries[a].key@] == a);
        assert(index[entries[b].key@] == b);
    }
}

/// The index of a list stays one when an entry with a new key is appended
/// and the key is given the last position.
pub proof fn lemma_index_push<V>(index: Map<Seq<char>, usize>, entries: Seq<Entry<V>>, e: Entry<V>)
    requires
        indexes(index, entries),
        !index.contains_key(e.key@),
        entries.len() <= usize::MAX,
    ensures
        indexes(index.insert(e.key@, entries.len() as usize), entries.push(e)),
        !keys(entries).contains(e.key@),
{
    let after = entries.push(e);
    let grown = index.insert(e.key@, entries.len() as usize);
    assert forall|i: int| 0 <= i < after.len() implies grown.contains_key(
        (#[trigger] after[i]).key@,
    ) && grown[after[i].key@] == i by {
        if i < entries.len() {
            assert(index.contains_key(entries[i].key@));
        }
    }
    if keys(entries).contains(e.key@) {
        let i = choose|i: int| 0 <= i < keys(entries).len() && keys(entries)[i] == e.key@;
        assert(index.contains_key(entries[i].key@));
    }
}

/// The index of a list stays one when the value of an entry is replaced.
pub proof fn lemma_index_update<V>(
    index: Map<Seq<char>, usize>,
    entries: Seq<Entry<V>>,
    i: int,
    e: Entry<V>,
)
    requires
        indexes(index, entries),
        0 <= i < entries.len(),
        e.key@ == entries[i].key@,
    ensures
        indexes(index, entries.update(i, e)),
{
    let after = entries.update(i, e);
    assert forall|k: Seq<char>| #[trigger] index.contains_key(k) implies index[k] < after.len()
        && after[index[k] as int].key@ == k by {
        assert(entries[index[k] as int].key@ == k);
    }
    assert forall|j: int| 0 <= j < after.len() implies index.contains_key(
        (#[trigger] after[j]).key@,
    ) && index[after[j].key@] == j by {
        assert(index.contains_key(entries[j].key@));
    }
}

/// The position of the entry with the given key, looked up in the index of
/// the list.
pub fn locate<V>(index: &StringHashMap<usize>, entries: &Vec<Entry<V>>, key: &String) -> (found:
    Option<usize>)
    requires
        indexes(index@, entries@),
    ensures
        match found {
            Some(i) => i < entries.len() && entries[i as int].key@ == key@,
            None => !keys(entries@).contains(key@),
        },
{
    match index.get(key.as_str()) {
        Some(at) => Some(*at),
        None => {
            proof {
                if keys(entries@).contains(key@) {
                    let i = choose|i: int|
                        0 <= i < keys(entries@).len() && keys(entries@)[i] == key@;
                    assert(index@.contains_key(entries[i].key@));
                }
            }
            None
        },
    }
}

} // verus!
