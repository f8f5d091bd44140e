//! Entries under keys, and the maps that they stand for.

use vstd::prelude::*;

verus! {

/// Whether there is an entry under a key.
pub open spec fn has_entry<K: DeepView, T: DeepView>(entries: Seq<(K, T)>, key: K::V) -> bool {
    exists|i: int| 0 <= i < entries.len() && (#[trigger] entries[i]).0.deep_view() == key
}

/// The index of the entry under a key.
pub open spec fn index_of<K: DeepView, T: DeepView>(entries: Seq<(K, T)>, key: K::V) -> int {
    choose|i: int| 0 <= i < entries.len() && (#[trigger] entries[i]).0.deep_view() == key
}

/// The map that the entries stand for.
pub open spec fn entries_view<K: DeepView, T: DeepView>(entries: Seq<(K, T)>) -> Map<K::V, T::V> {
    Map::new(
        |key: K::V| has_entry(entries, key),
        |key: K::V| entries[index_of(entries, key)].1.deep_view(),
    )
}

/// Whether no two entries have the same key.
pub open spec fn is_distinct<K: DeepView, T: DeepView>(entries: Seq<(K, T)>) -> bool {
    forall|i: int, j: int|
        0 <= i < j < entries.len() ==> (#[trigger] entries[i]).0.deep_view() != (
        #[trigger] entries[j]).0.deep_view()
}

pub proof fn lemma_entry<K: DeepView, T: DeepView>(entries: Seq<(K, T)>, i: int)
    requires
        is_distinct(entries),
        0 <= i < entries.len(),
    ensures
        entries_view(entries).dom().contains(entries[i].0.deep_view()),
        entries_view(entries)[entries[i].0.deep_view()] == entries[i].1.deep_view(),
{
    let key = entries[i].0.deep_view();
    assert(has_entry(entries, key));
    let k = index_of(entries, key);
    assert(0 <= k < entries.len() && entries[k].0.deep_view() == key);
    assert(k == i);
}

/// A map that holds what the entries hold, and nothing else, is what they stand for.
pub proof fn lemma_entries_view<K: DeepView, T: DeepView>(
    entries: Seq<(K, T)>,
    map: Map<K::V, T::V>,
)
    requires
        is_distinct(entries),
        forall|i: int|
            0 <= i < entries.len() ==> map.dom().contains(
                (#[trigger] entries[i]).0.deep_view(),
            ) && map[entries[i].0.deep_view()] == entries[i].1.deep_view(),
        forall|key: K::V| #[trigger] map.dom().contains(key) ==> has_entry(entries, key),
    ensures
        entries_view(entries) == map,
{
    let view = entries_view(entries);
    assert forall|key: K::V| view.dom().contains(key) <==> map.dom().contains(key) by {
        if has_entry(entries, key) {
            let k = index_of(entries, key);
            assert(entries[k].0.deep_view() == key);
        }
    }
    assert forall|key: K::V| #[trigger] view.dom().contains(key) implies view[key] == map[key] by {
        let k = index_of(entries, key);
        assert(entries[k].0.deep_view() == key);
        lemma_entry(entries, k);
    }
    assert(view =~= map);
}

} // verus!
