//! The mathematical model of a key-value store: lookups, batched lookups,
//! folding a sequence of entries into a map, and the laws that the store's
//! operations obey. Everything here is generic in the key and value types;
//! the two concrete map types instantiate it.

use vstd::prelude::*;

verus! {

/// The value a point query returns: the mapped value, or absence.
pub open spec fn lookup<K, V>(m: Map<K, V>, key: K) -> Option<V> {
    if m.contains_key(key) {
        Some(m[key])
    } else {
        None
    }
}

/// One result per key, in input order, each as if by a point query.
pub open spec fn batch_lookup<K, V>(m: Map<K, V>, keys: Seq<K>) -> Seq<Option<V>> {
    keys.map_values(|k: K| lookup(m, k))
}

/// The map that a sequence of entries builds up, later entries winning on
/// equal keys (last-write-wins).
pub open spec fn fold_entries<K, V>(entries: Seq<(K, V)>) -> Map<K, V>
    decreases entries.len(),
{
    if entries.len() == 0 {
        Map::empty()
    } else {
        fold_entries(entries.drop_last()).insert(entries.last().0, entries.last().1)
    }
}

/// The map contents after a sequence of single inserts, applied in order to
/// a starting map.
pub open spec fn apply_inserts<K, V>(m0: Map<K, V>, entries: Seq<(K, V)>) -> Map<K, V>
    decreases entries.len(),
{
    if entries.len() == 0 {
        m0
    } else {
        apply_inserts(m0, entries.drop_last()).insert(entries.last().0, entries.last().1)
    }
}

/// Inserting a sequence of entries one by one is the same as merging the map
/// those entries build, the entries winning on overlapping keys.
pub proof fn lemma_apply_inserts_is_union<K, V>(m0: Map<K, V>, entries: Seq<(K, V)>)
    ensures
        apply_inserts(m0, entries) =~= m0.union_prefer_right(fold_entries(entries)),
    decreases entries.len(),
{
    if entries.len() > 0 {
        lemma_apply_inserts_is_union(m0, entries.drop_last());
    }
}

/// A key is in the folded map exactly when some entry carries it.
pub proof fn lemma_fold_entries_dom<K, V>(entries: Seq<(K, V)>, key: K)
    ensures
        fold_entries(entries).contains_key(key) <==> exists|i: int|
            0 <= i < entries.len() && entries[i].0 == key,
    decreases entries.len(),
{
    if entries.len() > 0 {
        lemma_fold_entries_dom(entries.drop_last(), key);
        if fold_entries(entries).contains_key(key) {
            if entries.last().0 != key {
                let i = choose|i: int| 0 <= i < entries.len() - 1 && entries.drop_last()[i].0 == key;
                assert(entries[i].0 == key);
            }
        } else {
            if exists|i: int| 0 <= i < entries.len() && entries[i].0 == key {
                let i = choose|i: int| 0 <= i < entries.len() && entries[i].0 == key;
                if i < entries.len() - 1 {
                    assert(entries.drop_last()[i].0 == key);
                }
            }
        }
    }
}

/// Last write wins: the folded map carries, for each key, the value of the
/// last entry with that key.
pub proof fn lemma_fold_entries_last_wins<K, V>(entries: Seq<(K, V)>, i: int)
    requires
        0 <= i < entries.len(),
        forall|j: int| i < j < entries.len() ==> entries[j].0 != entries[i].0,
    ensures
        fold_entries(entries).contains_key(entries[i].0),
        fold_entries(entries)[entries[i].0] == entries[i].1,
    decreases entries.len(),
{
    if i == entries.len() - 1 {
    } else {
        assert(entries.drop_last()[i] == entries[i]);
        lemma_fold_entries_last_wins(entries.drop_last(), i);
    }
}

/// A sequence that lists exactly the entries of a map, each key once, folds
/// back to that map.
pub proof fn lemma_fold_entries_of_listing<K, V>(entries: Seq<(K, V)>, m: Map<K, V>)
    requires
        forall|i: int| 0 <= i < entries.len() ==> m.contains_key(#[trigger] entries[i].0)
            && m[entries[i].0] == entries[i].1,
        forall|key: K| m.contains_key(key) ==> exists|i: int|
            0 <= i < entries.len() && entries[i].0 == key,
        forall|i: int, j: int| 0 <= i < j < entries.len() ==> entries[i].0 != entries[j].0,
    ensures
        fold_entries(entries) =~= m,
{
    assert forall|key: K| fold_entries(entries).contains_key(key) <==> m.contains_key(key) by {
        lemma_fold_entries_dom(entries, key);
    }
    assert forall|key: K| m.contains_key(key) implies fold_entries(entries)[key] == m[key] by {
        lemma_fold_entries_dom(entries, key);
        let i = choose|i: int| 0 <= i < entries.len() && entries[i].0 == key;
        lemma_fold_entries_last_wins(entries, i);
    }
}

/// Last-write-wins for single inserts: once every insert of a run has been
/// applied, a query for a key observes the value of the run's last insert
/// for that key, whatever values earlier inserts wrote.
pub proof fn lemma_last_write_wins<K, V>(m0: Map<K, V>, entries: Seq<(K, V)>, i: int)
    requires
        0 <= i < entries.len(),
        forall|j: int| i < j < entries.len() ==> entries[j].0 != entries[i].0,
    ensures
        lookup(apply_inserts(m0, entries), entries[i].0) == Some(entries[i].1),
    decreases entries.len(),
{
    if i == entries.len() - 1 {
    } else {
        assert(entries.drop_last()[i] == entries[i]);
        lemma_last_write_wins(m0, entries.drop_last(), i);
    }
}

/// How many pairs a batched insert processes: the two inputs are paired
/// index by index, truncated to the shorter one.
pub open spec fn paired_len<K, V>(keys: Seq<K>, values: Seq<V>) -> int {
    if keys.len() <= values.len() {
        keys.len() as int
    } else {
        values.len() as int
    }
}

/// Whether `key` occurs among the first `n` keys.
pub open spec fn key_in_prefix<K>(keys: Seq<K>, n: int, key: K) -> bool {
    exists|i: int| 0 <= i < n && keys[i] == key
}

/// What holds of a map after a batched insert of paired keys and values,
/// whatever order parallel workers inserted them in: exactly the paired keys
/// are added, unpaired keys keep their value, and each paired key ends at
/// one of the values it was paired with (the only freedom, arising when one
/// key is paired more than once).
pub open spec fn batch_insert_outcome<K, V>(
    before: Map<K, V>,
    after: Map<K, V>,
    keys: Seq<K>,
    values: Seq<V>,
) -> bool {
    let n = paired_len(keys, values);
    &&& forall|key: K| #[trigger] after.contains_key(key) <==> (before.contains_key(key)
        || key_in_prefix(keys, n, key))
    &&& forall|key: K| #[trigger] before.contains_key(key) && !key_in_prefix(keys, n, key)
        ==> after[key] == before[key]
    &&& forall|i: int| 0 <= i < n ==> exists|j: int|
        0 <= j < n && keys[j] == #[trigger] keys[i] && after[keys[i]] == values[j]
}

/// When the paired keys are pairwise distinct, a batched insert leaves each
/// paired key at exactly the value it was paired with.
pub proof fn lemma_batch_insert_distinct<K, V>(
    before: Map<K, V>,
    after: Map<K, V>,
    keys: Seq<K>,
    values: Seq<V>,
)
    requires
        batch_insert_outcome(before, after, keys, values),
        forall|i: int, j: int| 0 <= i < j < paired_len(keys, values) ==> keys[i] != keys[j],
    ensures
        forall|i: int| 0 <= i < paired_len(keys, values) ==> after.contains_key(#[trigger] keys[i])
            && after[keys[i]] == values[i],
{
    let n = paired_len(keys, values);
    assert forall|i: int| 0 <= i < n implies after.contains_key(#[trigger] keys[i])
        && after[keys[i]] == values[i] by {
        assert(key_in_prefix(keys, n, keys[i]));
        let j = choose|j: int| 0 <= j < n && keys[j] == keys[i] && after[keys[i]] == values[j];
        if j != i {
            if i < j {
                assert(keys[i] != keys[j]);
            } else {
                assert(keys[j] != keys[i]);
            }
        }
    }
}

/// A batched query over a single key returns exactly the singleton sequence
/// of the point query's result.
pub proof fn lemma_batch_lookup_singleton<K, V>(m: Map<K, V>, key: K)
    ensures
        batch_lookup(m, seq![key]) =~= seq![lookup(m, key)],
{
}

/// Round trip: merging a snapshot's entries into an empty map restores
/// exactly the contents the snapshot was taken from.
pub proof fn lemma_round_trip<K, V>(snapshot: Map<K, V>)
    ensures
        Map::<K, V>::empty().union_prefer_right(snapshot) =~= snapshot,
{
}

/// Idempotence of load: merging the same snapshot twice leaves the same
/// contents as merging it once.
pub proof fn lemma_load_idempotent<K, V>(m0: Map<K, V>, snapshot: Map<K, V>)
    ensures
        m0.union_prefer_right(snapshot).union_prefer_right(snapshot)
            =~= m0.union_prefer_right(snapshot),
{
}

/// A load overwrites only the keys present in the snapshot: absent keys keep
/// their prior value, present keys take the snapshot's value.
pub proof fn lemma_load_overwrites_only_snapshot_keys<K, V>(
    m0: Map<K, V>,
    snapshot: Map<K, V>,
    key: K,
)
    ensures
        !snapshot.contains_key(key) ==> lookup(m0.union_prefer_right(snapshot), key)
            == lookup(m0, key),
        snapshot.contains_key(key) ==> lookup(m0.union_prefer_right(snapshot), key)
            == Some(snapshot[key]),
{
}

} // verus!
