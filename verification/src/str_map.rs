//! The string-keyed map: a sharded, thread-safe container from UTF-8 string
//! keys to 32-bit integer values, with single and batched insert and query,
//! and a snapshot codec over the wire format of `crate::wire`.
//!
//! Storage is a `dashmap::DashMap`, keys routed to independently locked
//! shards by hash; batched operations fan out over a `rayon` worker pool.
//! Record bodies are `bincode`-encoded `(String, i32)` tuples.

use vstd::prelude::*;

use rayon::iter::IndexedParallelIterator;
use rayon::iter::IntoParallelIterator;
use rayon::iter::ParallelIterator;
use rayon::iter::ParallelExtend;

use crate::SnapshotError;
use crate::model::{
    lookup, batch_lookup, fold_entries, apply_inserts, batch_insert_outcome, paired_len,
    lemma_apply_inserts_is_union, lemma_fold_entries_of_listing, lemma_batch_insert_distinct,
};
use crate::wire::{
    frames, frame_bytes, lemma_frames_append, lemma_truncated_stream, split_frames, append_frame,
};
use vstd::bytes::spec_u64_from_le_bytes;

verus! {

/// The entries a string-keyed shard map holds, as a map from the key's
/// characters to the value.
pub uninterp spec fn str_map_contents(m: dashmap::DashMap<String, i32>) -> Map<Seq<char>, i32>;

/// The bytes `bincode` serializes a `(String, i32)` entry to, under
/// `DefaultOptions`: a function of the entry alone.
pub uninterp spec fn str_record_body(key: Seq<char>, value: i32) -> Seq<u8>;

/// The entry `bincode` deserializes a record body to, under
/// `DefaultOptions`, or `None` where it rejects the bytes: a function of the
/// bytes alone.
pub uninterp spec fn str_body_entry(body: Seq<u8>) -> Option<(Seq<char>, i32)>;

/// A thread-safe map from string keys to 32-bit integer values. Any number
/// of concurrent callers may insert and query; per-key operations are
/// atomic, and a query observes the last value whose insert completed.
pub struct StrMap {
    shards: dashmap::DashMap<String, i32>,
}

impl View for StrMap {
    type V = Map<Seq<char>, i32>;

    closed spec fn view(&self) -> Map<Seq<char>, i32> {
        str_map_contents(self.shards)
    }
}

/// The views of a sequence of owned entries.
pub open spec fn str_entry_views(entries: Seq<(String, i32)>) -> Seq<(Seq<char>, i32)> {
    entries.map_values(|kv: (String, i32)| (kv.0@, kv.1))
}

/// The views of a sequence of owned keys.
pub open spec fn str_key_views(keys: Seq<String>) -> Seq<Seq<char>> {
    keys.map_values(|k: String| k@)
}

/// The entries a sequence of record bodies decodes to, or `None` where some
/// body decodes to no entry.
pub open spec fn str_decoded_bodies(bodies: Seq<Seq<u8>>) -> Option<Seq<(Seq<char>, i32)>>
    decreases bodies.len(),
{
    if bodies.len() == 0 {
        Some(Seq::empty())
    } else {
        match (str_decoded_bodies(bodies.drop_last()), str_body_entry(bodies.last())) {
            (Some(entries), Some(kv)) => Some(entries.push(kv)),
            _ => None,
        }
    }
}

/// The entries a snapshot byte stream holds, in record order, or `None`
/// where the framing or some record body is malformed.
pub open spec fn str_snapshot_entries(data: Seq<u8>) -> Option<Seq<(Seq<char>, i32)>> {
    match frames(data) {
        Some(bodies) => str_decoded_bodies(bodies),
        None => None,
    }
}

/// A snapshot whose first length field declares more body bytes than the
/// stream still holds is corrupt: it parses to no entries at all, never to
/// a silently shortened list.
pub proof fn lemma_str_truncated_corrupt(data: Seq<u8>)
    requires
        8 <= data.len(),
        data.len() - 8 < spec_u64_from_le_bytes(data.subrange(0, 8)),
    ensures
        str_snapshot_entries(data) is None,
{
    lemma_truncated_stream(data);
}

/// A snapshot that ends immediately after a complete record, with zero
/// trailing bytes, parses cleanly: appending one whole record whose body
/// decodes keeps the stream well formed and appends exactly that entry.
pub proof fn lemma_str_clean_record_boundary(stream: Seq<u8>, body: Seq<u8>, kv: (Seq<char>, i32))
    requires
        str_snapshot_entries(stream) is Some,
        body.len() <= u64::MAX,
        str_body_entry(body) == Some(kv),
    ensures
        str_snapshot_entries(stream + frame_bytes(body))
            == Some(str_snapshot_entries(stream).unwrap().push(kv)),
{
    lemma_frames_append(stream, body);
    let bs = frames(stream).unwrap();
    assert(bs.push(body).drop_last() =~= bs);
    assert(bs.push(body).last() == body);
}

/// Relies on `dashmap::DashMap::new`: an empty map.
#[verifier::external_body]
fn dash_str_new() -> (r: StrMap)
    ensures
        forall|key: Seq<char>| !str_map_contents(r.shards).contains_key(key),
{
    StrMap { shards: dashmap::DashMap::new() }
}

/// Relies on `dashmap::DashMap::insert`: maps the key to the value,
/// dropping any value the key held before.
#[verifier::external_body]
fn dash_str_insert(m: &mut StrMap, key: String, value: i32)
    ensures
        final(m)@ == old(m)@.insert(key@, value),
{
    m.shards.insert(key, value);
}

/// Relies on `dashmap::DashMap::get`: the value the key maps to, if any.
#[verifier::external_body]
fn dash_str_get(m: &StrMap, key: &String) -> (r: Option<i32>)
    ensures
        r == lookup(m@, key@),
{
    match m.shards.get(key) {
        Some(entry) => Some(*entry.value()),
        None => None,
    }
}

/// Relies on `dashmap::DashMap::iter`: with no concurrent writer, it yields
/// each entry exactly once, in no specified order.
#[verifier::external_body]
fn dash_str_entries(m: &StrMap) -> (r: Vec<(String, i32)>)
    ensures
        forall|i: int| 0 <= i < r@.len() ==> m@.contains_key(#[trigger] r@[i].0@)
            && m@[r@[i].0@] == r@[i].1,
        forall|key: Seq<char>| m@.contains_key(key) ==> exists|i: int|
            0 <= i < r@.len() && #[trigger] r@[i].0@ == key,
        forall|i: int, j: int| 0 <= i < j < r@.len() ==> r@[i].0@ != r@[j].0@,
{
    let mut out = Vec::new();
    for entry in m.shards.iter() {
        out.push((entry.key().clone(), *entry.value()));
    }
    out
}

/// Relies on dashmap's `par_extend` over a rayon parallel zip: the zip
/// pairs the inputs index by index, truncated to the shorter, and parallel
/// workers insert every pair; a key paired more than once ends at whichever
/// of its paired values was inserted last, the workers racing.
#[verifier::external_body]
fn dash_str_par_extend(m: &mut StrMap, keys: Vec<String>, values: Vec<i32>)
    ensures
        batch_insert_outcome(old(m)@, final(m)@, str_key_views(keys@), values@),
{
    m.shards.par_extend(keys.into_par_iter().zip(values.into_par_iter()));
}

/// Relies on rayon's indexed parallel `map`/`collect`: one result per key,
/// in input order, each resolved by this map's own point query.
#[verifier::external_body]
fn dash_str_par_query(m: &StrMap, keys: Vec<String>) -> (r: Vec<Option<i32>>)
    ensures
        r@ == batch_lookup(m@, str_key_views(keys@)),
{
    keys.into_par_iter().map(|key| m.query(key)).collect()
}

/// Relies on bincode's `serialize` under `DefaultOptions` (varint lengths,
/// little-endian, no size limit): the bytes are a function of the entry
/// alone, serializing a `(String, i32)` tuple never fails, and `deserialize`
/// under the same options decodes the bytes back to the entry.
#[verifier::external_body]
fn encode_str_entry(key: &String, value: i32) -> (r: Vec<u8>)
    ensures
        r@ == str_record_body(key@, value),
        str_body_entry(r@) == Some((key@, value)),
{
    bincode::Options::serialize(bincode::DefaultOptions::new(), &(key, value)).unwrap()
}

/// Relies on bincode's `deserialize` under `DefaultOptions`: the decoded
/// entry is a function of the bytes alone; trailing bytes are rejected.
#[verifier::external_body]
fn decode_str_entry(body: &[u8]) -> (r: Result<(String, i32), SnapshotError>)
    ensures
        match r {
            Ok(kv) => str_body_entry(body@) == Some((kv.0@, kv.1)),
            Err(e) => str_body_entry(body@) is None && e == SnapshotError::Corrupt,
        },
{
    match bincode::Options::deserialize::<(String, i32)>(bincode::DefaultOptions::new(), body) {
        Ok(kv) => Ok(kv),
        Err(_) => Err(SnapshotError::Corrupt),
    }
}

/// A record body that decodes to no entry poisons the whole sequence.
proof fn lemma_str_decoded_bodies_none(bodies: Seq<Seq<u8>>, i: int)
    requires
        0 <= i < bodies.len(),
        str_body_entry(bodies[i]) is None,
    ensures
        str_decoded_bodies(bodies) is None,
    decreases bodies.len(),
{
    if i < bodies.len() - 1 {
        assert(bodies.drop_last()[i] == bodies[i]);
        lemma_str_decoded_bodies_none(bodies.drop_last(), i);
    }
}

/// Decodes every record body to an entry, in order, or reports corruption
/// where some body decodes to none.
fn decode_str_bodies(bodies: &Vec<Vec<u8>>) -> (r: Result<Vec<(String, i32)>, SnapshotError>)
    ensures
        match r {
            Ok(entries) => str_decoded_bodies(bodies@.map_values(|b: Vec<u8>| b@))
                == Some(str_entry_views(entries@)),
            Err(e) => str_decoded_bodies(bodies@.map_values(|b: Vec<u8>| b@)) is None
                && e == SnapshotError::Corrupt,
        },
{
    let ghost bviews = bodies@.map_values(|b: Vec<u8>| b@);
    let mut entries: Vec<(String, i32)> = Vec::new();
    let mut i: usize = 0;
    proof {
        assert(bviews.take(0) =~= Seq::<Seq<u8>>::empty());
        assert(str_entry_views(entries@) =~= Seq::<(Seq<char>, i32)>::empty());
    }
    while i < bodies.len()
        invariant
            i <= bodies@.len(),
            bviews == bodies@.map_values(|b: Vec<u8>| b@),
            str_decoded_bodies(bviews.take(i as int)) == Some(str_entry_views(entries@)),
        decreases bodies@.len() - i,
    {
        let kv = match decode_str_entry(bodies[i].as_slice()) {
            Ok(kv) => kv,
            Err(e) => {
                proof {
                    lemma_str_decoded_bodies_none(bviews, i as int);
                }
                return Err(e);
            },
        };
        proof {
            let taken = bviews.take(i as int + 1);
            assert(taken.drop_last() =~= bviews.take(i as int));
            assert(taken.last() == bviews[i as int]);
            assert(str_entry_views(entries@.push(kv))
                =~= str_entry_views(entries@).push((kv.0@, kv.1)));
        }
        entries.push(kv);
        i = i + 1;
    }
    proof {
        assert(bviews.take(bodies@.len() as int) =~= bviews);
    }
    Ok(entries)
}

impl StrMap {
    /// Returns an empty map.
    pub fn new() -> (r: StrMap)
        ensures
            r@ == Map::<Seq<char>, i32>::empty(),
    {
        let r = dash_str_new();
        proof {
            assert(r@.dom() =~= Set::empty());
            assert(r@ =~= Map::<Seq<char>, i32>::empty());
        }
        r
    }

    /// Inserts or overwrites the entry for `key`: once this call returns, a
    /// query for `key` observes `value` until a later insert overwrites it.
    pub fn insert(&mut self, key: String, value: i32)
        ensures
            final(self)@ == old(self)@.insert(key@, value),
    {
        dash_str_insert(self, key, value);
    }

    /// Returns the current value for `key`, or absence if never inserted.
    pub fn query(&self, key: String) -> (r: Option<i32>)
        ensures
            r == lookup(self@, key@),
    {
        dash_str_get(self, &key)
    }

    /// Inserts `keys[i]` paired with `values[i]` for each index the two
    /// inputs share, parallel workers fanning out across shards; inputs of
    /// unequal length are truncated to the shorter. When the paired keys are
    /// pairwise distinct each one ends at exactly its paired value; a key
    /// paired twice ends at one of its paired values, the workers racing.
    pub fn batch_insert(&mut self, keys: Vec<String>, values: Vec<i32>)
        ensures
            batch_insert_outcome(old(self)@, final(self)@, str_key_views(keys@), values@),
            (forall|i: int, j: int| 0 <= i < j < paired_len(str_key_views(keys@), values@)
                ==> str_key_views(keys@)[i] != str_key_views(keys@)[j])
                ==> forall|i: int| 0 <= i < paired_len(str_key_views(keys@), values@)
                    ==> final(self)@.contains_key(#[trigger] str_key_views(keys@)[i])
                        && final(self)@[str_key_views(keys@)[i]] == values@[i],
    {
        let ghost kviews = str_key_views(keys@);
        let ghost vals = values@;
        let ghost before = self@;
        dash_str_par_extend(self, keys, values);
        proof {
            if forall|i: int, j: int| 0 <= i < j < paired_len(kviews, vals)
                ==> kviews[i] != kviews[j] {
                lemma_batch_insert_distinct(before, self@, kviews, vals);
            }
        }
    }

    /// Queries every key of the batch, fanning out over parallel workers,
    /// and returns one result per key, in input order, each as if by
    /// `query`.
    pub fn batch_query(&self, keys: Vec<String>) -> (r: Vec<Option<i32>>)
        ensures
            r@ == batch_lookup(self@, str_key_views(keys@)),
            r@.len() == keys@.len(),
    {
        dash_str_par_query(self, keys)
    }

    /// Serializes the map's entries, one length-prefixed record each, in
    /// whatever order the shards expose them: the snapshot's entries fold
    /// back to exactly this map's contents.
    pub fn save_bytes(&self) -> (r: Vec<u8>)
        ensures
            str_snapshot_entries(r@) matches Some(entries) && fold_entries(entries) == self@,
    {
        let entries = dash_str_entries(self);
        let ghost eviews = str_entry_views(entries@);
        let mut out: Vec<u8> = Vec::new();
        let mut i: usize = 0;
        proof {
            assert(frames(out@) == Some(Seq::<Seq<u8>>::empty()));
            assert(eviews.take(0) =~= Seq::<(Seq<char>, i32)>::empty());
        }
        while i < entries.len()
            invariant
                i <= entries@.len(),
                eviews == str_entry_views(entries@),
                frames(out@) is Some,
                str_decoded_bodies(frames(out@).unwrap()) == Some(eviews.take(i as int)),
            decreases entries@.len() - i,
        {
            let body = encode_str_entry(&entries[i].0, entries[i].1);
            let body_len = body.len();
            proof {
                assert(body@.len() == body_len <= u64::MAX);
                lemma_frames_append(out@, body@);
                let bs = frames(out@).unwrap();
                assert(bs.push(body@).drop_last() =~= bs);
                assert(bs.push(body@).last() == body@);
                assert(eviews[i as int] == (entries@[i as int].0@, entries@[i as int].1));
                assert(eviews.take(i as int).push(eviews[i as int]) =~= eviews.take(i as int + 1));
            }
            append_frame(&mut out, &body);
            i = i + 1;
        }
        proof {
            assert(eviews.take(entries@.len() as int) =~= eviews);
            assert forall|k: int| 0 <= k < eviews.len() implies self@.contains_key(
                #[trigger] eviews[k].0,
            ) && self@[eviews[k].0] == eviews[k].1 by {
                assert(eviews[k] == (entries@[k].0@, entries@[k].1));
            }
            assert forall|key: Seq<char>| self@.contains_key(key) implies exists|k: int|
                0 <= k < eviews.len() && eviews[k].0 == key by {
                let k = choose|k: int| 0 <= k < entries@.len() && #[trigger] entries@[k].0@ == key;
                assert(eviews[k] == (entries@[k].0@, entries@[k].1));
                assert(0 <= k < eviews.len() && eviews[k].0 == key);
            }
            assert forall|k: int, l: int| 0 <= k < l < eviews.len() implies eviews[k].0
                != eviews[l].0 by {
                assert(eviews[k] == (entries@[k].0@, entries@[k].1));
                assert(eviews[l] == (entries@[l].0@, entries@[l].1));
            }
            lemma_fold_entries_of_listing(eviews, self@);
        }
        out
    }

    /// Parses a snapshot byte stream and inserts every decoded entry into
    /// this map, in record order, later records and this map's prior
    /// entries losing to the snapshot on overlapping keys. A malformed
    /// stream is reported as corruption and leaves the map unchanged.
    pub fn load_bytes(&mut self, data: &[u8]) -> (r: Result<(), SnapshotError>)
        ensures
            match r {
                Ok(()) => str_snapshot_entries(data@) matches Some(entries)
                    && final(self)@ == old(self)@.union_prefer_right(fold_entries(entries)),
                Err(e) => e == SnapshotError::Corrupt
                    && str_snapshot_entries(data@) is None
                    && final(self)@ == old(self)@,
            },
    {
        let bodies = match split_frames(data) {
            Ok(bodies) => bodies,
            Err(e) => {
                return Err(e);
            },
        };
        let mut entries = match decode_str_bodies(&bodies) {
            Ok(entries) => entries,
            Err(e) => {
                return Err(e);
            },
        };
        let ghost eviews = str_entry_views(entries@);
        let mut i: usize = 0;
        proof {
            assert(eviews.take(0) =~= Seq::<(Seq<char>, i32)>::empty());
        }
        while i < entries.len()
            invariant
                i <= entries@.len(),
                eviews == str_entry_views(entries@),
                str_snapshot_entries(data@) == Some(eviews),
                self@ == apply_inserts(old(self)@, eviews.take(i as int)),
            decreases entries@.len() - i,
        {
            let key = entries[i].0.clone();
            let value = entries[i].1;
            proof {
                let taken = eviews.take(i as int + 1);
                assert(taken.drop_last() =~= eviews.take(i as int));
                assert(taken.last() == eviews[i as int]);
                assert(eviews[i as int] == (entries@[i as int].0@, entries@[i as int].1));
            }
            dash_str_insert(self, key, value);
            i = i + 1;
        }
        proof {
            assert(eviews.take(entries@.len() as int) =~= eviews);
            lemma_apply_inserts_is_union(old(self)@, eviews);
        }
        Ok(())
    }
}

} // verus!
