//! The integer-keyed map: a sharded, thread-safe container from 64-bit
//! signed integer keys to 32-bit integer values, with single and batched
//! insert and query, and a snapshot codec over the wire format of
//! `crate::wire`.
//!
//! Storage is a `dashmap::DashMap`, keys routed to independently locked
//! shards by hash; batched operations fan out over a `rayon` worker pool.
//! Record bodies are `bincode`-encoded `(i64, i32)` tuples.

use vstd::prelude::*;

use rayon::iter::IndexedParallelIterator;
use rayon::iter::IntoParallelIterator;
use rayon::iter::ParallelIterator;
use rayon::iter::ParallelExtend;

use crate::SnapshotError;
use crate::model::{
    lookup, batch_lookup, fold_entries, apply_inserts, batch_insert_outcome, paired_len,
    lemma_apply_inserts_is_union, lemma_fold_entries_of_listing, lemma_batch_insert_distinct,
};
use crate::wire::{
    frames, frame_bytes, lemma_frames_append, lemma_truncated_stream, split_frames, append_frame,
};
use vstd::bytes::spec_u64_from_le_bytes;

verus! {

/// The entries an integer-keyed shard map holds.
pub uninterp spec fn int_map_contents(m: dashmap::DashMap<i64, i32>) -> Map<i64, i32>;

/// The bytes `bincode` serializes an `(i64, i32)` entry to, under
/// `DefaultOptions`: a function of the entry alone.
pub uninterp spec fn int_record_body(key: i64, value: i32) -> Seq<u8>;

/// The entry `bincode` deserializes a record body to, under
/// `DefaultOptions`, or `None` where it rejects the bytes: a function of the
/// bytes alone.
pub uninterp spec fn int_body_entry(body: Seq<u8>) -> Option<(i64, i32)>;

/// A thread-safe map from 64-bit integer keys to 32-bit integer values. Any
/// number of concurrent callers may insert and query; per-key operations are
/// atomic, and a query observes the last value whose insert completed.
pub struct IntMap {
    shards: dashmap::DashMap<i64, i32>,
}

impl View for IntMap {
    type V = Map<i64, i32>;

    closed spec fn view(&self) -> Map<i64, i32> {
        int_map_contents(self.shards)
    }
}

/// The entries a sequence of record bodies decodes to, or `None` where some
/// body decodes to no entry.
pub open spec fn int_decoded_bodies(bodies: Seq<Seq<u8>>) -> Option<Seq<(i64, i32)>>
    decreases bodies.len(),
{
    if bodies.len() == 0 {
        Some(Seq::empty())
    } else {
        match (int_decoded_bodies(bodies.drop_last()), int_body_entry(bodies.last())) {
            (Some(entries), Some(kv)) => Some(entries.push(kv)),
            _ => None,
        }
    }
}

/// The entries a snapshot byte stream holds, in record order, or `None`
/// where the framing or some record body is malformed.
pub open spec fn int_snapshot_entries(data: Seq<u8>) -> Option<Seq<(i64, i32)>> {
    match frames(data) {
        Some(bodies) => int_decoded_bodies(bodies),
        None => None,
    }
}

/// A snapshot whose first length field declares more body bytes than the
/// stream still holds is corrupt: it parses to no entries at all, never to
/// a silently shortened list.
pub proof fn lemma_int_truncated_corrupt(data: Seq<u8>)
    requires
        8 <= data.len(),
        data.len() - 8 < spec_u64_from_le_bytes(data.subrange(0, 8)),
    ensures
        int_snapshot_entries(data) is None,
{
    lemma_truncated_stream(data);
}

/// A snapshot that ends immediately after a complete record, with zero
/// trailing bytes, parses cleanly: appending one whole record whose body
/// decodes keeps the stream well formed and appends exactly that entry.
pub proof fn lemma_int_clean_record_boundary(stream: Seq<u8>, body: Seq<u8>, kv: (i64, i32))
    requires
        int_snapshot_entries(stream) is Some,
        body.len() <= u64::MAX,
        int_body_entry(body) == Some(kv),
    ensures
        int_snapshot_entries(stream + frame_bytes(body))
            == Some(int_snapshot_entries(stream).unwrap().push(kv)),
{
    lemma_frames_append(stream, body);
    let bs = frames(stream).unwrap();
    assert(bs.push(body).drop_last() =~= bs);
    assert(bs.push(body).last() == body);
}

/// Relies on `dashmap::DashMap::new`: an empty map.
#[verifier::external_body]
fn dash_int_new() -> (r: IntMap)
    ensures
        forall|key: i64| !int_map_contents(r.shards).contains_key(key),
{
    IntMap { shards: dashmap::DashMap::new() }
}

/// Relies on `dashmap::DashMap::insert`: maps the key to the value,
/// dropping any value the key held before.
#[verifier::external_body]
fn dash_int_insert(m: &mut IntMap, key: i64, value: i32)
    ensures
        final(m)@ == old(m)@.insert(key, value),
{
    m.shards.insert(key, value);
}

/// Relies on `dashmap::DashMap::get`: the value the key maps to, if any.
#[verifier::external_body]
fn dash_int_get(m: &IntMap, key: i64) -> (r: Option<i32>)
    ensures
        r == lookup(m@, key),
{
    match m.shards.get(&key) {
        Some(entry) => Some(*entry.value()),
        None => None,
    }
}

/// Relies on `dashmap::DashMap::iter`: with no concurrent writer, it yields
/// each entry exactly once, in no specified order.
#[verifier::external_body]
fn dash_int_entries(m: &IntMap) -> (r: Vec<(i64, i32)>)
    ensures
        forall|i: int| 0 <= i < r@.len() ==> m@.contains_key(#[trigger] r@[i].0)
            && m@[r@[i].0] == r@[i].1,
        forall|key: i64| m@.contains_key(key) ==> exists|i: int|
            0 <= i < r@.len() && #[trigger] r@[i].0 == key,
        forall|i: int, j: int| 0 <= i < j < r@.len() ==> r@[i].0 != r@[j].0,
{
    let mut out = Vec::new();
    for entry in m.shards.iter() {
        out.push((*entry.key(), *entry.value()));
    }
    out
}

/// Relies on dashmap's `par_extend` over a rayon parallel zip: the zip
/// pairs the inputs index by index, truncated to the shorter, and parallel
/// workers insert every pair; a key paired more than once ends at whichever
/// of its paired values was inserted last, the workers racing.
#[verifier::external_body]
fn dash_int_par_extend(m: &mut IntMap, keys: Vec<i64>, values: Vec<i32>)
    ensures
        batch_insert_outcome(old(m)@, final(m)@, keys@, values@),
{
    m.shards.par_extend(keys.into_par_iter().zip(values.into_par_iter()));
}

/// Relies on rayon's indexed parallel `map`/`collect`: one result per key,
/// in input order, each resolved by this map's own point query.
#[verifier::external_body]
fn dash_int_par_query(m: &IntMap, keys: Vec<i64>) -> (r: Vec<Option<i32>>)
    ensures
        r@ == batch_lookup(m@, keys@),
{
    keys.into_par_iter().map(|key| m.query(key)).collect()
}

/// Relies on bincode's `serialize` under `DefaultOptions` (varint lengths,
/// little-endian, no size limit): the bytes are a function of the entry
/// alone, serializing an `(i64, i32)` tuple never fails, and `deserialize`
/// under the same options decodes the bytes back to the entry.
#[verifier::external_body]
fn encode_int_entry(key: i64, value: i32) -> (r: Vec<u8>)
    ensures
        r@ == int_record_body(key, value),
        int_body_entry(r@) == Some((key, value)),
{
    bincode::Options::serialize(bincode::DefaultOptions::new(), &(key, value)).unwrap()
}

/// Relies on bincode's `deserialize` under `DefaultOptions`: the decoded
/// entry is a function of the bytes alone; trailing bytes are rejected.
#[verifier::external_body]
fn decode_int_entry(body: &[u8]) -> (r: Result<(i64, i32), SnapshotError>)
    ensures
        match r {
            Ok(kv) => int_body_entry(body@) == Some((kv.0, kv.1)),
            Err(e) => int_body_entry(body@) is None && e == SnapshotError::Corrupt,
        },
{
    match bincode::Options::deserialize::<(i64, i32)>(bincode::DefaultOptions::new(), body) {
        Ok(kv) => Ok(kv),
        Err(_) => Err(SnapshotError::Corrupt),
    }
}

/// A record body that decodes to no entry poisons the whole sequence.
proof fn lemma_int_decoded_bodies_none(bodies: Seq<Seq<u8>>, i: int)
    requires
        0 <= i < bodies.len(),
        int_body_entry(bodies[i]) is None,
    ensures
        int_decoded_bodies(bodies) is None,
    decreases bodies.len(),
{
    if i < bodies.len() - 1 {
        assert(bodies.drop_last()[i] == bodies[i]);
        lemma_int_decoded_bodies_none(bodies.drop_last(), i);
    }
}

/// Decodes every record body to an entry, in order, or reports corruption
/// where some body decodes to none.
fn decode_int_bodies(bodies: &Vec<Vec<u8>>) -> (r: Result<Vec<(i64, i32)>, SnapshotError>)
    ensures
        match r {
            Ok(entries) => int_decoded_bodies(bodies@.map_values(|b: Vec<u8>| b@))
                == Some(entries@),
            Err(e) => int_decoded_bodies(bodies@.map_values(|b: Vec<u8>| b@)) is None
                && e == SnapshotError::Corrupt,
        },
{
    let ghost bviews = bodies@.map_values(|b: Vec<u8>| b@);
    let mut entries: Vec<(i64, i32)> = Vec::new();
    let mut i: usize = 0;
    proof {
        assert(bviews.take(0) =~= Seq::<Seq<u8>>::empty());
    }
    while i < bodies.len()
        invariant
            i <= bodies@.len(),
            bviews == bodies@.map_values(|b: Vec<u8>| b@),
            int_decoded_bodies(bviews.take(i as int)) == Some(entries@),
        decreases bodies@.len() - i,
    {
        let kv = match decode_int_entry(bodies[i].as_slice()) {
            Ok(kv) => kv,
            Err(e) => {
                proof {
                    lemma_int_decoded_bodies_none(bviews, i as int);
                }
                return Err(e);
            },
        };
        proof {
            let taken = bviews.take(i as int + 1);
            assert(taken.drop_last() =~= bviews.take(i as int));
            assert(taken.last() == bviews[i as int]);
        }
        entries.push(kv);
        i = i + 1;
    }
    proof {
        assert(bviews.take(bodies@.len() as int) =~= bviews);
    }
    Ok(entries)
}

impl IntMap {
    /// Returns an empty map.
    pub fn new() -> (r: IntMap)
        ensures
            r@ == Map::<i64, i32>::empty(),
    {
        let r = dash_int_new();
        proof {
            assert(r@.dom() =~= Set::empty());
            assert(r@ =~= Map::<i64, i32>::empty());
        }
        r
    }

    /// Inserts or overwrites the entry for `key`: once this call returns, a
    /// query for `key` observes `value` until a later insert overwrites it.
    pub fn insert(&mut self, key: i64, value: i32)
        ensures
            final(self)@ == old(self)@.insert(key, value),
    {
        dash_int_insert(self, key, value);
    }

    /// Returns the current value for `key`, or absence if never inserted.
    pub fn query(&self, key: i64) -> (r: Option<i32>)
        ensures
            r == lookup(self@, key),
    {
        dash_int_get(self, key)
    }

    /// Inserts `keys[i]` paired with `values[i]` for each index the two
    /// inputs share, parallel workers fanning out across shards; inputs of
    /// unequal length are truncated to the shorter. When the paired keys are
    /// pairwise distinct each one ends at exactly its paired value; a key
    /// paired twice ends at one of its paired values, the workers racing.
    pub fn batch_insert(&mut self, keys: Vec<i64>, values: Vec<i32>)
        ensures
            batch_insert_outcome(old(self)@, final(self)@, keys@, values@),
            (forall|i: int, j: int| 0 <= i < j < paired_len(keys@, values@)
                ==> keys@[i] != keys@[j])
                ==> forall|i: int| 0 <= i < paired_len(keys@, values@)
                    ==> final(self)@.contains_key(#[trigger] keys@[i])
                        && final(self)@[keys@[i]] == values@[i],
    {
        let ghost kviews = keys@;
        let ghost vals = values@;
        let ghost before = self@;
        dash_int_par_extend(self, keys, values);
        proof {
            if forall|i: int, j: int| 0 <= i < j < paired_len(kviews, vals)
                ==> kviews[i] != kviews[j] {
                lemma_batch_insert_distinct(before, self@, kviews, vals);
            }
        }
    }

    /// Queries every key of the batch, fanning out over parallel workers,
    /// and returns one result per key, in input order, each as if by
    /// `query`.
    pub fn batch_query(&self, keys: Vec<i64>) -> (r: Vec<Option<i32>>)
        ensures
            r@ == batch_lookup(self@, keys@),
            r@.len() == keys@.len(),
    {
        dash_int_par_query(self, keys)
    }

    /// Serializes the map's entries, one length-prefixed record each, in
    /// whatever order the shards expose them: the snapshot's entries fold
    /// back to exactly this map's contents.
    pub fn save_bytes(&self) -> (r: Vec<u8>)
        ensures
            int_snapshot_entries(r@) matches Some(entries) && fold_entries(entries) == self@,
    {
        let entries = dash_int_entries(self);
        let mut out: Vec<u8> = Vec::new();
        let mut i: usize = 0;
        proof {
            assert(frames(out@) == Some(Seq::<Seq<u8>>::empty()));
            assert(entries@.take(0) =~= Seq::<(i64, i32)>::empty());
        }
        while i < entries.len()
            invariant
                i <= entries@.len(),
                frames(out@) is Some,
                int_decoded_bodies(frames(out@).unwrap()) == Some(entries@.take(i as int)),
            decreases entries@.len() - i,
        {
            let body = encode_int_entry(entries[i].0, entries[i].1);
            let body_len = body.len();
            proof {
                assert(body@.len() == body_len <= u64::MAX);
                lemma_frames_append(out@, body@);
                let bs = frames(out@).unwrap();
                assert(bs.push(body@).drop_last() =~= bs);
                assert(bs.push(body@).last() == body@);
                assert(entries@.take(i as int).push(entries@[i as int])
                    =~= entries@.take(i as int + 1));
            }
            append_frame(&mut out, &body);
            i = i + 1;
        }
        proof {
            assert(entries@.take(entries@.len() as int) =~= entries@);
            lemma_fold_entries_of_listing(entries@, self@);
        }
        out
    }

    /// Parses a snapshot byte stream and inserts every decoded entry into
    /// this map, in record order, later records and this map's prior
    /// entries losing to the snapshot on overlapping keys. A malformed
    /// stream is reported as corruption and leaves the map unchanged.
    pub fn load_bytes(&mut self, data: &[u8]) -> (r: Result<(), SnapshotError>)
        ensures
            match r {
                Ok(()) => int_snapshot_entries(data@) matches Some(entries)
                    && final(self)@ == old(self)@.union_prefer_right(fold_entries(entries)),
                Err(e) => e == SnapshotError::Corrupt
                    && int_snapshot_entries(data@) is None
                    && final(self)@ == old(self)@,
            },
    {
        let bodies = match split_frames(data) {
            Ok(bodies) => bodies,
            Err(e) => {
                return Err(e);
            },
        };
        let entries = match decode_int_bodies(&bodies) {
            Ok(entries) => entries,
            Err(e) => {
                return Err(e);
            },
        };
        let mut i: usize = 0;
        proof {
            assert(entries@.take(0) =~= Seq::<(i64, i32)>::empty());
        }
        while i < entries.len()
            invariant
                i <= entries@.len(),
                int_snapshot_entries(data@) == Some(entries@),
                self@ == apply_inserts(old(self)@, entries@.take(i as int)),
            decreases entries@.len() - i,
        {
            let key = entries[i].0;
            let value = entries[i].1;
            proof {
                let taken = entries@.take(i as int + 1);
                assert(taken.drop_last() =~= entries@.take(i as int));
                assert(taken.last() == entries@[i as int]);
            }
            dash_int_insert(self, key, value);
            i = i + 1;
        }
        proof {
            assert(entries@.take(entries@.len() as int) =~= entries@);
            lemma_apply_inserts_is_union(old(self)@, entries@);
        }
        Ok(())
    }
}

} // verus!
