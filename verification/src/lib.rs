//! An in-process, thread-safe key-value store with a durable snapshot format.
//!
//! The store is a sharded concurrent map (backed by `dashmap`) holding either
//! string or 64-bit integer keys, each paired with 32-bit integer values.
//! Snapshots are flat byte streams of length-prefixed records; the record
//! bodies are encoded with `bincode`. Reading and writing snapshot files is
//! left to the host; this crate frames, parses and checks the bytes.

use vstd::prelude::*;

pub mod int_map;
pub mod model;
pub mod str_map;
pub mod wire;

verus! {

/// Failure during snapshot work: malformed framing or an undecodable record
/// body found while parsing a snapshot.
#[derive(Clone, Copy, Debug, PartialEq, Eq, Structural)]
pub enum SnapshotError {
    /// The byte stream is not a clean sequence of length-prefixed records,
    /// or a record body does not decode to an entry of the expected types.
    Corrupt,
}

/// Declares `dashmap::DashMap`, the sharded concurrent hash map that backs
/// both map types, so that it can stand in their fields. The type is opaque
/// here; what a map holds is named per key type in its own module.
#[verifier::external_type_specification]
#[verifier::external_body]
#[verifier::reject_recursive_types(K)]
#[verifier::reject_recursive_types(V)]
#[verifier::reject_recursive_types(S)]
pub struct ExDashMap<K, V, S>(dashmap::DashMap<K, V, S>);

} // verus!
