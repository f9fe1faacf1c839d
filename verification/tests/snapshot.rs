//! The snapshot codec: round trips, merge semantics, and corruption.

use bincode::Options;
use rust_dash_map::int_map::IntMap;
use rust_dash_map::str_map::StrMap;
use rust_dash_map::SnapshotError;

fn frame(body: &[u8]) -> Vec<u8> {
    let mut out = (body.len() as u64).to_le_bytes().to_vec();
    out.extend_from_slice(body);
    out
}

#[test]
fn round_trip_restores_entry_set() {
    let mut m = StrMap::new();
    m.insert("one".to_string(), 1);
    m.insert("two".to_string(), 2);
    m.insert("three".to_string(), 3);
    let snapshot = m.save_bytes();

    let mut restored = StrMap::new();
    restored.load_bytes(&snapshot).unwrap();
    for (key, value) in [("one", 1), ("two", 2), ("three", 3)] {
        assert_eq!(restored.query(key.to_string()), Some(value));
    }
    assert_eq!(restored.query("four".to_string()), None);
}

#[test]
fn int_round_trip_restores_entry_set() {
    let mut m = IntMap::new();
    m.insert(i64::MIN, -1);
    m.insert(0, 0);
    m.insert(i64::MAX, 1);
    let snapshot = m.save_bytes();

    let mut restored = IntMap::new();
    restored.load_bytes(&snapshot).unwrap();
    assert_eq!(restored.query(i64::MIN), Some(-1));
    assert_eq!(restored.query(0), Some(0));
    assert_eq!(restored.query(i64::MAX), Some(1));
}

#[test]
fn empty_map_saves_to_empty_snapshot() {
    let m = StrMap::new();
    let snapshot = m.save_bytes();
    assert!(snapshot.is_empty());

    let mut restored = StrMap::new();
    restored.load_bytes(&snapshot).unwrap();
    assert_eq!(restored.query("anything".to_string()), None);
}

#[test]
fn load_twice_is_idempotent() {
    let mut m = StrMap::new();
    m.insert("a".to_string(), 1);
    m.insert("b".to_string(), 2);
    let snapshot = m.save_bytes();

    let mut target = StrMap::new();
    target.load_bytes(&snapshot).unwrap();
    target.load_bytes(&snapshot).unwrap();
    assert_eq!(target.query("a".to_string()), Some(1));
    assert_eq!(target.query("b".to_string()), Some(2));
    assert_eq!(target.batch_query(vec!["a".to_string(), "b".to_string()]).len(), 2);
}

#[test]
fn load_overwrites_only_snapshot_keys() {
    let mut source = StrMap::new();
    source.insert("shared".to_string(), 42);
    let snapshot = source.save_bytes();

    let mut target = StrMap::new();
    target.insert("kept".to_string(), 7);
    target.insert("shared".to_string(), 1);
    target.load_bytes(&snapshot).unwrap();
    assert_eq!(target.query("kept".to_string()), Some(7));
    assert_eq!(target.query("shared".to_string()), Some(42));
}

#[test]
fn truncated_body_is_corruption() {
    // A length field declaring 16 body bytes, followed by only 2.
    let mut data = 16u64.to_le_bytes().to_vec();
    data.extend_from_slice(&[1, 2]);
    let mut m = StrMap::new();
    assert_eq!(m.load_bytes(&data), Err(SnapshotError::Corrupt));
}

#[test]
fn partial_length_field_is_corruption() {
    let data = [0u8, 0, 0];
    let mut m = IntMap::new();
    assert_eq!(m.load_bytes(&data), Err(SnapshotError::Corrupt));
}

#[test]
fn snapshot_cut_short_is_corruption() {
    let mut m = StrMap::new();
    m.insert("entry".to_string(), 5);
    let snapshot = m.save_bytes();

    let mut target = StrMap::new();
    assert_eq!(
        target.load_bytes(&snapshot[..snapshot.len() - 1]),
        Err(SnapshotError::Corrupt)
    );
    // The failed load leaves the target untouched.
    assert_eq!(target.query("entry".to_string()), None);
}

#[test]
fn undecodable_body_is_corruption() {
    // Correct framing around a body bincode rejects.
    let data = frame(&[255, 255, 255]);
    let mut m = StrMap::new();
    assert_eq!(m.load_bytes(&data), Err(SnapshotError::Corrupt));
}

#[test]
fn stream_ending_at_record_boundary_loads() {
    // One handwritten record, zero trailing bytes.
    let body = bincode::DefaultOptions::new()
        .serialize(&("key".to_string(), 9i32))
        .unwrap();
    let data = frame(&body);
    let mut m = StrMap::new();
    m.load_bytes(&data).unwrap();
    assert_eq!(m.query("key".to_string()), Some(9));
}

#[test]
fn saved_records_parse_with_plain_bincode() {
    let mut m = IntMap::new();
    m.insert(3, 30);
    m.insert(4, 40);
    let snapshot = m.save_bytes();

    let mut entries = Vec::new();
    let mut at = 0usize;
    while at < snapshot.len() {
        let mut len_bytes = [0u8; 8];
        len_bytes.copy_from_slice(&snapshot[at..at + 8]);
        let len = u64::from_le_bytes(len_bytes) as usize;
        let body = &snapshot[at + 8..at + 8 + len];
        let kv: (i64, i32) = bincode::DefaultOptions::new().deserialize(body).unwrap();
        entries.push(kv);
        at += 8 + len;
    }
    entries.sort();
    assert_eq!(entries, vec![(3, 30), (4, 40)]);
}

#[test]
fn duplicate_keys_in_snapshot_last_record_wins() {
    let first = bincode::DefaultOptions::new()
        .serialize(&("dup".to_string(), 1i32))
        .unwrap();
    let second = bincode::DefaultOptions::new()
        .serialize(&("dup".to_string(), 2i32))
        .unwrap();
    let mut data = frame(&first);
    data.extend_from_slice(&frame(&second));
    let mut m = StrMap::new();
    m.load_bytes(&data).unwrap();
    assert_eq!(m.query("dup".to_string()), Some(2));
}

#[test]
fn snapshot_of_other_key_type_is_rejected() {
    let mut source = StrMap::new();
    source.insert("a".to_string(), 1);
    let snapshot = source.save_bytes();

    let mut target = IntMap::new();
    assert_eq!(target.load_bytes(&snapshot), Err(SnapshotError::Corrupt));
}
