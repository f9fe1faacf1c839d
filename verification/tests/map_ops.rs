//! Point and batched operations of the two map types.

use rust_dash_map::int_map::IntMap;
use rust_dash_map::str_map::StrMap;

#[test]
fn insert_then_query_observes_value() {
    let mut m = StrMap::new();
    m.insert("alpha".to_string(), 10);
    assert_eq!(m.query("alpha".to_string()), Some(10));
}

#[test]
fn query_absent_key_is_none() {
    let m = StrMap::new();
    assert_eq!(m.query("missing".to_string()), None);
}

#[test]
fn last_write_wins_per_key() {
    let mut m = StrMap::new();
    m.insert("k".to_string(), 1);
    m.insert("k".to_string(), 2);
    m.insert("k".to_string(), 3);
    assert_eq!(m.query("k".to_string()), Some(3));
}

#[test]
fn int_map_insert_query_overwrite() {
    let mut m = IntMap::new();
    m.insert(-7, 100);
    assert_eq!(m.query(-7), Some(100));
    m.insert(-7, 200);
    assert_eq!(m.query(-7), Some(200));
    assert_eq!(m.query(8), None);
}

#[test]
fn batch_query_same_length_same_order() {
    let mut m = StrMap::new();
    m.insert("a".to_string(), 1);
    m.insert("b".to_string(), 2);
    let keys = vec!["b".to_string(), "nope".to_string(), "a".to_string()];
    let results = m.batch_query(keys);
    assert_eq!(results.len(), 3);
    assert_eq!(results, vec![Some(2), None, Some(1)]);
}

#[test]
fn batch_query_singleton_equals_query() {
    let mut m = StrMap::new();
    m.insert("x".to_string(), 5);
    for key in ["x", "y"] {
        let batched = m.batch_query(vec![key.to_string()]);
        assert_eq!(batched, vec![m.query(key.to_string())]);
    }
}

#[test]
fn int_batch_query_order() {
    let mut m = IntMap::new();
    m.batch_insert(vec![1, 2, 3], vec![10, 20, 30]);
    assert_eq!(m.batch_query(vec![3, 99, 1]), vec![Some(30), None, Some(10)]);
}

#[test]
fn batch_insert_pairs_keys_with_values() {
    let mut m = StrMap::new();
    m.batch_insert(
        vec!["a".to_string(), "b".to_string(), "c".to_string()],
        vec![1, 2, 3],
    );
    assert_eq!(m.query("a".to_string()), Some(1));
    assert_eq!(m.query("b".to_string()), Some(2));
    assert_eq!(m.query("c".to_string()), Some(3));
}

#[test]
fn batch_insert_truncates_to_shorter_input() {
    let mut m = StrMap::new();
    m.batch_insert(vec!["x".to_string(), "y".to_string()], vec![1]);
    assert_eq!(m.query("x".to_string()), Some(1));
    assert_eq!(m.query("y".to_string()), None);

    let mut n = IntMap::new();
    n.batch_insert(vec![5], vec![50, 60]);
    assert_eq!(n.query(5), Some(50));
}

#[test]
fn batch_insert_overwrites_existing_entries() {
    let mut m = IntMap::new();
    m.insert(1, 11);
    m.insert(2, 22);
    m.batch_insert(vec![2, 3], vec![220, 330]);
    assert_eq!(m.query(1), Some(11));
    assert_eq!(m.query(2), Some(220));
    assert_eq!(m.query(3), Some(330));
}

#[test]
fn large_batch_round_robin() {
    let mut m = IntMap::new();
    let keys: Vec<i64> = (0..1000).collect();
    let values: Vec<i32> = (0..1000).map(|v| v * 2).collect();
    m.batch_insert(keys.clone(), values);
    let results = m.batch_query(keys);
    assert_eq!(results.len(), 1000);
    for (i, r) in results.iter().enumerate() {
        assert_eq!(*r, Some((i as i32) * 2));
    }
}

#[test]
fn scenario_inserts_batches_save_load() {
    let mut m = StrMap::new();
    m.insert("a".to_string(), 1);
    m.insert("b".to_string(), 2);
    m.batch_insert(vec!["c".to_string(), "a".to_string()], vec![3, 99]);
    assert_eq!(m.query("a".to_string()), Some(99));
    assert_eq!(m.query("c".to_string()), Some(3));
    assert_eq!(m.query("z".to_string()), None);

    let snapshot = m.save_bytes();
    let mut fresh = StrMap::new();
    fresh.load_bytes(&snapshot).unwrap();
    assert_eq!(fresh.query("b".to_string()), Some(2));
}
