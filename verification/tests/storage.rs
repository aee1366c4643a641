//! Behavior of snapshots, the store, and delta sets on concrete values.

use executor_core::delta::DeltaSet;
use executor_core::keys::program_storage_key;
use executor_core::snapshot::Snapshot;
use executor_core::store::{Store, StoreError};

fn bytes(s: &str) -> Vec<u8> {
    s.as_bytes().to_vec()
}

#[test]
fn program_storage_key_is_code() {
    assert_eq!(program_storage_key(), bytes(":code"));
}

#[test]
fn snapshot_point_get() {
    let snap = Snapshot::from_pairs(1, 0, vec![(bytes("a"), vec![1]), (bytes("b"), vec![2])]);
    assert_eq!(snap.get(&bytes("a")), Some(vec![1]));
    assert_eq!(snap.get(&bytes("b")), Some(vec![2]));
    assert_eq!(snap.get(&bytes("c")), None);
}

#[test]
fn snapshot_from_pairs_later_pair_wins() {
    let snap = Snapshot::from_pairs(1, 0, vec![(bytes("k"), vec![1]), (bytes("k"), vec![9])]);
    assert_eq!(snap.get(&bytes("k")), Some(vec![9]));
}

#[test]
fn snapshot_insert_and_remove() {
    let mut snap = Snapshot::empty(1, 0);
    snap.insert_entry(bytes("x"), vec![7]);
    assert_eq!(snap.get(&bytes("x")), Some(vec![7]));
    snap.insert_entry(bytes("x"), vec![8]);
    assert_eq!(snap.get(&bytes("x")), Some(vec![8]));
    snap.remove_entry(&bytes("x"));
    assert_eq!(snap.get(&bytes("x")), None);
}

#[test]
fn snapshot_next_key_walks_in_order() {
    let snap = Snapshot::from_pairs(
        1,
        0,
        vec![(bytes("b"), vec![2]), (bytes("a"), vec![1]), (bytes("ab"), vec![3])],
    );
    assert_eq!(snap.next_key(&bytes("")), Some(bytes("a")));
    assert_eq!(snap.next_key(&bytes("a")), Some(bytes("ab")));
    assert_eq!(snap.next_key(&bytes("ab")), Some(bytes("b")));
    assert_eq!(snap.next_key(&bytes("b")), None);
}

#[test]
fn snapshot_keys_with_prefix_is_ordered_and_filtered() {
    let snap = Snapshot::from_pairs(
        1,
        0,
        vec![(bytes("b"), vec![2]), (bytes("aa"), vec![1]), (bytes("ab"), vec![3])],
    );
    assert_eq!(snap.keys_with_prefix(&bytes("a")), vec![bytes("aa"), bytes("ab")]);
    assert_eq!(snap.keys_with_prefix(&bytes("")), vec![bytes("aa"), bytes("ab"), bytes("b")]);
    assert_eq!(snap.keys_with_prefix(&bytes("c")), Vec::<Vec<u8>>::new());
}

#[test]
fn store_get_unknown_hash_fails_not_found() {
    let store = Store::new();
    assert!(matches!(store.get(5), Err(StoreError::NotFound)));
}

#[test]
fn derive_child_applies_delta() {
    let mut store = Store::new();
    store.insert_snapshot(Snapshot::from_pairs(1, 0, vec![(bytes("a"), vec![1])]));
    let mut delta = DeltaSet::new();
    delta.set(bytes("a"), Some(vec![2]));
    delta.set(bytes("b"), Some(vec![3]));
    let child = match store.derive_child(1, 2, &delta) {
        Ok(c) => c,
        Err(_) => panic!("derivation from a known parent must succeed"),
    };
    assert_eq!(child.block_hash, 2);
    assert_eq!(child.parent_hash, 1);
    assert_eq!(child.get(&bytes("a")), Some(vec![2]));
    assert_eq!(child.get(&bytes("b")), Some(vec![3]));
    let stored = store.get(2).expect("committed child must be stored");
    assert_eq!(stored.get(&bytes("a")), Some(vec![2]));
}

#[test]
fn derive_child_deletes_absent_values() {
    let mut store = Store::new();
    store.insert_snapshot(Snapshot::from_pairs(1, 0, vec![
        (bytes("a"), vec![1]),
        (bytes("b"), vec![2]),
    ]));
    let mut delta = DeltaSet::new();
    delta.set(bytes("b"), None);
    let child = store.derive_child(1, 2, &delta).expect("known parent");
    assert_eq!(child.get(&bytes("a")), Some(vec![1]));
    assert_eq!(child.get(&bytes("b")), None);
}

#[test]
fn derive_child_unknown_parent_fails() {
    let mut store = Store::new();
    let delta = DeltaSet::new();
    assert!(matches!(store.derive_child(9, 10, &delta), Err(StoreError::MissingParentSnapshot)));
}

#[test]
fn evicted_hash_is_not_found() {
    let mut store = Store::new();
    store.insert_snapshot(Snapshot::from_pairs(1, 0, vec![(bytes("a"), vec![1])]));
    assert!(store.get(1).is_ok());
    store.evict(1);
    assert!(matches!(store.get(1), Err(StoreError::NotFound)));
}

#[test]
fn delta_set_records_and_reports_mutations() {
    let mut delta = DeltaSet::new();
    assert!(!delta.contains(&bytes("a")));
    assert_eq!(delta.pairs().len(), 0);
    delta.set(bytes("a"), Some(vec![1]));
    delta.set(bytes("b"), None);
    assert!(delta.contains(&bytes("a")));
    assert!(delta.contains(&bytes("b")));
    assert!(!delta.contains(&bytes("c")));
    let mut pairs = delta.pairs();
    pairs.sort();
    assert_eq!(pairs, vec![(bytes("a"), Some(vec![1])), (bytes("b"), None)]);
}

#[test]
fn delta_set_last_mutation_wins() {
    let mut delta = DeltaSet::new();
    delta.set(bytes("a"), Some(vec![1]));
    delta.set(bytes("a"), None);
    assert_eq!(delta.pairs(), vec![(bytes("a"), None)]);
}
