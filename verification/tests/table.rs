use synchronized::densemap::{Bucket, LockDenseTable, MIN_SIZE};
use synchronized::sync_map::SyncMap;

#[test]
fn bucket_states() {
    let b: Bucket<u64, u64> = Bucket::Occupied { key: 3, value: 9 };
    assert!(b.has_value());
    assert!(!b.is_empty());
    assert!(!b.is_tombstone());
    assert!(b.key_eq(&3));
    assert!(!b.key_eq(&4));
    assert_eq!(b.value_ref(), Ok(&9));
    assert_eq!(b.value(), Some(9));

    let e: Bucket<u64, u64> = Bucket::Empty;
    assert!(e.is_empty());
    assert!(!e.has_value());
    assert!(!e.key_eq(&3));
    assert_eq!(e.value_ref(), Err(()));
    assert_eq!(e.value(), None);

    let t: Bucket<u64, u64> = Bucket::Tombstone;
    assert!(t.is_tombstone());
    assert!(!t.is_empty());
    assert!(!t.has_value());
}

#[test]
fn capacity_floor_and_multiplier() {
    let small: LockDenseTable<u64> = LockDenseTable::with_capacity(0);
    assert_eq!(small.capacity(), MIN_SIZE);
    let small2: LockDenseTable<u64> = LockDenseTable::with_capacity(2);
    assert_eq!(small2.capacity(), MIN_SIZE);
    let larger: LockDenseTable<u64> = LockDenseTable::with_capacity(10);
    assert_eq!(larger.capacity(), 40);
    let exact: LockDenseTable<u64> = LockDenseTable::new(17);
    assert_eq!(exact.capacity(), 17);
}

#[test]
fn round_trip() {
    let mut t: LockDenseTable<u64> = LockDenseTable::with_capacity(4);
    assert_eq!(t.lookup(&42), None);
    assert_eq!(t.insert(42, 7, 0), None);
    assert_eq!(t.lookup(&42), Some(7));
    assert!(t.contains_key(&42));
    assert_eq!(t.remove(&42, 0), Some(7));
    assert!(!t.contains_key(&42));
    assert_eq!(t.lookup(&42), None);
    assert_eq!(t.remove(&42, 0), None);
    // re-insert after removal behaves like a fresh insert
    assert_eq!(t.insert(42, 8, 0), None);
    assert_eq!(t.lookup(&42), Some(8));
}

#[test]
fn update_semantics() {
    let mut t: LockDenseTable<u64> = LockDenseTable::with_capacity(4);
    assert_eq!(t.insert(9, 1, 0), None);
    assert_eq!(t.insert(9, 2, 0), Some(1));
    assert_eq!(t.lookup(&9), Some(2));
    assert_eq!(t.insert(9, 3, 1), Some(2));
    assert_eq!(t.lookup(&9), Some(3));
}

#[test]
fn tombstone_probe() {
    // keys 5 and 13 collide into slot 5 of an 8-slot table; deleting the
    // first must not hide the second behind its tombstone
    let mut t: LockDenseTable<u64> = LockDenseTable::with_capacity(2);
    assert_eq!(t.capacity(), 8);
    assert_eq!(t.insert(5, 100, 0), None);
    assert_eq!(t.insert(13, 200, 0), None);
    assert_eq!(t.remove(&5, 0), Some(100));
    assert_eq!(t.lookup(&13), Some(200));
    assert!(t.contains_key(&13));
    assert_eq!(t.lookup(&5), None);
    // the tombstone is reusable and the collided key stays reachable
    assert_eq!(t.insert(5, 101, 0), None);
    assert_eq!(t.lookup(&5), Some(101));
    assert_eq!(t.lookup(&13), Some(200));
}

#[test]
fn resize_keeps_contents() {
    // a thousand updates of one key flush its shard into the global insert
    // count, which trips the capacity/3 heuristic and rebuilds the table
    let mut t: LockDenseTable<u64> = LockDenseTable::with_capacity(2);
    assert_eq!(t.capacity(), 8);
    assert_eq!(t.insert(1, 0, 0), None);
    for i in 1..1000u64 {
        assert_eq!(t.insert(1, i, 0), Some(i - 1));
    }
    assert_eq!(t.capacity(), 32);
    assert_eq!(t.lookup(&1), Some(999));
}

#[test]
fn update_semantics_run() {
    let mut t: LockDenseTable<u64> = LockDenseTable::with_capacity(4);
    let (second, got) = synchronized::densemap::update_semantics(&mut t, 9, 1, 2, 0);
    assert_eq!(second, Some(1));
    assert_eq!(got, Some(2));
}

#[test]
fn tombstone_probe_run() {
    // 5 and 13 share starting slot 5 of the 8-slot table
    let mut t: LockDenseTable<u64> = LockDenseTable::with_capacity(2);
    let (removed, got) = synchronized::densemap::tombstone_probe(&mut t, 5, 13, 100, 200, 0);
    assert_eq!(removed, Some(100));
    assert_eq!(got, Some(200));
}

#[test]
fn into_iter_drains() {
    let mut t: LockDenseTable<u64> = LockDenseTable::with_capacity(4);
    t.insert(1, 10, 0);
    t.insert(2, 20, 0);
    t.insert(3, 30, 0);
    let mut it = t.into_iter();
    let mut pairs: Vec<(u64, u64)> = Vec::new();
    while let Some(pair) = it.next() {
        pairs.push(pair);
    }
    pairs.sort();
    assert_eq!(pairs, vec![(1, 10), (2, 20), (3, 30)]);
}
