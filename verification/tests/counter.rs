use std::cmp;
use std::mem::size_of;
use std::sync::atomic::AtomicU64;
use synchronized::counter::{AtomicU64Padded, Counter, PadBytes, MAX_THREADS};

#[test]
fn type_sizes() {
    let padbytes_size = size_of::<PadBytes<64>>();
    assert_eq!(padbytes_size, 64);

    let paddedu64_size = size_of::<AtomicU64Padded>();
    let u64_size = size_of::<AtomicU64>();
    assert_eq!(u64_size, 8);
    assert_eq!(paddedu64_size, 64);
}

#[test]
fn test_init() {
    let counter = Counter::new(10);
    assert_eq!(counter.get(), 0);
}

#[test]
fn test_inc() {
    let mut counter = Counter::new(10);

    (0..MAX_THREADS).for_each(|i| {
        counter.inc(i);
    });

    // each sub counter has count 1
    assert_eq!(counter.get(), 0);

    assert_eq!(counter.get_accurate(), MAX_THREADS as u64);

    let init = 20;
    counter.set(init);

    (0..MAX_THREADS).for_each(|i| {
        counter.inc(i);
    });

    assert_eq!(counter.get_accurate(), init + MAX_THREADS as u64);
}

#[test]
fn test_limit() {
    let mut counter = Counter::new(MAX_THREADS as u64);
    let limit = cmp::max(Counter::LIMIT, Counter::C * MAX_THREADS as u64);

    (0..MAX_THREADS).for_each(|i| {
        (0..limit - 1).for_each(|_| {
            counter.inc(i);
        });
    });

    assert_eq!(counter.get(), 0);

    // this should flush one sub counter
    assert_eq!(limit - 1, counter.shard_value(0));
    counter.inc(0);
    assert_eq!(0, counter.shard_value(0));
    assert_eq!(counter.get(), limit);
    assert_eq!(counter.get_accurate(), (MAX_THREADS as u64) * (limit - 1) + 1);
}

#[test]
fn util_test_rayon() {
    let mut counter = Counter::new(MAX_THREADS as u64);
    let limit = cmp::max(Counter::LIMIT, Counter::C * MAX_THREADS as u64);
    let tids = (0..MAX_THREADS).collect::<Vec<_>>();
    tids.iter().for_each(|&tid| {
        (0..limit - 1).for_each(|_| {
            counter.inc(tid);
        });
    });
    assert_eq!(counter.get(), 0);
    tids.iter().for_each(|&tid| {
        counter.inc(tid);
    });
    assert_eq!(counter.get(), (MAX_THREADS as u64) * limit);

    tids.iter().for_each(|&tid| {
        for _ in 0..(3 * limit) {
            counter.inc(tid);
        }
    });

    let exp = (MAX_THREADS as u64) * limit + (MAX_THREADS as u64) * limit * 3;
    assert_eq!(counter.get_accurate(), exp);
}

#[test]
fn counter_reset() {
    let mut counter = Counter::new(4);
    for _ in 0..17 {
        counter.inc(2);
    }
    counter.set(7);
    assert_eq!(counter.get(), 7);
    assert_eq!(counter.get_accurate(), 7);
    for tid in 0..MAX_THREADS {
        assert_eq!(counter.shard_value(tid), 0);
    }
}

#[test]
fn counter_conservation_small() {
    // every inc lands in the exact total, wherever the shards stand
    let mut counter = Counter::new(8);
    let mut issued: u64 = 0;
    for round in 0..2500u64 {
        let tid = (round % 5) as usize;
        counter.inc(tid);
        issued += 1;
        assert_eq!(counter.get_accurate(), issued);
    }
}
