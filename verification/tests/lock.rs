use synchronized::try_lock::TryLock;

#[test]
fn init_test() {
    let mut lock = TryLock::new();
    assert!(!lock.is_held());
    lock.acquire();
    assert!(lock.is_held());
}

#[test]
fn lock_pairs() {
    // 32 workers each acquire and release exactly once, here run to
    // completion one after another: the lock ends unheld with a count of 32
    let mut lock = TryLock::new();
    for _ in 0..32 {
        lock.acquire();
        assert!(lock.is_held());
        lock.release();
    }
    assert!(!lock.is_held());
    assert_eq!(lock.acquire_count(), 32);
}

#[test]
fn single_holder() {
    // while one acquisition is outstanding no second attempt can succeed
    let mut lock = TryLock::new();
    assert!(lock.try_acquire());
    assert!(lock.is_held());
    assert!(!lock.try_acquire());
    assert!(!lock.try_acquire());
    lock.release();
    assert!(!lock.is_held());
    assert!(lock.try_acquire());
    assert_eq!(lock.acquire_count(), 1);
    lock.release();
    assert_eq!(lock.acquire_count(), 2);
}
