use synchronized::cell::SPtr;
use synchronized::try_lock::TryLock;

#[test]
fn alloc_test() {
    let mut ptr = [SPtr::new(10), SPtr::new(10), SPtr::new(10)];
    ptr[0].store(20);
    assert_eq!(ptr[0].load(), 20);
}

#[test]
fn swap_returns_old() {
    let mut cell = SPtr::new(5u64);
    let prev = cell.swap(9);
    assert_eq!(prev, 5);
    assert_eq!(cell.load(), 9);
}

#[test]
fn guarded_updates() {
    // the cell's intended use: every access bracketed by the lock
    let mut val = SPtr::new(0usize);
    let mut lock = TryLock::new();
    for _ in 0..1000 {
        lock.acquire();
        let cur = val.load();
        val.swap(cur + 1);
        lock.release();
    }
    assert_eq!(val.load(), 1000);
    assert_eq!(lock.acquire_count(), 1000);
}
