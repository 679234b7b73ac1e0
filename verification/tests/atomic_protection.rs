use shredder::concurrency::atomic_protection::{AtomicProtectingSpinlock, SENTINEL_VALUE};

#[test]
fn sentinel_is_two_to_the_sixtieth() {
    assert_eq!(SENTINEL_VALUE, 1u64 << 60);
}

#[test]
fn idle_lock_admits_an_exclusive_holder() {
    let mut lock = AtomicProtectingSpinlock::new();
    assert!(lock.lock_exclusive().is_some());
}

#[test]
fn exclusive_holder_keeps_everyone_out() {
    let mut lock = AtomicProtectingSpinlock::new();
    let guard = lock.lock_exclusive().unwrap();
    assert!(lock.lock_inclusive().is_none());
    assert!(lock.lock_inclusive().is_none());
    assert!(lock.lock_exclusive().is_none());
    guard.release(&mut lock);
    // the failed attempts left nothing behind
    assert!(lock.lock_exclusive().is_some());
}

#[test]
fn inclusive_holders_keep_the_exclusive_one_out() {
    let mut lock = AtomicProtectingSpinlock::default();
    let first = lock.lock_inclusive().unwrap();
    let second = lock.lock_inclusive().unwrap();
    assert!(lock.lock_exclusive().is_none());
    first.release(&mut lock);
    assert!(lock.lock_exclusive().is_none());
    second.release(&mut lock);
    assert!(lock.lock_exclusive().is_some());
}
