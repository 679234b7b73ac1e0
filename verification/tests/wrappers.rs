use shredder::marker::{GcDeref, GcDrop, GcSafe, GcSafeWrapper};
use shredder::plumbing::{check_gc_deref, check_gc_drop, check_gc_safe};
use shredder::wrappers::{GcPoisonError, GcTryLockError};

struct Plain(u8);

impl GcSafe for Plain {}
impl GcDrop for Plain {}
impl GcDeref for Plain {}

#[test]
fn poison_error_gives_the_guard_back() {
    let error = GcPoisonError::new(String::from("guard"));
    assert_eq!(error.into_inner(), "guard");
}

#[test]
fn try_lock_error_holds_a_poison_error() {
    let error = GcTryLockError::Poisoned(GcPoisonError::new(3u8));
    match error {
        GcTryLockError::Poisoned(inner) => assert_eq!(inner.into_inner(), 3),
        GcTryLockError::WouldBlock => panic!("poisoned was expected"),
    }
    let error: GcTryLockError<u8> = GcTryLockError::WouldBlock;
    assert!(matches!(error, GcTryLockError::WouldBlock));
}

#[test]
fn safe_wrapper_gives_the_value_back() {
    let wrapper = GcSafeWrapper::new(vec![1, 2, 3]);
    assert_eq!(wrapper.v, vec![1, 2, 3]);
    check_gc_safe(&wrapper);
    assert_eq!(wrapper.take(), vec![1, 2, 3]);
}

#[test]
fn marker_checks_accept_marked_values() {
    let plain = Plain(4);
    check_gc_safe(&plain);
    check_gc_drop(&plain);
    check_gc_deref(&plain);
    assert_eq!(plain.0, 4);
}
