use shredder::concurrency::lockout::Lockout;

#[test]
fn warrant_prevents_exclusive_warrant() {
    let mut lockout = Lockout::new();
    let _warrant = lockout.take_warrant();
    let exclusive_warrant_option = lockout.try_take_exclusive_warrant();
    assert!(exclusive_warrant_option.is_none());
}

#[test]
fn exclusive_warrant_works_by_itself() {
    let mut lockout = Lockout::new();
    let exclusive_warrant_option = lockout.try_take_exclusive_warrant();
    assert!(exclusive_warrant_option.is_some());
}

#[test]
fn multiple_warrants() {
    let mut lockout = Lockout::new();
    let _warrant_1 = lockout.take_warrant();
    let _warrant_2 = lockout.take_warrant();
}

#[test]
fn exclusive_warrant_prevents_warrant() {
    let mut lockout = Lockout::new();
    let exclusive = lockout.try_take_exclusive_warrant().unwrap();
    assert!(lockout.take_warrant().is_none());
    assert!(lockout.try_take_exclusive_warrant().is_none());
    assert!(!lockout.try_take_exclusive_access_unsafe());
    exclusive.release(&mut lockout);
    assert!(lockout.take_warrant().is_some());
}

#[test]
fn released_warrants_free_the_lockout() {
    let mut lockout = Lockout::new();
    let warrant_1 = lockout.take_warrant().unwrap();
    let warrant_2 = lockout.take_warrant().unwrap();
    warrant_1.release(&mut lockout);
    assert!(lockout.try_take_exclusive_warrant().is_none());
    warrant_2.release(&mut lockout);
    assert!(lockout.try_take_exclusive_warrant().is_some());
}

#[test]
fn unguarded_exclusive_access_is_taken_and_released() {
    let mut lockout = Lockout::new();
    assert!(!lockout.unsafe_exclusive_access_taken());
    assert!(lockout.try_take_exclusive_access_unsafe());
    assert!(lockout.unsafe_exclusive_access_taken());
    assert!(lockout.take_warrant().is_none());
    assert!(!lockout.try_take_exclusive_access_unsafe());
    lockout.try_release_exclusive_access_unsafe();
    assert!(!lockout.unsafe_exclusive_access_taken());
    assert!(lockout.take_warrant().is_some());
}

#[test]
fn unguarded_release_leaves_other_holders_alone() {
    let mut lockout = Lockout::new();
    let exclusive = lockout.try_take_exclusive_warrant();
    assert!(exclusive.is_some());
    lockout.try_release_exclusive_access_unsafe();
    assert!(lockout.take_warrant().is_none());

    let mut shared = Lockout::new();
    let _warrant = shared.take_warrant().unwrap();
    shared.try_release_exclusive_access_unsafe();
    assert!(shared.try_take_exclusive_warrant().is_none());
}
