use shredder::collector::ref_cnt::{GcRefCount, ROOT_OVERRIDE_VALUE};

#[test]
fn override_value_is_minus_two_to_the_sixtieth() {
    assert_eq!(ROOT_OVERRIDE_VALUE, -(1i64 << 60));
}

#[test]
fn new_count_is_rooted_by_override() {
    let count = GcRefCount::new(1);
    assert_eq!(count.snapshot_ref_count(), 1);
    assert!(count.was_overriden_as_rooted());
    assert!(count.is_rooted());
}

#[test]
fn a_count_of_zero_handles_is_still_rooted_by_override() {
    let count = GcRefCount::new(0);
    assert_eq!(count.snapshot_ref_count(), 0);
    assert!(count.is_rooted());
}

#[test]
fn inc_and_dec_move_the_snapshot() {
    let mut count = GcRefCount::new(1);
    count.inc_count();
    count.inc_count();
    assert_eq!(count.snapshot_ref_count(), 3);
    count.dec_count();
    assert_eq!(count.snapshot_ref_count(), 2);
    count.dec_count();
    count.dec_count();
    assert_eq!(count.snapshot_ref_count(), 0);
}

#[test]
fn prepare_clears_the_override_and_keeps_the_count() {
    let mut count = GcRefCount::new(1);
    count.inc_count();
    count.dec_count();
    count.inc_count();
    count.prepare_for_collection();
    assert!(!count.was_overriden_as_rooted());
    assert_eq!(count.snapshot_ref_count(), 2);
    // two handles, none found inside managed data
    assert!(count.is_rooted());
}

#[test]
fn rooted_means_more_handles_than_found() {
    let mut count = GcRefCount::new(2);
    count.prepare_for_collection();
    count.found_once_internally();
    assert!(count.is_rooted());
    count.found_once_internally();
    assert!(!count.is_rooted());
    count.found_once_internally();
    assert!(!count.is_rooted());
}

#[test]
fn a_drop_after_preparation_is_counted_late() {
    let mut count = GcRefCount::new(1);
    count.prepare_for_collection();
    count.dec_count();
    // the positive counter still says one until the next preparation
    assert!(count.is_rooted());
    assert_eq!(count.snapshot_ref_count(), 0);
    count.prepare_for_collection();
    assert!(!count.is_rooted());
}

#[test]
fn override_roots_whatever_was_found() {
    let mut count = GcRefCount::new(1);
    count.prepare_for_collection();
    count.found_once_internally();
    assert!(!count.is_rooted());
    count.override_mark_as_rooted();
    assert!(count.is_rooted());
    assert!(count.was_overriden_as_rooted());
    count.found_once_internally();
    assert!(!count.was_overriden_as_rooted());
    assert!(count.is_rooted());
}
