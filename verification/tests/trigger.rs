use shredder::collector::trigger::{
    GcTrigger, DEFAULT_ALLOCATION_TRIGGER_PERCENT, DEFAULT_HANDLE_DEFICIT_TRIGGER_PERCENT,
    MIN_ALLOCATIONS_FOR_COLLECTION, PARTS_PER_WHOLE,
};

#[test]
fn defaults() {
    assert_eq!(PARTS_PER_WHOLE, 1_000_000);
    assert_eq!(DEFAULT_ALLOCATION_TRIGGER_PERCENT, 750_000);
    assert_eq!(DEFAULT_HANDLE_DEFICIT_TRIGGER_PERCENT, 900_000);
    // 512 * 1.3 = 665.6
    assert_eq!(MIN_ALLOCATIONS_FOR_COLLECTION, 666);
}

#[test]
fn growth_below_the_floor_does_not_count() {
    let trigger = GcTrigger::default();
    assert!(!trigger.should_collect(665, 665));
    assert!(!trigger.should_collect(1, 1));
    assert!(!trigger.should_collect(665, 1000));
}

#[test]
fn growth_from_nothing_counts_at_the_floor() {
    let trigger = GcTrigger::default();
    assert!(trigger.should_collect(666, 666));
    assert!(trigger.should_collect(666, 100_000));
}

#[test]
fn growth_has_to_exceed_the_configured_fraction() {
    let mut trigger = GcTrigger::default();
    trigger.set_data_count_after_collection(400);
    // 299 / 400 and 300 / 400 do not exceed three quarters, 301 / 400 does
    assert!(!trigger.should_collect(699, 699));
    assert!(!trigger.should_collect(700, 700));
    assert!(trigger.should_collect(701, 701));
}

#[test]
fn shrinking_is_not_growth() {
    let mut trigger = GcTrigger::default();
    trigger.set_data_count_after_collection(2000);
    assert!(!trigger.should_collect(1000, 1000));
    trigger.set_trigger_percent(0);
    assert!(!trigger.should_collect(2000, 2000));
    assert!(trigger.should_collect(2001, 2001));
}

#[test]
fn handle_deficit_counts_at_or_below_the_fraction() {
    let mut trigger = GcTrigger::default();
    trigger.set_data_count_after_collection(1000);
    assert!(trigger.should_collect(1000, 900));
    assert!(trigger.should_collect(1000, 0));
    assert!(!trigger.should_collect(1000, 901));
    // the floor belongs to growth alone
    assert!(trigger.should_collect(10, 9));
    assert!(!trigger.should_collect(10, 10));
}

#[test]
fn set_trigger_percent_changes_growth_only() {
    let mut trigger = GcTrigger::default();
    trigger.set_data_count_after_collection(1000);
    trigger.set_trigger_percent(100_000);
    assert!(!trigger.should_collect(1100, 1100));
    assert!(trigger.should_collect(1101, 1101));
    assert!(!trigger.should_collect(1000, 901));
    assert!(trigger.should_collect(1000, 900));
}

#[test]
fn largest_counts_do_not_overflow() {
    let mut trigger = GcTrigger::default();
    trigger.set_trigger_percent(u64::MAX);
    trigger.set_data_count_after_collection(usize::MAX - 1);
    assert!(!trigger.should_collect(usize::MAX, usize::MAX));
    trigger.set_data_count_after_collection(0);
    assert!(trigger.should_collect(usize::MAX, usize::MAX));
}
