use shredder::collector::allocation::Payload;
use shredder::collector::Collector;

/// The identity of the type `Sub`.
const SUB: u64 = 1;
/// The identity of the type `NotSub`.
const NOT_SUB: u64 = 2;

#[test]
fn can_downcast_sub_test() {
    let mut collector = Collector::new();
    let sub = Box::new(Payload::with_type_identity(SUB, 0));

    let gc = collector.track_boxed_value(sub);
    let v = collector.downcast(&gc, SUB);
    assert!(v.is_some());
    assert_eq!(v.unwrap().data(), gc.data());
    assert_eq!(collector.ref_count_of(&gc), 2);
    assert!(collector.warrant_available(&gc));
}

#[test]
fn cant_downcast_not_sub_test() {
    let mut collector = Collector::new();
    let sub = Box::new(Payload::with_type_identity(SUB, 0));

    let gc = collector.track_boxed_value(sub);
    let v = collector.downcast(&gc, NOT_SUB);
    assert!(v.is_none());
    assert_eq!(collector.ref_count_of(&gc), 1);
    assert_eq!(collector.handle_count(), 1);
}

#[test]
fn can_downcast_deref_gc_sub_test() {
    let mut collector = Collector::new();
    let sub = Box::new(Payload::with_type_identity(SUB, 0));

    let gc = collector.track_boxed_value(sub);
    let v = collector.deref_downcast(&gc, SUB);
    assert!(v.is_some());
    assert!(v.unwrap().ptr_eq(&gc));
    assert_eq!(collector.ref_count_of(&gc), 2);
}

#[test]
fn cant_downcast_deref_gc_not_sub_test() {
    let mut collector = Collector::new();
    let sub = Box::new(Payload::with_type_identity(SUB, 0));

    let gc = collector.track_boxed_value(sub);
    let v = collector.deref_downcast(&gc, NOT_SUB);
    assert!(v.is_none());
    assert_eq!(collector.ref_count_of(&gc), 1);
}

#[test]
fn plain_data_has_type_identity_zero() {
    let mut collector = Collector::new();
    let gc = collector.track_with_drop(Payload::new(5));
    assert_eq!(collector.deref_data(&gc).type_identity(), 0);
    assert!(collector.downcast(&gc, 0).is_some());
    assert!(collector.downcast(&gc, SUB).is_none());
    assert_eq!(Payload::with_type_identity(NOT_SUB, 9).type_identity(), NOT_SUB);
    assert_eq!(Payload::with_type_identity(NOT_SUB, 9).value(), 9);
}

#[test]
fn test_eq() {
    let mut collector = Collector::new();
    let a = collector.track_with_drop(Payload::new(1));
    let b = collector.track_with_drop(Payload::new(1));
    assert_eq!(collector.deref_data(&a).value(), collector.deref_data(&a).value());
    assert_eq!(collector.deref_data(&b).value(), collector.deref_data(&b).value());
    assert_eq!(collector.deref_data(&a).value(), collector.deref_data(&b).value());
    assert_eq!(collector.deref_data(&b).value(), collector.deref_data(&a).value());

    assert!(a.ptr_eq(&a));
    assert!(b.ptr_eq(&b));
    assert!(!a.ptr_eq(&b));
    assert!(!b.ptr_eq(&a));
    let a_clone = collector.clone_handle(&a);
    assert!(a.ptr_eq(&a_clone));
}
