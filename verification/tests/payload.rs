use shredder::atomic::AtomicGc;
use shredder::collector::allocation::{DeallocationAction, GcAllocation, Payload};
use shredder::collector::{Collector, InternalGcRef};

/// A collector with `n` allocations, and one handle to each.
fn heap(n: usize) -> (Collector, Vec<InternalGcRef>) {
    let mut collector = Collector::new();
    let mut handles = Vec::new();
    for i in 0..n {
        handles.push(collector.track_with_drop(Payload::new(i as u64)));
    }
    (collector, handles)
}

/// Data that owns the three handles, in order, and a slot made from `slot`.
fn data_of(collector: &Collector, mut handles: Vec<InternalGcRef>, slot: InternalGcRef) -> Payload {
    let mut data = Payload::new(77);
    let third = handles.pop().unwrap();
    let second = handles.pop().unwrap();
    let first = handles.pop().unwrap();
    data.push_handle(first);
    data.push_handle(second);
    data.push_handle(third);
    data.push_atomic(AtomicGc::new(collector, slot));
    data
}

#[test]
fn payload_starts_empty() {
    let mut data = Payload::new(5);
    assert_eq!(data.value(), 5);
    assert_eq!(data.handle_count(), 0);
    assert_eq!(data.atomic_count(), 0);
    assert!(data.pop_handle().is_none());
    assert!(data.pop_atomic().is_none());
    data.set_value(6);
    assert_eq!(data.value(), 6);
}

#[test]
fn payload_hands_back_what_it_was_given_last() {
    let (mut collector, mut handles) = heap(3);
    let slot_handle = collector.clone_handle(&handles[0]);
    let ids: Vec<usize> = handles.iter().map(|h| h.data()).collect();
    let mut data = Payload::new(1);
    data.push_handle(handles.remove(0));
    data.push_handle(handles.remove(0));
    data.push_atomic(AtomicGc::new(&collector, slot_handle));
    assert_eq!(data.handle_count(), 2);
    assert_eq!(data.atomic_count(), 1);
    assert_eq!(data.handle(0).data(), ids[0]);
    assert_eq!(data.handle(1).data(), ids[1]);
    assert_eq!(data.atomic(0).load(&mut collector).data(), ids[0]);
    assert_eq!(data.pop_handle().unwrap().data(), ids[1]);
    assert_eq!(data.pop_handle().unwrap().data(), ids[0]);
    assert!(data.pop_handle().is_none());
    assert!(data.pop_atomic().is_some());
    assert!(data.pop_atomic().is_none());
    assert_eq!(data.value(), 1);
}

#[test]
fn scan_reports_handles_then_slots_as_transients() {
    let (collector, handles) = heap(4);
    let ids: Vec<usize> = handles.iter().map(|h| h.data()).collect();
    let mut handles = handles;
    let slot_handle = handles.pop().unwrap();
    let allocation = GcAllocation::allocate_with_drop(data_of(&collector, handles, slot_handle));
    let found = allocation.scan();
    assert_eq!(found.len(), 4);
    for (k, handle) in found.iter().enumerate() {
        assert_eq!(handle.data(), ids[k]);
        assert!(handle.is_invalidated());
    }
}

#[test]
fn release_with_drop_gives_back_handles_and_slots() {
    let (collector, handles) = heap(4);
    let ids: Vec<usize> = handles.iter().map(|h| h.data()).collect();
    let mut handles = handles;
    let slot_handle = handles.pop().unwrap();
    let mut allocation = GcAllocation::allocate_with_drop(data_of(&collector, handles, slot_handle));
    let dropped = allocation.deallocate();
    assert_eq!(dropped, ids);
    assert!(allocation.scan().is_empty());
}

#[test]
fn release_with_finalizer_gives_back_handles_and_slots() {
    let (collector, handles) = heap(4);
    let ids: Vec<usize> = handles.iter().map(|h| h.data()).collect();
    let mut handles = handles;
    let slot_handle = handles.pop().unwrap();
    let mut allocation =
        GcAllocation::allocate_with_finalization(data_of(&collector, handles, slot_handle));
    assert_eq!(allocation.deallocate(), ids);
}

#[test]
fn release_of_a_box_gives_back_handles_and_slots() {
    let (collector, handles) = heap(4);
    let ids: Vec<usize> = handles.iter().map(|h| h.data()).collect();
    let mut handles = handles;
    let slot_handle = handles.pop().unwrap();
    let mut allocation =
        GcAllocation::from_box(Box::new(data_of(&collector, handles, slot_handle)));
    assert_eq!(allocation.deallocate(), ids);
}

#[test]
fn release_without_drop_gives_back_handles_only() {
    let (collector, handles) = heap(4);
    let ids: Vec<usize> = handles.iter().map(|h| h.data()).collect();
    let mut handles = handles;
    let slot_handle = handles.pop().unwrap();
    let mut allocation = GcAllocation::allocate_no_drop(data_of(&collector, handles, slot_handle));
    assert_eq!(allocation.deallocate(), ids[0..3].to_vec());
}

#[test]
fn release_skips_handles_that_were_invalidated() {
    let (_collector, mut handles) = heap(3);
    let ids: Vec<usize> = handles.iter().map(|h| h.data()).collect();
    handles[1].invalidate_without_touching_reference_counts();
    let mut data = Payload::new(0);
    for handle in handles {
        data.push_handle(handle);
    }
    let mut allocation = GcAllocation::allocate_with_drop(data);
    assert_eq!(allocation.deallocate(), vec![ids[0], ids[2]]);
}

#[test]
fn uninitialized_storage_takes_its_data_later() {
    let mut allocation = GcAllocation::allocate_uninitialized_with_drop();
    assert!(allocation.scan().is_empty());
    let previous = allocation.initialize(Payload::new(12));
    assert_eq!(previous.value(), 0);
    let previous = allocation.initialize(Payload::new(13));
    assert_eq!(previous.value(), 12);
    let mut finalized = GcAllocation::allocate_uninitialized_with_finalization();
    assert!(finalized.deallocate().is_empty());
}

#[test]
fn release_actions_by_constructor() {
    let mut collector = Collector::new();
    let dropped = collector.track_with_drop(Payload::new(0));
    let forgotten = collector.track_with_no_drop(Payload::new(0));
    let finalized = collector.track_with_finalization(Payload::new(0));
    let boxed = collector.track_boxed_value(Box::new(Payload::new(0)));
    let made = collector.track_with_initializer(|_own: InternalGcRef| Payload::new(0));
    let made_finalized =
        collector.track_with_initializer_and_finalize(|_own: InternalGcRef| Payload::new(0));
    assert_eq!(collector.release_action_of(dropped.data()), DeallocationAction::RunDrop);
    assert_eq!(collector.release_action_of(forgotten.data()), DeallocationAction::DoNothing);
    assert_eq!(collector.release_action_of(finalized.data()), DeallocationAction::RunFinalizer);
    assert_eq!(collector.release_action_of(boxed.data()), DeallocationAction::BoxDrop);
    assert_eq!(collector.release_action_of(made.data()), DeallocationAction::RunDrop);
    assert_eq!(
        collector.release_action_of(made_finalized.data()),
        DeallocationAction::RunFinalizer
    );
    assert_eq!(collector.allocation_count(), 6);
    assert_eq!(collector.tracked_data_count(), 6);
}
