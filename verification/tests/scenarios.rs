use shredder::atomic::AtomicGc;
use shredder::collector::allocation::{DeallocationAction, Payload};
use shredder::collector::{Collector, InternalGcRef};

/// A payload with the plain value `value` that owns `handles`.
fn node(value: u64, handles: Vec<InternalGcRef>) -> Payload {
    let mut data = Payload::new(value);
    for handle in handles {
        data.push_handle(handle);
    }
    data
}

/// Moves `inner` into the data that `owner` refers to, under a warrant.
fn give(collector: &mut Collector, owner: &InternalGcRef, inner: InternalGcRef) {
    let warrant = collector.get_data_warrant(owner);
    let mut data = collector.replace_payload(&warrant, Payload::new(0));
    data.push_handle(inner);
    collector.replace_payload(&warrant, data);
    collector.release_data_warrant(warrant);
}

/// Moves `slot` into the data that `owner` refers to, under a warrant.
fn give_slot(collector: &mut Collector, owner: &InternalGcRef, slot: AtomicGc) {
    let warrant = collector.get_data_warrant(owner);
    let mut data = collector.replace_payload(&warrant, Payload::new(0));
    data.push_atomic(slot);
    collector.replace_payload(&warrant, data);
    collector.release_data_warrant(warrant);
}

/// A new handle to what the first slot in the data of `owner` refers to.
fn load_slot_of(collector: &mut Collector, owner: &InternalGcRef) -> InternalGcRef {
    let warrant = collector.get_data_warrant(owner);
    let mut data = collector.replace_payload(&warrant, Payload::new(0));
    let slot = data.pop_atomic().unwrap();
    let loaded = slot.load(collector);
    data.push_atomic(slot);
    collector.replace_payload(&warrant, data);
    collector.release_data_warrant(warrant);
    loaded
}

fn value_of(collector: &mut Collector, handle: &InternalGcRef) -> u64 {
    let warrant = collector.get_data_warrant(handle);
    let value = collector.get_payload(&warrant).value();
    collector.release_data_warrant(warrant);
    value
}

#[test]
fn acyclic_chain_is_collected() {
    let mut collector = Collector::new();
    let c = collector.track_with_drop(Payload::new(3));
    let c_id = c.data();
    let b = collector.track_with_drop(node(2, vec![c]));
    let b_id = b.data();
    let mut a = collector.track_with_drop(node(1, vec![b]));
    let a_id = a.data();
    assert_eq!(collector.tracked_data_count(), 3);
    assert_eq!(collector.handle_count(), 3);

    collector.drop_handle(&mut a);
    collector.collect();
    assert_eq!(collector.tracked_data_count(), 0);
    for id in [a_id, b_id, c_id] {
        assert!(!collector.tracks(id));
        assert_eq!(collector.release_runs_of(id), 0);
    }

    collector.synchronize_destructors();
    for id in [a_id, b_id, c_id] {
        assert_eq!(collector.release_runs_of(id), 1);
        assert!(collector.is_deallocation_started(id));
        assert_eq!(collector.release_action_of(id), DeallocationAction::RunDrop);
    }
    assert_eq!(collector.handle_count(), 0);
}

#[test]
fn cycle_is_collected() {
    let mut collector = Collector::new();
    let mut p = collector.track_with_drop(Payload::new(1));
    let mut q = collector.track_with_drop(Payload::new(2));
    let to_q = collector.clone_handle(&q);
    give(&mut collector, &p, to_q);
    let to_p = collector.clone_handle(&p);
    give(&mut collector, &q, to_p);
    assert_eq!(collector.ref_count_of(&p), 2);
    assert_eq!(collector.ref_count_of(&q), 2);

    // with the outside handles in place a collection keeps both
    collector.collect();
    assert_eq!(collector.tracked_data_count(), 2);

    collector.drop_handle(&mut p);
    collector.drop_handle(&mut q);
    collector.collect();
    assert_eq!(collector.tracked_data_count(), 0);
    collector.synchronize_destructors();
    assert_eq!(collector.handle_count(), 0);
}

#[test]
fn live_subgraph_is_retained() {
    let mut collector = Collector::new();
    // node 10 first, then each node with a handle to the one made before it
    let mut ids = vec![0usize; 11];
    let mut next = collector.track_with_drop(Payload::new(10));
    ids[10] = next.data();
    let mut kept: Option<InternalGcRef> = None;
    for n in (1..10).rev() {
        let current = collector.track_with_drop(node(n as u64, vec![next]));
        ids[n] = current.data();
        if n == 5 {
            kept = Some(collector.clone_handle(&current));
        }
        next = current;
    }
    let mut first = next;
    let mut kept = kept.unwrap();
    assert_eq!(collector.tracked_data_count(), 10);

    collector.drop_handle(&mut first);
    collector.collect();

    assert_eq!(collector.tracked_data_count(), 6);
    for n in 1..5 {
        assert!(!collector.tracks(ids[n]), "node {}", n);
    }
    for n in 5..11 {
        assert!(collector.tracks(ids[n]), "node {}", n);
    }
    assert_eq!(value_of(&mut collector, &kept), 5);

    collector.synchronize_destructors();
    for n in 1..5 {
        assert_eq!(collector.release_runs_of(ids[n]), 1);
    }
    for n in 5..11 {
        assert_eq!(collector.release_runs_of(ids[n]), 0);
        assert!(!collector.is_deallocation_started(ids[n]));
    }

    collector.drop_handle(&mut kept);
    collector.collect();
    assert_eq!(collector.tracked_data_count(), 0);
}

#[test]
fn atomic_rotation() {
    let mut collector = Collector::new();
    let mut ring: Vec<InternalGcRef> = Vec::new();
    for i in 0..4 {
        ring.push(collector.track_with_drop(Payload::new(i)));
    }
    for i in 0..4 {
        let to_next = collector.clone_handle(&ring[(i + 1) % 4]);
        let slot = AtomicGc::new(&collector, to_next);
        give_slot(&mut collector, &ring[i], slot);
    }
    for handle in ring.iter() {
        assert_eq!(collector.ref_count_of(handle), 2);
    }

    // all outside handles go but the one to allocation 0
    for i in 1..4 {
        collector.drop_handle(&mut ring[i]);
    }
    collector.collect();
    assert_eq!(collector.tracked_data_count(), 4);
    collector.synchronize_destructors();
    for handle in ring.iter() {
        assert_eq!(collector.release_runs_of(handle.data()), 0);
    }

    // turn the slot of allocation 0 one place on: from 1 to 2
    let to_two = load_slot_of(&mut collector, &ring[1]);
    assert_eq!(to_two.data(), ring[2].data());
    let warrant = collector.get_data_warrant(&ring[0]);
    let mut data = collector.replace_payload(&warrant, Payload::new(0));
    let mut slot = data.pop_atomic().unwrap();
    let mut displaced = slot.swap(&mut collector, to_two);
    assert_eq!(displaced.data(), ring[1].data());
    data.push_atomic(slot);
    collector.replace_payload(&warrant, data);
    collector.release_data_warrant(warrant);
    collector.drop_handle(&mut displaced);

    // allocation 1 is off the ring now
    collector.collect();
    assert_eq!(collector.tracked_data_count(), 3);
    assert!(!collector.tracks(ring[1].data()));

    collector.drop_handle(&mut ring[0]);
    collector.collect();
    assert_eq!(collector.tracked_data_count(), 0);
    collector.synchronize_destructors();
    assert_eq!(collector.handle_count(), 0);
}

#[test]
fn atomic_ring_lives_and_dies_as_one() {
    let mut collector = Collector::new();
    let mut ring: Vec<InternalGcRef> = Vec::new();
    for i in 0..4 {
        ring.push(collector.track_with_drop(Payload::new(i)));
    }
    for i in 0..4 {
        let to_next = collector.clone_handle(&ring[(i + 1) % 4]);
        let slot = AtomicGc::new(&collector, to_next);
        give_slot(&mut collector, &ring[i], slot);
    }
    for i in 1..4 {
        collector.drop_handle(&mut ring[i]);
    }
    collector.collect();
    assert_eq!(collector.tracked_data_count(), 4);

    collector.drop_handle(&mut ring[0]);
    collector.collect();
    assert_eq!(collector.tracked_data_count(), 0);
    collector.synchronize_destructors();
    for handle in ring.iter() {
        assert_eq!(collector.release_runs_of(handle.data()), 1);
    }
    assert_eq!(collector.handle_count(), 0);
}

#[test]
fn forced_rooting_under_contention() {
    let mut collector = Collector::new();
    let z = collector.track_with_drop(Payload::new(3));
    let z_id = z.data();
    let y = collector.track_with_drop(node(2, vec![z]));
    let y_id = y.data();
    let mut x = collector.track_with_drop(node(1, vec![y]));
    let x_id = x.data();

    // one party holds a guard on X and nothing else
    let guard = collector.get_data_warrant(&x);
    let mut looked_at = collector.clone_handle(&x);
    collector.drop_handle(&mut x);
    collector.drop_handle(&mut looked_at);
    assert_eq!(collector.ref_count_of(&x), 0);

    // another party collects: X and what it leads to stay
    collector.collect();
    assert_eq!(collector.tracked_data_count(), 3);
    assert!(collector.tracks(x_id) && collector.tracks(y_id) && collector.tracks(z_id));
    assert_eq!(collector.get_payload(&guard).value(), 1);

    collector.release_data_warrant(guard);
    collector.collect();
    assert_eq!(collector.tracked_data_count(), 0);
}

#[test]
fn cyclic_initializer() {
    let mut collector = Collector::new();
    let mut circle = collector.track_with_initializer(|own: InternalGcRef| {
        let mut data = Payload::new(146);
        data.push_handle(own);
        data
    });
    let id = circle.data();
    assert_eq!(collector.ref_count_of(&circle), 2);
    assert_eq!(collector.handle_count(), 2);
    {
        let warrant = collector.get_data_warrant(&circle);
        let data = collector.get_payload(&warrant);
        assert_eq!(data.value(), 146);
        assert_eq!(data.handle_count(), 1);
        assert_eq!(data.handle(0).data(), id);
        assert!(!data.handle(0).is_invalidated());
        collector.release_data_warrant(warrant);
    }

    collector.collect();
    assert!(collector.tracks(id));

    collector.drop_handle(&mut circle);
    assert_eq!(collector.ref_count_of(&circle), 1);
    collector.collect();
    assert!(!collector.tracks(id));
    collector.synchronize_destructors();
    assert_eq!(collector.release_runs_of(id), 1);
    assert_eq!(collector.release_action_of(id), DeallocationAction::RunDrop);
    assert_eq!(collector.handle_count(), 0);
}

#[test]
fn reachable_data_is_unchanged_by_a_collection() {
    let mut collector = Collector::new();
    let leaf = collector.track_with_finalization(Payload::new(0xDEAD_BEEF));
    let leaf_id = leaf.data();
    let root = collector.track_with_no_drop(node(0xFEED, vec![leaf]));
    let mut garbage = collector.track_with_drop(Payload::new(1));
    collector.drop_handle(&mut garbage);

    collector.collect();
    collector.synchronize_destructors();

    assert!(collector.tracks(root.data()));
    assert!(collector.tracks(leaf_id));
    assert!(!collector.tracks(garbage.data()));
    assert_eq!(value_of(&mut collector, &root), 0xFEED);
    let warrant = collector.get_data_warrant(&root);
    let data = collector.get_payload(&warrant);
    assert_eq!(data.handle_count(), 1);
    assert_eq!(data.handle(0).data(), leaf_id);
    assert!(!data.handle(0).is_invalidated());
    let leaf_value = collector.deref_data(data.handle(0)).value();
    assert_eq!(leaf_value, 0xDEAD_BEEF);
    collector.release_data_warrant(warrant);
    assert_eq!(collector.release_action_of(leaf_id), DeallocationAction::RunFinalizer);
    assert_eq!(collector.release_action_of(root.data()), DeallocationAction::DoNothing);
}

#[test]
fn counts_are_not_negative_between_operations() {
    let mut collector = Collector::new();
    let mut a = collector.track_with_drop(Payload::new(1));
    assert_eq!(collector.ref_count_of(&a), 1);
    let mut b = collector.clone_handle(&a);
    let mut c = collector.clone_handle(&a);
    assert_eq!(collector.ref_count_of(&a), 3);
    collector.drop_handle(&mut c);
    collector.drop_handle(&mut c);
    assert_eq!(collector.ref_count_of(&a), 2);
    collector.collect();
    assert_eq!(collector.ref_count_of(&a), 2);
    collector.drop_handle(&mut b);
    collector.drop_handle(&mut a);
    assert_eq!(collector.ref_count_of(&a), 0);
    collector.drop_handle(&mut a);
    assert_eq!(collector.ref_count_of(&a), 0);
}

#[test]
fn clone_and_drop_are_net_zero() {
    let mut collector = Collector::new();
    let a = collector.track_with_drop(Payload::new(1));
    let before = collector.ref_count_of(&a);
    let handles_before = collector.handle_count();
    let mut clone = collector.clone_handle(&a);
    assert_eq!(clone.data(), a.data());
    assert_eq!(collector.ref_count_of(&a), before + 1);
    assert_eq!(collector.handle_count(), handles_before + 1);
    collector.drop_handle(&mut clone);
    assert_eq!(collector.ref_count_of(&a), before);
    assert_eq!(collector.handle_count(), handles_before);
}

#[test]
fn second_collection_is_a_fixed_point() {
    let mut collector = Collector::new();
    let shared = collector.track_with_drop(Payload::new(9));
    let to_shared_1 = collector.clone_handle(&shared);
    let to_shared_2 = collector.clone_handle(&shared);
    let live = collector.track_with_drop(node(1, vec![to_shared_1]));
    let mut dead = collector.track_with_drop(node(2, vec![to_shared_2]));
    let mut shared = shared;
    collector.drop_handle(&mut shared);
    collector.drop_handle(&mut dead);

    collector.collect();
    assert_eq!(collector.tracked_data_count(), 2);
    collector.synchronize_destructors();
    assert_eq!(collector.release_runs_of(dead.data()), 1);
    assert_eq!(collector.ref_count_of(&shared), 1);

    collector.collect();
    assert_eq!(collector.tracked_data_count(), 2);
    assert!(collector.tracks(live.data()));
    assert!(collector.tracks(shared.data()));
    collector.synchronize_destructors();
    assert_eq!(collector.release_runs_of(live.data()), 0);
    assert_eq!(collector.release_runs_of(shared.data()), 0);
    assert_eq!(collector.release_runs_of(dead.data()), 1);
}

#[test]
fn release_is_flagged_for_everything_that_was_condemned() {
    let mut collector = Collector::new();
    let inner = collector.track_with_drop(Payload::new(1));
    let inner_id = inner.data();
    let mut outer = collector.track_with_drop(node(2, vec![inner]));
    collector.drop_handle(&mut outer);
    collector.collect();
    assert!(!collector.is_deallocation_started(inner_id));
    assert!(!collector.is_deallocation_started(outer.data()));
    collector.synchronize_destructors();
    assert!(collector.is_deallocation_started(inner_id));
    assert!(collector.is_deallocation_started(outer.data()));
    assert_eq!(collector.release_runs_of(inner_id), 1);
    assert_eq!(collector.release_runs_of(outer.data()), 1);
}

#[test]
fn load_after_store_returns_what_was_stored() {
    let mut collector = Collector::new();
    let first = collector.track_with_drop(Payload::new(1));
    let x = collector.track_with_drop(Payload::new(2));
    let x_id = x.data();
    let mut slot = AtomicGc::new(&collector, first);
    slot.store(&mut collector, x);
    let loaded = slot.load(&mut collector);
    assert_eq!(loaded.data(), x_id);
    assert!(!loaded.is_invalidated());
    assert_eq!(collector.ref_count_of(&loaded), 2);
}

#[test]
fn swap_after_store_returns_what_was_stored() {
    let mut collector = Collector::new();
    let first = collector.track_with_drop(Payload::new(1));
    let x = collector.track_with_drop(Payload::new(2));
    let x_id = x.data();
    let y = collector.track_with_drop(Payload::new(3));
    let y_id = y.data();
    let mut slot = AtomicGc::new(&collector, first);
    slot.store(&mut collector, x);
    let previous = slot.swap(&mut collector, y);
    assert_eq!(previous.data(), x_id);
    assert!(!previous.is_invalidated());
    assert_eq!(collector.ref_count_of(&previous), 1);
    let installed = slot.load(&mut collector);
    assert_eq!(installed.data(), y_id);
}

#[test]
fn compare_exchange_goes_by_identity() {
    let mut collector = Collector::new();
    let held = collector.track_with_drop(Payload::new(5));
    let same_value = collector.track_with_drop(Payload::new(5));
    let new = collector.track_with_drop(Payload::new(6));
    let new_id = new.data();
    let in_slot = collector.clone_handle(&held);
    let mut slot = AtomicGc::new(&collector, in_slot);

    // equal data, another allocation: no exchange
    let failed = slot.compare_exchange(&mut collector, &same_value, new);
    let error = failed.err().unwrap();
    assert_eq!(error.current.data(), held.data());
    assert!(!error.current.is_invalidated());
    assert_eq!(error.new.data(), new_id);
    assert!(!error.new.is_invalidated());
    assert_eq!(collector.ref_count_of(&held), 3);
    assert_eq!(slot.load(&mut collector).data(), held.data());

    // the allocation itself: exchange
    let previous = slot.compare_exchange(&mut collector, &held, error.new).ok().unwrap();
    assert_eq!(previous.data(), held.data());
    assert!(!previous.is_invalidated());
    assert_eq!(slot.load(&mut collector).data(), new_id);
}

#[test]
fn no_drop_leaves_the_counts_of_owned_slots_alone() {
    let mut collector = Collector::new();
    let target = collector.track_with_drop(Payload::new(1));
    let target_id = target.data();
    let slot = AtomicGc::new(&collector, target);
    let mut data = Payload::new(2);
    data.push_atomic(slot);
    let mut owner = collector.track_with_no_drop(data);
    collector.drop_handle(&mut owner);

    collector.collect();
    assert_eq!(collector.tracked_data_count(), 0);
    collector.synchronize_destructors();
    assert_eq!(collector.release_runs_of(owner.data()), 1);
    assert_eq!(collector.release_runs_of(target_id), 1);
    // the slot was never dropped, so the count it held was never given back
    assert_eq!(collector.handle_count(), 1);
}

#[test]
fn a_trigger_left_alone_decides_on_check_then_collect() {
    let mut collector = Collector::new();
    let mut garbage = collector.track_with_drop(Payload::new(1));
    let kept_1 = collector.track_with_drop(Payload::new(2));
    let kept_2 = collector.track_with_drop(Payload::new(3));
    assert!(!collector.check_then_collect());
    assert_eq!(collector.tracked_data_count(), 3);

    // two handles for three allocations: at most nine tenths
    collector.drop_handle(&mut garbage);
    assert!(collector.check_then_collect());
    assert_eq!(collector.tracked_data_count(), 2);
    assert!(collector.tracks(kept_1.data()) && collector.tracks(kept_2.data()));
    assert!(!collector.check_then_collect());
}

#[test]
fn a_slot_scans_as_a_transient_handle() {
    let mut collector = Collector::new();
    let target = collector.track_with_drop(Payload::new(1));
    let watcher = collector.clone_handle(&target);
    let slot = AtomicGc::new(&collector, target);
    let before = collector.ref_count_of(&watcher);
    let mut found = slot.scan(&mut collector);
    assert_eq!(found.data(), watcher.data());
    assert_eq!(slot.referent_id(), watcher.data());
    assert!(found.is_invalidated());
    assert_eq!(collector.ref_count_of(&watcher), before);
    // dropping a transient handle gives nothing back
    collector.drop_handle(&mut found);
    assert_eq!(collector.ref_count_of(&watcher), before);
    assert_eq!(collector.handle_count(), 2);
}

#[test]
fn only_live_handles_to_live_data_can_be_stored() {
    let mut collector = Collector::new();
    let live = collector.track_with_drop(Payload::new(1));
    assert!(AtomicGc::is_storable(&collector, &live));

    // a handle that was dropped
    let mut dropped = collector.clone_handle(&live);
    collector.drop_handle(&mut dropped);
    assert!(!AtomicGc::is_storable(&collector, &dropped));

    // a handle of another collector
    let other = Collector::new();
    assert!(!AtomicGc::is_storable(&other, &live));

    // a handle to data whose release has begun: its count was given back
    // behind its back, so the data was collected from under it
    let orphan = collector.track_with_drop(Payload::new(2));
    collector.decrement_reference_count(orphan.data());
    assert!(AtomicGc::is_storable(&collector, &orphan));
    collector.collect();
    assert!(!collector.tracks(orphan.data()));
    assert!(AtomicGc::is_storable(&collector, &orphan));
    collector.synchronize_destructors();
    assert!(!orphan.is_invalidated());
    assert!(!AtomicGc::is_storable(&collector, &orphan));
    assert!(!collector.warrant_available(&orphan));
    assert!(collector.tracks(live.data()));
}

#[test]
fn invalidate_is_drop_handle() {
    let mut collector = Collector::new();
    let keep = collector.track_with_drop(Payload::new(1));
    let mut extra = collector.clone_handle(&keep);
    assert_eq!(collector.ref_count_of(&keep), 2);
    extra.invalidate(&mut collector);
    assert!(extra.is_invalidated());
    assert_eq!(collector.ref_count_of(&keep), 1);
    extra.invalidate(&mut collector);
    assert_eq!(collector.ref_count_of(&keep), 1);
    assert_eq!(collector.handle_count(), 1);
}

#[test]
fn warrants_and_clones_are_available_on_live_data_only() {
    let mut collector = Collector::new();
    let mut handle = collector.track_with_drop(Payload::new(1));
    assert!(collector.warrant_available(&handle));
    assert!(collector.clone_available(&handle));
    let first = collector.get_data_warrant(&handle);
    let second = collector.get_data_warrant(&handle);
    assert_eq!(first.data(), handle.data());
    assert!(collector.warrant_available(&handle));
    collector.release_data_warrant(first);
    collector.release_data_warrant(second);

    let other = Collector::new();
    assert!(!other.warrant_available(&handle));
    assert!(!other.clone_available(&handle));

    collector.drop_handle(&mut handle);
    collector.collect();
    // condemned, but its release has not begun
    assert!(collector.warrant_available(&handle));
    collector.synchronize_destructors();
    assert!(!collector.warrant_available(&handle));
}

#[test]
fn a_slot_in_data_released_without_drop_roots_its_referent_for_good() {
    let mut collector = Collector::new();
    let mut referent = collector.track_with_drop(Payload::new(1));
    let to_referent = collector.clone_handle(&referent);
    let slot = AtomicGc::new(&collector, to_referent);
    let mut data = Payload::new(2);
    data.push_atomic(slot);
    let mut owner = collector.track_with_no_drop(data);

    // the owner is condemned and waits; the referent has a handle still
    collector.drop_handle(&mut owner);
    collector.collect();
    assert_eq!(collector.tracked_data_count(), 1);
    assert_eq!(collector.release_runs_of(owner.data()), 0);

    // now nothing outside managed data leads to the referent
    collector.drop_handle(&mut referent);
    assert_eq!(collector.ref_count_of(&referent), 1);

    // the release of the owner leaves its slot undropped, and the count of
    // the slot keeps the referent
    collector.collect();
    assert_eq!(collector.release_runs_of(owner.data()), 1);
    assert!(collector.tracks(referent.data()));
    collector.synchronize_destructors();
    collector.collect();
    assert!(collector.tracks(referent.data()));
    assert_eq!(collector.ref_count_of(&referent), 1);
}
