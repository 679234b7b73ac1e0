use shredder::atomic::AtomicGc;
use shredder::collector::allocation::{DeallocationAction, Payload};
use shredder::collector::{Collector, InternalGcRef};
use shredder::{
    collect, number_of_active_handles, number_of_tracked_allocations, run_with_gc_cleanup,
    synchronize_destructors,
};

/// Reads the plain value of the data that `handle` refers to, under a warrant.
fn read(collector: &mut Collector, handle: &InternalGcRef) -> u64 {
    let warrant = collector.get_data_warrant(handle);
    let value = collector.get_payload(&warrant).value();
    collector.release_data_warrant(warrant);
    value
}

/// Moves `inner` into the data that `owner` refers to, under a warrant.
fn connect(collector: &mut Collector, owner: &InternalGcRef, inner: InternalGcRef) {
    let warrant = collector.get_data_warrant(owner);
    let mut data = collector.replace_payload(&warrant, Payload::new(0));
    data.push_handle(inner);
    let placeholder = collector.replace_payload(&warrant, data);
    assert_eq!(placeholder.handle_count(), 0);
    collector.release_data_warrant(warrant);
}

/// What a tracker string would read after the release action `action` has run.
fn tracker_after(action: DeallocationAction) -> &'static str {
    match action {
        DeallocationAction::RunDrop | DeallocationAction::BoxDrop => "dropped",
        DeallocationAction::RunFinalizer => "finalized",
        DeallocationAction::DoNothing => "none",
    }
}

fn cleanup(collector: &mut Collector) {
    collect(collector);
    synchronize_destructors(collector);
}

#[test]
fn alloc_u32_gc() {
    let mut collector = Collector::new();
    assert_eq!(number_of_tracked_allocations(&collector), 0);

    let val = 7;

    let mut gc_ptr = collector.track_with_drop(Payload::new(val));
    assert_eq!(read(&mut collector, &gc_ptr), val);
    collector.drop_handle(&mut gc_ptr);

    collect(&mut collector);
    assert_eq!(number_of_tracked_allocations(&collector), 0);
    cleanup(&mut collector);
}

#[test]
fn alloc_directed_graph_node_gc() {
    let mut collector = Collector::new();
    assert_eq!(number_of_tracked_allocations(&collector), 0);

    // the node labelled "A", with no edges
    let node = Payload::new(u64::from(b'A'));

    let mut gc_ptr = collector.track_with_drop(node);
    assert_eq!(read(&mut collector, &gc_ptr), u64::from(b'A'));
    collector.drop_handle(&mut gc_ptr);

    collect(&mut collector);
    assert_eq!(number_of_tracked_allocations(&collector), 0);
    cleanup(&mut collector);
}

#[test]
fn clone_directed_graph_node_gc() {
    let mut collector = Collector::new();
    assert_eq!(number_of_tracked_allocations(&collector), 0);
    assert_eq!(number_of_active_handles(&collector), 0);

    let node = Payload::new(u64::from(b'A'));

    let mut gc_ptr_one = collector.track_with_drop(node);
    let mut gc_ptr_two = collector.clone_handle(&gc_ptr_one);
    assert_eq!(number_of_tracked_allocations(&collector), 1);
    assert_eq!(number_of_active_handles(&collector), 2);

    assert_eq!(read(&mut collector, &gc_ptr_one), u64::from(b'A'));
    assert_eq!(read(&mut collector, &gc_ptr_two), u64::from(b'A'));
    collector.drop_handle(&mut gc_ptr_one);
    collector.drop_handle(&mut gc_ptr_two);

    collect(&mut collector);
    assert_eq!(number_of_tracked_allocations(&collector), 0);
    cleanup(&mut collector);
}

#[test]
fn clone_directed_graph_chain_gc() {
    let mut collector = Collector::new();
    assert_eq!(number_of_tracked_allocations(&collector), 0);
    assert_eq!(number_of_active_handles(&collector), 0);

    let node = Payload::new(u64::from(b'A'));

    let mut gc_ptr_one = collector.track_with_drop(node);
    let mut gc_ptr_two = collector.clone_handle(&gc_ptr_one);
    assert_eq!(number_of_tracked_allocations(&collector), 1);
    assert_eq!(number_of_active_handles(&collector), 2);

    assert_eq!(read(&mut collector, &gc_ptr_one), u64::from(b'A'));
    assert_eq!(read(&mut collector, &gc_ptr_two), u64::from(b'A'));

    let edge = collector.clone_handle(&gc_ptr_one);
    connect(&mut collector, &gc_ptr_two, edge);

    collector.drop_handle(&mut gc_ptr_one);
    collector.drop_handle(&mut gc_ptr_two);

    collect(&mut collector);
    assert_eq!(number_of_tracked_allocations(&collector), 0);
    cleanup(&mut collector);
}

#[test]
fn scan_skip_problem() {
    let mut collector = Collector::new();
    assert_eq!(number_of_tracked_allocations(&collector), 0);
    let mut root_con = collector.track_with_drop(Payload::new(0));
    let mut hidden = collector.track_with_drop(Payload::new(0));
    let mut hider = collector.track_with_drop(Payload::new(0));
    {
        let hidden_clone_1 = collector.clone_handle(&hidden);
        connect(&mut collector, &root_con, hidden_clone_1);
        let hidden_clone_2 = collector.clone_handle(&hidden);
        connect(&mut collector, &hider, hidden_clone_2);
    }
    collector.drop_handle(&mut hidden);
    collector.drop_handle(&mut hider);

    let root_gc_guard = collector.get_data_warrant(&root_con);
    collect(&mut collector);
    assert_eq!(number_of_tracked_allocations(&collector), 2);

    collector.release_data_warrant(root_gc_guard);
    collector.drop_handle(&mut root_con);

    collect(&mut collector);
    assert_eq!(number_of_tracked_allocations(&collector), 0);
    cleanup(&mut collector);
}

#[test]
fn drop_run() {
    let mut collector = Collector::new();
    let mut to_drop = collector.track_with_drop(Payload::new(0));
    let id = to_drop.data();
    assert_eq!(collector.release_runs_of(id), 0);
    collector.drop_handle(&mut to_drop);
    cleanup(&mut collector);
    assert_eq!(collector.release_runs_of(id), 1);
    assert_eq!(tracker_after(collector.release_action_of(id)), "dropped");
    assert_eq!(number_of_tracked_allocations(&collector), 0);
}

#[test]
fn finalizers_run() {
    let mut collector = Collector::new();
    let mut to_drop = collector.track_with_finalization(Payload::new(0));
    let id = to_drop.data();
    collector.drop_handle(&mut to_drop);
    cleanup(&mut collector);
    assert_eq!(collector.release_runs_of(id), 1);
    assert_eq!(tracker_after(collector.release_action_of(id)), "finalized");
    assert_eq!(number_of_tracked_allocations(&collector), 0);
}

#[test]
fn no_drop_functional() {
    let mut collector = Collector::new();
    let mut to_drop = collector.track_with_no_drop(Payload::new(0));
    let id = to_drop.data();
    collector.drop_handle(&mut to_drop);
    cleanup(&mut collector);
    assert_eq!(collector.release_runs_of(id), 1);
    assert_eq!(tracker_after(collector.release_action_of(id)), "none");
    assert_eq!(number_of_tracked_allocations(&collector), 0);
}

#[test]
fn simple_atomic_cleanup() {
    let mut collector = Collector::new();
    let value = collector.track_with_drop(Payload::new(17));
    let mut atomic = AtomicGc::new(&collector, value);

    let mut fr = atomic.load(&mut collector);
    assert_eq!(read(&mut collector, &fr), 17);
    collector.drop_handle(&mut fr);

    let new_value = collector.track_with_drop(Payload::new(20));
    atomic.store(&mut collector, new_value);

    let mut sr = atomic.load(&mut collector);
    assert_eq!(read(&mut collector, &sr), 20);
    collector.drop_handle(&mut sr);

    collect(&mut collector);
    assert_eq!(number_of_tracked_allocations(&collector), 1);

    atomic.drop_slot(&mut collector);
    cleanup(&mut collector);
    assert_eq!(number_of_tracked_allocations(&collector), 0);
}

#[test]
fn atomic_cycle() {
    let mut collector = Collector::new();
    let a = collector.track_with_drop(Payload::new(0));
    let b = collector.track_with_drop(Payload::new(0));

    let a_atomic = AtomicGc::new(&collector, a);
    let b_atomic = AtomicGc::new(&collector, b);

    let mut a_read = a_atomic.load(&mut collector);
    let mut b_read = b_atomic.load(&mut collector);

    let b_clone = collector.clone_handle(&b_read);
    connect(&mut collector, &a_read, b_clone);
    let a_clone = collector.clone_handle(&a_read);
    connect(&mut collector, &b_read, a_clone);

    collector.drop_handle(&mut b_read);
    collector.drop_handle(&mut a_read);
    b_atomic.drop_slot(&mut collector);
    a_atomic.drop_slot(&mut collector);
    cleanup(&mut collector);

    assert_eq!(number_of_tracked_allocations(&collector), 0);
}

#[test]
fn atomic_compare_and_exchange_test() {
    let mut collector = Collector::new();
    let mut v1 = collector.track_with_drop(Payload::new(123));
    let mut v2 = collector.track_with_drop(Payload::new(1776));
    let mut v1_alt = collector.track_with_drop(Payload::new(123));

    let v1_clone = collector.clone_handle(&v1);
    let mut atomic = AtomicGc::new(&collector, v1_clone);
    let mut loaded = atomic.load(&mut collector);
    assert_eq!(read(&mut collector, &loaded), 123);
    collector.drop_handle(&mut loaded);

    let v2_clone = collector.clone_handle(&v2);
    let res = atomic.compare_exchange(&mut collector, &v1, v2_clone);
    assert!(res.is_ok());
    let mut previous = res.unwrap();
    collector.drop_handle(&mut previous);
    let mut loaded = atomic.load(&mut collector);
    assert_eq!(read(&mut collector, &loaded), 1776);
    collector.drop_handle(&mut loaded);

    let v1_again = collector.clone_handle(&v1);
    collector.drop_handle(&mut v1);
    atomic.store(&mut collector, v1_again);
    let v2_again = collector.clone_handle(&v2);
    collector.drop_handle(&mut v2);
    let res = atomic.compare_exchange(&mut collector, &v1_alt, v2_again);
    assert!(res.is_err());
    let mut failure = res.err().unwrap();
    collector.drop_handle(&mut failure.current);
    collector.drop_handle(&mut failure.new);
    let mut loaded = atomic.load(&mut collector);
    assert_eq!(read(&mut collector, &loaded), 123);
    collector.drop_handle(&mut loaded);

    collector.drop_handle(&mut v1_alt);
    atomic.drop_slot(&mut collector);
    cleanup(&mut collector);
    assert_eq!(number_of_tracked_allocations(&collector), 0);
    assert_eq!(number_of_active_handles(&collector), 0);
}

#[test]
fn atomic_swap_test() {
    let mut collector = Collector::new();
    let mut x1 = collector.track_with_drop(Payload::new(76));
    let mut x2 = collector.track_with_drop(Payload::new(667));

    let x1_clone = collector.clone_handle(&x1);
    let mut atomic = AtomicGc::new(&collector, x1_clone);
    let x2_clone = collector.clone_handle(&x2);
    let mut s1 = atomic.swap(&mut collector, x2_clone);

    assert_eq!(x1.data(), s1.data());
    collector.drop_handle(&mut x1);
    collector.drop_handle(&mut s1);
    collect(&mut collector);
    assert_eq!(number_of_tracked_allocations(&collector), 1);

    let mut s2 = atomic.load(&mut collector);
    assert_eq!(s2.data(), x2.data());
    collector.drop_handle(&mut x2);

    collect(&mut collector);
    assert_eq!(number_of_tracked_allocations(&collector), 1);

    collector.drop_handle(&mut s2);
    atomic.drop_slot(&mut collector);
    cleanup(&mut collector);
    assert_eq!(number_of_tracked_allocations(&collector), 0);
    assert_eq!(number_of_active_handles(&collector), 0);
}

#[test]
fn _main() {
    let mut collector = Collector::new();
    let mut a = collector.track_with_drop(Payload::new(u64::from(b'A')));
    let mut b = collector.track_with_drop(Payload::new(u64::from(b'B')));

    let b_clone = collector.clone_handle(&b);
    connect(&mut collector, &a, b_clone);
    let a_clone = collector.clone_handle(&a);
    connect(&mut collector, &b, a_clone);
    // the data is cyclical now

    collector.drop_handle(&mut b);
    collector.drop_handle(&mut a);
    cleanup(&mut collector);
    // everything was cleaned up
    assert_eq!(number_of_tracked_allocations(&collector), 0);
    assert_eq!(number_of_active_handles(&collector), 0);
}

#[test]
fn run_with_gc_cleanup_returns_the_result_and_cleans_up() {
    let mut collector = Collector::new();
    let mut handle = collector.track_with_drop(Payload::new(5));
    let id = handle.data();
    collector.drop_handle(&mut handle);
    let res = run_with_gc_cleanup(&mut collector, || 41 + 1);
    assert_eq!(res, 42);
    assert_eq!(number_of_tracked_allocations(&collector), 0);
    assert_eq!(collector.release_runs_of(id), 1);
    assert!(collector.is_deallocation_started(id));
}
