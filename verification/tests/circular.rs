use shredder::collector::allocation::Payload;
use shredder::collector::{Collector, InternalGcRef};

/// Data with the plain value `n` that owns a handle to its own allocation.
fn circular(self_ref: InternalGcRef, n: u64) -> Payload {
    let mut data = Payload::new(n);
    data.push_handle(self_ref);
    data
}

#[test]
fn can_create_circular() {
    let mut collector = Collector::new();
    let circle = collector.track_with_initializer(|gc: InternalGcRef| circular(gc, 146));

    let guard = collector.get_data_warrant(&circle);
    assert_eq!(collector.get_payload(&guard).value(), 146);
    collector.release_data_warrant(guard);
}

#[test]
fn can_create_circular_finalize() {
    let mut collector = Collector::new();
    let circle =
        collector.track_with_initializer_and_finalize(|gc: InternalGcRef| circular(gc, 146));

    let guard = collector.get_data_warrant(&circle);
    assert_eq!(collector.get_payload(&guard).value(), 146);
    collector.release_data_warrant(guard);
}
