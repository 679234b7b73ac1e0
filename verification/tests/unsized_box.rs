use shredder::collector::allocation::Payload;
use shredder::collector::{Collector, InternalGcRef};

/// A leaf that holds a number.
fn number_node(collector: &mut Collector, n: u64) -> InternalGcRef {
    collector.track_boxed_value(Box::new(Payload::new(n)))
}

/// An inner node over two subtrees, which it holds by handle.
fn tree_node(collector: &mut Collector, left: InternalGcRef, right: InternalGcRef) -> InternalGcRef {
    let mut data = Payload::new(0);
    data.push_handle(left);
    data.push_handle(right);
    collector.track_boxed_value(Box::new(data))
}

/// The largest number in the tree under `root`.
fn max_number(collector: &Collector, root: &InternalGcRef) -> u64 {
    let data = collector.deref_data(root);
    let mut max = data.value();
    for i in 0..data.handle_count() {
        max = max.max(max_number(collector, data.handle(i)));
    }
    max
}

fn drop_all(collector: &mut Collector, handles: &mut [InternalGcRef]) {
    for handle in handles.iter_mut() {
        collector.drop_handle(handle);
    }
}

#[test]
fn from_box() {
    let mut collector = Collector::new();
    assert_eq!(collector.tracked_data_count(), 0);

    let num1 = number_node(&mut collector, 10);
    let num2 = number_node(&mut collector, 100);
    let num3 = number_node(&mut collector, 1000);
    let str1 = number_node(&mut collector, "this is a string".len() as u64);
    let str2 = number_node(&mut collector, "this is a longer string".len() as u64);
    let str3 = number_node(&mut collector, "this is the longest string".len() as u64);

    assert_eq!(collector.tracked_data_count(), 6);

    {
        let s1 = collector.clone_handle(&str1);
        let s2 = collector.clone_handle(&str2);
        let str_root = tree_node(&mut collector, s1, s2);
        let n1 = collector.clone_handle(&num1);
        let n2 = collector.clone_handle(&num2);
        let num_root = tree_node(&mut collector, n1, n2);
        let num_root_view = collector.clone_handle(&num_root);
        let str_root_view = collector.clone_handle(&str_root);
        let root = tree_node(&mut collector, str_root, num_root);

        assert_eq!(collector.tracked_data_count(), 9);

        assert_eq!(max_number(&collector, &num_root_view), 100);
        assert_eq!(
            max_number(&collector, &str_root_view),
            "this is a longer string".len() as u64
        );
        assert_eq!(max_number(&collector, &root), 100);
        drop_all(&mut collector, &mut [root, num_root_view, str_root_view]);
    }

    collector.collect();
    assert_eq!(collector.tracked_data_count(), 6);

    {
        let (s1, n1) = (collector.clone_handle(&str1), collector.clone_handle(&num1));
        let mixed_root1 = tree_node(&mut collector, s1, n1);
        let (s2, n2) = (collector.clone_handle(&str2), collector.clone_handle(&num2));
        let mixed_root2 = tree_node(&mut collector, s2, n2);
        let (s3, n3) = (collector.clone_handle(&str3), collector.clone_handle(&num3));
        let mixed_root3 = tree_node(&mut collector, s3, n3);

        let mid_root = tree_node(&mut collector, mixed_root1, mixed_root2);
        let root = tree_node(&mut collector, mixed_root3, mid_root);

        assert_eq!(collector.tracked_data_count(), 11);

        assert_eq!(max_number(&collector, &root), 1000);
        drop_all(&mut collector, &mut [root]);
    }

    collector.collect();
    assert_eq!(collector.tracked_data_count(), 6);

    drop_all(&mut collector, &mut [num1, num2, num3, str1, str2, str3]);
    collector.collect();
    collector.synchronize_destructors();
    assert_eq!(collector.tracked_data_count(), 0);
    assert_eq!(collector.handle_count(), 0);
}
