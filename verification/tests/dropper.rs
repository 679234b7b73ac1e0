use shredder::collector::dropper::{BackgroundDropper, DropMessage};
use shredder::concurrency::cross_thread_buffer::CrossThreadBuffer;

fn batch(ids: &[usize]) -> CrossThreadBuffer<usize> {
    let mut buffer = CrossThreadBuffer::new();
    for id in ids {
        buffer.push(*id);
    }
    buffer
}

#[test]
fn messages_come_out_in_the_order_they_were_sent() {
    let mut dropper = BackgroundDropper::new();
    assert!(dropper.next_message().is_none());
    dropper.send_msg(DropMessage::DataToDrop(batch(&[4, 5])));
    dropper.send_msg(DropMessage::SyncUp);
    dropper.send_msg(DropMessage::DataToDrop(batch(&[6])));
    match dropper.next_message() {
        Some(DropMessage::DataToDrop(buffer)) => {
            assert_eq!(buffer.len(), 2);
            assert_eq!(*buffer.get(0), 4);
            assert_eq!(*buffer.get(1), 5);
        }
        _ => panic!("the first batch was expected"),
    }
    assert!(matches!(dropper.next_message(), Some(DropMessage::SyncUp)));
    match dropper.next_message() {
        Some(DropMessage::DataToDrop(buffer)) => {
            assert_eq!(buffer.len(), 1);
            assert_eq!(*buffer.get(0), 6);
        }
        _ => panic!("the second batch was expected"),
    }
    assert!(dropper.next_message().is_none());
}

#[test]
fn a_recycled_buffer_comes_back_empty() {
    let mut dropper = BackgroundDropper::default();
    assert_eq!(dropper.get_buffer().len(), 0);
    dropper.recycle(batch(&[1, 2, 3]));
    dropper.recycle(batch(&[4]));
    assert_eq!(dropper.get_buffer().len(), 0);
    assert_eq!(dropper.get_buffer().len(), 0);
}

#[test]
fn buffer_keeps_what_was_pushed_in_order() {
    let mut buffer: CrossThreadBuffer<u8> = CrossThreadBuffer::default();
    assert_eq!(buffer.len(), 0);
    buffer.push(3);
    buffer.push(1);
    buffer.push(2);
    assert_eq!(buffer.len(), 3);
    assert_eq!((*buffer.get(0), *buffer.get(1), *buffer.get(2)), (3, 1, 2));
    buffer.clear();
    assert_eq!(buffer.len(), 0);
    buffer.push(9);
    assert_eq!(*buffer.get(0), 9);
}
