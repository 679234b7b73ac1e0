use shredder::concurrency::chunked_ll::{CLLItem, ChunkedLinkedList, CHUNK_SIZE};

fn values(list: &ChunkedLinkedList) -> Vec<usize> {
    let mut values: Vec<usize> = list.par_iter().iter().map(|item| item.v).collect();
    values.sort();
    values
}

#[test]
fn chunk_size() {
    assert_eq!(CHUNK_SIZE, 1024);
}

#[test]
fn new_list_is_empty() {
    let list = ChunkedLinkedList::new();
    assert_eq!(list.estimate_len(), 0);
    assert!(list.par_iter().is_empty());
}

#[test]
fn insert_uses_free_slots_in_order() {
    let mut list = ChunkedLinkedList::new();
    let first = list.insert(70);
    let second = list.insert(80);
    assert_eq!((first.v, first.from, first.idx), (70, 0, 0));
    assert_eq!((second.v, second.from, second.idx), (80, 0, 1));
    assert_eq!(list.estimate_len(), 2);
    assert_eq!(values(&list), vec![70, 80]);
}

#[test]
fn a_full_chunk_makes_the_list_grow() {
    let mut list = ChunkedLinkedList::new();
    for v in 0..CHUNK_SIZE {
        let item = list.insert(v);
        assert_eq!((item.from, item.idx), (0, v));
    }
    let item = list.insert(5000);
    assert_eq!((item.v, item.from, item.idx), (5000, 1, 0));
    let item = list.insert(5001);
    assert_eq!((item.from, item.idx), (1, 1));
    assert_eq!(list.estimate_len(), CHUNK_SIZE + 2);
    let all = values(&list);
    assert_eq!(all.len(), CHUNK_SIZE + 2);
    assert_eq!(all[0], 0);
    assert_eq!(all[CHUNK_SIZE - 1], CHUNK_SIZE - 1);
    assert_eq!(all[CHUNK_SIZE], 5000);
}

#[test]
fn remove_frees_the_slot_for_reuse_after_the_others() {
    let mut list = ChunkedLinkedList::new();
    let a = list.insert(1);
    let b = list.insert(2);
    list.remove(&a);
    assert_eq!(list.estimate_len(), 1);
    assert_eq!(values(&list), vec![2]);
    // removing twice changes nothing
    list.remove(&a);
    assert_eq!(list.estimate_len(), 1);

    // the freed slot waits behind the slots that were never used
    for _ in 2..CHUNK_SIZE {
        list.insert(9);
    }
    let reused = list.insert(3);
    assert_eq!((reused.from, reused.idx), (a.from, a.idx));
    assert_eq!(list.estimate_len(), CHUNK_SIZE);
    list.remove(&b);
    assert_eq!(list.estimate_len(), CHUNK_SIZE - 1);
}

#[test]
fn remove_leaves_a_slot_that_holds_something_else() {
    let mut list = ChunkedLinkedList::new();
    let a = list.insert(1);
    let stale = CLLItem { v: 99, from: a.from, idx: a.idx };
    list.remove(&stale);
    assert_eq!(values(&list), vec![1]);
    let nowhere = CLLItem { v: 1, from: 7, idx: 0 };
    list.remove(&nowhere);
    let nowhere = CLLItem { v: 1, from: 0, idx: CHUNK_SIZE };
    list.remove(&nowhere);
    assert_eq!(values(&list), vec![1]);
    assert_eq!(list.estimate_len(), 1);
}

#[test]
fn par_iter_lists_every_item_with_its_slot() {
    let mut list = ChunkedLinkedList::new();
    let mut inserted = Vec::new();
    for v in 0..(CHUNK_SIZE + 10) {
        let item = list.insert(v * 3);
        inserted.push((item.v, item.from, item.idx));
    }
    let mut listed: Vec<(usize, usize, usize)> =
        list.par_iter().iter().map(|item| (item.v, item.from, item.idx)).collect();
    listed.sort();
    inserted.sort();
    assert_eq!(listed, inserted);
}

#[test]
fn par_retain_keeps_what_the_predicate_accepts() {
    let mut list = ChunkedLinkedList::new();
    for v in 0..(2 * CHUNK_SIZE) {
        list.insert(v);
    }
    let removed = list.par_retain(|v: usize| v % 2 == 0);
    assert_eq!(removed.len(), CHUNK_SIZE);
    assert!(removed.iter().all(|item| item.v % 2 == 1));
    assert_eq!(list.estimate_len(), CHUNK_SIZE);
    let kept = values(&list);
    assert_eq!(kept.len(), CHUNK_SIZE);
    assert!(kept.iter().all(|v| v % 2 == 0));

    // the freed slots are used again, first freed first
    let reused = list.insert(7);
    assert_eq!((reused.from, reused.idx), (removed[0].from, removed[0].idx));
    let reused = list.insert(9);
    assert_eq!((reused.from, reused.idx), (removed[1].from, removed[1].idx));
}

#[test]
fn cloned_item_is_the_same_item() {
    let mut list = ChunkedLinkedList::new();
    let item = list.insert(4);
    let copy = item.clone();
    assert_eq!((copy.v, copy.from, copy.idx), (item.v, item.from, item.idx));
}
