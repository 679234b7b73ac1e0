use crossbeam::queue::SegQueue;
use vstd::prelude::*;

verus! {

/// `crossbeam::queue::SegQueue`, an unbounded queue that hands out first
/// what was pushed first. Nothing is known of a value of this type but what
/// the functions below say of it.
#[verifier::external_type_specification]
#[verifier::external_body]
#[verifier::reject_recursive_types(T)]
pub struct ExSegQueue<T>(SegQueue<T>);

/// The slot positions that a queue of free slots holds, oldest first.
pub uninterp spec fn slot_queue_items(q: SegQueue<(usize, usize)>) -> Seq<(usize, usize)>;

/// The allocation records that a work queue holds, oldest first.
pub uninterp spec fn work_queue_items(q: SegQueue<usize>) -> Seq<usize>;

/// `SegQueue::new`: the queue it makes holds nothing.
#[verifier::external_body]
pub(crate) fn slot_queue_new() -> (q: SegQueue<(usize, usize)>)
    ensures
        slot_queue_items(q) == Seq::<(usize, usize)>::empty(),
{
    SegQueue::new()
}

/// `SegQueue::push`: the element goes to the tail, behind everything that the
/// queue held.
#[verifier::external_body]
pub(crate) fn slot_queue_push(q: &mut SegQueue<(usize, usize)>, slot: (usize, usize))
    ensures
        slot_queue_items(*final(q)) == slot_queue_items(*old(q)).push(slot),
{
    q.push(slot)
}

/// `SegQueue::pop`: `None` from a queue that holds nothing, which stays as it
/// was; otherwise the element at the head, which leaves the queue.
#[verifier::external_body]
pub(crate) fn slot_queue_pop(q: &mut SegQueue<(usize, usize)>) -> (slot: Option<(usize, usize)>)
    ensures
        match slot {
            Some(s) => slot_queue_items(*old(q)).len() > 0 && s == slot_queue_items(*old(q))[0]
                && slot_queue_items(*final(q)) == slot_queue_items(*old(q)).subrange(
                1,
                slot_queue_items(*old(q)).len() as int,
            ),
            None => slot_queue_items(*old(q)).len() == 0 && slot_queue_items(*final(q))
                == slot_queue_items(*old(q)),
        },
{
    q.pop()
}

/// `SegQueue::new`: the queue it makes holds nothing.
#[verifier::external_body]
pub(crate) fn work_queue_new() -> (q: SegQueue<usize>)
    ensures
        work_queue_items(q) == Seq::<usize>::empty(),
{
    SegQueue::new()
}

/// `SegQueue::push`: the element goes to the tail, behind everything that the
/// queue held.
#[verifier::external_body]
pub(crate) fn work_queue_push(q: &mut SegQueue<usize>, record: usize)
    ensures
        work_queue_items(*final(q)) == work_queue_items(*old(q)).push(record),
{
    q.push(record)
}

/// `SegQueue::pop`: `None` from a queue that holds nothing, which stays as it
/// was; otherwise the element at the head, which leaves the queue.
#[verifier::external_body]
pub(crate) fn work_queue_pop(q: &mut SegQueue<usize>) -> (record: Option<usize>)
    ensures
        match record {
            Some(r) => work_queue_items(*old(q)).len() > 0 && r == work_queue_items(*old(q))[0]
                && work_queue_items(*final(q)) == work_queue_items(*old(q)).subrange(
                1,
                work_queue_items(*old(q)).len() as int,
            ),
            None => work_queue_items(*old(q)).len() == 0 && work_queue_items(*final(q))
                == work_queue_items(*old(q)),
        },
{
    q.pop()
}

} // verus!
