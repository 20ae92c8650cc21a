//! The bounded queue of reusable descriptor identifiers. The queue itself is
//! `crossbeam_queue::ArrayQueue`; what is stated of it here is taken on
//! trust from that crate.
use vstd::prelude::*;
use crossbeam_queue::ArrayQueue;

verus! {

/// `crossbeam_queue::ArrayQueue`, a bounded first-in first-out queue.
#[verifier::external_type_specification]
#[verifier::external_body]
#[verifier::reject_recursive_types(T)]
pub struct ExArrayQueue<T>(ArrayQueue<T>);

/// The identifiers that a queue holds, oldest first.
pub uninterp spec fn pool_contents(q: ArrayQueue<usize>) -> Seq<usize>;

/// The number of identifiers that a queue was made to hold at most.
pub uninterp spec fn pool_capacity(q: ArrayQueue<usize>) -> nat;

/// `ArrayQueue::new`: an empty queue that holds at most `cap` identifiers.
/// The call panics for a capacity of zero, or one so large that the queue's
/// lap counter overflows; both are excluded here.
#[verifier::external_body]
pub(crate) fn pool_new(cap: usize) -> (q: ArrayQueue<usize>)
    requires
        0 < cap <= 0x1000_0000,
    ensures
        pool_contents(q) == Seq::<usize>::empty(),
        pool_capacity(q) == cap,
{
    ArrayQueue::new(cap)
}

/// `ArrayQueue::push`: appends `value` at the tail unless the queue is
/// full; a full queue is left as it was and hands the value back.
#[verifier::external_body]
pub(crate) fn pool_push(q: &mut ArrayQueue<usize>, value: usize) -> (pushed: bool)
    ensures
        pool_capacity(*final(q)) == pool_capacity(*old(q)),
        pushed == (pool_contents(*old(q)).len() < pool_capacity(*old(q))),
        pushed ==> pool_contents(*final(q)) == pool_contents(*old(q)).push(value),
        !pushed ==> pool_contents(*final(q)) == pool_contents(*old(q)),
{
    q.push(value).is_ok()
}

/// `ArrayQueue::pop`: removes and returns the identifier at the head, or
/// returns nothing and leaves the queue as it was when it is empty.
#[verifier::external_body]
pub(crate) fn pool_pop(q: &mut ArrayQueue<usize>) -> (r: Option<usize>)
    ensures
        pool_capacity(*final(q)) == pool_capacity(*old(q)),
        pool_contents(*old(q)).len() > 0 ==> r == Some(pool_contents(*old(q))[0])
            && pool_contents(*final(q)) == pool_contents(*old(q)).drop_first(),
        pool_contents(*old(q)).len() == 0 ==> r.is_none() && pool_contents(*final(q))
            == pool_contents(*old(q)),
{
    q.pop()
}

} // verus!
