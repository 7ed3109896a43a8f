//! The lock-free queues between the real-time thread and the workers.
//!
//! The two ends of a queue live on different threads, so what an end finds
//! depends on what the other thread has done by then. Nothing here says when a
//! transfer succeeds; the engine states what it does in either case.

use vstd::prelude::*;

verus! {

/// The sending end of a queue: `rtrb::Producer`.
#[verifier::external_type_specification]
#[verifier::external_body]
#[verifier::reject_recursive_types(T)]
pub struct ExProducer<T>(rtrb::Producer<T>);

/// The receiving end of a queue: `rtrb::Consumer`.
#[verifier::external_type_specification]
#[verifier::external_body]
#[verifier::reject_recursive_types(T)]
pub struct ExConsumer<T>(rtrb::Consumer<T>);

/// `rtrb::RingBuffer::new`: a queue of `capacity` slots, as its two ends. The
/// call allocates the slots at once, so their size in bytes has to stay within
/// what an allocation may have.
#[verifier::external_body]
pub(crate) fn ring_buffer<T>(capacity: usize) -> (ends: (rtrb::Producer<T>, rtrb::Consumer<T>))
    requires
        capacity * vstd::layout::size_of::<T>() <= isize::MAX,
{
    rtrb::RingBuffer::new(capacity)
}

/// `rtrb::Producer::push_entire_slice`: copies all of `items` into the queue
/// and says so, or, where the queue has fewer free slots, copies nothing.
/// Whether there are enough free slots depends on the receiving thread.
#[verifier::external_body]
pub(crate) fn send<T: Copy>(queue: &mut rtrb::Producer<T>, items: &[T]) -> (sent: bool) {
    queue.push_entire_slice(items).is_ok()
}

/// `rtrb::Consumer::pop_entire_slice`: fills all of `items` from the queue and
/// says so, or, where the queue holds fewer items, leaves `items` as it is.
/// What the queue holds depends on the sending thread.
#[verifier::external_body]
pub(crate) fn receive<T: Copy>(queue: &mut rtrb::Consumer<T>, items: &mut Vec<T>) -> (got: bool)
    ensures
        final(items).len() == old(items).len(),
        !got ==> final(items)@ == old(items)@,
{
    queue.pop_entire_slice(items.as_mut_slice()).is_ok()
}

/// `rtrb::Consumer::is_abandoned`: whether the sending end has been dropped,
/// as far as this thread can tell.
#[verifier::external_body]
pub(crate) fn abandoned<T>(queue: &rtrb::Consumer<T>) -> (gone: bool) {
    queue.is_abandoned()
}

} // verus!
