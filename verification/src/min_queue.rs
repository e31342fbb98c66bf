//! A smallest-first queue of keyed entries, kept by the `priority_queue` crate.
//!
//! Nothing in this file is proved: it holds the outside queue and states, as
//! contracts, how that queue behaves. The algorithms that use the
//! queue are verified against these contracts.

use std::cmp::Reverse;
use std::hash::RandomState;
use vstd::prelude::*;

verus! {

/// A queue of `(key, weight)` entries, each filed under its weight, that
/// hands out an entry of the smallest weight first. The verifier does not
/// look inside: what the queue holds is [`queue_entries`].
#[verifier::external_body]
pub struct EntryQueue {
    inner: priority_queue::PriorityQueue<(usize, i128), Reverse<i128>, RandomState>,
}

/// What a queue holds: each entry that is in it, mapped to the weight it was
/// last pushed with.
pub uninterp spec fn queue_entries(q: EntryQueue) -> Map<(usize, i128), i128>;

/// The contents of a queue that holds nothing.
pub open spec fn no_entries() -> Map<(usize, i128), i128> {
    Map::empty()
}

/// `PriorityQueue::new`: a queue that holds nothing.
#[verifier::external_body]
pub(crate) fn queue_new() -> (q: EntryQueue)
    ensures
        queue_entries(q) == no_entries(),
{
    EntryQueue { inner: priority_queue::PriorityQueue::new() }
}

/// `PriorityQueue::push` with the weight wrapped in `Reverse`: the entry is in
/// the queue afterwards with the given weight, whether or not an equal entry
/// was there before; every other entry is untouched.
#[verifier::external_body]
pub(crate) fn queue_push(q: &mut EntryQueue, entry: (usize, i128), weight: i128)
    ensures
        queue_entries(*final(q)) == queue_entries(*old(q)).insert(entry, weight),
{
    q.inner.push(entry, Reverse(weight));
}

/// `PriorityQueue::pop`: `None` exactly when the queue holds nothing; otherwise
/// an entry of the queue with its weight, which no weight in the queue is
/// below (`Reverse` makes the smallest weight the greatest priority), and that
/// entry is gone afterwards. Which of several entries of the smallest weight
/// leaves is not stated.
#[verifier::external_body]
pub(crate) fn queue_pop(q: &mut EntryQueue) -> (r: Option<((usize, i128), i128)>)
    ensures
        match r {
            None => queue_entries(*old(q)) == no_entries() && queue_entries(*final(q))
                == no_entries(),
            Some((entry, weight)) => {
                &&& queue_entries(*old(q)).dom().contains(entry)
                &&& queue_entries(*old(q))[entry] == weight
                &&& forall|other: (usize, i128)| #[trigger]
                    queue_entries(*old(q)).dom().contains(other) ==> weight <= queue_entries(
                        *old(q),
                    )[other]
                &&& queue_entries(*final(q)) == queue_entries(*old(q)).remove(entry)
            },
        },
{
    match q.inner.pop() {
        Some((entry, Reverse(weight))) => Some((entry, weight)),
        None => None,
    }
}

} // verus!
