//! The open set of the best-first searches: a keyed min-priority queue of
//! grid cells, backed by `priority_queue::PriorityQueue` with `Reverse`
//! priorities. Verified code sees the queue only through the wrappers below,
//! whose contracts speak of `open_set_entries`, the map from queued cell to
//! its stored priority.

use vstd::prelude::*;

verus! {

#[verifier::external_type_specification]
#[verifier::external_body]
#[verifier::reject_recursive_types(I)]
#[verifier::reject_recursive_types(P)]
#[verifier::reject_recursive_types(H)]
pub struct ExPriorityQueue<I, P, H>(priority_queue::PriorityQueue<I, P, H>);

#[verifier::external_type_specification]
#[verifier::external_body]
#[verifier::reject_recursive_types(T)]
pub struct ExReverse<T>(core::cmp::Reverse<T>);

/// A min-priority queue of cells: the queue orders by `Reverse` of the
/// stored priority, so `pop` yields a cell of least priority.
pub type OpenSet = priority_queue::PriorityQueue<(u32, u32), core::cmp::Reverse<u64>>;

/// What the queue holds: each queued cell together with its priority.
pub uninterp spec fn open_set_entries(q: OpenSet) -> Map<(u32, u32), u64>;

/// The entry map holds nothing.
pub open spec fn no_entries(m: Map<(u32, u32), u64>) -> bool {
    m == Map::<(u32, u32), u64>::empty()
}

/// Relies on `PriorityQueue::new`: the new queue is empty.
#[verifier::external_body]
pub fn open_set_new() -> (queue: OpenSet)
    ensures
        no_entries(open_set_entries(queue)),
{
    priority_queue::PriorityQueue::new()
}

/// Relies on `PriorityQueue::push`: inserts the cell, or updates its
/// priority if it is already queued. The searches call this only with a
/// strictly improved priority, which makes it their decrease-key operation.
#[verifier::external_body]
pub fn open_set_push(q: &mut OpenSet, cell: (u32, u32), priority: u64)
    ensures
        open_set_entries(*final(q)) == open_set_entries(*old(q)).insert(cell, priority),
{
    q.push(cell, core::cmp::Reverse(priority));
}

/// Relies on `PriorityQueue::pop`: removes and returns an entry with the
/// greatest `Reverse` priority, that is, one whose stored priority is least;
/// returns `None` exactly when the queue is empty.
#[verifier::external_body]
pub fn open_set_pop(q: &mut OpenSet) -> (r: Option<((u32, u32), u64)>)
    ensures
        match r {
            None => {
                &&& no_entries(open_set_entries(*old(q)))
                &&& open_set_entries(*final(q)) == open_set_entries(*old(q))
            },
            Some((cell, priority)) => {
                &&& open_set_entries(*old(q)).contains_pair(cell, priority)
                &&& open_set_entries(*final(q)) == open_set_entries(*old(q)).remove(cell)
                &&& forall|other: (u32, u32)|
                    #[trigger] open_set_entries(*old(q)).dom().contains(other) ==> priority
                        <= open_set_entries(*old(q))[other]
            },
        },
{
    q.pop().map(|entry| (entry.0, entry.1.0))
}

} // verus!
