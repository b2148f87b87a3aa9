//! The search frontier: a min-priority queue of grid coordinates, kept in
//! `priority_queue::DoublePriorityQueue`. Each coordinate is held at most once,
//! with one priority, so the queue's contents are a map.
use priority_queue::DoublePriorityQueue;
use std::collections::hash_map::RandomState;
use vstd::prelude::*;

verus! {

#[verifier::external_type_specification]
#[verifier::external_body]
#[verifier::reject_recursive_types(I)]
#[verifier::reject_recursive_types(P)]
#[verifier::reject_recursive_types(H)]
pub struct ExDoublePriorityQueue<I, P, H>(DoublePriorityQueue<I, P, H>) where
    I: std::hash::Hash + Eq,
    P: Ord,
;

/// A queue of coordinates ordered by an integer priority.
pub type Frontier = DoublePriorityQueue<(usize, usize), u128, RandomState>;

/// What the queue holds: each coordinate in it, with its priority.
pub uninterp spec fn frontier_items(q: Frontier) -> Map<(usize, usize), u128>;

/// Relies on `DoublePriorityQueue::new`: the queue starts empty.
#[verifier::external_body]
pub(crate) fn frontier_new() -> (r: Frontier)
    ensures
        frontier_items(r).dom().is_empty(),
{
    DoublePriorityQueue::new()
}

/// Relies on `DoublePriorityQueue::push`: the item is inserted with the given
/// priority, or, if it is already there, its priority is replaced and the old
/// one returned.
#[verifier::external_body]
pub(crate) fn frontier_push(q: &mut Frontier, item: (usize, usize), priority: u128) -> (r: Option<u128>)
    ensures
        frontier_items(*final(q)) == frontier_items(*old(q)).insert(item, priority),
        r == (if frontier_items(*old(q)).contains_key(item) {
            Some(frontier_items(*old(q))[item])
        } else {
            None::<u128>
        }),
{
    q.push(item, priority)
}

/// Relies on `DoublePriorityQueue::pop_min`: removes and returns an item of
/// lowest priority, or `None` when the queue is empty.
#[verifier::external_body]
pub(crate) fn frontier_pop_min(q: &mut Frontier) -> (r: Option<((usize, usize), u128)>)
    ensures
        r.is_none() <==> frontier_items(*old(q)).dom().is_empty(),
        r.is_none() ==> frontier_items(*final(q)) == frontier_items(*old(q)),
        r.is_some() ==> {
            let (item, priority) = r.unwrap();
            &&& frontier_items(*old(q)).contains_key(item)
            &&& frontier_items(*old(q))[item] == priority
            &&& forall|k| #[trigger] frontier_items(*old(q)).contains_key(k)
                ==> priority <= frontier_items(*old(q))[k]
            &&& frontier_items(*final(q)) == frontier_items(*old(q)).remove(item)
        },
{
    q.pop_min()
}

} // verus!
