//! The priority structure over primary columns.
//!
//! The solver always wants the uncovered primary column of least size, ties
//! broken towards the least column index. The queue stores column indices
//! keyed by a priority pair chosen so that the greatest priority belongs to
//! exactly that column. The queue itself comes from the `priority-queue`
//! crate; its contents are named by the uninterpreted map [`pq_model`], and
//! every call into the crate goes through a trusted wrapper whose contract
//! states what the call does to that map.

use vstd::prelude::*;

use crate::cells::ColumnInfo;

verus! {

#[verifier::external_type_specification]
#[verifier::external_body]
#[verifier::reject_recursive_types(I)]
#[verifier::reject_recursive_types(P)]
#[verifier::reject_recursive_types(H)]
pub struct ExPriorityQueue<I, P, H>(priority_queue::PriorityQueue<I, P, H>);

/// The items held by a queue, each with the priority it was stored under.
pub uninterp spec fn pq_model(q: priority_queue::PriorityQueue<usize, (usize, usize)>) -> Map<
    usize,
    (usize, usize),
>;

/// The contents of a queue that holds nothing.
pub open spec fn empty_model() -> Map<usize, (usize, usize)> {
    Map::empty()
}

/// Lexicographic order on priority pairs; this is the order `Ord` gives a
/// pair of integers, by which the queue ranks its items.
pub open spec fn prio_le(a: (usize, usize), b: (usize, usize)) -> bool {
    a.0 < b.0 || (a.0 == b.0 && a.1 <= b.1)
}

/// Relies on priority_queue::PriorityQueue::new: it creates an empty queue.
#[verifier::external_body]
fn pq_new() -> (r: priority_queue::PriorityQueue<usize, (usize, usize)>)
    ensures
        pq_model(r) == empty_model(),
{
    priority_queue::PriorityQueue::new()
}

/// Relies on priority_queue::PriorityQueue::push: it inserts the item with
/// the given priority, or updates the priority of an item already present.
#[verifier::external_body]
fn pq_push(
    q: &mut priority_queue::PriorityQueue<usize, (usize, usize)>,
    item: usize,
    priority: (usize, usize),
)
    ensures
        pq_model(*final(q)) == pq_model(*old(q)).insert(item, priority),
{
    q.push(item, priority);
}

/// Relies on priority_queue::PriorityQueue::remove: it removes the item if
/// present and leaves the queue unchanged otherwise.
#[verifier::external_body]
fn pq_remove(q: &mut priority_queue::PriorityQueue<usize, (usize, usize)>, item: usize)
    ensures
        pq_model(*final(q)) == pq_model(*old(q)).remove(item),
{
    q.remove(&item);
}

/// Relies on priority_queue::PriorityQueue::change_priority: it gives the
/// item its new priority if the item is present and does nothing otherwise.
#[verifier::external_body]
fn pq_change_priority(
    q: &mut priority_queue::PriorityQueue<usize, (usize, usize)>,
    item: usize,
    priority: (usize, usize),
)
    ensures
        pq_model(*final(q)) == if pq_model(*old(q)).dom().contains(item) {
            pq_model(*old(q)).insert(item, priority)
        } else {
            pq_model(*old(q))
        },
{
    q.change_priority(&item, priority);
}

/// Relies on priority_queue::PriorityQueue::peek: it returns an item of
/// greatest priority, or nothing exactly when the queue is empty. Pairs of
/// integers are ordered lexicographically by `Ord`, which `prio_le` restates.
#[verifier::external_body]
fn pq_peek(q: &priority_queue::PriorityQueue<usize, (usize, usize)>) -> (r: Option<
    (usize, (usize, usize)),
>)
    ensures
        match r {
            None => pq_model(*q).dom() == Set::<usize>::empty(),
            Some(found) => pq_model(*q).contains_pair(found.0, found.1) && forall|j: usize|
                pq_model(*q).dom().contains(j) ==> prio_le(pq_model(*q)[j], found.1),
        },
{
    q.peek().map(|(i, p)| (*i, *p))
}

/// The priority under which a column is queued: columns of smaller size come
/// first, and among columns of one size the one with the smaller index.
pub open spec fn spec_column_priority(size: usize, index: usize) -> (usize, usize) {
    ((usize::MAX - size) as usize, (usize::MAX - index) as usize)
}

/// The queue priority of a column, from its current size and its index.
pub fn column_priority<T>(column: &ColumnInfo<T>) -> (r: (usize, usize))
    ensures
        r == spec_column_priority(column.size, column.index),
{
    (usize::MAX - column.size, usize::MAX - column.index)
}

/// A priority queue of column indices, ranked by [`spec_column_priority`].
pub struct ColumnPriorityQueue {
    queue: priority_queue::PriorityQueue<usize, (usize, usize)>,
}

impl View for ColumnPriorityQueue {
    type V = Map<usize, (usize, usize)>;

    closed spec fn view(&self) -> Map<usize, (usize, usize)> {
        pq_model(self.queue)
    }
}

impl ColumnPriorityQueue {
    /// Creates an empty queue.
    pub fn new() -> (r: ColumnPriorityQueue)
        ensures
            r@ == empty_model(),
    {
        ColumnPriorityQueue { queue: pq_new() }
    }

    /// Queues a column under its current priority.
    pub fn push<T>(&mut self, column: &ColumnInfo<T>)
        ensures
            final(self)@ == old(self)@.insert(
                column.index,
                spec_column_priority(column.size, column.index),
            ),
    {
        let priority = column_priority(column);
        pq_push(&mut self.queue, column.index, priority);
    }

    /// Removes a column from the queue; a column not queued is left alone.
    pub fn remove<T>(&mut self, column: &ColumnInfo<T>)
        ensures
            final(self)@ == old(self)@.remove(column.index),
    {
        pq_remove(&mut self.queue, column.index);
    }

    /// Re-ranks a queued column under its current priority; a column not
    /// queued is left alone.
    pub fn change_priority<T>(&mut self, column: &ColumnInfo<T>)
        ensures
            final(self)@ == if old(self)@.dom().contains(column.index) {
                old(self)@.insert(
                    column.index,
                    spec_column_priority(column.size, column.index),
                )
            } else {
                old(self)@
            },
    {
        let priority = column_priority(column);
        pq_change_priority(&mut self.queue, column.index, priority);
    }

    /// The queued column of greatest priority, with that priority, or
    /// nothing exactly when the queue is empty.
    pub fn peek(&self) -> (r: Option<(usize, (usize, usize))>)
        ensures
            match r {
                None => self@.dom() == Set::<usize>::empty(),
                Some(found) => self@.contains_pair(found.0, found.1) && forall|j: usize|
                    self@.dom().contains(j) ==> prio_le(self@[j], found.1),
            },
    {
        pq_peek(&self.queue)
    }
}

} // verus!
