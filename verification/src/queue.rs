//! A queue that keeps only its last items.

use std::collections::VecDeque;

use vstd::prelude::*;

verus! {

/// A queue that drops its first item when it is full and another comes.
#[derive(Clone)]
pub struct FixedSizeQueue<T> {
    queue: VecDeque<T>,
    capacity: usize,
}

/// What a queue says.
pub struct QueueView<T> {
    pub items: Seq<T>,
    pub capacity: usize,
}

impl<T> View for FixedSizeQueue<T> {
    type V = QueueView<T>;

    closed spec fn view(&self) -> QueueView<T> {
        QueueView { items: self.queue@, capacity: self.capacity }
    }
}

/// The items of a queue after one more came.
pub open spec fn pushed<T>(items: Seq<T>, capacity: usize, item: T) -> Seq<T> {
    if items.len() == capacity && capacity > 0 {
        items.drop_first().push(item)
    } else {
        items.push(item)
    }
}

/// The items of a queue after more came, one after the other.
pub open spec fn all_pushed<T>(items: Seq<T>, capacity: usize, more: Seq<T>) -> Seq<T>
    decreases more.len(),
{
    if more.len() == 0 {
        items
    } else {
        pushed(all_pushed(items, capacity, more.drop_last()), capacity, more.last())
    }
}

/// The last items of a sequence, at most `n` of them.
pub open spec fn last_items<T>(s: Seq<T>, n: int) -> Seq<T> {
    if s.len() <= n {
        s
    } else {
        s.skip(s.len() - n)
    }
}

impl<T> FixedSizeQueue<T> {
    /// An empty queue for `capacity` items.
    pub fn new(capacity: usize) -> (r: Self)
        ensures
            r@ == (QueueView { items: Seq::<T>::empty(), capacity }),
    {
        FixedSizeQueue { queue: VecDeque::new(), capacity }
    }

    /// Puts an item at the end; where the queue is full, its first item leaves.
    pub fn push(&mut self, item: T)
        ensures
            final(self)@.capacity == old(self)@.capacity,
            final(self)@.items == pushed(old(self)@.items, old(self)@.capacity, item),
    {
        if self.queue.len() == self.capacity {
            let _ = self.queue.pop_front();
        }
        self.queue.push_back(item);
    }

    /// How many items there are.
    pub fn len(&self) -> (r: usize)
        ensures
            r == self@.items.len(),
    {
        self.queue.len()
    }

    /// Tells whether there are no items.
    pub fn is_empty(&self) -> (r: bool)
        ensures
            r == (self@.items.len() == 0),
    {
        self.queue.len() == 0
    }

    /// Takes the first item out.
    pub fn pop(&mut self) -> (r: Option<T>)
        ensures
            final(self)@.capacity == old(self)@.capacity,
            old(self)@.items.len() == 0 ==> r is None && final(self)@.items == old(self)@.items,
            old(self)@.items.len() > 0 ==> r == Some(old(self)@.items[0]) && final(self)@.items
                == old(self)@.items.drop_first(),
    {
        self.queue.pop_front()
    }
}

impl<T: Copy> FixedSizeQueue<T> {
    /// The items, first to last.
    pub fn to_vec(&self) -> (r: Vec<T>)
        ensures
            r@ == self@.items,
    {
        let mut r: Vec<T> = Vec::new();
        let mut i: usize = 0;
        while i < self.queue.len()
            invariant
                0 <= i <= self.queue.len(),
                r@ == self@.items.take(i as int),
            decreases self.queue.len() - i,
        {
            r.push(self.queue[i]);
            i = i + 1;
        }
        r
    }
}

/// A queue with room for at least one item holds the last items that came, and no more than its
/// capacity.
pub proof fn law_queue_keeps_the_last<T>(capacity: usize, more: Seq<T>)
    requires
        capacity > 0,
    ensures
        all_pushed(Seq::<T>::empty(), capacity, more) == last_items(more, capacity as int),
        all_pushed(Seq::<T>::empty(), capacity, more).len() <= capacity,
    decreases more.len(),
{
    if more.len() > 0 {
        let fewer = more.drop_last();
        law_queue_keeps_the_last(capacity, fewer);
        assert(more == fewer.push(more.last()));
        assert(pushed(last_items(fewer, capacity as int), capacity, more.last()) =~= last_items(
            more,
            capacity as int,
        ));
    }
}

/// A queue without room for any item keeps all that come.
pub proof fn law_roomless_queue_keeps_all<T>(items: Seq<T>, more: Seq<T>)
    ensures
        all_pushed(items, 0, more) == items + more,
    decreases more.len(),
{
    if more.len() == 0 {
        assert(items + more == items);
    } else {
        law_roomless_queue_keeps_all(items, more.drop_last());
        assert((items + more.drop_last()).push(more.last()) == items + more);
    }
}

/// An item that comes is the last one; those before it stay in their order, but for the first,
/// which leaves exactly where the queue is full and has room for any.
pub proof fn law_push_keeps_the_order<T>(items: Seq<T>, capacity: usize, item: T)
    ensures
        ({
            let after = pushed(items, capacity, item);
            &&& after.len() > 0 && after.last() == item
            &&& items.len() != capacity || capacity == 0 ==> after.len() == items.len() + 1
                && after.drop_last() == items
            &&& items.len() == capacity && capacity > 0 ==> after.len() == items.len() && forall|
                i: int,
            |
                0 <= i < items.len() - 1 ==> after[i] == #[trigger] items[i + 1]
        }),
{
}

} // verus!
