//! Bounded delivery queue that implements all three RELAY back-pressure
//! policies (spec §10.5.3 / §14).
//!
//! `BackPressurePolicy::DropOldest` means "drain one message from the queue,
//! then enqueue the new one"; a sender-only channel cannot evict its head,
//! so the queue itself offers the three ways to enqueue.

use std::collections::VecDeque;
use vstd::prelude::*;

use crate::client::BackPressurePolicy;

verus! {

/// A FIFO queue of at most `capacity` items (`capacity >= 1`).
pub struct RingQueue<T> {
    items: VecDeque<T>,
    capacity: usize,
    closed: bool,
}

/// What taking from a queue gives.
pub enum Next<T> {
    /// The oldest queued item.
    Item(T),
    /// Nothing is queued yet and the queue is open: wait for an item.
    Wait,
    /// Nothing is queued and the queue is closed: the stream has ended.
    End,
}

/// What offering an item to a queue under a back-pressure policy did.
pub enum Offered<T> {
    /// The item was queued.
    Queued,
    /// The item was queued after the oldest one was evicted.
    QueuedEvicting,
    /// The queue was full and the arriving item was dropped.
    Dropped,
    /// The queue was full and the item is handed back, to be offered again
    /// once there is room.
    Full(T),
}

impl<T> View for RingQueue<T> {
    type V = Seq<T>;

    /// The queued items, oldest first.
    closed spec fn view(&self) -> Seq<T> {
        self.items@
    }
}

impl<T> RingQueue<T> {
    #[verifier::type_invariant]
    spec fn bounded(self) -> bool {
        1 <= self.capacity && self.items@.len() <= self.capacity
    }

    /// The most items the queue holds.
    pub closed spec fn spec_capacity(&self) -> nat {
        self.capacity as nat
    }

    /// Whether the sending side has closed the queue.
    pub closed spec fn spec_closed(&self) -> bool {
        self.closed
    }

    /// An empty, open queue with room for `capacity` items (at least one).
    pub fn new(capacity: usize) -> (r: Self)
        ensures
            r@ == Seq::<T>::empty(),
            !r.spec_closed(),
            r.spec_capacity() == if capacity == 0 {
                1
            } else {
                capacity
            },
    {
        let capacity = if capacity == 0 {
            1
        } else {
            capacity
        };
        RingQueue { items: VecDeque::new(), capacity, closed: false }
    }

    /// The most items the queue holds.
    pub fn capacity(&self) -> (r: usize)
        ensures
            r == self.spec_capacity(),
            r >= 1,
            self@.len() <= r,
    {
        proof {
            use_type_invariant(self);
        }
        self.capacity
    }

    /// The number of queued items.
    pub fn len(&self) -> (r: usize)
        ensures
            r == self@.len(),
            r <= self.spec_capacity(),
    {
        proof {
            use_type_invariant(self);
        }
        self.items.len()
    }

    /// Whether the queue holds as many items as it can.
    pub fn is_full(&self) -> (r: bool)
        ensures
            r == (self@.len() == self.spec_capacity()),
    {
        proof {
            use_type_invariant(self);
        }
        self.items.len() >= self.capacity
    }

    /// `BackPressurePolicy::DropNewest`: drop the arriving item when full.
    /// Returns `true` if the item was enqueued, `false` if it was dropped.
    pub fn push_drop_newest(&mut self, item: T) -> (r: bool)
        ensures
            r == (old(self)@.len() < old(self).spec_capacity()),
            final(self)@ == if r {
                old(self)@.push(item)
            } else {
                old(self)@
            },
            final(self).spec_capacity() == old(self).spec_capacity(),
            final(self).spec_closed() == old(self).spec_closed(),
    {
        proof {
            use_type_invariant(&*self);
        }
        if self.items.len() >= self.capacity {
            return false;
        }
        let mut items = self.take_items();
        items.push_back(item);
        self.items = items;
        true
    }

    /// `BackPressurePolicy::DropOldest`: evict the oldest queued item to
    /// make room, then enqueue the arriving item (spec §10.5.3). The arriving
    /// item is always enqueued. Returns `true` if an older item was evicted.
    pub fn push_drop_oldest(&mut self, item: T) -> (r: bool)
        ensures
            r == (old(self)@.len() == old(self).spec_capacity()),
            final(self)@ == if r {
                old(self)@.drop_first().push(item)
            } else {
                old(self)@.push(item)
            },
            final(self).spec_capacity() == old(self).spec_capacity(),
            final(self).spec_closed() == old(self).spec_closed(),
    {
        proof {
            use_type_invariant(&*self);
        }
        let mut items = self.take_items();
        let evicted = if items.len() >= self.capacity {
            let _ = items.pop_front();
            true
        } else {
            false
        };
        items.push_back(item);
        self.items = items;
        evicted
    }

    /// `BackPressurePolicy::Block`: enqueue the item if there is room, or
    /// hand it back so that the caller can wait for room and try again.
    pub fn try_push(&mut self, item: T) -> (r: Result<(), T>)
        ensures
            old(self)@.len() < old(self).spec_capacity() ==> r is Ok && final(self)@ == old(
                self,
            )@.push(item),
            old(self)@.len() >= old(self).spec_capacity() ==> r == Err::<(), T>(item)
                && final(self)@ == old(self)@,
            final(self).spec_capacity() == old(self).spec_capacity(),
            final(self).spec_closed() == old(self).spec_closed(),
    {
        proof {
            use_type_invariant(&*self);
        }
        if self.items.len() >= self.capacity {
            return Err(item);
        }
        let mut items = self.take_items();
        items.push_back(item);
        self.items = items;
        Ok(())
    }

    /// Take the oldest queued item, if any.
    pub fn pop(&mut self) -> (r: Option<T>)
        ensures
            old(self)@.len() == 0 ==> r is None && final(self)@ == old(self)@,
            old(self)@.len() > 0 ==> r == Some(old(self)@[0]) && final(self)@ == old(
                self,
            )@.drop_first(),
            final(self).spec_capacity() == old(self).spec_capacity(),
            final(self).spec_closed() == old(self).spec_closed(),
    {
        let mut items = self.take_items();
        let r = items.pop_front();
        self.items = items;
        r
    }

    /// Close the queue: what is queued can still be taken, then the stream
    /// ends.
    pub fn close(&mut self)
        ensures
            final(self)@ == old(self)@,
            final(self).spec_capacity() == old(self).spec_capacity(),
            final(self).spec_closed(),
    {
        proof {
            use_type_invariant(&*self);
        }
        self.closed = true;
    }

    /// Whether the queue is closed.
    pub fn is_closed(&self) -> (r: bool)
        ensures
            r == self.spec_closed(),
    {
        self.closed
    }

    /// Take the next item: the oldest queued one; when none is queued,
    /// `End` once the queue is closed, `Wait` before.
    pub fn next(&mut self) -> (r: Next<T>)
        ensures
            old(self)@.len() > 0 ==> r == Next::Item(old(self)@[0]) && final(self)@ == old(
                self,
            )@.drop_first(),
            old(self)@.len() == 0 ==> final(self)@ == old(self)@ && if old(self).spec_closed() {
                r is End
            } else {
                r is Wait
            },
            final(self).spec_capacity() == old(self).spec_capacity(),
            final(self).spec_closed() == old(self).spec_closed(),
    {
        match self.pop() {
            Some(item) => Next::Item(item),
            None => {
                if self.closed {
                    Next::End
                } else {
                    Next::Wait
                }
            },
        }
    }

    /// Move the items out, leaving the queue empty.
    fn take_items(&mut self) -> (r: VecDeque<T>)
        ensures
            r@ == old(self)@,
            final(self)@ == Seq::<T>::empty(),
            final(self).spec_capacity() == old(self).spec_capacity(),
            r@.len() <= old(self).spec_capacity(),
            1 <= old(self).spec_capacity(),
            final(self).spec_closed() == old(self).spec_closed(),
    {
        proof {
            use_type_invariant(&*self);
        }
        let mut items = VecDeque::new();
        std::mem::swap(&mut items, &mut self.items);
        items
    }
}

/// The queue after pushing every item of `s` in turn, dropping the newest
/// when full.
pub open spec fn spec_fill_drop_newest<T>(q: Seq<T>, cap: nat, s: Seq<T>) -> Seq<T>
    decreases s.len(),
{
    if s.len() == 0 {
        q
    } else {
        let p = spec_fill_drop_newest(q, cap, s.drop_last());
        if p.len() < cap {
            p.push(s.last())
        } else {
            p
        }
    }
}

/// The queue after pushing every item of `s` in turn, dropping the oldest
/// when full.
pub open spec fn spec_fill_drop_oldest<T>(q: Seq<T>, cap: nat, s: Seq<T>) -> Seq<T>
    decreases s.len(),
{
    if s.len() == 0 {
        q
    } else {
        let p = spec_fill_drop_oldest(q, cap, s.drop_last());
        if p.len() == cap {
            p.drop_first().push(s.last())
        } else {
            p.push(s.last())
        }
    }
}

/// Pushing a burst into an empty queue with `DropNewest` keeps its first
/// `cap` items: the earliest arrivals survive.
pub proof fn lemma_drop_newest_keeps_earliest<T>(cap: nat, s: Seq<T>)
    requires
        cap >= 1,
    ensures
        spec_fill_drop_newest(Seq::<T>::empty(), cap, s) == s.subrange(
            0,
            if s.len() <= cap {
                s.len() as int
            } else {
                cap as int
            },
        ),
    decreases s.len(),
{
    if s.len() > 0 {
        lemma_drop_newest_keeps_earliest(cap, s.drop_last());
        if s.len() <= cap {
            assert(s.drop_last().subrange(0, s.len() - 1).push(s.last()) =~= s.subrange(
                0,
                s.len() as int,
            ));
        } else {
            assert(s.drop_last().subrange(0, cap as int) =~= s.subrange(0, cap as int));
        }
    }
}

/// Pushing a burst into an empty queue with `DropOldest` keeps its last
/// `cap` items: the newest arrivals survive, in order.
pub proof fn lemma_drop_oldest_keeps_newest<T>(cap: nat, s: Seq<T>)
    requires
        cap >= 1,
    ensures
        spec_fill_drop_oldest(Seq::<T>::empty(), cap, s) == s.subrange(
            if s.len() <= cap {
                0
            } else {
                s.len() - cap
            },
            s.len() as int,
        ),
    decreases s.len(),
{
    if s.len() > 0 {
        let p = s.drop_last();
        lemma_drop_oldest_keeps_newest(cap, p);
        if s.len() <= cap {
            assert(p.subrange(0, p.len() as int).push(s.last()) =~= s.subrange(0, s.len() as int));
        } else {
            let lo = if p.len() <= cap {
                0
            } else {
                p.len() - cap
            };
            assert(p.subrange(lo, p.len() as int).drop_first().push(s.last()) =~= s.subrange(
                s.len() - cap,
                s.len() as int,
            ));
        }
    }
}

/// A queue filled by either dropping policy never holds more than `cap`
/// items.
pub proof fn lemma_fill_bounded<T>(q: Seq<T>, cap: nat, s: Seq<T>)
    requires
        q.len() <= cap,
        cap >= 1,
    ensures
        spec_fill_drop_newest(q, cap, s).len() <= cap,
        spec_fill_drop_oldest(q, cap, s).len() <= cap,
    decreases s.len(),
{
    if s.len() > 0 {
        lemma_fill_bounded(q, cap, s.drop_last());
    }
}


/// One step on a queue under `Block`: a sender's push or a receiver's take.
pub enum QueueStep<T> {
    /// Offer an item with [`RingQueue::try_push`].
    Push(T),
    /// Take the oldest item with [`RingQueue::pop`].
    Take,
}

/// Running `steps` on a queue that holds `q` with room for `cap`, as
/// [`RingQueue::try_push`] and [`RingQueue::pop`] do: a push is accepted
/// when there is room and handed back otherwise; a take gives the oldest
/// item when there is one. The result is (what is queued, the accepted
/// items, the taken items), each in order.
pub open spec fn spec_run_block<T>(q: Seq<T>, cap: nat, steps: Seq<QueueStep<T>>) -> (
    Seq<T>,
    Seq<T>,
    Seq<T>,
)
    decreases steps.len(),
{
    if steps.len() == 0 {
        (q, Seq::empty(), Seq::empty())
    } else {
        let (cur, accepted, taken) = spec_run_block(q, cap, steps.drop_last());
        match steps.last() {
            QueueStep::Push(x) => if cur.len() < cap {
                (cur.push(x), accepted.push(x), taken)
            } else {
                (cur, accepted, taken)
            },
            QueueStep::Take => if cur.len() > 0 {
                (cur.drop_first(), accepted, taken.push(cur[0]))
            } else {
                (cur, accepted, taken)
            },
        }
    }
}

/// Under `Block` the queue is first in, first out, and loses nothing: the
/// items taken, followed by those still queued, are the items queued at the
/// start followed by every accepted push, in order; the queue never holds
/// more than `cap`. So a receiver that drains a queue that started empty
/// gets exactly the accepted items, in the order they were pushed.
pub proof fn lemma_block_fifo<T>(q: Seq<T>, cap: nat, steps: Seq<QueueStep<T>>)
    requires
        q.len() <= cap,
    ensures
        ({
            let (cur, accepted, taken) = spec_run_block(q, cap, steps);
            &&& taken + cur == q + accepted
            &&& cur.len() <= cap
            &&& q.len() == 0 && cur.len() == 0 ==> taken == accepted
        }),
    decreases steps.len(),
{
    if steps.len() > 0 {
        lemma_block_fifo(q, cap, steps.drop_last());
        let (cur, accepted, taken) = spec_run_block(q, cap, steps.drop_last());
        match steps.last() {
            QueueStep::Push(x) => {
                assert(taken + cur.push(x) =~= (taken + cur).push(x));
                assert(q + accepted.push(x) =~= (q + accepted).push(x));
            },
            QueueStep::Take => {
                if cur.len() > 0 {
                    assert(taken.push(cur[0]) + cur.drop_first() =~= taken + cur);
                }
            },
        }
    }
    let (cur, accepted, taken) = spec_run_block(q, cap, steps);
    if q.len() == 0 && cur.len() == 0 {
        assert(taken =~= taken + cur);
        assert(accepted =~= q + accepted);
    }
}

/// Offer `item` to `q` under `policy` (§10.5.3): `DropNewest` drops it
/// when the queue is full, `DropOldest` evicts the oldest queued item to
/// make room, `Block` hands it back to wait for room.
pub fn offer<T>(q: &mut RingQueue<T>, policy: BackPressurePolicy, item: T) -> (r: Offered<T>)
    ensures
        final(q).spec_capacity() == old(q).spec_capacity(),
        final(q).spec_closed() == old(q).spec_closed(),
        old(q)@.len() < old(q).spec_capacity() ==> r is Queued && final(q)@ == old(q)@.push(item),
        old(q)@.len() >= old(q).spec_capacity() ==> match policy {
            BackPressurePolicy::DropNewest => r is Dropped && final(q)@ == old(q)@,
            BackPressurePolicy::DropOldest => r is QueuedEvicting && final(q)@ == old(
                q,
            )@.drop_first().push(item),
            BackPressurePolicy::Block => r == Offered::Full(item) && final(q)@ == old(q)@,
        },
{
    let _ = q.capacity();
    match policy {
        BackPressurePolicy::DropNewest => {
            if q.push_drop_newest(item) {
                Offered::Queued
            } else {
                Offered::Dropped
            }
        },
        BackPressurePolicy::DropOldest => {
            if q.push_drop_oldest(item) {
                Offered::QueuedEvicting
            } else {
                Offered::Queued
            }
        },
        BackPressurePolicy::Block => {
            match q.try_push(item) {
                Ok(()) => Offered::Queued,
                Err(back) => Offered::Full(back),
            }
        },
    }
}

} // verus!
