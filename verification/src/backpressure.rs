//! Bounded, drop-oldest buffer — the core's backpressure valve.
//!
//! The network may be slower than the encoder for a moment. The queue never
//! grows without bound: when full, the oldest packet is dropped. Dropping old
//! data reduces latency and keeps memory flat. The engine decides which
//! packets are sacrificial (keyframes are kept, so a viewer can resync).

use std::collections::VecDeque;

use vstd::prelude::*;

use crate::figures::{ratio, ratio_of};

verus! {

/// Generic bounded ring buffer that evicts the *oldest* item when full.
#[derive(Debug, Clone)]
pub struct BoundedBuffer<T> {
    queue: VecDeque<T>,
    capacity: usize,
    dropped: u64,
    pushed: u64,
}

/// What one insertion makes of the queued items: the oldest leaves when
/// `capacity` items are already there, and the new one is always kept.
pub open spec fn pushed_onto<T>(items: Seq<T>, capacity: nat, item: T) -> Seq<T> {
    if items.len() >= capacity && items.len() > 0 {
        items.drop_first().push(item)
    } else {
        items.push(item)
    }
}

/// A buffer as a mathematical value.
#[verifier::ext_equal]
pub struct BufferView<T> {
    /// What is queued, the oldest first.
    pub items: Seq<T>,
    /// How many items fit before eviction starts.
    pub capacity: nat,
    /// Items accepted so far.
    pub pushed: nat,
    /// Items evicted or discarded so far.
    pub dropped: nat,
}

/// What is done to a buffer.
pub enum BufferOp<T> {
    /// An item is inserted.
    Push(T),
    /// The newest item is taken.
    PopFreshest,
    /// The oldest item is taken.
    PopOldest,
    /// Items go back to the front.
    Restore(Seq<T>),
    /// The oldest items, this many, are discarded.
    Discard(nat),
    /// An item that is not queued is counted as dropped.
    RecordDrop,
}

impl<T> BufferView<T> {
    /// A buffer in which nothing has been queued.
    pub open spec fn fresh(capacity: nat) -> BufferView<T> {
        BufferView { items: Seq::empty(), capacity, pushed: 0, dropped: 0 }
    }

    /// The buffer once something has been done to it.
    pub open spec fn after(self, op: BufferOp<T>) -> BufferView<T> {
        match op {
            BufferOp::Push(item) => BufferView {
                items: pushed_onto(self.items, self.capacity, item),
                pushed: self.pushed + 1,
                dropped: self.dropped + if self.items.len() > 0 && self.items.len()
                    >= self.capacity {
                    1nat
                } else {
                    0
                },
                ..self
            },
            BufferOp::PopFreshest => if self.items.len() > 0 {
                BufferView { items: self.items.drop_last(), ..self }
            } else {
                self
            },
            BufferOp::PopOldest => if self.items.len() > 0 {
                BufferView { items: self.items.drop_first(), ..self }
            } else {
                self
            },
            BufferOp::Restore(items) => BufferView { items: items + self.items, ..self },
            BufferOp::Discard(n) => BufferView {
                items: self.items.skip(n as int),
                dropped: self.dropped + n,
                ..self
            },
            BufferOp::RecordDrop => BufferView { dropped: self.dropped + 1, ..self },
        }
    }

    /// True if the operation can be done: no more is discarded than is queued.
    pub open spec fn allows(self, op: BufferOp<T>) -> bool {
        op matches BufferOp::Discard(n) ==> n <= self.items.len()
    }
}

/// The buffer behind a run of operations.
pub open spec fn buffer_run<T>(b: BufferView<T>, ops: Seq<BufferOp<T>>) -> BufferView<T>
    decreases ops.len(),
{
    if ops.len() == 0 {
        b
    } else {
        buffer_run(b, ops.drop_last()).after(ops.last())
    }
}

/// True if every operation of a run can be done.
pub open spec fn run_allowed<T>(b: BufferView<T>, ops: Seq<BufferOp<T>>) -> bool
    decreases ops.len(),
{
    ops.len() > 0 ==> run_allowed(b, ops.drop_last()) && buffer_run(b, ops.drop_last()).allows(
        ops.last(),
    )
}

/// How many items came out in a run.
pub open spec fn popped<T>(b: BufferView<T>, ops: Seq<BufferOp<T>>) -> nat
    decreases ops.len(),
{
    if ops.len() == 0 {
        0
    } else {
        popped(b, ops.drop_last()) + if (ops.last() is PopFreshest || ops.last() is PopOldest)
            && buffer_run(b, ops.drop_last()).items.len() > 0 {
            1nat
        } else {
            0
        }
    }
}

/// How many items went back, and how many drops were recorded, in a run.
pub open spec fn credited<T>(ops: Seq<BufferOp<T>>) -> nat
    decreases ops.len(),
{
    if ops.len() == 0 {
        0
    } else {
        credited(ops.drop_last()) + match ops.last() {
            BufferOp::Restore(items) => items.len(),
            BufferOp::RecordDrop => 1nat,
            _ => 0,
        }
    }
}

/// Nothing gets lost unseen: what was pushed, was put back or was recorded as
/// dropped is still queued, has been popped, or is counted as dropped; and the
/// count of drops never goes back.
pub proof fn items_are_conserved<T>(capacity: nat, ops: Seq<BufferOp<T>>)
    requires
        run_allowed(BufferView::fresh(capacity), ops),
    ensures
        ({
            let start = BufferView::<T>::fresh(capacity);
            let b = buffer_run(start, ops);
            &&& b.pushed + credited(ops) == b.items.len() + popped(start, ops) + b.dropped
            &&& ops.len() > 0 ==> b.dropped >= buffer_run(start, ops.drop_last()).dropped
        }),
    decreases ops.len(),
{
    if ops.len() > 0 {
        items_are_conserved(capacity, ops.drop_last());
    }
}

/// As long as nothing goes back to the front, a buffer never holds more than its
/// capacity, which is at least one.
pub proof fn buffers_stay_bounded<T>(capacity: nat, ops: Seq<BufferOp<T>>)
    requires
        capacity >= 1,
        run_allowed(BufferView::fresh(capacity), ops),
        forall|i: int| 0 <= i < ops.len() ==> !(#[trigger] ops[i] is Restore),
    ensures
        buffer_run(BufferView::<T>::fresh(capacity), ops).items.len() <= capacity,
        buffer_run(BufferView::<T>::fresh(capacity), ops).capacity == capacity,
    decreases ops.len(),
{
    if ops.len() > 0 {
        let before = ops.drop_last();
        assert forall|i: int| 0 <= i < before.len() implies !(#[trigger] before[i] is Restore) by {
            assert(before[i] == ops[i]);
        }
        buffers_stay_bounded(capacity, before);
        assert(!(ops[ops.len() - 1] is Restore));
    }
}

/// The operations that insert these items, one by one.
pub open spec fn pushes<T>(items: Seq<T>) -> Seq<BufferOp<T>> {
    items.map_values(|item: T| BufferOp::Push(item))
}

/// A buffer keeps the newest items, in order: the last `capacity` of all that were
/// inserted. The others have been dropped, and counted.
pub proof fn buffers_keep_the_newest<T>(capacity: nat, items: Seq<T>)
    requires
        capacity >= 1,
    ensures
        ({
            let b = buffer_run(BufferView::<T>::fresh(capacity), pushes(items));
            let over = if items.len() > capacity {
                items.len() - capacity
            } else {
                0
            };
            &&& b.items == items.skip(over)
            &&& b.pushed == items.len()
            &&& b.dropped == over
            &&& b.capacity == capacity
        }),
    decreases items.len(),
{
    let b = buffer_run(BufferView::<T>::fresh(capacity), pushes(items));
    if items.len() == 0 {
        assert(b.items =~= items.skip(0));
    } else {
        buffers_keep_the_newest(capacity, items.drop_last());
        assert(pushes(items).drop_last() =~= pushes(items.drop_last()));
        assert(pushes(items).last() == BufferOp::Push(items.last()));
        let over = if items.len() > capacity {
            items.len() - capacity
        } else {
            0
        };
        assert(b.items =~= items.skip(over));
    }
}

/// What was taken can be put back: the oldest item to the front, the freshest by
/// inserting it again. Neither counts as dropped.
pub proof fn taken_items_can_be_put_back<T>(b: BufferView<T>)
    requires
        0 < b.items.len() <= b.capacity,
    ensures
        b.after(BufferOp::PopOldest).after(BufferOp::Restore(seq![b.items[0]])) == b,
        ({
            let c = b.after(BufferOp::PopFreshest).after(BufferOp::Push(b.items.last()));
            c.items == b.items && c.dropped == b.dropped && c.pushed == b.pushed + 1
        }),
{
    assert(seq![b.items[0]] + b.items.drop_first() =~= b.items);
    assert(b.items.drop_last().push(b.items.last()) =~= b.items);
    assert(b.after(BufferOp::PopOldest).after(BufferOp::Restore(seq![b.items[0]])) =~= b);
}

impl<T> View for BoundedBuffer<T> {
    type V = Seq<T>;

    closed spec fn view(&self) -> Seq<T> {
        self.queue@
    }
}

impl<T> BoundedBuffer<T> {
    /// How many items fit before eviction starts.
    pub closed spec fn spec_capacity(&self) -> nat {
        self.capacity as nat
    }

    /// Items evicted or discarded so far.
    pub closed spec fn spec_dropped(&self) -> nat {
        self.dropped as nat
    }

    /// Items accepted so far.
    pub closed spec fn spec_pushed(&self) -> nat {
        self.pushed as nat
    }

    /// The buffer as a mathematical value.
    pub open spec fn state(&self) -> BufferView<T> {
        BufferView {
            items: self@,
            capacity: self.spec_capacity(),
            pushed: self.spec_pushed(),
            dropped: self.spec_dropped(),
        }
    }

    /// Create a buffer that holds at most `capacity` packets before evicting.
    pub fn new(capacity: usize) -> (b: Self)
        ensures
            b@ == Seq::<T>::empty(),
            b.spec_capacity() == capacity,
            b.spec_dropped() == 0,
            b.spec_pushed() == 0,
            b.state() == BufferView::<T>::fresh(capacity as nat),
    {
        BoundedBuffer { queue: VecDeque::new(), capacity, dropped: 0, pushed: 0 }
    }

    /// Insert `item`. If the buffer is full, the oldest item is evicted and
    /// counted as dropped. The just-inserted item is always retained.
    pub fn push(&mut self, item: T)
        requires
            old(self).spec_pushed() < u64::MAX,
            old(self)@.len() > 0 && old(self)@.len() >= old(self).spec_capacity() ==> old(
                self,
            ).spec_dropped() < u64::MAX,
        ensures
            final(self).state() == old(self).state().after(BufferOp::Push(item)),
            final(self)@ == pushed_onto(old(self)@, old(self).spec_capacity(), item),
            final(self).spec_capacity() == old(self).spec_capacity(),
            final(self).spec_pushed() == old(self).spec_pushed() + 1,
            final(self).spec_dropped() == old(self).spec_dropped() + (if old(self)@.len() > 0
                && old(self)@.len() >= old(self).spec_capacity() {
                1int
            } else {
                0
            }),
    {
        self.pushed = self.pushed + 1;
        if self.queue.len() >= self.capacity {
            if self.queue.pop_front().is_some() {
                self.dropped = self.dropped + 1;
            }
        }
        self.queue.push_back(item);
        assert(self@ =~= pushed_onto(old(self)@, old(self).spec_capacity(), item));
    }

    /// Pop the newest item (LIFO).
    pub fn pop_freshest(&mut self) -> (item: Option<T>)
        ensures
            final(self).state() == old(self).state().after(BufferOp::PopFreshest),
            item == (if old(self)@.len() > 0 {
                Some(old(self)@.last())
            } else {
                None
            }),
            final(self)@ == (if old(self)@.len() > 0 {
                old(self)@.drop_last()
            } else {
                old(self)@
            }),
            final(self).spec_capacity() == old(self).spec_capacity(),
            final(self).spec_pushed() == old(self).spec_pushed(),
            final(self).spec_dropped() == old(self).spec_dropped(),
    {
        self.queue.pop_back()
    }

    /// Pop the oldest item (FIFO) — normal in-order delivery.
    pub fn pop_oldest(&mut self) -> (item: Option<T>)
        ensures
            final(self).state() == old(self).state().after(BufferOp::PopOldest),
            item == (if old(self)@.len() > 0 {
                Some(old(self)@.first())
            } else {
                None
            }),
            final(self)@ == (if old(self)@.len() > 0 {
                old(self)@.drop_first()
            } else {
                old(self)@
            }),
            final(self).spec_capacity() == old(self).spec_capacity(),
            final(self).spec_pushed() == old(self).spec_pushed(),
            final(self).spec_dropped() == old(self).spec_dropped(),
    {
        self.queue.pop_front()
    }

    /// Return items to the **front** of the buffer, preserving their order.
    /// Used when a send fails partway through a batch: the unsent packets go
    /// back to the head of the line instead of being lost. Not counted as
    /// pushes; the caller only restores what it previously drained.
    pub fn restore_front(&mut self, items: Vec<T>)
        ensures
            final(self).state() == old(self).state().after(BufferOp::Restore(items@)),
            final(self)@ == items@ + old(self)@,
            final(self).spec_capacity() == old(self).spec_capacity(),
            final(self).spec_pushed() == old(self).spec_pushed(),
            final(self).spec_dropped() == old(self).spec_dropped(),
    {
        let ghost all = items@;
        let mut left: Vec<T> = items;
        while left.len() > 0
            invariant
                left@ + self@ == all + old(self)@,
                self.spec_capacity() == old(self).spec_capacity(),
                self.spec_pushed() == old(self).spec_pushed(),
                self.spec_dropped() == old(self).spec_dropped(),
            decreases left@.len(),
        {
            let ghost before = left@ + self@;
            if let Some(item) = left.pop() {
                self.queue.push_front(item);
            }
            assert(left@ + self@ =~= before);
        }
        assert(left@ + self@ =~= self@);
    }

    /// When behind, discard everything up to (but not including) the newest
    /// keyframe. The keyframe and all newer packets stay in the buffer, so a
    /// normal drain resumes from a clean decode point. Returns how many
    /// packets were discarded.
    pub fn resync_keep_latest_keyframe<F: Fn(&T) -> bool>(&mut self, is_key: F) -> (discarded: u64)
        requires
            forall|x: &T| #[trigger] call_requires(is_key, (x,)),
            old(self).spec_dropped() + old(self)@.len() <= u64::MAX,
        ensures
            final(self).state() == old(self).state().after(BufferOp::Discard(discarded as nat)),
            final(self).spec_capacity() == old(self).spec_capacity(),
            final(self).spec_pushed() == old(self).spec_pushed(),
            final(self).spec_dropped() == old(self).spec_dropped() + discarded,
            discarded == 0 || discarded < old(self)@.len(),
            final(self)@ == old(self)@.skip(discarded as int),
            discarded > 0 ==> call_ensures(is_key, (&old(self)@[discarded as int],), true),
            forall|i: int|
                discarded < i < old(self)@.len() ==> call_ensures(
                    is_key,
                    (&#[trigger] old(self)@[i],),
                    false,
                ),
    {
        let n: usize = self.queue.len();
        let mut i: usize = n;
        while i > 0
            invariant
                i <= n,
                n == self@.len(),
                *self == *old(self),
                forall|x: &T| #[trigger] call_requires(is_key, (x,)),
                forall|k: int|
                    i <= k < n ==> call_ensures(is_key, (&#[trigger] old(self)@[k],), false),
                old(self).spec_dropped() + old(self)@.len() <= u64::MAX,
            decreases i,
        {
            let at: usize = i - 1;
            let key: bool = is_key(&self.queue[at]);
            if key {
                let kept = self.queue.split_off(at);
                self.queue = kept;
                self.dropped = self.dropped + at as u64;
                assert(self@ =~= old(self)@.skip(at as int));
                return at as u64;
            }
            i = at;
        }
        assert(self@ =~= old(self)@.skip(0));
        0
    }

    /// Peek at the oldest buffered packet, if any.
    pub fn front(&self) -> (item: Option<&T>)
        ensures
            item == (if self@.len() > 0 {
                Some(&self@.first())
            } else {
                None
            }),
    {
        if self.queue.len() > 0 {
            Some(&self.queue[0])
        } else {
            None
        }
    }

    /// Count one packet as dropped without touching the queue — for packets
    /// the engine discards during a drain (e.g. an inter-frame orphaned by a
    /// reconnect, when the buffer held no keyframe to resume from).
    pub fn record_drop(&mut self)
        requires
            old(self).spec_dropped() < u64::MAX,
        ensures
            final(self).state() == old(self).state().after(BufferOp::RecordDrop),
            final(self)@ == old(self)@,
            final(self).spec_capacity() == old(self).spec_capacity(),
            final(self).spec_pushed() == old(self).spec_pushed(),
            final(self).spec_dropped() == old(self).spec_dropped() + 1,
    {
        self.dropped = self.dropped + 1;
    }

    /// Number of packets currently held.
    pub fn len(&self) -> (n: usize)
        ensures
            n == self@.len(),
    {
        self.queue.len()
    }

    /// True when no packets are buffered.
    pub fn is_empty(&self) -> (empty: bool)
        ensures
            empty == (self@.len() == 0),
    {
        self.queue.len() == 0
    }

    /// Peek at the newest buffered packet, if any.
    pub fn last(&self) -> (item: Option<&T>)
        ensures
            item == (if self@.len() > 0 {
                Some(&self@.last())
            } else {
                None
            }),
    {
        let n: usize = self.queue.len();
        if n > 0 {
            Some(&self.queue[n - 1])
        } else {
            None
        }
    }

    /// Total packets evicted since creation.
    pub fn dropped(&self) -> (n: u64)
        ensures
            n == self.spec_dropped(),
    {
        self.dropped
    }

    /// Total packets accepted since creation.
    pub fn pushed(&self) -> (n: u64)
        ensures
            n == self.spec_pushed(),
    {
        self.pushed
    }

    /// Fraction of pushed packets that were dropped, from 0 to 1: the bit pattern
    /// of a double.
    pub fn drop_ratio(&self) -> (r: u64)
        ensures
            r == ratio(self.spec_dropped() as u64, self.spec_pushed() as u64),
    {
        ratio_of(self.dropped, self.pushed)
    }

    /// Maximum number of packets the buffer holds before evicting.
    pub fn capacity(&self) -> (n: usize)
        ensures
            n == self.spec_capacity(),
    {
        self.capacity
    }
}

} // verus!
