//! A queue with two ends in a ring of slots.

use crate::collections::bits::popcount;
use vstd::prelude::*;

verus! {

/// The slot that the place `place` of a ring of `capacity` slots falls on,
/// for a place less than one turn past the last slot.
pub open spec fn wrapped(place: int, capacity: int) -> int {
    if place >= capacity {
        place - capacity
    } else {
        place
    }
}

/// A queue with two ends in a ring of `capacity` slots of an array. A push
/// into a full queue does nothing.
pub struct FixedRingBuffer<T, const N: usize> {
    backing: [T; N],
    front: u32,
    rear: u32,
    len: u32,
    capacity: u32,
}

impl<T, const N: usize> View for FixedRingBuffer<T, N> {
    type V = Seq<T>;

    closed spec fn view(&self) -> Seq<T> {
        Seq::new(self.len as nat, |i: int| self.backing@[wrapped(self.front + i, self.capacity as int)])
    }
}

impl<T, const N: usize> FixedRingBuffer<T, N> {
    /// The ring lies within the array, both ends name slots of the ring, and
    /// the rear end is as far behind the front end as the queue is long.
    pub closed spec fn wf(&self) -> bool {
        &&& 0 < self.capacity <= N
        &&& self.len <= self.capacity
        &&& self.front < self.capacity
        &&& self.rear == wrapped(self.front + self.len, self.capacity as int)
    }

    /// The number of slots of the ring.
    pub closed spec fn spec_capacity(&self) -> nat {
        self.capacity as nat
    }

    /// An empty queue in the first `capacity` slots of `backing`. The
    /// capacity is a power of two.
    pub fn new(backing: [T; N], capacity: u32) -> (queue: Self)
        requires
            popcount(capacity as nat) == 1,
            capacity <= N,
        ensures
            queue.wf(),
            queue@ == Seq::<T>::empty(),
            queue.spec_capacity() == capacity,
    {
        let queue = Self { backing, front: 0, rear: 0, len: 0, capacity };
        assert(queue@ =~= Seq::<T>::empty());
        queue
    }

    pub fn len(&self) -> (n: usize)
        ensures
            n == self@.len(),
    {
        self.len as usize
    }

    pub fn is_full(&self) -> (b: bool)
        ensures
            b == (self@.len() >= self.spec_capacity()),
    {
        self.len >= self.capacity
    }

    pub fn is_empty(&self) -> (b: bool)
        ensures
            b == (self@.len() == 0),
    {
        self.len == 0
    }

    /// The slot `offset` places behind `slot` in the ring.
    fn slot_after(&self, slot: u32, offset: u32) -> (next: u32)
        requires
            self.wf(),
            slot < self.capacity,
            offset <= self.capacity,
        ensures
            next == wrapped(slot + offset, self.capacity as int),
            next < self.capacity,
    {
        let sum = slot as u64 + offset as u64;
        if sum >= self.capacity as u64 {
            (sum - self.capacity as u64) as u32
        } else {
            sum as u32
        }
    }

    /// Puts `item` in front of the queue, unless the queue is full.
    pub fn push_front(&mut self, item: T)
        requires
            old(self).wf(),
        ensures
            final(self).wf(),
            final(self).spec_capacity() == old(self).spec_capacity(),
            final(self)@ == if old(self)@.len() < old(self).spec_capacity() {
                seq![item] + old(self)@
            } else {
                old(self)@
            },
    {
        if !self.is_full() {
            self.front = self.slot_after(self.front, self.capacity - 1);
            let front = self.front as usize;
            self.backing[front] = item;
            self.len += 1;
            proof {
                assert(self@ =~= seq![item] + old(self)@);
            }
        }
    }

    /// Takes the value at the front off the queue.
    pub fn pop_front(&mut self) -> (item: Option<&T>)
        requires
            old(self).wf(),
        ensures
            final(self).wf(),
            final(self).spec_capacity() == old(self).spec_capacity(),
            old(self)@.len() == 0 ==> item.is_none() && final(self)@ == old(self)@,
            old(self)@.len() > 0 ==> item == Some(&old(self)@[0]) && final(self)@ == old(
                self,
            )@.subrange(1, old(self)@.len() as int),
    {
        if !self.is_empty() {
            let old_front = self.front as usize;
            self.front = self.slot_after(self.front, 1);
            self.len -= 1;
            proof {
                assert(self@ =~= old(self)@.subrange(1, old(self)@.len() as int));
            }
            Some(&self.backing[old_front])
        } else {
            None
        }
    }

    /// Puts `item` behind the queue, unless the queue is full.
    pub fn push_rear(&mut self, item: T)
        requires
            old(self).wf(),
        ensures
            final(self).wf(),
            final(self).spec_capacity() == old(self).spec_capacity(),
            final(self)@ == if old(self)@.len() < old(self).spec_capacity() {
                old(self)@.push(item)
            } else {
                old(self)@
            },
    {
        if !self.is_full() {
            let rear = self.rear as usize;
            self.backing[rear] = item;
            self.rear = self.slot_after(self.rear, 1);
            self.len += 1;
            proof {
                assert(self@ =~= old(self)@.push(item));
            }
        }
    }

    /// Takes the value at the rear off the queue.
    pub fn pop_rear(&mut self) -> (item: Option<&T>)
        requires
            old(self).wf(),
        ensures
            final(self).wf(),
            final(self).spec_capacity() == old(self).spec_capacity(),
            old(self)@.len() == 0 ==> item.is_none() && final(self)@ == old(self)@,
            old(self)@.len() > 0 ==> item == Some(&old(self)@.last()) && final(self)@ == old(
                self,
            )@.drop_last(),
    {
        if !self.is_empty() {
            let new_rear = self.slot_after(self.rear, self.capacity - 1);
            self.rear = new_rear;
            self.len -= 1;
            proof {
                assert(self@ =~= old(self)@.drop_last());
            }
            Some(&self.backing[new_rear as usize])
        } else {
            None
        }
    }

    /// The values of the queue, front first.
    pub fn iter(&self) -> (values: Vec<&T>)
        requires
            self.wf(),
        ensures
            values@.len() == self@.len(),
            forall|i: int| 0 <= i < self@.len() ==> *#[trigger] values@[i] == self@[i],
    {
        let mut values: Vec<&T> = Vec::new();
        let mut offset: u32 = 0;
        while offset < self.len
            invariant
                self.wf(),
                offset <= self.len,
                values@.len() == offset,
                forall|i: int| 0 <= i < offset ==> *#[trigger] values@[i] == self@[i],
            decreases self.len - offset,
        {
            let slot = self.slot_after(self.front, offset);
            values.push(&self.backing[slot as usize]);
            offset += 1;
        }
        values
    }

    /// Empties the queue.
    pub fn clear(&mut self)
        requires
            old(self).wf(),
        ensures
            final(self).wf(),
            final(self).spec_capacity() == old(self).spec_capacity(),
            final(self)@ == Seq::<T>::empty(),
    {
        self.len = 0;
        self.front = 0;
        self.rear = 0;
        proof {
            assert(self@ =~= Seq::<T>::empty());
        }
    }
}

} // verus!
