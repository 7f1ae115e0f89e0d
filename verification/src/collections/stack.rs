//! A window of the last four values pushed.

use vstd::prelude::*;

verus! {

/// What a [`CircularStack`] holds: its four slots, the most recently pushed
/// first, and the number of values that count as pushed (at most four).
pub struct CircularStackView<T> {
    pub recent: Seq<T>,
    pub len: nat,
}

impl<T> CircularStackView<T> {
    /// The window after `item` was pushed: `item` is the most recent value and
    /// the oldest slot is lost.
    pub open spec fn push(self, item: T) -> CircularStackView<T> {
        CircularStackView {
            recent: seq![item] + self.recent.subrange(0, 3),
            len: if self.len < 4 {
                self.len + 1
            } else {
                4
            },
        }
    }

    /// The window after the most recent value was taken off: the value moves
    /// to the oldest slot.
    pub open spec fn pop(self) -> CircularStackView<T> {
        CircularStackView {
            recent: self.recent.subrange(1, 4) + seq![self.recent[0]],
            len: if self.len > 0 {
                (self.len - 1) as nat
            } else {
                0
            },
        }
    }

    /// The value written `offset` pushes ago, `offset` taken as `len` where it
    /// is larger. With `offset` zero it is the slot that the next push
    /// overwrites.
    pub open spec fn prev(self, offset: nat) -> T {
        let k = if offset > self.len {
            self.len
        } else {
            offset
        };
        self.recent[((k + 3) % 4) as int]
    }

    /// The window after each value of `items` was pushed in turn.
    pub open spec fn push_all(self, items: Seq<T>) -> CircularStackView<T>
        decreases items.len(),
    {
        if items.len() == 0 {
            self
        } else {
            self.push_all(items.drop_last()).push(items.last())
        }
    }
}

/// A window of the last four values pushed. A push into a full window
/// overwrites the oldest value.
#[derive(Clone, Copy)]
pub struct CircularStack<T> {
    data: [T; 4],
    cursor: u32,
    len: u32,
}

impl<T> View for CircularStack<T> {
    type V = CircularStackView<T>;

    closed spec fn view(&self) -> CircularStackView<T> {
        CircularStackView {
            recent: Seq::new(4, |j: int| self.data@[(self.cursor + 3 - j) % 4]),
            len: self.len as nat,
        }
    }
}

impl<T> CircularStack<T> where T: Default + Copy {
    /// The cursor names a slot and at most four values count as pushed.
    pub closed spec fn wf(&self) -> bool {
        self.cursor < 4 && self.len <= 4
    }

    pub fn new() -> (stack: Self)
        ensures
            stack.wf(),
            stack@.len == 0,
            stack@.recent.len() == 4,
            forall|j: int| 0 <= j < 4 ==> call_ensures(T::default, (), #[trigger] stack@.recent[j]),
    {
        Self { data: [T::default(), T::default(), T::default(), T::default()], cursor: 0, len: 0 }
    }

    /// The number of values that count as pushed.
    pub fn len(&self) -> (n: usize)
        requires
            self.wf(),
        ensures
            n == self@.len,
    {
        self.len as usize
    }

    /// Whether no free slot is left, that is whether four values count as
    /// pushed.
    pub fn is_empty(&self) -> (b: bool)
        requires
            self.wf(),
        ensures
            b == (self@.len >= 4),
    {
        self.len >= 4
    }

    pub fn push(&mut self, item: T)
        requires
            old(self).wf(),
        ensures
            final(self).wf(),
            final(self)@ == old(self)@.push(item),
    {
        let idx = self.cursor as usize;
        self.data[idx] = item;
        self.cursor = (self.cursor + 1) % 4;
        self.len = if self.len < 4 {
            self.len + 1
        } else {
            4
        };
        proof {
            assert(self@.recent =~= old(self)@.push(item).recent);
        }
    }

    /// Takes the most recent value off and returns it. On an empty window the
    /// value handed back is whatever the slot holds.
    pub fn pop(&mut self) -> (item: T)
        requires
            old(self).wf(),
        ensures
            final(self).wf(),
            final(self)@ == old(self)@.pop(),
            item == old(self)@.recent[0],
    {
        self.cursor = (self.cursor + 3) % 4;
        self.len = if self.len > 0 {
            self.len - 1
        } else {
            0
        };
        proof {
            assert(self@.recent =~= old(self)@.pop().recent);
        }
        self.data[self.cursor as usize]
    }

    /// The value written `offset` pushes ago; `offset` 1 names the most recent
    /// one.
    pub fn prev(&self, offset: u32) -> (item: T)
        requires
            self.wf(),
        ensures
            item == self@.prev(offset as nat),
    {
        let clamped_offset = if offset > self.len {
            self.len
        } else {
            offset
        };
        let idx = (self.cursor + 4 - clamped_offset) % 4;
        self.data[idx as usize]
    }
}

/// After any values were pushed, the `k`-th most recent of them is what
/// `prev(k)` names, for `k` from 1 up to the number pushed and at most 4.
pub proof fn lemma_prev_is_kth_most_recent<T>(start: CircularStackView<T>, items: Seq<T>, k: nat)
    requires
        start.recent.len() == 4,
        start.len <= 4,
        1 <= k <= items.len(),
        k <= 4,
    ensures
        start.push_all(items).prev(k) == items[items.len() - k],
        start.push_all(items).recent.len() == 4,
        start.push_all(items).len >= k,
        start.push_all(items).len <= 4,
    decreases items.len(),
{
    lemma_push_all_shape(start, items);
    let before = start.push_all(items.drop_last());
    lemma_push_all_shape(start, items.drop_last());
    if k == 1 {
    } else {
        lemma_prev_is_kth_most_recent(start, items.drop_last(), (k - 1) as nat);
    }
}

/// Pushing keeps four slots, and the number of values that count as pushed
/// is the number pushed so far, capped at four.
pub proof fn lemma_push_all_shape<T>(start: CircularStackView<T>, items: Seq<T>)
    requires
        start.recent.len() == 4,
        start.len <= 4,
    ensures
        start.push_all(items).recent.len() == 4,
        start.push_all(items).len == if start.len + items.len() < 4 {
            start.len + items.len()
        } else {
            4
        },
    decreases items.len(),
{
    if items.len() > 0 {
        lemma_push_all_shape(start, items.drop_last());
    }
}

/// Pushing one run of values and then another is pushing the two runs joined.
pub proof fn lemma_push_all_concat<T>(start: CircularStackView<T>, first: Seq<T>, second: Seq<T>)
    ensures
        start.push_all(first).push_all(second) == start.push_all(first + second),
    decreases second.len(),
{
    if second.len() == 0 {
        assert(first + second =~= first);
    } else {
        lemma_push_all_concat(start, first, second.drop_last());
        assert((first + second).drop_last() =~= first + second.drop_last());
    }
}

} // verus!
