//! A list of 4-bit values, packed two to a byte.

use vstd::prelude::*;

verus! {

/// A list of 4-bit values, two to a byte, the first of a pair in the low
/// half.
pub struct NibbleList {
    data: Vec<u8>,
    nibble_count: u32,
}

impl View for NibbleList {
    type V = Seq<u8>;

    closed spec fn view(&self) -> Seq<u8> {
        nibbles_of(self.data@, self.nibble_count as nat)
    }
}

/// The low half of `byte` where `half` is 0, else its high half.
pub open spec fn nibble_of(byte: u8, half: int) -> u8 {
    if half == 0 {
        byte % 16
    } else {
        byte / 16
    }
}

/// The first `count` values of 4 bits that `data` holds, two to a byte, the
/// first of a pair in the low half.
pub open spec fn nibbles_of(data: Seq<u8>, count: nat) -> Seq<u8> {
    Seq::new(count, |i: int| nibble_of(data[i / 2], i % 2))
}

impl NibbleList {
    /// Every value of the list has its byte.
    pub closed spec fn wf(&self) -> bool {
        self.nibble_count <= 2 * self.data@.len()
    }

    /// The bytes that hold the values, for storing the list elsewhere.
    pub closed spec fn spec_data(&self) -> Seq<u8> {
        self.data@
    }

    /// An empty list: no value, and no byte allocated.
    pub fn new() -> (list: Self)
        ensures
            list.wf(),
            list@ == Seq::<u8>::empty(),
            list.spec_data() == Seq::<u8>::empty(),
    {
        let list = Self { data: Vec::new(), nibble_count: 0 };
        assert(list@ =~= Seq::<u8>::empty());
        list
    }

    pub fn is_empty(&self) -> (b: bool)
        ensures
            b == (self@.len() == 0),
    {
        self.nibble_count == 0
    }

    pub fn len(&self) -> (n: usize)
        ensures
            n == self@.len(),
    {
        self.nibble_count as usize
    }

    /// Appends the low four bits of `val`.
    pub fn push(&mut self, val: u8)
        requires
            old(self).wf(),
            old(self)@.len() < u32::MAX,
        ensures
            final(self).wf(),
            final(self)@ == old(self)@.push(val % 16),
    {
        let block_idx = (self.nibble_count / 2) as usize;
        let nibble_idx = self.nibble_count % 2;
        if block_idx >= self.data.len() {
            self.data.push(0);
        }
        let byte = self.data[block_idx];
        self.data[block_idx] = if nibble_idx == 0 {
            (byte / 16) * 16 + val % 16
        } else {
            byte % 16 + (val % 16) * 16
        };
        self.nibble_count += 1;
        proof {
            assert(self@ =~= old(self)@.push(val % 16));
        }
    }

    /// The value at `idx`, or 0 where the list has none.
    pub fn get(&self, idx: usize) -> (val: u8)
        requires
            self.wf(),
        ensures
            val == if idx < self@.len() {
                self@[idx as int]
            } else {
                0
            },
    {
        if idx >= self.nibble_count as usize {
            return 0;
        }
        let byte = self.data[idx / 2];
        if idx % 2 == 0 {
            byte % 16
        } else {
            byte / 16
        }
    }

    /// Puts the low four bits of `val` at `idx`; does nothing where the list
    /// has no value at `idx`.
    pub fn set(&mut self, idx: usize, val: u8)
        requires
            old(self).wf(),
        ensures
            final(self).wf(),
            final(self)@ == if idx < old(self)@.len() {
                old(self)@.update(idx as int, val % 16)
            } else {
                old(self)@
            },
    {
        if idx >= self.nibble_count as usize {
            return ;
        }
        let block_idx = idx / 2;
        let byte = self.data[block_idx];
        self.data[block_idx] = if idx % 2 == 0 {
            (byte / 16) * 16 + val % 16
        } else {
            byte % 16 + (val % 16) * 16
        };
        proof {
            assert(self@ =~= old(self)@.update(idx as int, val % 16));
        }
    }

    /// Empties the list; the bytes stay allocated.
    pub fn clear(&mut self)
        requires
            old(self).wf(),
        ensures
            final(self).wf(),
            final(self)@ == Seq::<u8>::empty(),
    {
        self.nibble_count = 0;
        proof {
            assert(self@ =~= Seq::<u8>::empty());
        }
    }

    /// The values of the list, in order.
    pub fn iter(&self) -> (values: Vec<u8>)
        requires
            self.wf(),
        ensures
            values@ == self@,
    {
        let mut values: Vec<u8> = Vec::new();
        let mut idx: usize = 0;
        while idx < self.len()
            invariant
                self.wf(),
                idx <= self@.len(),
                values@ == self@.subrange(0, idx as int),
            decreases self@.len() - idx,
        {
            values.push(self.get(idx));
            proof {
                assert(values@ =~= self@.subrange(0, idx + 1));
            }
            idx += 1;
        }
        proof {
            assert(values@ =~= self@);
        }
        values
    }

    /// A valid list is made of its bytes: they hold its values, two to a
    /// byte.
    pub proof fn lemma_view_data(&self)
        requires
            self.wf(),
        ensures
            self@ == nibbles_of(self.spec_data(), self@.len()),
            self@.len() <= 2 * self.spec_data().len(),
            self@.len() <= u32::MAX,
            forall|i: int| 0 <= i < self@.len() ==> #[trigger] self@[i] < 16,
    {
    }

    /// The bytes that hold the values, for storing the list elsewhere.
    pub fn data(&self) -> (data: &Vec<u8>)
        ensures
            data@ == self.spec_data(),
    {
        &self.data
    }

    /// Builds a list from what was stored of one: its bytes and the number
    /// of its values. Returns `None` where the bytes are too few for the
    /// values.
    pub fn from_raw(data: Vec<u8>, nibble_count: u32) -> (list: Option<Self>)
        ensures
            match list {
                None => nibble_count > 2 * data@.len(),
                Some(list) => {
                    &&& nibble_count <= 2 * data@.len()
                    &&& list.wf()
                    &&& list.spec_data() == data@
                    &&& list@ == nibbles_of(data@, nibble_count as nat)
                },
            },
    {
        if (nibble_count as u64 + 1) / 2 > data.len() as u64 {
            return None;
        }
        Some(Self { data, nibble_count })
    }
}

} // verus!
