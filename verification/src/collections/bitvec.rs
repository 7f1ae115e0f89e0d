//! A vector of bits, packed 64 to a word.

use vstd::prelude::*;

verus! {

/// Bit `i` of the word `w`, counted from the least significant end.
pub open spec fn chunk_bit(w: u64, i: u64) -> bool {
    (w >> i) & 1 == 1
}

/// The word `w` with bit `i` set where `bit` is odd, else cleared.
pub open spec fn chunk_with_bit(w: u64, i: u64, bit: u64) -> u64 {
    (w & !(1u64 << i)) | ((bit & 1) << i)
}

proof fn lemma_chunk_with_bit(w: u64, i: u64, bit: u64, j: u64)
    by (bit_vector)
    requires
        i < 64,
        j < 64,
    ensures
        chunk_bit(chunk_with_bit(w, i, bit), j) == if j == i {
            bit % 2 == 1
        } else {
            chunk_bit(w, j)
        },
{
}

proof fn lemma_chunk_bit_value(w: u64, i: u64)
    by (bit_vector)
    requires
        i < 64,
    ensures
        (w >> i) & 1 == 0 || (w >> i) & 1 == 1,
{
}

/// The first `count` bits that `words` hold, 64 to a word, the lowest first.
pub open spec fn chunks_bits(words: Seq<u64>, count: nat) -> Seq<bool> {
    Seq::new(count, |i: int| chunk_bit(words[i / 64], (i % 64) as u64))
}

/// A vector of bits, kept in 64-bit words, least significant bit first.
pub struct BitVec {
    binary: Vec<u64>,
    bit_cursor: u128,
}

impl View for BitVec {
    type V = Seq<bool>;

    closed spec fn view(&self) -> Seq<bool> {
        chunks_bits(self.binary@, self.bit_cursor as nat)
    }
}

impl BitVec {
    /// Every bit of the vector has its word, and the allocated bits can be
    /// counted in a `usize`.
    pub closed spec fn wf(&self) -> bool {
        &&& self.bit_cursor <= 64 * self.binary@.len()
        &&& 64 * self.binary@.len() <= usize::MAX
    }

    /// The number of bits allocated.
    pub closed spec fn spec_capacity(&self) -> nat {
        64 * self.binary@.len()
    }

    /// The words that hold the bits, for storing the vector elsewhere.
    pub closed spec fn spec_words(&self) -> Seq<u64> {
        self.binary@
    }

    /// An empty vector: no bit, and no word allocated.
    pub fn new() -> (bits: Self)
        ensures
            bits.wf(),
            bits@ == Seq::<bool>::empty(),
            bits.spec_capacity() == 0,
            bits.spec_words() == Seq::<u64>::empty(),
    {
        let bits = Self { binary: Vec::new(), bit_cursor: 0 };
        assert(bits@ =~= Seq::<bool>::empty());
        bits
    }

    /// Empties the vector; the words stay allocated.
    pub fn clear(&mut self)
        requires
            old(self).wf(),
        ensures
            final(self).wf(),
            final(self)@ == Seq::<bool>::empty(),
            final(self).spec_capacity() == old(self).spec_capacity(),
    {
        self.bit_cursor = 0;
        proof {
            assert(self@ =~= Seq::<bool>::empty());
        }
    }

    /// The number of bits in the vector.
    pub fn len(&self) -> (n: usize)
        requires
            self.wf(),
        ensures
            n == self@.len(),
    {
        self.bit_cursor as usize
    }

    /// The number of bits allocated: 64 for each word.
    pub fn capacity(&self) -> (n: usize)
        requires
            self.wf(),
        ensures
            n == self.spec_capacity(),
            self@.len() <= n,
    {
        self.binary.len() * 64
    }

    /// Appends a bit: set where `bit` is odd, else clear.
    pub fn push(&mut self, bit: u64)
        requires
            old(self).wf(),
            old(self)@.len() + 64 <= usize::MAX,
        ensures
            final(self).wf(),
            final(self)@ == old(self)@.push(bit % 2 == 1),
            final(self).spec_capacity() == if old(self)@.len() == old(self).spec_capacity() {
                old(self).spec_capacity() + 64
            } else {
                old(self).spec_capacity()
            },
    {
        let (chunk_idx, chunk_bit_idx) = self.cursor_index_pair();
        if chunk_idx >= self.binary.len() {
            self.binary.push(0);
        }
        let ghost before = self.binary@;
        let chunk = self.binary[chunk_idx];
        self.binary[chunk_idx] = (chunk & !(1u64 << chunk_bit_idx)) | ((bit & 1) << chunk_bit_idx);
        self.offset_cursor(1);
        proof {
            assert forall|i: int| 0 <= i < self@.len() implies self@[i] == old(self)@.push(
                bit % 2 == 1,
            )[i] by {
                if i / 64 == chunk_idx {
                    lemma_chunk_with_bit(chunk, chunk_bit_idx, bit, (i % 64) as u64);
                }
            }
            assert(self@ =~= old(self)@.push(bit % 2 == 1));
        }
    }

    /// The bit at `idx`, as 0 or 1; 0 where the vector has no bit at `idx`.
    pub fn get(&self, idx: usize) -> (bit: u64)
        requires
            self.wf(),
        ensures
            bit == if idx < self@.len() && self@[idx as int] {
                1u64
            } else {
                0u64
            },
    {
        if idx as u128 >= self.bit_cursor {
            return 0;
        }
        let chunk_idx = Self::chunk_index(idx as u128);
        let chunk_bit_idx = Self::chunk_bit_index(idx as u128);
        proof {
            lemma_chunk_bit_value(self.binary@[chunk_idx as int], chunk_bit_idx);
        }
        (self.binary[chunk_idx] >> chunk_bit_idx) & 1
    }

    /// Sets the bit at `idx` where `bit` is odd, else clears it; does nothing
    /// where the vector has no bit at `idx`.
    pub fn set(&mut self, idx: usize, bit: u64)
        requires
            old(self).wf(),
        ensures
            final(self).wf(),
            final(self).spec_capacity() == old(self).spec_capacity(),
            final(self)@ == if idx < old(self)@.len() {
                old(self)@.update(idx as int, bit % 2 == 1)
            } else {
                old(self)@
            },
    {
        if idx as u128 >= self.bit_cursor {
            return ;
        }
        let chunk_idx = Self::chunk_index(idx as u128);
        let chunk_bit_idx = Self::chunk_bit_index(idx as u128);
        let chunk = self.binary[chunk_idx];
        self.binary[chunk_idx] = (chunk & !(1u64 << chunk_bit_idx)) | ((bit & 1) << chunk_bit_idx);
        proof {
            assert forall|i: int| 0 <= i < self@.len() implies self@[i] == old(self)@.update(
                idx as int,
                bit % 2 == 1,
            )[i] by {
                if i / 64 == chunk_idx {
                    lemma_chunk_with_bit(chunk, chunk_bit_idx, bit, (i % 64) as u64);
                }
            }
            assert(self@ =~= old(self)@.update(idx as int, bit % 2 == 1));
        }
    }

    fn cursor_index_pair(&self) -> (pair: (usize, u64))
        requires
            self.wf(),
        ensures
            pair.0 == self.bit_cursor / 64,
            pair.1 == self.bit_cursor % 64,
    {
        let idx = self.bit_cursor;
        (Self::chunk_index(idx), Self::chunk_bit_index(idx))
    }

    fn chunk_index(idx: u128) -> (i: usize)
        requires
            idx <= usize::MAX,
        ensures
            i == idx / 64,
    {
        (idx / 64) as usize
    }

    fn chunk_bit_index(idx: u128) -> (i: u64)
        ensures
            i == idx % 64,
    {
        (idx % 64) as u64
    }

    fn offset_cursor(&mut self, offset: i64)
        requires
            0 <= old(self).bit_cursor + offset <= u64::MAX,
        ensures
            final(self).bit_cursor == old(self).bit_cursor + offset,
            final(self).binary == old(self).binary,
    {
        self.bit_cursor = (self.bit_cursor as i128 + offset as i128) as u128;
    }

    /// The bits of the vector in order, each as 0 or 1.
    pub fn iter(&self) -> (values: Vec<u64>)
        requires
            self.wf(),
        ensures
            values@.len() == self@.len(),
            forall|i: int|
                0 <= i < self@.len() ==> #[trigger] values@[i] == if self@[i] {
                    1u64
                } else {
                    0u64
                },
    {
        let mut values: Vec<u64> = Vec::new();
        let mut idx: usize = 0;
        while idx < self.len()
            invariant
                self.wf(),
                idx <= self@.len(),
                values@.len() == idx,
                forall|i: int|
                    0 <= i < idx ==> #[trigger] values@[i] == if self@[i] {
                        1u64
                    } else {
                        0u64
                    },
            decreases self@.len() - idx,
        {
            values.push(self.get(idx));
            idx += 1;
        }
        values
    }

    /// The number of bits that must be allocated to keep `num_bits` bits:
    /// `num_bits` rounded up to a multiple of 64.
    pub fn compute_bits_required(num_bits: u64) -> (n: usize)
        requires
            num_bits + 63 <= usize::MAX,
        ensures
            n == ((num_bits + 63) / 64) * 64,
    {
        let partial: u64 = if num_bits % 64 == 0 {
            0
        } else {
            1
        };
        (((num_bits / 64) + partial) * 64) as usize
    }

    /// A valid vector is made of its words: they hold its bits, 64 to a
    /// word.
    pub proof fn lemma_view_words(&self)
        requires
            self.wf(),
        ensures
            self@ == chunks_bits(self.spec_words(), self@.len()),
            self@.len() <= 64 * self.spec_words().len() <= usize::MAX,
    {
    }

    /// The words that hold the bits, for storing the vector elsewhere.
    pub fn words(&self) -> (words: &Vec<u64>)
        ensures
            words@ == self.spec_words(),
    {
        &self.binary
    }

    /// Builds a vector from what was stored of one: its words and the number
    /// of its bits. Returns `None` where the words are too few for the bits,
    /// or hold more bits than a `usize` counts.
    pub fn from_raw(binary: Vec<u64>, bit_cursor: u128) -> (bits: Option<Self>)
        ensures
            match bits {
                None => bit_cursor > 64 * binary@.len() || 64 * binary@.len() > usize::MAX,
                Some(bits) => {
                    &&& bit_cursor <= 64 * binary@.len() <= usize::MAX
                    &&& bits.wf()
                    &&& bits.spec_words() == binary@
                    &&& bits@ == chunks_bits(binary@, bit_cursor as nat)
                },
            },
    {
        let allocated = 64 * (binary.len() as u128);
        if bit_cursor > allocated || allocated > usize::MAX as u128 {
            return None;
        }
        Some(Self { binary, bit_cursor })
    }
}

} // verus!
