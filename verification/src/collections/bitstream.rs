//! The bit stream: a run of bits with one cursor, read and written in
//! fields of up to 128 bits and in Rice codes.

use crate::collections::bits::{
    bits_of, lemma_bit_shr, lemma_low_mask_is_ones, lemma_popcount_bound, lemma_splice_high_bit,
    lemma_splice_low_bit, lemma_value_of_bound, lemma_value_of_injective, lemma_window_bit,
    lemma_word_bit_is_nth_bit, lemma_word_is_value_of_low_bits, low_mask, ones, popcount,
    value_of, window, word_bit,
};
use crate::collections::rice::{
    capped_code, divisor_exponent, lemma_ones_run_covers, lemma_ones_run_skip,
    lemma_rice_code_len, lemma_write_seq_concat, rice_code,
};
use vstd::arithmetic::div_mod::lemma_fundamental_div_mod_converse;
use vstd::arithmetic::power2::{lemma2_to64, pow2};
use vstd::bits::{lemma_u16_shl_is_mul, lemma_u64_shl_is_mul};
use vstd::layout::size_of;
use vstd::prelude::*;
use vstd::std_specs::convert::FromSpec;

verus! {

/// The largest value that the capped code stores without clamping.
pub const CAPPED_MAX: i16 = 8191;

/// The smallest value that the capped code stores without clamping.
pub const CAPPED_MIN: i16 = -8192;

/// What a [`BitStream`] holds: its bits up to the high-water mark, first bit
/// first, and the place of its cursor.
pub struct BitStreamView {
    pub bits: Seq<bool>,
    pub cursor: nat,
}

impl BitStreamView {
    /// The bit at place `i`; every place outside the stream reads as clear.
    pub open spec fn bit(self, i: int) -> bool {
        0 <= i < self.bits.len() && self.bits[i]
    }

    /// The same bits with the cursor at `cursor`.
    pub open spec fn seek(self, cursor: nat) -> BitStreamView {
        BitStreamView { bits: self.bits, cursor }
    }

    /// The same bits with the cursor `n` places further on.
    pub open spec fn advance(self, n: nat) -> BitStreamView {
        self.seek(self.cursor + n)
    }

    /// The stream after `s` was written at the cursor: the bits of `s` stand
    /// from the cursor on, every other bit is as before, the cursor is behind
    /// `s`, and the high-water mark is at least at the cursor. Writing
    /// nothing changes nothing.
    pub open spec fn write_seq(self, s: Seq<bool>) -> BitStreamView {
        let end = self.cursor + s.len();
        if s.len() == 0 {
            self
        } else {
            BitStreamView {
                bits: Seq::new(
                    if end > self.bits.len() {
                        end
                    } else {
                        self.bits.len()
                    },
                    |i: int|
                        if self.cursor <= i < end {
                            s[i - self.cursor]
                        } else {
                            self.bit(i)
                        },
                ),
                cursor: end,
            }
        }
    }

    /// The stream after the low `n` bits of `value` were written at the cursor.
    pub open spec fn write(self, value: nat, n: nat) -> BitStreamView {
        self.write_seq(bits_of(value, n))
    }

    /// The `n` bits from the cursor on.
    pub open spec fn window(self, n: nat) -> Seq<bool> {
        Seq::new(n, |j: int| self.bit(self.cursor + j))
    }

    /// The number that the `n` bits from the cursor on spell.
    pub open spec fn peek(self, n: nat) -> nat {
        value_of(self.window(n))
    }

    /// The stream with every bit cleared.
    pub open spec fn zeroed(self) -> BitStreamView {
        BitStreamView { bits: Seq::new(self.bits.len(), |i: int| false), cursor: self.cursor }
    }

    /// The stream with its high-water mark raised to `mark` if it was below.
    pub open spec fn raised(self, mark: nat) -> BitStreamView {
        BitStreamView {
            bits: Seq::new(
                if mark > self.bits.len() {
                    mark
                } else {
                    self.bits.len()
                },
                |i: int| self.bit(i),
            ),
            cursor: self.cursor,
        }
    }
}

/// An ordered sequence of bits with one cursor and a high-water mark, kept in
/// 128-bit words, least significant bit first.
pub struct BitStream {
    binary: Vec<u128>,
    bit_cursor: u128,
    capacity: u128,
}

impl View for BitStream {
    type V = BitStreamView;

    closed spec fn view(&self) -> BitStreamView {
        BitStreamView {
            bits: Seq::new(self.capacity as nat, |p: int| self.stored_bit(p)),
            cursor: self.bit_cursor as nat,
        }
    }
}

/// The bit at place `p` of a run of words, each word holding 128 places
/// with the lowest first; clear where no word reaches.
pub open spec fn words_bit(words: Seq<u128>, p: int) -> bool {
    0 <= p < words.len() * 128 && word_bit(words[p / 128], (p % 128) as u128)
}

/// Whether words, a cursor and a high-water mark make a stream: the cursor
/// and the mark are places that a `usize` names, and no bit is set at or
/// above the mark.
pub open spec fn raw_valid(words: Seq<u128>, bit_cursor: u128, capacity: u128) -> bool {
    &&& bit_cursor <= usize::MAX
    &&& capacity <= usize::MAX
    &&& forall|p: int| capacity <= p ==> !#[trigger] words_bit(words, p)
}

/// The mask that keeps the low `n` bits of a word.
fn mask_of(n: u128) -> (m: u128)
    requires
        n <= 128,
    ensures
        m == low_mask(n),
{
    if n >= 128 {
        !0u128
    } else {
        assert((1u128 << n) >= 1) by (bit_vector)
            requires
                n < 128,
        ;
        (1u128 << n) - 1
    }
}

impl BitStream {
    /// The bit kept at place `p` of the words; clear where no word reaches.
    pub closed spec fn stored_bit(&self, p: int) -> bool {
        words_bit(self.binary@, p)
    }

    /// The cursor and the high-water mark are places that a `usize` can name,
    /// and no bit is set at or above the high-water mark.
    pub closed spec fn wf(&self) -> bool {
        &&& self.bit_cursor <= usize::MAX
        &&& self.capacity <= usize::MAX
        &&& forall|p: int| self.capacity <= p ==> !#[trigger] self.stored_bit(p)
    }

    /// The words that hold the bits, for storing the stream elsewhere.
    pub closed spec fn spec_words(&self) -> Seq<u128> {
        self.binary@
    }

    /// In a valid stream the cursor and the high-water mark are places that
    /// a `usize` names.
    pub proof fn lemma_wf_view(&self)
        requires
            self.wf(),
        ensures
            self@.cursor <= usize::MAX,
            self@.bits.len() <= usize::MAX,
    {
    }

    /// A valid stream is made of its words: they hold no bit at or above
    /// the high-water mark, and below it the bits of the stream.
    pub proof fn lemma_view_words(&self)
        requires
            self.wf(),
        ensures
            raw_valid(self.spec_words(), self@.cursor as u128, self@.bits.len() as u128),
            self@.bits == Seq::new(self@.bits.len(), |p: int| words_bit(self.spec_words(), p)),
    {
        assert forall|p: int| self@.bits.len() <= p implies !#[trigger] words_bit(
            self.spec_words(),
            p,
        ) by {
            assert(!self.stored_bit(p));
        }
        assert(self@.bits =~= Seq::new(
            self@.bits.len(),
            |p: int| words_bit(self.spec_words(), p),
        ));
    }

    /// An empty stream: no bit, the cursor at the start, and no word
    /// allocated.
    pub fn new() -> (stream: Self)
        ensures
            stream.wf(),
            stream@.bits.len() == 0,
            stream@.cursor == 0,
            stream.spec_words() == Seq::<u128>::empty(),
    {
        Self { binary: Vec::new(), bit_cursor: 0, capacity: 0 }
    }

    /// The place of the cursor.
    pub fn len(&self) -> (n: usize)
        requires
            self.wf(),
        ensures
            n == self@.cursor,
    {
        self.bit_cursor as usize
    }

    /// The high-water mark: the number of bits that the stream holds.
    pub fn capacity(&self) -> (n: usize)
        requires
            self.wf(),
        ensures
            n == self@.bits.len(),
    {
        self.capacity as usize
    }

    fn chunk_index(&self) -> (i: usize)
        requires
            self.wf(),
        ensures
            i == self@.cursor / 128,
    {
        (self.bit_cursor / 128) as usize
    }

    fn chunk_bit_index(&self) -> (i: usize)
        requires
            self.wf(),
        ensures
            i == self@.cursor % 128,
    {
        (self.bit_cursor % 128) as usize
    }

    /// Adds cleared words until word `chunk_idx` exists.
    fn allocate_if_needed(&mut self, chunk_idx: usize)
        requires
            old(self).wf(),
        ensures
            final(self).wf(),
            final(self)@ == old(self)@,
            final(self).binary@.len() > chunk_idx,
            forall|p: int| #[trigger] final(self).stored_bit(p) == old(self).stored_bit(p),
    {
        while self.binary.len() <= chunk_idx
            invariant
                self.wf(),
                self@ == old(self)@,
                self.bit_cursor == old(self).bit_cursor,
                self.capacity == old(self).capacity,
                forall|p: int| #[trigger] self.stored_bit(p) == old(self).stored_bit(p),
            decreases chunk_idx + 1 - self.binary.len(),
        {
            let ghost before = *self;
            self.binary.push(0);
            proof {
                assert forall|p: int| #[trigger] self.stored_bit(p) == before.stored_bit(p) by {
                    if before.binary@.len() * 128 <= p < self.binary@.len() * 128 {
                        assert(self.binary@[p / 128] == 0);
                        let j = (p % 128) as u128;
                        assert(!word_bit(0, j)) by (bit_vector);
                    }
                }
                assert(self@.bits =~= before@.bits);
            }
        }
    }

    /// The word at index `chunk_idx`, or a cleared word where the stream has
    /// none.
    fn word_at(&self, chunk_idx: usize) -> (w: u128)
        ensures
            forall|j: int|
                0 <= j < 128 ==> #[trigger] word_bit(w, j as u128) == self.stored_bit(
                    chunk_idx * 128 + j,
                ),
    {
        if chunk_idx < self.binary.len() {
            let w = self.binary[chunk_idx];
            proof {
                assert forall|j: int| 0 <= j < 128 implies #[trigger] word_bit(w, j as u128)
                    == self.stored_bit(chunk_idx * 128 + j) by {
                    assert((chunk_idx * 128 + j) / 128 == chunk_idx);
                    assert((chunk_idx * 128 + j) % 128 == j);
                }
            }
            w
        } else {
            proof {
                assert forall|j: int| 0 <= j < 128 implies #[trigger] word_bit(0u128, j as u128)
                    == self.stored_bit(chunk_idx * 128 + j) by {
                    let i = j as u128;
                    assert(!word_bit(0, i)) by (bit_vector);
                }
            }
            0
        }
    }

    /// Writes the low `n` bits of `bits` at the cursor.
    fn write_word(&mut self, bits: u128, n: usize)
        requires
            old(self).wf(),
            n <= 128,
            old(self)@.cursor + n <= usize::MAX,
        ensures
            final(self).wf(),
            final(self)@ == old(self)@.write(bits as nat, n as nat),
    {
        if n == 0 {
            return ;
        }
        let chunk = self.chunk_index();
        let idx = (self.bit_cursor % 128) as u128;
        let width = n as u128;
        let end = self.bit_cursor + width;
        self.allocate_if_needed(chunk + 1);
        let ghost before = *self;
        let mask = mask_of(width);
        let value = bits & mask;
        let rem = 128 - idx;
        let w0 = self.binary[chunk];
        self.binary[chunk] = (w0 & !(mask << idx)) | (value << idx);
        if rem < width {
            let w1 = self.binary[chunk + 1];
            self.binary[chunk + 1] = (w1 & !(mask >> rem)) | (value >> rem);
        }
        self.bit_cursor = end;
        if self.capacity < end {
            self.capacity = end;
        }
        proof {
            let start = before.bit_cursor as int;
            let goal = old(self)@.write(bits as nat, n as nat);
            assert forall|p: int|
                #[trigger] self.stored_bit(p) == (if start <= p < start + n {
                    word_bit(bits, (p - start) as u128)
                } else {
                    before.stored_bit(p)
                }) by {
                if 0 <= p < self.binary@.len() * 128 && n > 0 {
                    let j = (p % 128) as u128;
                    if p / 128 == chunk {
                        lemma_splice_low_bit(before.binary@[chunk as int], bits, width, idx, j);
                    } else if p / 128 == chunk + 1 && rem < width {
                        lemma_splice_high_bit(
                            before.binary@[chunk + 1],
                            bits,
                            width,
                            rem,
                            j,
                        );
                    }
                }
            }
            assert forall|i: int| 0 <= i < goal.bits.len() implies self@.bits[i]
                == goal.bits[i] by {
                if start <= i < start + n {
                    lemma_word_bit_is_nth_bit(bits, (i - start) as u128);
                }
            }
            assert(self@.bits =~= goal.bits);
        }
    }

    /// The number that the `n` bits from the cursor on spell.
    fn peek_word(&self, n: usize) -> (r: u128)
        requires
            self.wf(),
            n <= 128,
        ensures
            r == self@.peek(n as nat),
    {
        let chunk = self.chunk_index();
        let idx = (self.bit_cursor % 128) as u128;
        let width = n as u128;
        let mask = mask_of(width);
        let w0 = self.word_at(chunk);
        let w1 = self.word_at(chunk + 1);
        let r = if idx == 0 {
            w0 & mask
        } else {
            ((w0 >> idx) | (w1 << (128 - idx))) & mask
        };
        proof {
            let start = self.bit_cursor as int;
            assert(r == window(w0, w1, width, idx));
            assert forall|j: u128| j < 128 implies #[trigger] word_bit(r, j) == (j < n
                && self.stored_bit(start + j)) by {
                lemma_window_bit(w0, w1, width, idx, j);
                if j < n {
                    if j + idx < 128 {
                        assert(word_bit(w0, (j + idx) as u128) == self.stored_bit(
                            chunk * 128 + (j + idx),
                        ));
                    } else {
                        assert(word_bit(w1, (j + idx - 128) as u128) == self.stored_bit(
                            (chunk + 1) * 128 + (j + idx - 128),
                        ));
                    }
                }
            }
            lemma_word_is_value_of_low_bits(r, n as nat);
            assert forall|j: int| 0 <= j < n implies bits_of(r as nat, n as nat)[j]
                == self@.window(n as nat)[j] by {
                lemma_word_bit_is_nth_bit(r, j as u128);
                assert(word_bit(r, j as u128) == self.stored_bit(start + j));
            }
            assert(bits_of(r as nat, n as nat) =~= self@.window(n as nat));
        }
        r
    }

    /// Writes the low `num_bits` bits of `val` at the cursor and moves the
    /// cursor behind them. No other bit changes.
    pub fn write_bits<T>(&mut self, val: T, num_bits: usize) where T: Copy, u128: From<T>
        requires
            old(self).wf(),
            num_bits <= 128,
            old(self)@.cursor + num_bits <= usize::MAX,
            <u128 as FromSpec<T>>::obeys_from_spec(),
        ensures
            final(self).wf(),
            final(self)@ == old(self)@.write(
                <u128 as FromSpec<T>>::from_spec(val) as nat,
                num_bits as nat,
            ),
    {
        let bits = u128::from(val);
        self.write_word(bits, num_bits)
    }

    /// The number that the `num_bits` bits from the cursor on spell; the
    /// stream stays as it is.
    pub fn peek_bits(&mut self, num_bits: usize) -> (r: u128)
        requires
            old(self).wf(),
            num_bits <= 128,
        ensures
            *final(self) == *old(self),
            r == old(self)@.peek(num_bits as nat),
    {
        self.peek_word(num_bits)
    }

    /// Writes the lowest bit of `val` at the cursor.
    pub fn write_bit(&mut self, val: u8)
        requires
            old(self).wf(),
            old(self)@.cursor + 1 <= usize::MAX,
        ensures
            final(self).wf(),
            final(self)@ == old(self)@.write_seq(seq![val % 2 == 1]),
    {
        self.write_word(val as u128, 1);
        proof {
            assert(pow2(0) == 1) by {
                lemma2_to64();
            }
            assert(bits_of(val as nat, 1) =~= seq![val % 2 == 1]);
        }
    }

    /// Reads the bit at the cursor, as 0 or 1, and moves the cursor behind it.
    pub fn read_bit(&mut self) -> (r: u128)
        requires
            old(self).wf(),
            old(self)@.cursor + 1 <= usize::MAX,
        ensures
            final(self).wf(),
            final(self)@ == old(self)@.advance(1),
            r == if old(self)@.bit(old(self)@.cursor as int) {
                1u128
            } else {
                0u128
            },
    {
        let r = self.read_bits(1);
        proof {
            let w = old(self)@.window(1);
            assert(pow2(0) == 1) by {
                lemma2_to64();
            }
            assert(w.drop_last().len() == 0);
            assert(value_of(w.drop_last()) == 0);
            assert(w.last() == old(self)@.bit(old(self)@.cursor as int));
        }
        r
    }

    /// Reads `bit_count` bits at the cursor as a number and moves the cursor
    /// behind them. Places past the high-water mark read as clear.
    pub fn read_bits(&mut self, bit_count: usize) -> (r: u128)
        requires
            old(self).wf(),
            bit_count <= 128,
            old(self)@.cursor + bit_count <= usize::MAX,
        ensures
            final(self).wf(),
            final(self)@ == old(self)@.advance(bit_count as nat),
            r == old(self)@.peek(bit_count as nat),
    {
        let peeked_val = self.peek_word(bit_count);
        self.bit_cursor = self.bit_cursor + bit_count as u128;
        proof {
            assert forall|p: int| #[trigger] self.stored_bit(p) == old(self).stored_bit(p) by {}
            assert(self@.bits =~= old(self)@.bits);
        }
        peeked_val
    }

    /// What `peek_bits` gives for as many bits as a `T` has.
    pub fn peek<T>(&mut self) -> (r: u128) where T: Copy
        requires
            old(self).wf(),
            size_of::<T>() * 8 <= 128,
        ensures
            *final(self) == *old(self),
            r == old(self)@.peek(size_of::<T>() * 8),
    {
        self.peek_word(core::mem::size_of::<T>() * 8)
    }

    /// Writes `val` in as many bits as a `T` has.
    pub fn write<T>(&mut self, val: T) where T: Copy, u128: From<T>
        requires
            old(self).wf(),
            size_of::<T>() * 8 <= 128,
            old(self)@.cursor + size_of::<T>() * 8 <= usize::MAX,
            <u128 as FromSpec<T>>::obeys_from_spec(),
        ensures
            final(self).wf(),
            final(self)@ == old(self)@.write(
                <u128 as FromSpec<T>>::from_spec(val) as nat,
                size_of::<T>() * 8,
            ),
    {
        self.write_bits(val, core::mem::size_of::<T>() * 8)
    }

    /// Reads as many bits as a `T` has.
    pub fn read<T>(&mut self) -> (r: u128) where T: Copy, u128: From<T>
        requires
            old(self).wf(),
            size_of::<T>() * 8 <= 128,
            old(self)@.cursor + size_of::<T>() * 8 <= usize::MAX,
        ensures
            final(self).wf(),
            final(self)@ == old(self)@.advance(size_of::<T>() * 8),
            r == old(self)@.peek(size_of::<T>() * 8),
    {
        self.read_bits(core::mem::size_of::<T>() * 8)
    }

    /// Clears every bit; the cursor and the high-water mark stay.
    pub fn zero(&mut self)
        requires
            old(self).wf(),
        ensures
            final(self).wf(),
            final(self)@ == old(self)@.zeroed(),
    {
        let mut i: usize = 0;
        while i < self.binary.len()
            invariant
                i <= self.binary@.len(),
                self.binary@.len() == old(self).binary@.len(),
                self.bit_cursor == old(self).bit_cursor,
                self.capacity == old(self).capacity,
                forall|k: int| 0 <= k < i ==> self.binary@[k] == 0,
            decreases self.binary@.len() - i,
        {
            self.binary[i] = 0;
            i += 1;
        }
        proof {
            assert forall|p: int| !#[trigger] self.stored_bit(p) by {
                if 0 <= p < self.binary@.len() * 128 {
                    let j = (p % 128) as u128;
                    assert(!word_bit(0, j)) by (bit_vector);
                }
            }
            assert(self@.bits =~= old(self)@.zeroed().bits);
        }
    }

    /// Puts the cursor at the first bit.
    pub fn seek_start(&mut self)
        requires
            old(self).wf(),
        ensures
            final(self).wf(),
            final(self)@ == old(self)@.seek(0),
    {
        self.bit_cursor = 0;
        proof {
            assert forall|p: int| #[trigger] self.stored_bit(p) == old(self).stored_bit(p) by {}
            assert(self@.bits =~= old(self)@.bits);
        }
    }

    /// Moves the cursor by `offset` places and raises the high-water mark to
    /// the cursor where it was below.
    pub fn offset_bit_cursor(&mut self, offset: i128)
        requires
            old(self).wf(),
            0 <= old(self)@.cursor + offset <= usize::MAX,
        ensures
            final(self).wf(),
            final(self)@ == old(self)@.seek((old(self)@.cursor + offset) as nat).raised(
                (old(self)@.cursor + offset) as nat,
            ),
    {
        self.bit_cursor = (self.bit_cursor as i128 + offset) as u128;
        if self.capacity < self.bit_cursor {
            self.capacity = self.bit_cursor;
        }
        proof {
            assert forall|p: int| #[trigger] self.stored_bit(p) == old(self).stored_bit(p) by {}
            assert(self@.bits =~= old(self)@.seek((old(self)@.cursor + offset) as nat).raised(
                (old(self)@.cursor + offset) as nat,
            ).bits);
        }
    }

    /// Puts the cursor at place `idx`. Nothing else changes.
    pub fn set_bit_cursor(&mut self, idx: u128)
        requires
            old(self).wf(),
            idx <= usize::MAX,
        ensures
            final(self).wf(),
            final(self)@ == old(self)@.seek(idx as nat),
    {
        self.bit_cursor = idx;
        proof {
            assert forall|p: int| #[trigger] self.stored_bit(p) == old(self).stored_bit(p) by {}
            assert(self@.bits =~= old(self)@.bits);
        }
    }

    /// Moves the cursor `n` places on.
    fn advance_cursor(&mut self, n: usize)
        requires
            old(self).wf(),
            old(self)@.cursor + n <= usize::MAX,
        ensures
            final(self).wf(),
            final(self)@ == old(self)@.advance(n as nat),
    {
        self.bit_cursor = self.bit_cursor + n as u128;
        proof {
            assert forall|p: int| #[trigger] self.stored_bit(p) == old(self).stored_bit(p) by {}
            assert(self@.bits =~= old(self)@.bits);
        }
    }

    /// Moves the cursor over set bits, `width` of them at a time, for as long
    /// as the next `width` bits are all set. Returns the number of bits
    /// passed: the set bits in a row from the cursor on, less those that do
    /// not fill a group of `width`.
    fn skip_ones(&mut self, width: usize) -> (count: usize)
        requires
            old(self).wf(),
            1 <= width <= 128,
            old(self)@.cursor + old(self)@.ones_run(old(self)@.cursor) <= usize::MAX,
        ensures
            final(self).wf(),
            final(self)@ == old(self)@.advance(count as nat),
            count == old(self)@.ones_run(old(self)@.cursor) - old(self)@.ones_run(
                old(self)@.cursor,
            ) % (width as nat),
            final(self)@.ones_run(final(self)@.cursor) == old(self)@.ones_run(old(self)@.cursor)
                % (width as nat),
    {
        let mask = mask_of(width as u128);
        let mut count: usize = 0;
        let ghost groups: nat = 0;
        loop
            invariant
                self.wf(),
                1 <= width <= 128,
                mask == low_mask(width as u128),
                self@ == old(self)@.advance(count as nat),
                count + self@.ones_run(self@.cursor) == old(self)@.ones_run(old(self)@.cursor),
                old(self)@.cursor + old(self)@.ones_run(old(self)@.cursor) <= usize::MAX,
                count == groups * width,
            ensures
                self@.ones_run(self@.cursor) < width,
            decreases self@.ones_run(self@.cursor),
        {
            let word = self.peek_word(width);
            if word != mask {
                proof {
                    if self@.ones_run(self@.cursor) >= width {
                        lemma_ones_run_covers(self@, self@.cursor, width as nat);
                        lemma_low_mask_is_ones(width as u128);
                        assert(self@.window(width as nat) =~= ones(width as nat));
                    }
                }
                break ;
            }
            proof {
                let seen = self@.window(width as nat);
                lemma_low_mask_is_ones(width as u128);
                lemma_value_of_injective(seen, ones(width as nat));
                assert forall|i: int|
                    self@.cursor <= i < self@.cursor + width implies self@.bit(i) by {
                    assert(seen[i - self@.cursor]);
                }
                lemma_ones_run_skip(self@, self@.cursor, width as nat);
                assert((groups + 1) * width == groups * width + width) by (nonlinear_arith);
                groups = groups + 1;
            }
            self.advance_cursor(width);
            count += width;
        }
        proof {
            lemma_fundamental_div_mod_converse(
                old(self)@.ones_run(old(self)@.cursor) as int,
                width as int,
                groups as int,
                self@.ones_run(self@.cursor) as int,
            );
        }
        count
    }

    /// Writes `entropy` as a Rice code with the divisor two to the `exponent`:
    /// the sign bit, the quotient in unary, the remainder in `exponent` bits.
    pub fn write_compressed(&mut self, exponent: i16, entropy: i16)
        requires
            old(self).wf(),
            1 <= exponent <= 15,
            entropy > i16::MIN,
            old(self)@.cursor + rice_code(exponent as nat, entropy as int).len() <= usize::MAX,
        ensures
            final(self).wf(),
            final(self)@ == old(self)@.write_seq(rice_code(exponent as nat, entropy as int)),
    {
        let k = exponent as usize;
        let negative = entropy < 0;
        let absolute: u16 = if negative {
            (-(entropy as i32)) as u16
        } else {
            entropy as u16
        };
        let divisor: u16 = 1u16 << (exponent as u16);
        proof {
            lemma2_to64();
            lemma_u16_shl_is_mul(1, exponent as u16);
            lemma_rice_code_len(k as nat, entropy as int);
        }
        let total: u16 = absolute / divisor;
        let remainder: u16 = absolute % divisor;
        let mut quotient: u16 = total;
        let ghost sign = seq![negative];
        let sign_bit: u8 = if negative {
            1
        } else {
            0
        };
        self.write_bit(sign_bit);
        assert(self@ == old(self)@.write_seq(sign + ones(0))) by {
            assert(sign + ones(0) =~= seq![sign_bit % 2 == 1]);
        }
        while quotient > 0 && quotient % 16 != 0
            invariant
                self.wf(),
                quotient <= total,
                old(self)@.cursor + total + 2 + k <= usize::MAX,
                self@.cursor == old(self)@.cursor + 1 + (total - quotient),
                self@ == old(self)@.write_seq(sign + ones((total - quotient) as nat)),
            decreases quotient,
        {
            let ghost done = sign + ones((total - quotient) as nat);
            self.write_bit(1);
            proof {
                lemma_write_seq_concat(old(self)@, done, seq![true]);
                assert(done + seq![true] =~= sign + ones((total - quotient + 1) as nat));
            }
            quotient -= 1;
        }
        while quotient > 0
            invariant
                self.wf(),
                quotient <= total,
                quotient % 16 == 0,
                old(self)@.cursor + total + 2 + k <= usize::MAX,
                self@.cursor == old(self)@.cursor + 1 + (total - quotient),
                self@ == old(self)@.write_seq(sign + ones((total - quotient) as nat)),
            decreases quotient,
        {
            let ghost done = sign + ones((total - quotient) as nat);
            self.write_word(0xffff, 16);
            proof {
                assert forall|j: int| 0 <= j < 16 implies bits_of(0xffff, 16)[j] by {
                    let i = j as u128;
                    assert(word_bit(0xffff, i)) by (bit_vector)
                        requires
                            i < 16,
                    ;
                    lemma_word_bit_is_nth_bit(0xffff, i);
                }
                assert(bits_of(0xffff, 16) =~= ones(16));
                lemma_write_seq_concat(old(self)@, done, ones(16));
                assert(done + ones(16) =~= sign + ones((total - quotient + 16) as nat));
            }
            quotient -= 16;
        }
        let ghost unary = sign + ones(total as nat);
        self.write_bit(0);
        self.write_word(remainder as u128, k);
        proof {
            let tail = bits_of(remainder as nat, k as nat);
            lemma_write_seq_concat(old(self)@, unary, seq![false]);
            lemma_write_seq_concat(old(self)@, unary + seq![false], tail);
            assert(unary + seq![false] + tail =~= rice_code(exponent as nat, entropy as int));
        }
    }

    /// Reads the Rice code at the cursor with the divisor two to the
    /// `exponent` and moves the cursor behind it. A magnitude that an `i16`
    /// cannot hold comes back as `i16::MAX`, with the sign that was read.
    pub fn read_compressed(&mut self, exponent: i16) -> (r: i16)
        requires
            old(self).wf(),
            1 <= exponent <= 15,
            old(self)@.cursor + old(self)@.rice_len(exponent as nat) <= usize::MAX,
        ensures
            final(self).wf(),
            final(self)@ == old(self)@.advance(old(self)@.rice_len(exponent as nat)),
            r == old(self)@.rice_value(exponent as nat),
    {
        let k = exponent as usize;
        let sign_bit = self.read_bit();
        let mut quotient: usize = 0;
        let mut width: usize = 128;
        while width >= 8
            invariant
                self.wf(),
                width == 128 || width == 64 || width == 32 || width == 16 || width == 8 || width
                    == 4,
                self@ == old(self)@.advance(1 + quotient as nat),
                quotient + self@.ones_run(self@.cursor) == old(self)@.rice_quotient(),
                old(self)@.cursor + old(self)@.rice_quotient() + 2 + k <= usize::MAX,
            decreases width,
        {
            let passed = self.skip_ones(width);
            quotient += passed;
            width = width / 2;
        }
        loop
            invariant_except_break
                self.wf(),
                self@ == old(self)@.advance(1 + quotient as nat),
                quotient + self@.ones_run(self@.cursor) == old(self)@.rice_quotient(),
            invariant
                old(self)@.cursor + old(self)@.rice_quotient() + 2 + k <= usize::MAX,
            ensures
                self.wf(),
                self@ == old(self)@.advance(2 + quotient as nat),
                quotient == old(self)@.rice_quotient(),
            decreases self@.ones_run(self@.cursor),
        {
            let bit = self.read_bit();
            if bit == 0 {
                break ;
            }
            quotient += 1;
        }
        let remainder = self.read_bits(k);
        let divisor: u64 = 1u64 << (exponent as u64);
        proof {
            lemma2_to64();
            lemma_u64_shl_is_mul(1, exponent as u64);
            lemma_value_of_bound(old(self)@.seek(old(self)@.cursor + 2 + quotient as nat).window(k as nat));
            assert(quotient * divisor <= usize::MAX * 32768) by (nonlinear_arith)
                requires
                    quotient <= usize::MAX,
                    divisor <= 32768,
            ;
        }
        let magnitude: u128 = (quotient as u128) * (divisor as u128) + remainder;
        let clipped: i16 = if magnitude > 32767 {
            32767
        } else {
            magnitude as i16
        };
        if sign_bit == 1 {
            -clipped
        } else {
            clipped
        }
    }

    /// The exponent that stands for `divisor`.
    fn exponent_of(divisor: i16) -> (exponent: i16)
        requires
            2 <= divisor,
        ensures
            exponent == divisor_exponent(divisor as int),
            1 <= exponent <= 15,
    {
        let mut rest: u16 = (divisor - 1) as u16;
        let mut count: i16 = 0;
        proof {
            lemma2_to64();
            lemma_popcount_bound(rest as nat, 15);
        }
        while rest > 0
            invariant
                count + popcount(rest as nat) == divisor_exponent(divisor as int),
                0 <= count,
                divisor_exponent(divisor as int) <= 15,
            decreases rest,
        {
            count += (rest % 2) as i16;
            rest = rest / 2;
        }
        count
    }

    /// Writes `entropy` as a Rice code with the exponent that stands for
    /// `divisor`.
    pub fn write_compressed_divisor(&mut self, divisor: i16, entropy: i16)
        requires
            old(self).wf(),
            2 <= divisor,
            entropy > i16::MIN,
            old(self)@.cursor + rice_code(divisor_exponent(divisor as int), entropy as int).len()
                <= usize::MAX,
        ensures
            final(self).wf(),
            final(self)@ == old(self)@.write_seq(
                rice_code(divisor_exponent(divisor as int), entropy as int),
            ),
    {
        self.write_compressed(Self::exponent_of(divisor), entropy)
    }

    /// Reads a Rice code with the exponent that stands for `divisor`.
    pub fn read_compressed_divisor(&mut self, divisor: i16) -> (r: i16)
        requires
            old(self).wf(),
            2 <= divisor,
            old(self)@.cursor + old(self)@.rice_len(divisor_exponent(divisor as int))
                <= usize::MAX,
        ensures
            final(self).wf(),
            final(self)@ == old(self)@.advance(
                old(self)@.rice_len(divisor_exponent(divisor as int)),
            ),
            r == old(self)@.rice_value(divisor_exponent(divisor as int)),
    {
        self.read_compressed(Self::exponent_of(divisor))
    }

    /// Writes `value` as a capped code: as a Rice code behind a clear bit
    /// where its unary part stays below 16 bits, else clamped to
    /// `CAPPED_MIN..=CAPPED_MAX` in `capped_bits()` bits behind a set bit.
    pub fn write_compressed_capped(&mut self, divisor: i16, value: i16)
        requires
            old(self).wf(),
            2 <= divisor,
            value > i16::MIN,
            old(self)@.cursor + capped_code(divisor as int, value as int).len() <= usize::MAX,
        ensures
            final(self).wf(),
            final(self)@ == old(self)@.write_seq(capped_code(divisor as int, value as int)),
    {
        let absolute: i16 = if value < 0 {
            -value
        } else {
            value
        };
        let quotient = absolute / divisor;
        if quotient < 16 {
            self.write_bit(0);
            self.write_compressed_divisor(divisor, value);
            proof {
                lemma_write_seq_concat(
                    old(self)@,
                    seq![false],
                    rice_code(divisor_exponent(divisor as int), value as int),
                );
            }
        } else {
            let clamped: i16 = if value < CAPPED_MIN {
                CAPPED_MIN
            } else if value > CAPPED_MAX {
                CAPPED_MAX
            } else {
                value
            };
            let raw: u16 = (clamped as i32 + 16384) as u16;
            self.write_bit(1);
            self.write_word(raw as u128, 14);
            proof {
                lemma_write_seq_concat(old(self)@, seq![true], bits_of(raw as nat, 14));
            }
        }
    }

    /// Reads the capped code at the cursor and moves the cursor behind it.
    pub fn read_compressed_capped(&mut self, divisor: i16) -> (r: i16)
        requires
            old(self).wf(),
            2 <= divisor,
            old(self)@.cursor + old(self)@.capped_len(divisor as int) <= usize::MAX,
        ensures
            final(self).wf(),
            final(self)@ == old(self)@.advance(old(self)@.capped_len(divisor as int)),
            r == old(self)@.capped_value(divisor as int),
    {
        let is_capped = self.read_bit() == 1;
        if is_capped {
            let raw = self.read_bits(14);
            proof {
                lemma2_to64();
                lemma_value_of_bound(old(self)@.advance(1).window(14));
            }
            if raw >= 8192 {
                (raw as i32 - 16384) as i16
            } else {
                raw as i16
            }
        } else {
            self.read_compressed_divisor(divisor)
        }
    }

    /// The words that hold the bits, for storing the stream elsewhere.
    pub fn words(&self) -> (words: &Vec<u128>)
        ensures
            words@ == self.spec_words(),
    {
        &self.binary
    }

    /// Builds a stream from what was stored of one: its words, its cursor
    /// and its high-water mark. Returns `None` where these do not make a
    /// stream.
    pub fn from_raw(binary: Vec<u128>, bit_cursor: u128, capacity: u128) -> (stream: Option<Self>)
        ensures
            match stream {
                None => !raw_valid(binary@, bit_cursor, capacity),
                Some(stream) => {
                    &&& raw_valid(binary@, bit_cursor, capacity)
                    &&& stream.wf()
                    &&& stream.spec_words() == binary@
                    &&& stream@.cursor == bit_cursor
                    &&& stream@.bits == Seq::new(capacity as nat, |p: int| words_bit(binary@, p))
                },
            },
    {
        if bit_cursor > usize::MAX as u128 || capacity > usize::MAX as u128 {
            return None;
        }
        let first = (capacity / 128) as usize;
        let idx = capacity % 128;
        let mut i: usize = first;
        while i < binary.len()
            invariant
                first <= i,
                first == capacity / 128,
                idx == capacity % 128,
                forall|p: int| capacity <= p < i * 128 ==> !#[trigger] words_bit(binary@, p),
            decreases binary@.len() - i,
        {
            let word = binary[i];
            let above = if i == first {
                word >> idx
            } else {
                word
            };
            let shift = if i == first {
                idx
            } else {
                0
            };
            proof {
                assert(word >> 0 == word) by (bit_vector);
                assert(above == word >> shift);
            }
            if above != 0 {
                proof {
                    if raw_valid(binary@, bit_cursor, capacity) {
                        assert forall|j: u128| 0 <= j < 128 implies !word_bit(above, j) by {
                            lemma_bit_shr(word, shift, j);
                            if j + shift < 128 {
                                assert(!words_bit(binary@, i * 128 + j + shift));
                            }
                        }
                        lemma_word_is_value_of_low_bits(above, 0);
                        assert(bits_of(above as nat, 0) =~= Seq::<bool>::empty());
                    }
                }
                return None;
            }
            proof {
                assert forall|p: int| capacity <= p < (i + 1) * 128 implies !#[trigger] words_bit(
                    binary@,
                    p,
                ) by {
                    if p >= i * 128 {
                        let j = (p % 128) as u128;
                        lemma_bit_shr(word, shift, (j - shift) as u128);
                        let k = (j - shift) as u128;
                        assert(!word_bit(0, k)) by (bit_vector);
                    }
                }
            }
            i += 1;
        }
        let stream = Self { binary, bit_cursor, capacity };
        proof {
            assert(stream@.bits =~= Seq::new(capacity as nat, |p: int| words_bit(binary@, p)));
        }
        Some(stream)
    }
}

} // verus!
