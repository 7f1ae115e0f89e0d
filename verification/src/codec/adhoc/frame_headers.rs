//! The directory of frame headers.

use crate::collections::bitvec::BitVec;
use crate::collections::nibble_list::NibbleList;
use vstd::prelude::*;

verus! {

/// What the directory records of one frame of one channel.
#[derive(Clone, Copy, Debug)]
pub struct FrameHeader {
    /// The Rice exponent `k` of the frame; the divisor is two to the `k`.
    pub exponent: u8,
    /// The number of samples of the frame.
    pub size: u16,
    /// The place in the stream where the frame begins.
    pub bit_cursor: u64,
    /// Whether the frame begins with three samples stored as they are.
    pub is_init: bool,
    /// The three most recent samples before the frame's residuals, oldest
    /// first.
    pub stack_history: [i16; 3],
}

impl FrameHeader {
    /// The header as the directory keeps it: the exponent in four bits.
    pub open spec fn stored(self) -> FrameHeader {
        FrameHeader {
            exponent: self.exponent % 16,
            size: self.size,
            bit_cursor: self.bit_cursor,
            is_init: self.is_init,
            stack_history: self.stack_history,
        }
    }
}

/// The largest number of headers that a directory takes.
pub const MAX_HEADERS: u32 = 0xffff_ffbf;

/// The largest number of headers that a directory takes.
pub open spec fn max_headers() -> nat {
    MAX_HEADERS as nat
}

/// What a [`FrameHeaders`] holds: the headers in the order they were pushed
/// and the place of its cursor.
pub struct FrameHeadersView {
    pub headers: Seq<FrameHeader>,
    pub cursor: nat,
}

impl FrameHeadersView {
    /// An empty directory.
    pub open spec fn empty() -> FrameHeadersView {
        FrameHeadersView { headers: Seq::empty(), cursor: 0 }
    }

    /// The directory after `header` was pushed: appended where the cursor is
    /// at the end, else written over the header at the cursor; the cursor
    /// moves one on.
    pub open spec fn push(self, header: FrameHeader) -> FrameHeadersView {
        FrameHeadersView {
            headers: if self.cursor < self.headers.len() {
                self.headers.update(self.cursor as int, header.stored())
            } else {
                self.headers.push(header.stored())
            },
            cursor: self.cursor + 1,
        }
    }

    /// The header at `index`, where there is one.
    pub open spec fn get(self, index: int) -> Option<FrameHeader> {
        if 0 <= index < self.headers.len() {
            Some(self.headers[index])
        } else {
            None
        }
    }

    /// The header at the cursor, where there is one.
    pub open spec fn next(self) -> Option<FrameHeader> {
        self.get(self.cursor as int)
    }

    /// The directory after `next`: the cursor one on, unless it was at the
    /// end.
    pub open spec fn after_next(self) -> FrameHeadersView {
        if self.cursor < self.headers.len() {
            self.at(self.cursor + 1)
        } else {
            self
        }
    }

    /// The same headers with the cursor at `cursor`.
    pub open spec fn at(self, cursor: nat) -> FrameHeadersView {
        FrameHeadersView { headers: self.headers, cursor }
    }

    /// The directory after each header of `headers` was pushed in turn.
    pub open spec fn push_all(self, headers: Seq<FrameHeader>) -> FrameHeadersView
        decreases headers.len(),
    {
        if headers.len() == 0 {
            self
        } else {
            self.push_all(headers.drop_last()).push(headers.last())
        }
    }

    /// The headers that `count` calls of `next` hand out, in order.
    pub open spec fn next_all(self, count: nat) -> Seq<Option<FrameHeader>>
        decreases count,
    {
        if count == 0 {
            Seq::empty()
        } else {
            seq![self.next()] + self.after_next().next_all((count - 1) as nat)
        }
    }
}

/// The headers that five columns of equal length hold: one row of the
/// columns for each header.
pub open spec fn headers_of(
    exponents: Seq<u8>,
    init_flags: Seq<bool>,
    sizes: Seq<u16>,
    bit_cursors: Seq<u64>,
    histories: Seq<[i16; 3]>,
) -> Seq<FrameHeader> {
    Seq::new(
        exponents.len(),
        |i: int|
            FrameHeader {
                exponent: exponents[i],
                size: sizes[i],
                bit_cursor: bit_cursors[i],
                is_init: init_flags[i],
                stack_history: histories[i],
            },
    )
}

/// Whether five columns and a cursor make a directory: the columns are
/// equally long, within the limit, and the cursor is not behind their end.
pub open spec fn columns_valid(
    exponents: Seq<u8>,
    init_flags: Seq<bool>,
    sizes: Seq<u16>,
    bit_cursors: Seq<u64>,
    histories: Seq<[i16; 3]>,
    header_cursor: u32,
) -> bool {
    &&& exponents.len() == init_flags.len()
    &&& exponents.len() == sizes.len()
    &&& exponents.len() == bit_cursors.len()
    &&& exponents.len() == histories.len()
    &&& header_cursor <= exponents.len() <= max_headers()
}

/// The directory of frame headers: one column for each field of a header,
/// and a cursor for pushing and replaying.
pub struct FrameHeaders {
    divisor_exp_list: NibbleList,
    is_init_frame_list: BitVec,
    frame_size_list: Vec<u16>,
    bit_cursor_list: Vec<u64>,
    stack_history_list: Vec<[i16; 3]>,
    header_cursor: u32,
}

impl View for FrameHeaders {
    type V = FrameHeadersView;

    closed spec fn view(&self) -> FrameHeadersView {
        FrameHeadersView {
            headers: headers_of(
                self.divisor_exp_list@,
                self.is_init_frame_list@,
                self.frame_size_list@,
                self.bit_cursor_list@,
                self.stack_history_list@,
            ),
            cursor: self.header_cursor as nat,
        }
    }
}

impl FrameHeaders {
    /// The columns are equally long, each exponent fits four bits, the cursor
    /// is not behind the end, and the directory is not over its limit.
    pub closed spec fn wf(&self) -> bool {
        &&& self.divisor_exp_list.wf()
        &&& self.is_init_frame_list.wf()
        &&& self.divisor_exp_list@.len() == self.is_init_frame_list@.len()
        &&& self.divisor_exp_list@.len() == self.frame_size_list@.len()
        &&& self.divisor_exp_list@.len() == self.bit_cursor_list@.len()
        &&& self.divisor_exp_list@.len() == self.stack_history_list@.len()
        &&& self.header_cursor <= self.divisor_exp_list@.len()
        &&& self.divisor_exp_list@.len() <= max_headers()
        &&& forall|i: int|
            0 <= i < self.divisor_exp_list@.len() ==> #[trigger] self.divisor_exp_list@[i] < 16
    }

    /// In a valid directory the cursor is not behind the end, the number of
    /// headers is within the limit, and each exponent fits four bits.
    pub proof fn lemma_wf_view(&self)
        requires
            self.wf(),
        ensures
            self@.cursor <= self@.headers.len() <= max_headers(),
            forall|i: int| 0 <= i < self@.headers.len() ==> #[trigger] self@.headers[i].exponent < 16,
    {
    }

    pub fn new() -> (list: Self)
        ensures
            list.wf(),
            list@ == FrameHeadersView::empty(),
    {
        let list = Self {
            is_init_frame_list: BitVec::new(),
            divisor_exp_list: NibbleList::new(),
            frame_size_list: Vec::new(),
            bit_cursor_list: Vec::new(),
            stack_history_list: Vec::new(),
            header_cursor: 0,
        };
        assert(list@.headers =~= Seq::<FrameHeader>::empty());
        list
    }

    /// Pushes `header` at the cursor: appends it where the cursor is at the
    /// end, else writes it over the header at the cursor. The cursor moves
    /// one on. Of the exponent the low four bits are kept.
    pub fn push(&mut self, header: FrameHeader)
        requires
            old(self).wf(),
            old(self)@.cursor < max_headers(),
        ensures
            final(self).wf(),
            final(self)@ == old(self)@.push(header),
    {
        let FrameHeader { exponent, size: num_samples, bit_cursor, is_init, stack_history } =
            header;
        let header_cursor = self.header_cursor as usize;
        let is_init_bit: u64 = if is_init {
            1
        } else {
            0
        };
        if header_cursor >= self.divisor_exp_list.len() {
            self.divisor_exp_list.push(exponent);
            self.frame_size_list.push(num_samples);
            self.bit_cursor_list.push(bit_cursor);
            self.is_init_frame_list.push(is_init_bit);
            self.stack_history_list.push(stack_history);
        } else {
            self.divisor_exp_list.set(header_cursor, exponent);
            self.is_init_frame_list.set(header_cursor, is_init_bit);
            self.frame_size_list[header_cursor] = num_samples;
            self.bit_cursor_list[header_cursor] = bit_cursor;
            self.stack_history_list[header_cursor] = stack_history;
        }
        self.header_cursor += 1;
        proof {
            assert(self@.headers =~= old(self)@.push(header).headers);
        }
    }

    /// The header at `index`, or `None` where the directory has none.
    pub fn get(&self, index: usize) -> (header: Option<FrameHeader>)
        requires
            self.wf(),
        ensures
            header == self@.get(index as int),
    {
        if index < self.len() {
            let exponent = self.divisor_exp_list.get(index);
            let is_init = self.is_init_frame_list.get(index);
            let size = self.frame_size_list[index];
            let cursor = self.bit_cursor_list[index];
            let history = self.stack_history_list[index];
            Some(
                FrameHeader {
                    exponent,
                    size,
                    is_init: is_init == 1,
                    bit_cursor: cursor,
                    stack_history: history,
                },
            )
        } else {
            None
        }
    }

    /// The header at the cursor, with the cursor moved one on; `None`, and
    /// the cursor as it was, at the end of the directory.
    pub fn next(&mut self) -> (header: Option<FrameHeader>)
        requires
            old(self).wf(),
        ensures
            final(self).wf(),
            header == old(self)@.next(),
            final(self)@ == old(self)@.after_next(),
    {
        let header = self.get(self.header_cursor as usize);
        if header.is_some() {
            self.header_cursor += 1;
        }
        header
    }

    /// Puts the cursor at `idx`.
    pub fn set_cursor(&mut self, idx: u32)
        requires
            old(self).wf(),
            idx <= old(self)@.headers.len(),
        ensures
            final(self).wf(),
            final(self)@ == old(self)@.at(idx as nat),
    {
        self.header_cursor = idx;
    }

    /// The column of exponents, for storing the directory elsewhere.
    pub fn exponents(&self) -> (column: &NibbleList)
        requires
            self.wf(),
        ensures
            column.wf(),
            column@ == Seq::new(self@.headers.len(), |i: int| self@.headers[i].exponent),
    {
        proof {
            assert(self.divisor_exp_list@ =~= Seq::new(
                self@.headers.len(),
                |i: int| self@.headers[i].exponent,
            ));
        }
        &self.divisor_exp_list
    }

    /// The column of first-frame flags, for storing the directory elsewhere.
    pub fn init_flags(&self) -> (column: &BitVec)
        requires
            self.wf(),
        ensures
            column.wf(),
            column@ == Seq::new(self@.headers.len(), |i: int| self@.headers[i].is_init),
    {
        proof {
            assert(self.is_init_frame_list@ =~= Seq::new(
                self@.headers.len(),
                |i: int| self@.headers[i].is_init,
            ));
        }
        &self.is_init_frame_list
    }

    /// The column of frame sizes, for storing the directory elsewhere.
    pub fn sizes(&self) -> (column: &Vec<u16>)
        requires
            self.wf(),
        ensures
            column@ == Seq::new(self@.headers.len(), |i: int| self@.headers[i].size),
    {
        proof {
            assert(self.frame_size_list@ =~= Seq::new(
                self@.headers.len(),
                |i: int| self@.headers[i].size,
            ));
        }
        &self.frame_size_list
    }

    /// The column of places in the stream, for storing the directory
    /// elsewhere.
    pub fn bit_cursors(&self) -> (column: &Vec<u64>)
        requires
            self.wf(),
        ensures
            column@ == Seq::new(self@.headers.len(), |i: int| self@.headers[i].bit_cursor),
    {
        proof {
            assert(self.bit_cursor_list@ =~= Seq::new(
                self@.headers.len(),
                |i: int| self@.headers[i].bit_cursor,
            ));
        }
        &self.bit_cursor_list
    }

    /// The column of recent samples, for storing the directory elsewhere.
    pub fn histories(&self) -> (column: &Vec<[i16; 3]>)
        requires
            self.wf(),
        ensures
            column@ == Seq::new(self@.headers.len(), |i: int| self@.headers[i].stack_history),
    {
        proof {
            assert(self.stack_history_list@ =~= Seq::new(
                self@.headers.len(),
                |i: int| self@.headers[i].stack_history,
            ));
        }
        &self.stack_history_list
    }

    /// Builds a directory from what was stored of one: its five columns and
    /// its cursor. Returns `None` where these do not make a directory.
    pub fn from_raw(
        divisor_exp_list: NibbleList,
        is_init_frame_list: BitVec,
        frame_size_list: Vec<u16>,
        bit_cursor_list: Vec<u64>,
        stack_history_list: Vec<[i16; 3]>,
        header_cursor: u32,
    ) -> (list: Option<Self>)
        requires
            divisor_exp_list.wf(),
            is_init_frame_list.wf(),
        ensures
            match list {
                None => !columns_valid(
                    divisor_exp_list@,
                    is_init_frame_list@,
                    frame_size_list@,
                    bit_cursor_list@,
                    stack_history_list@,
                    header_cursor,
                ),
                Some(list) => {
                    &&& columns_valid(
                        divisor_exp_list@,
                        is_init_frame_list@,
                        frame_size_list@,
                        bit_cursor_list@,
                        stack_history_list@,
                        header_cursor,
                    )
                    &&& list.wf()
                    &&& list@ == (FrameHeadersView {
                        headers: headers_of(
                            divisor_exp_list@,
                            is_init_frame_list@,
                            frame_size_list@,
                            bit_cursor_list@,
                            stack_history_list@,
                        ),
                        cursor: header_cursor as nat,
                    })
                },
            },
    {
        let len = divisor_exp_list.len();
        if is_init_frame_list.len() != len || frame_size_list.len() != len
            || bit_cursor_list.len() != len || stack_history_list.len() != len {
            return None;
        }
        if header_cursor as usize > len || len > MAX_HEADERS as usize {
            return None;
        }
        proof {
            divisor_exp_list.lemma_view_data();
        }
        Some(
            Self {
                divisor_exp_list,
                is_init_frame_list,
                frame_size_list,
                bit_cursor_list,
                stack_history_list,
                header_cursor,
            },
        )
    }

    /// The place of the cursor.
    pub fn cursor(&self) -> (n: u32)
        ensures
            n == self@.cursor,
    {
        self.header_cursor
    }

    /// The number of headers.
    pub fn len(&self) -> (n: usize)
        requires
            self.wf(),
        ensures
            n == self@.headers.len(),
    {
        self.divisor_exp_list.len()
    }

    /// Puts the cursor at the first header.
    pub fn reset(&mut self)
        requires
            old(self).wf(),
        ensures
            final(self).wf(),
            final(self)@ == old(self)@.at(0),
    {
        self.header_cursor = 0;
    }
}

/// A header pushed at the end of a directory is the last header of the
/// directory afterwards, unchanged where its exponent fits four bits.
pub proof fn lemma_push_then_get(list: FrameHeadersView, header: FrameHeader)
    requires
        list.cursor == list.headers.len(),
        header.exponent < 16,
    ensures
        list.push(header).get(list.push(header).headers.len() - 1) == Some(header),
{
}

/// Headers pushed into an empty directory stand there in the order they were
/// pushed.
pub proof fn lemma_push_all_headers(headers: Seq<FrameHeader>)
    requires
        forall|i: int| 0 <= i < headers.len() ==> headers[i].exponent < 16,
    ensures
        FrameHeadersView::empty().push_all(headers).headers == headers,
        FrameHeadersView::empty().push_all(headers).cursor == headers.len(),
    decreases headers.len(),
{
    if headers.len() > 0 {
        let front = headers.drop_last();
        lemma_push_all_headers(front);
        assert(headers.last().stored() == headers.last());
        assert(front.push(headers.last()) =~= headers);
    } else {
        assert(FrameHeadersView::empty().push_all(headers).headers =~= headers);
    }
}

/// From a cursor `start`, `next` hands out the headers from `start` on, one
/// by one and in order.
pub proof fn lemma_next_all(list: FrameHeadersView, count: nat)
    requires
        list.cursor + count <= list.headers.len(),
    ensures
        list.next_all(count) == Seq::new(count, |i: int| Some(list.headers[list.cursor + i])),
    decreases count,
{
    let expected = Seq::new(count, |i: int| Some(list.headers[list.cursor + i]));
    if count > 0 {
        lemma_next_all(list.after_next(), (count - 1) as nat);
    }
    assert(list.next_all(count) =~= expected);
}

/// Headers pushed into an empty directory come back from `next`, after a
/// reset, as they were pushed and in the same order.
pub proof fn lemma_replay_after_reset(headers: Seq<FrameHeader>)
    requires
        forall|i: int| 0 <= i < headers.len() ==> headers[i].exponent < 16,
    ensures
        FrameHeadersView::empty().push_all(headers).at(0).next_all(headers.len()) == Seq::new(
            headers.len(),
            |i: int| Some(headers[i]),
        ),
{
    lemma_push_all_headers(headers);
    lemma_next_all(FrameHeadersView::empty().push_all(headers).at(0), headers.len());
    assert(FrameHeadersView::empty().push_all(headers).at(0).next_all(headers.len())
        =~= Seq::new(headers.len(), |i: int| Some(headers[i])));
}

} // verus!
