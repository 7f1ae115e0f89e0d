//! Laws of recordings: blocks coded one after the other come back from a
//! rewound codec as they went in.

use crate::codec::adhoc::frame::{seed_count, FrameCodecView};
use crate::codec::adhoc::frame_headers::{FrameHeader, FrameHeadersView};
use crate::codec::adhoc::playback::{
    before_first_block, block_exact, block_stored, channel_exact, channel_stored,
    lemma_channel_exponent, lemma_decoded_block, lemma_encoded_block,
    lemma_queued_rounds_of_shares, lemma_refilled_at_end, lemma_rounds_add,
    lemma_rounds_from_queues, lemma_rounds_prefix, lemma_rounds_same_after_first, whole_rounds,
};
use crate::codec::adhoc::round_trip::{lemma_same_window_push_all, same_window};
use crate::codec::adhoc::{
    channel_samples, lemma_rounds_ended, AdhocCodecView, CodecState, DecodeProgress,
    MAX_DECODE_ATTEMPTS,
};
use crate::collections::rice::holds_at;
use crate::collections::stack::{lemma_push_all_shape, CircularStackView};
use vstd::arithmetic::div_mod::lemma_fundamental_div_mod;
use vstd::prelude::*;

verus! {

impl AdhocCodecView {
    /// The codec after it coded the first `upto` blocks of `blocks`, one
    /// call of `encode` for each.
    pub open spec fn recorded(self, blocks: Seq<Seq<i16>>, upto: nat) -> AdhocCodecView
        decreases upto,
    {
        if upto == 0 {
            self
        } else {
            self.recorded(blocks, (upto - 1) as nat).encoded(blocks[upto - 1])
        }
    }

    /// Whether the first `upto` blocks of `blocks` can be coded one after
    /// the other.
    pub open spec fn codable(self, blocks: Seq<Seq<i16>>, upto: nat) -> bool
        decreases upto,
    {
        if upto == 0 {
            true
        } else {
            &&& upto <= blocks.len()
            &&& self.codable(blocks, (upto - 1) as nat)
            &&& self.recorded(blocks, (upto - 1) as nat).encodable(blocks[upto - 1].len())
        }
    }

    /// Whether no residual is cut when the first `upto` blocks of `blocks`
    /// are coded one after the other.
    pub open spec fn recorded_exactly(self, blocks: Seq<Seq<i16>>, upto: nat) -> bool {
        forall|block: nat|
            block < upto ==> #[trigger] block_exact(
                self.recorded(blocks, block),
                blocks[block as int],
            )
    }
}

/// The samples that the blocks `from..upto` of `blocks` hold in whole rounds
/// of all channels, block by block.
pub open spec fn recording_between(
    blocks: Seq<Seq<i16>>,
    channels: nat,
    from: nat,
    upto: nat,
) -> Seq<i16>
    decreases upto,
{
    if upto <= from {
        Seq::empty()
    } else {
        recording_between(blocks, channels, from, (upto - 1) as nat) + whole_rounds(
            blocks[upto - 1],
            channels,
        )
    }
}

/// The number of whole rounds of all channels that the blocks `from..upto`
/// of `blocks` hold.
pub open spec fn rounds_between(blocks: Seq<Seq<i16>>, channels: nat, from: nat, upto: nat) -> nat
    decreases upto,
{
    if upto <= from {
        0
    } else {
        rounds_between(blocks, channels, from, (upto - 1) as nat) + blocks[upto - 1].len()
            / channels
    }
}

/// The samples that the first `upto` blocks of `blocks` hold in whole
/// rounds of all channels, block by block.
pub open spec fn recording(blocks: Seq<Seq<i16>>, channels: nat, upto: nat) -> Seq<i16> {
    recording_between(blocks, channels, 0, upto)
}

/// The number of whole rounds of all channels that the first `upto` blocks
/// of `blocks` hold.
pub open spec fn recording_rounds(blocks: Seq<Seq<i16>>, channels: nat, upto: nat) -> nat {
    rounds_between(blocks, channels, 0, upto)
}

/// The number of blocks in a row, from block `from` on, that hold no whole
/// round of all channels.
pub open spec fn quiet_run(blocks: Seq<Seq<i16>>, channels: nat, from: nat, all: nat) -> nat
    decreases all - from,
{
    if from >= all || blocks[from as int].len() / channels >= 1 {
        0
    } else {
        1 + quiet_run(blocks, channels, from + 1, all)
    }
}

/// Whether no run of `MAX_DECODE_ATTEMPTS` or more blocks without a whole
/// round is followed by a block with one: a decoder that fills its queues
/// gives up after that many blocks that bring nothing.
pub open spec fn runs_short(blocks: Seq<Seq<i16>>, channels: nat, all: nat) -> bool {
    forall|from: nat|
        from + #[trigger] quiet_run(blocks, channels, from, all) < all ==> quiet_run(
            blocks,
            channels,
            from,
            all,
        ) < MAX_DECODE_ATTEMPTS
}

/// A run of blocks without a whole round ends within the recording, before
/// a block with a whole round or at the end, and holds no round.
pub proof fn lemma_quiet_run(blocks: Seq<Seq<i16>>, channels: nat, from: nat, all: nat)
    requires
        channels >= 1,
        from <= all,
    ensures
        from + quiet_run(blocks, channels, from, all) <= all,
        from + quiet_run(blocks, channels, from, all) < all ==> blocks[(from + quiet_run(
            blocks,
            channels,
            from,
            all,
        )) as int].len() / channels >= 1,
        rounds_between(blocks, channels, from, all) == rounds_between(
            blocks,
            channels,
            from + quiet_run(blocks, channels, from, all),
            all,
        ),
    decreases all - from,
{
    if from < all && blocks[from as int].len() / channels == 0 {
        lemma_quiet_run(blocks, channels, from + 1, all);
        lemma_rounds_from_front(blocks, channels, from, all);
    }
}

/// The rounds of blocks are those of the first block and those of the
/// blocks behind it.
pub proof fn lemma_rounds_from_front(blocks: Seq<Seq<i16>>, channels: nat, from: nat, upto: nat)
    requires
        channels >= 1,
        from < upto,
    ensures
        rounds_between(blocks, channels, from, upto) == blocks[from as int].len() / channels
            + rounds_between(blocks, channels, from + 1, upto),
    decreases upto,
{
    if upto > from + 1 {
        lemma_rounds_from_front(blocks, channels, from, (upto - 1) as nat);
        assert(rounds_between(blocks, channels, from + 1, upto) == rounds_between(
            blocks,
            channels,
            from + 1,
            (upto - 1) as nat,
        ) + blocks[upto - 1].len() / channels);
    } else {
        assert(rounds_between(blocks, channels, from, from) == 0);
        assert(rounds_between(blocks, channels, from + 1, upto) == 0);
    }
}

/// Within a run of blocks without a whole round, the run that is left
/// from a later block on is shorter by the blocks passed.
pub proof fn lemma_quiet_run_later(
    blocks: Seq<Seq<i16>>,
    channels: nat,
    from: nat,
    all: nat,
    passed: nat,
)
    requires
        passed <= quiet_run(blocks, channels, from, all),
    ensures
        quiet_run(blocks, channels, from + passed, all) == quiet_run(blocks, channels, from, all)
            - passed,
    decreases passed,
{
    if passed > 0 {
        lemma_quiet_run_later(blocks, channels, from + 1, all, (passed - 1) as nat);
    }
}

/// The block behind the last of the blocks `from..upto` that holds a whole
/// round; `from` where none of them does. A decoder that has handed out
/// the rounds of those blocks stands before that block.
pub open spec fn played_upto(blocks: Seq<Seq<i16>>, channels: nat, from: nat, upto: nat) -> nat
    decreases upto,
{
    if upto <= from {
        from
    } else if blocks[upto - 1].len() / channels >= 1 {
        upto
    } else {
        played_upto(blocks, channels, from, (upto - 1) as nat)
    }
}

/// Whether none of the blocks `from..upto` holds a whole round.
pub open spec fn all_quiet(blocks: Seq<Seq<i16>>, channels: nat, from: nat, upto: nat) -> bool {
    forall|block: int| from <= block < upto ==> (#[trigger] blocks[block]).len() / channels == 0
}

/// The blocks behind the last block with a whole round hold none, and
/// neither a round nor a sample of the blocks is lost without them.
pub proof fn lemma_played_upto(blocks: Seq<Seq<i16>>, channels: nat, from: nat, upto: nat)
    requires
        channels >= 1,
        from <= upto,
    ensures
        from <= played_upto(blocks, channels, from, upto) <= upto,
        all_quiet(blocks, channels, played_upto(blocks, channels, from, upto), upto),
        rounds_between(blocks, channels, from, upto) == rounds_between(
            blocks,
            channels,
            from,
            played_upto(blocks, channels, from, upto),
        ),
        recording_between(blocks, channels, from, upto) == recording_between(
            blocks,
            channels,
            from,
            played_upto(blocks, channels, from, upto),
        ),
    decreases upto,
{
    if upto > from && blocks[upto - 1].len() / channels == 0 {
        lemma_played_upto(blocks, channels, from, (upto - 1) as nat);
        assert(0 * channels == 0) by (nonlinear_arith);
        assert(whole_rounds(blocks[upto - 1], channels) =~= Seq::<i16>::empty());
        assert(recording_between(blocks, channels, from, upto) =~= recording_between(
            blocks,
            channels,
            from,
            (upto - 1) as nat,
        ));
    }
}

/// Blocks without a whole round that lie before a block with one, or
/// before the end, are a run of such blocks.
pub proof fn lemma_quiet_span(blocks: Seq<Seq<i16>>, channels: nat, from: nat, upto: nat, all: nat)
    requires
        from <= upto <= all,
        all_quiet(blocks, channels, from, upto),
        upto == all || blocks[upto as int].len() / channels >= 1,
    ensures
        quiet_run(blocks, channels, from, all) == upto - from,
    decreases upto - from,
{
    if from < upto {
        assert(blocks[from as int].len() / channels == 0);
        lemma_quiet_span(blocks, channels, from + 1, upto, all);
    }
}

/// Headers pushed at the end of a directory stand behind those that were
/// there, in the order they were pushed.
pub proof fn lemma_push_all_appends(list: FrameHeadersView, headers: Seq<FrameHeader>)
    requires
        list.cursor == list.headers.len(),
        forall|i: int| 0 <= i < headers.len() ==> headers[i].exponent < 16,
    ensures
        list.push_all(headers).headers == list.headers + headers,
        list.push_all(headers).cursor == list.headers.len() + headers.len(),
    decreases headers.len(),
{
    if headers.len() > 0 {
        let front = headers.drop_last();
        lemma_push_all_appends(list, front);
        assert(headers.last().stored() == headers.last());
        assert((list.headers + front).push(headers.last()) =~= list.headers + headers);
    } else {
        assert(list.headers + headers =~= list.headers);
    }
}

/// Whether a codec is between two blocks of a recording of `blocks` blocks:
/// its directory holds one header for each channel and block and is at its
/// end, and every channel has an empty queue and, once a block is coded, is
/// in the state `Encoding` with at least three samples in its window.
pub open spec fn between_blocks(e: AdhocCodecView, v: AdhocCodecView, blocks: nat) -> bool {
    &&& e.info == v.info
    &&& e.level == v.level
    &&& e.channels.len() == v.channels.len()
    &&& e.headers.cursor == e.headers.headers.len()
    &&& e.headers.headers.len() == blocks * v.channels.len()
    &&& e.stream.cursor >= v.stream.cursor
    &&& blocks > 0 ==> e.stream.cursor <= e.stream.bits.len()
    &&& forall|c: int|
        0 <= c < e.channels.len() ==> {
            &&& (#[trigger] e.channels[c]).fifo.len() == 0
            &&& e.channels[c].history.recent.len() == 4
            &&& e.channels[c].history.len <= 4
            &&& e.channels[c].state == if blocks == 0 {
                CodecState::Init
            } else {
                CodecState::Encoding
            }
            &&& blocks > 0 ==> e.channels[c].history.len >= 3
        }
}

/// A codec that codes block after block from its first block on is between
/// blocks after each.
pub proof fn lemma_recorded_between(v: AdhocCodecView, blocks: Seq<Seq<i16>>, upto: nat)
    requires
        before_first_block(v),
        v.codable(blocks, upto),
    ensures
        between_blocks(v.recorded(blocks, upto), v, upto),
    decreases upto,
{
    let channels = v.channels.len();
    if upto == 0 {
        assert(0 * channels == 0) by (nonlinear_arith);
    } else {
        let done = (upto - 1) as nat;
        lemma_recorded_between(v, blocks, done);
        let before = v.recorded(blocks, done);
        let block = blocks[upto - 1];
        let after = before.encoded(block);
        lemma_encoded_block(before, block, channels);
        let headers = before.block_headers(block, channels);
        assert forall|c: int| 0 <= c < headers.len() implies headers[c].exponent < 16 by {
            lemma_channel_exponent(before, block, c as nat);
        }
        lemma_push_all_appends(before.headers, headers);
        assert(upto * channels == done * channels + channels) by (nonlinear_arith)
            requires
                upto == done + 1,
        ;
        if block.len() / v.channel_count() >= 1 {
            lemma_block_code_len(before, block);
        } else {
            assert(seed_count(before.channels[0].state) == 0);
        }
        assert forall|c: int| 0 <= c < after.channels.len() implies {
            &&& (#[trigger] after.channels[c]).fifo.len() == 0
            &&& after.channels[c].history.recent.len() == 4
            &&& after.channels[c].history.len <= 4
            &&& after.channels[c].state == CodecState::Encoding
            &&& after.channels[c].history.len >= 3
        } by {
            assert(before.channels[c].fifo.len() == 0);
            lemma_push_all_shape(before.channels[c].history, before.share(block, c as nat));
        }
    }
}

/// The frames of a block of at least one whole round of at least one
/// channel take at least one bit.
pub proof fn lemma_block_code_len(v: AdhocCodecView, block: Seq<i16>)
    requires
        v.channels.len() >= 1,
        v.channels.len() == v.channel_count(),
        block.len() / v.channel_count() >= 1,
        forall|c: int|
            0 <= c < v.channels.len() ==> seed_count((#[trigger] v.channels[c]).state)
                <= block.len() / v.channel_count(),
    ensures
        v.block_code(block, v.channels.len()).len() >= 1,
{
    let channels = v.channels.len();
    let last = (channels - 1) as nat;
    let pcm = v.share(block, last);
    let seeds = seed_count(v.channels[last as int].state);
    assert(v.block_code(block, channels).len() >= v.channel_code(block, last).len());
    lemma_frame_code_len(
        v.channels[last as int].history,
        seeds,
        pcm,
        v.channel_exponent(block, last),
    );
}

/// The frame of at least one sample takes at least one bit.
pub proof fn lemma_frame_code_len(
    history: CircularStackView<i16>,
    seeds: nat,
    pcm: Seq<i16>,
    k: nat,
)
    requires
        seeds <= pcm.len(),
        pcm.len() >= 1,
    ensures
        crate::codec::adhoc::frame::frame_code(history, seeds, pcm, k).len() >= 1,
{
    let first = pcm.subrange(0, seeds as int);
    let rest = pcm.subrange(seeds as int, pcm.len() as int);
    if seeds > 0 {
        assert(crate::codec::adhoc::frame::raw_code(first).len() >= 16);
    } else {
        let coded = crate::codec::adhoc::frame::residual_code(history.push_all(first), rest, k);
        assert(rest.len() >= 1);
        assert(coded.len() >= 1);
    }
}

/// Blocks that can be coded one after the other can be coded up to any of
/// them.
pub proof fn lemma_codable_prefix(v: AdhocCodecView, blocks: Seq<Seq<i16>>, done: nat, all: nat)
    requires
        v.codable(blocks, all),
        done <= all,
    ensures
        v.codable(blocks, done),
    decreases all,
{
    if done < all {
        lemma_codable_prefix(v, blocks, done, (all - 1) as nat);
    }
}

/// What was coded stays: coding further blocks changes neither the bits of
/// the stream below the place that the stream had reached nor the headers
/// that the directory held, and takes neither cursor back.
pub proof fn lemma_recorded_keeps(v: AdhocCodecView, blocks: Seq<Seq<i16>>, done: nat, all: nat)
    requires
        before_first_block(v),
        v.codable(blocks, all),
        done <= all,
    ensures
        v.codable(blocks, done),
        v.recorded(blocks, all).stream.cursor >= v.recorded(blocks, done).stream.cursor,
        v.recorded(blocks, all).stream.bits.len() >= v.recorded(blocks, done).stream.bits.len(),
        forall|i: int|
            i < v.recorded(blocks, done).stream.cursor ==> #[trigger] v.recorded(
                blocks,
                all,
            ).stream.bit(i) == v.recorded(blocks, done).stream.bit(i),
        forall|i: int|
            0 <= i < v.recorded(blocks, done).headers.headers.len() ==> #[trigger] v.recorded(
                blocks,
                all,
            ).headers.headers[i] == v.recorded(blocks, done).headers.headers[i],
    decreases all,
{
    if done < all {
        let channels = v.channels.len();
        let most = (all - 1) as nat;
        lemma_recorded_keeps(v, blocks, done, most);
        lemma_recorded_between(v, blocks, most);
        lemma_recorded_between(v, blocks, done);
        let base = v.recorded(blocks, done);
        let before = v.recorded(blocks, most);
        let block = blocks[all - 1];
        let after = v.recorded(blocks, all);
        lemma_encoded_block(before, block, channels);
        let headers = before.block_headers(block, channels);
        assert forall|c: int| 0 <= c < headers.len() implies headers[c].exponent < 16 by {
            lemma_channel_exponent(before, block, c as nat);
        }
        lemma_push_all_appends(before.headers, headers);
        assert(done * channels <= most * channels) by (nonlinear_arith)
            requires
                done <= most,
        ;
        assert forall|i: int| i < base.stream.cursor implies #[trigger] after.stream.bit(i)
            == base.stream.bit(i) by {
            assert(before.stream.bit(i) == base.stream.bit(i));
        }
        assert forall|i: int| 0 <= i < base.headers.headers.len() implies #[trigger] after.headers.headers[i]
            == base.headers.headers[i] by {
            assert(before.headers.headers[i] == base.headers.headers[i]);
        }
    }
}

/// The windows of a decoder that had the windows `windows` before block
/// `from` and has decoded the blocks `from..upto`: each channel's window
/// with the samples of the channel's shares pushed into it.
pub open spec fn windows_after(
    windows: Seq<CircularStackView<i16>>,
    blocks: Seq<Seq<i16>>,
    from: nat,
    upto: nat,
) -> Seq<CircularStackView<i16>>
    decreases upto,
{
    if upto <= from {
        windows
    } else {
        let before = windows_after(windows, blocks, from, (upto - 1) as nat);
        Seq::new(
            windows.len(),
            |c: int| before[c].push_all(channel_samples(blocks[upto - 1], windows.len(), c as nat)),
        )
    }
}

/// Whether a decoder with the windows `windows` is ready for block `done`
/// of a recording: it has a window for each channel, it has decoded before
/// just where `done` is not the first block, and then its windows give the
/// predictor the same three samples as the encoder's had before the block.
pub open spec fn windows_fit(
    v: AdhocCodecView,
    blocks: Seq<Seq<i16>>,
    done: nat,
    windows: Seq<CircularStackView<i16>>,
    started: bool,
) -> bool {
    &&& windows.len() == v.channels.len()
    &&& started == (done > 0)
    &&& forall|c: int|
        0 <= c < windows.len() ==> {
            &&& (#[trigger] windows[c]).recent.len() == 4
            &&& windows[c].len <= 4
            &&& started ==> same_window(v.recorded(blocks, done).channels[c].history, windows[c])
        }
}

impl AdhocCodecView {
    /// The decoder of a recording between two blocks: the codec that coded
    /// the first `all` blocks of `blocks` from `self` on, with its directory
    /// and its stream before block `done`, empty queues, the windows
    /// `windows`, and every channel in the state `Decoding` where `started`
    /// says so, else in the state `Init`.
    #[verifier::opaque]
    pub open spec fn standing(
        self,
        blocks: Seq<Seq<i16>>,
        all: nat,
        done: nat,
        windows: Seq<CircularStackView<i16>>,
        started: bool,
    ) -> AdhocCodecView {
        let end = self.recorded(blocks, all);
        AdhocCodecView {
            headers: end.headers.at(done * self.channels.len()),
            stream: end.stream.seek(self.recorded(blocks, done).stream.cursor),
            channels: Seq::new(
                self.channels.len(),
                |c: int|
                    FrameCodecView {
                        state: if started {
                            CodecState::Decoding
                        } else {
                            CodecState::Init
                        },
                        history: windows[c],
                        fifo: Seq::empty(),
                    },
            ),
            ..end
        }
    }

    /// The windows of the channels.
    pub open spec fn windows(self) -> Seq<CircularStackView<i16>> {
        Seq::new(self.channels.len(), |c: int| self.channels[c].history)
    }

    /// The decoder of a recording that was rewound and has decoded and
    /// handed out the first `done` blocks.
    pub open spec fn playing(self, blocks: Seq<Seq<i16>>, all: nat, done: nat) -> AdhocCodecView {
        self.standing(
            blocks,
            all,
            done,
            windows_after(self.recorded(blocks, all).windows(), blocks, 0, done),
            done > 0,
        )
    }
}

/// A codec that was rewound after a recording is the decoder of the
/// recording before its first block, and its windows fit that block.
pub proof fn lemma_rewound_is_playing(v: AdhocCodecView, blocks: Seq<Seq<i16>>, all: nat)
    requires
        before_first_block(v),
        v.codable(blocks, all),
    ensures
        v.recorded(blocks, all).rewound() == v.playing(blocks, all, 0),
        windows_fit(v, blocks, 0, v.recorded(blocks, all).windows(), false),
{
    reveal(AdhocCodecView::standing);
    lemma_recorded_between(v, blocks, all);
    assert(0 * v.channels.len() == 0) by (nonlinear_arith);
    assert(v.recorded(blocks, all).rewound().channels =~= v.playing(blocks, all, 0).channels);
}

/// A decoder whose windows fit a block stands before the block as
/// `block_stored` asks.
#[verifier::rlimit(40)]
pub proof fn lemma_standing_stored(
    v: AdhocCodecView,
    blocks: Seq<Seq<i16>>,
    all: nat,
    done: nat,
    windows: Seq<CircularStackView<i16>>,
    started: bool,
)
    requires
        before_first_block(v),
        v.codable(blocks, all),
        done < all,
        v.recorded(blocks, all).stream.bits.len() + 17 <= usize::MAX,
        windows_fit(v, blocks, done, windows, started),
        v.recorded_exactly(blocks, all),
    ensures
        block_stored(
            v.standing(blocks, all, done, windows, started),
            v.recorded(blocks, done),
            blocks[done as int],
        ),
{
    reveal(AdhocCodecView::standing);
    let channels = v.channels.len();
    let end = v.recorded(blocks, all);
    let before = v.recorded(blocks, done);
    let after = v.recorded(blocks, done + 1);
    let block = blocks[done as int];
    let w = v.standing(blocks, all, done, windows, started);
    let code = before.block_code(block, channels);
    lemma_recorded_keeps(v, blocks, done + 1, all);
    lemma_recorded_keeps(v, blocks, done, done + 1);
    lemma_recorded_between(v, blocks, done);
    lemma_recorded_between(v, blocks, done + 1);
    lemma_recorded_between(v, blocks, all);
    lemma_encoded_block(before, block, channels);
    let headers = before.block_headers(block, channels);
    assert forall|c: int| 0 <= c < headers.len() implies headers[c].exponent < 16 by {
        lemma_channel_exponent(before, block, c as nat);
    }
    lemma_push_all_appends(before.headers, headers);
    assert((done + 1) * channels == done * channels + channels) by (nonlinear_arith);
    assert((done + 1) * channels <= all * channels) by (nonlinear_arith)
        requires
            done + 1 <= all,
    ;
    assert(holds_at(w.stream, code)) by {
        assert forall|i: int| 0 <= i < code.len() implies #[trigger] code[i] == w.stream.bit(
            w.stream.cursor + i,
        ) by {
            assert(end.stream.bit(before.stream.cursor + i) == after.stream.bit(
                before.stream.cursor + i,
            ));
        }
    }
    assert forall|c: int| 0 <= c < channels implies #[trigger] channel_stored(
        w,
        before,
        block,
        c,
    ) by {
        lemma_channel_exponent(before, block, c as nat);
        assert(windows[c].recent.len() == 4);
        let place = done * channels + c;
        assert(end.headers.headers[place] == after.headers.headers[place]);
        assert(after.headers.headers[place] == before.channel_header(block, c as nat));
        assert(block_exact(before, block));
        assert(channel_exact(before, block, c));
    }
}

/// Windows that fit a block fit the next block once the samples of the
/// block are pushed into them.
pub proof fn lemma_windows_fit_next(
    v: AdhocCodecView,
    blocks: Seq<Seq<i16>>,
    done: nat,
    windows: Seq<CircularStackView<i16>>,
    started: bool,
)
    requires
        before_first_block(v),
        v.codable(blocks, done + 1),
        windows_fit(v, blocks, done, windows, started),
    ensures
        windows_fit(v, blocks, done + 1, windows_after(windows, blocks, done, done + 1), true),
        windows_after(windows, blocks, done, done + 1) == Seq::new(
            windows.len(),
            |c: int| windows[c].push_all(v.recorded(blocks, done).share(blocks[done as int], c as nat)),
        ),
{
    let before = v.recorded(blocks, done);
    let block = blocks[done as int];
    let next = windows_after(windows, blocks, done, done + 1);
    lemma_recorded_between(v, blocks, done);
    lemma_encoded_block(before, block, v.channels.len());
    assert(windows_after(windows, blocks, done, done) == windows);
    assert(next =~= Seq::new(
        windows.len(),
        |c: int| windows[c].push_all(before.share(block, c as nat)),
    ));
    assert forall|c: int| 0 <= c < next.len() implies {
        &&& (#[trigger] next[c]).recent.len() == 4
        &&& next[c].len <= 4
        &&& same_window(v.recorded(blocks, done + 1).channels[c].history, next[c])
    } by {
        let pcm = before.share(block, c as nat);
        let coder = before.channels[c].history;
        assert(windows[c].recent.len() == 4);
        assert(v.recorded(blocks, done + 1).channels[c].history == coder.push_all(pcm));
        assert(!started ==> pcm.len() >= 3) by {
            assert(seed_count(before.channels[c].state) <= pcm.len());
        }
        lemma_same_window_push_all(coder, windows[c], pcm);
    }
}

/// From before a block of a recording, as many rounds of decoding as the
/// block has hand out the samples of the block, in the order they came, and
/// leave the decoder before the next block.
#[verifier::rlimit(40)]
pub proof fn lemma_play_block(
    v: AdhocCodecView,
    blocks: Seq<Seq<i16>>,
    all: nat,
    done: nat,
    windows: Seq<CircularStackView<i16>>,
    started: bool,
    out: Seq<i16>,
)
    requires
        before_first_block(v),
        v.codable(blocks, all),
        blocks[done as int].len() / v.channel_count() >= 1,
        done < all,
        v.recorded(blocks, all).stream.bits.len() + 17 <= usize::MAX,
        windows_fit(v, blocks, done, windows, started),
        v.recorded_exactly(blocks, all),
    ensures
        (DecodeProgress {
            codec: v.standing(blocks, all, done, windows, started),
            samples: out,
            ended: false,
        }).rounds(blocks[done as int].len() / v.channel_count()) == (DecodeProgress {
            codec: v.standing(
                blocks,
                all,
                done + 1,
                windows_after(windows, blocks, done, done + 1),
                true,
            ),
            samples: out + whole_rounds(blocks[done as int], v.channel_count()),
            ended: false,
        }),
{
    reveal(AdhocCodecView::standing);
    let channels = v.channels.len();
    let block = blocks[done as int];
    let rounds = block.len() / v.channel_count();
    let before = v.recorded(blocks, done);
    let w = v.standing(blocks, all, done, windows, started);
    let next = v.standing(
        blocks,
        all,
        done + 1,
        windows_after(windows, blocks, done, done + 1),
        true,
    );
    lemma_codable_prefix(v, blocks, done + 1, all);
    lemma_codable_prefix(v, blocks, done, all);
    lemma_recorded_between(v, blocks, done);
    lemma_standing_stored(v, blocks, all, done, windows, started);
    lemma_windows_fit_next(v, blocks, done, windows, started);
    lemma_decoded_block(w, before, block, channels);
    let filled = w.block_decoded();
    assert forall|c: int| 0 <= c < filled.channels.len() implies (#[trigger] filled.channels[c]).fifo
        == before.share(block, c as nat) by {
        assert(w.channels[c].fifo + before.share(block, c as nat) =~= before.share(
            block,
            c as nat,
        ));
    }
    assert(!filled.all_empty()) by {
        assert(filled.channels[0].fifo == before.share(block, 0));
    }
    let start = DecodeProgress { codec: w, samples: out, ended: false };
    let from_filled = DecodeProgress { codec: filled, samples: out, ended: false };
    assert(w.refilled(MAX_DECODE_ATTEMPTS as nat) == filled) by {
        assert(w.all_empty());
        assert(w.refilled(10) == filled.refilled(9));
    }
    assert(start.round() == from_filled.round());
    lemma_rounds_same_after_first(start, from_filled, rounds);
    lemma_queued_rounds_of_shares(filled, before, block, rounds);
    lemma_rounds_from_queues(filled, out, rounds);
    lemma_encoded_block(before, block, channels);
    assert((done + 1) * channels == done * channels + channels) by (nonlinear_arith);
    assert(filled.queues_advanced(rounds).channels =~= next.channels) by {
        assert forall|c: int| 0 <= c < channels implies filled.queues_advanced(
            rounds,
        ).channels[c] == next.channels[c] by {
            let queue = filled.channels[c].fifo;
            assert(queue == before.share(block, c as nat));
            assert(queue.subrange(rounds as int, queue.len() as int) =~= Seq::<i16>::empty());
        }
    }
}

/// What a decoder before a block of a recording has in its queues once it
/// has decoded the block: the samples of each channel's share.
#[verifier::rlimit(40)]
pub proof fn lemma_block_queues(
    v: AdhocCodecView,
    blocks: Seq<Seq<i16>>,
    all: nat,
    done: nat,
    windows: Seq<CircularStackView<i16>>,
    started: bool,
)
    requires
        before_first_block(v),
        v.codable(blocks, all),
        done < all,
        v.recorded(blocks, all).stream.bits.len() + 17 <= usize::MAX,
        windows_fit(v, blocks, done, windows, started),
        v.recorded_exactly(blocks, all),
    ensures
        ({
            let before = v.standing(blocks, all, done, windows, started);
            let filled = before.block_decoded();
            let next = v.standing(
                blocks,
                all,
                done + 1,
                windows_after(windows, blocks, done, done + 1),
                true,
            );
            &&& before.all_empty()
            &&& filled.channels.len() == v.channel_count()
            &&& forall|c: int|
                0 <= c < filled.channels.len() ==> (#[trigger] filled.channels[c]).fifo
                    == v.recorded(blocks, done).share(blocks[done as int], c as nat)
            &&& filled == (AdhocCodecView {
                channels: Seq::new(
                    next.channels.len(),
                    |c: int|
                        FrameCodecView {
                            fifo: v.recorded(blocks, done).share(blocks[done as int], c as nat),
                            ..next.channels[c]
                        },
                ),
                ..next
            })
        }),
{
    reveal(AdhocCodecView::standing);
    let channels = v.channels.len();
    let block = blocks[done as int];
    let before = v.recorded(blocks, done);
    let w = v.standing(blocks, all, done, windows, started);
    let next = v.standing(
        blocks,
        all,
        done + 1,
        windows_after(windows, blocks, done, done + 1),
        true,
    );
    lemma_codable_prefix(v, blocks, done + 1, all);
    lemma_codable_prefix(v, blocks, done, all);
    lemma_recorded_between(v, blocks, done);
    lemma_standing_stored(v, blocks, all, done, windows, started);
    lemma_windows_fit_next(v, blocks, done, windows, started);
    lemma_decoded_block(w, before, block, channels);
    lemma_encoded_block(before, block, channels);
    let filled = w.block_decoded();
    assert((done + 1) * channels == done * channels + channels) by (nonlinear_arith);
    let goal = AdhocCodecView {
        channels: Seq::new(
            next.channels.len(),
            |c: int|
                FrameCodecView { fifo: before.share(block, c as nat), ..next.channels[c] },
        ),
        ..next
    };
    assert(filled.channels =~= goal.channels) by {
        assert forall|c: int| 0 <= c < channels implies filled.channels[c]
            == goal.channels[c] by {
            assert(w.channels[c].fifo + before.share(block, c as nat) =~= before.share(
                block,
                c as nat,
            ));
        }
    }
}

/// A decoder before a block without a whole round decodes the block and
/// stands before the next block: nothing comes into its queues.
pub proof fn lemma_quiet_block(
    v: AdhocCodecView,
    blocks: Seq<Seq<i16>>,
    all: nat,
    done: nat,
    windows: Seq<CircularStackView<i16>>,
    started: bool,
)
    requires
        before_first_block(v),
        v.codable(blocks, all),
        done < all,
        v.recorded(blocks, all).stream.bits.len() + 17 <= usize::MAX,
        windows_fit(v, blocks, done, windows, started),
        v.recorded_exactly(blocks, all),
        blocks[done as int].len() / v.channel_count() == 0,
    ensures
        v.standing(blocks, all, done, windows, started).all_empty(),
        v.standing(blocks, all, done, windows, started).block_decoded() == v.standing(
            blocks,
            all,
            done + 1,
            windows_after(windows, blocks, done, done + 1),
            true,
        ),
{
    lemma_block_queues(v, blocks, all, done, windows, started);
    lemma_codable_prefix(v, blocks, done, all);
    lemma_recorded_between(v, blocks, done);
    let filled = v.standing(blocks, all, done, windows, started).block_decoded();
    let next = v.standing(
        blocks,
        all,
        done + 1,
        windows_after(windows, blocks, done, done + 1),
        true,
    );
    assert(filled.channels =~= next.channels) by {
        reveal(AdhocCodecView::standing);
        assert forall|c: int| 0 <= c < filled.channels.len() implies filled.channels[c]
            == next.channels[c] by {
            assert(filled.channels[c].fifo == v.recorded(blocks, done).share(
                blocks[done as int],
                c as nat,
            ));
            assert(filled.channels[c].fifo =~= Seq::<i16>::empty());
        }
    }
}

/// A decoder before a block with a whole round fills its queues by decoding
/// that block, whatever number of attempts it has.
pub proof fn lemma_loud_block(
    v: AdhocCodecView,
    blocks: Seq<Seq<i16>>,
    all: nat,
    done: nat,
    windows: Seq<CircularStackView<i16>>,
    started: bool,
    attempts: nat,
)
    requires
        before_first_block(v),
        v.codable(blocks, all),
        done < all,
        v.recorded(blocks, all).stream.bits.len() + 17 <= usize::MAX,
        windows_fit(v, blocks, done, windows, started),
        v.recorded_exactly(blocks, all),
        blocks[done as int].len() / v.channel_count() >= 1,
        attempts >= 1,
    ensures
        v.standing(blocks, all, done, windows, started).refilled(attempts) == v.standing(
            blocks,
            all,
            done,
            windows,
            started,
        ).block_decoded(),
{
    lemma_block_queues(v, blocks, all, done, windows, started);
    lemma_codable_prefix(v, blocks, done, all);
    lemma_recorded_between(v, blocks, done);
    let w = v.standing(blocks, all, done, windows, started);
    let filled = w.block_decoded();
    assert(!filled.all_empty()) by {
        assert(filled.channels[0].fifo == v.recorded(blocks, done).share(blocks[done as int], 0));
        assert(filled.channels[0].fifo.len() >= 1);
    }
    assert(w.refilled(attempts) == filled.refilled((attempts - 1) as nat));
}

/// A decoder before blocks without a whole round passes over them as it
/// fills its queues, one attempt for each.
pub proof fn lemma_skip_quiet(
    v: AdhocCodecView,
    blocks: Seq<Seq<i16>>,
    all: nat,
    from: nat,
    upto: nat,
    windows: Seq<CircularStackView<i16>>,
    started: bool,
    attempts: nat,
)
    requires
        before_first_block(v),
        v.codable(blocks, all),
        from <= upto <= all,
        v.recorded(blocks, all).stream.bits.len() + 17 <= usize::MAX,
        windows_fit(v, blocks, from, windows, started),
        v.recorded_exactly(blocks, all),
        all_quiet(blocks, v.channel_count(), from, upto),
        upto - from <= attempts,
    ensures
        v.standing(blocks, all, from, windows, started).refilled(attempts) == v.standing(
            blocks,
            all,
            upto,
            windows_after(windows, blocks, from, upto),
            started || upto > from,
        ).refilled((attempts - (upto - from)) as nat),
    decreases upto,
{
    if upto > from {
        let most = (upto - 1) as nat;
        let before = windows_after(windows, blocks, from, most);
        let left = (attempts - (most - from)) as nat;
        lemma_skip_quiet(v, blocks, all, from, most, windows, started, attempts);
        lemma_codable_prefix(v, blocks, most, all);
        lemma_windows_fit_later(v, blocks, from, most, windows, started);
        lemma_quiet_block(v, blocks, all, most, before, started || most > from);
        lemma_windows_after_step(windows, blocks, from, most);
        let standing = v.standing(blocks, all, most, before, started || most > from);
        assert(standing.refilled(left) == standing.block_decoded().refilled((left - 1) as nat));
    } else {
        assert(windows_after(windows, blocks, from, upto) == windows);
    }
}

/// Decoding one block more pushes the samples of that block into the
/// windows that the blocks before it left.
pub proof fn lemma_windows_after_step(
    windows: Seq<CircularStackView<i16>>,
    blocks: Seq<Seq<i16>>,
    from: nat,
    most: nat,
)
    requires
        from <= most,
    ensures
        windows_after(windows, blocks, from, most).len() == windows.len(),
        windows_after(windows, blocks, from, most + 1) == windows_after(
            windows_after(windows, blocks, from, most),
            blocks,
            most,
            most + 1,
        ),
    decreases most,
{
    if most > from {
        lemma_windows_after_step(windows, blocks, from, (most - 1) as nat);
    }
    let before = windows_after(windows, blocks, from, most);
    assert(windows_after(before, blocks, most, most) == before);
    assert(windows_after(windows, blocks, from, most + 1) =~= windows_after(
        before,
        blocks,
        most,
        most + 1,
    ));
}

/// Windows that fit a block fit every later block once the samples of the
/// blocks in between are pushed into them.
pub proof fn lemma_windows_fit_later(
    v: AdhocCodecView,
    blocks: Seq<Seq<i16>>,
    from: nat,
    upto: nat,
    windows: Seq<CircularStackView<i16>>,
    started: bool,
)
    requires
        before_first_block(v),
        v.codable(blocks, upto),
        from <= upto,
        windows_fit(v, blocks, from, windows, started),
    ensures
        windows_fit(
            v,
            blocks,
            upto,
            windows_after(windows, blocks, from, upto),
            started || upto > from,
        ),
        windows_after(windows, blocks, from, upto).len() == windows.len(),
    decreases upto,
{
    if upto > from {
        let most = (upto - 1) as nat;
        lemma_windows_fit_later(v, blocks, from, most, windows, started);
        let before = windows_after(windows, blocks, from, most);
        lemma_windows_fit_next(v, blocks, most, before, started || most > from);
        lemma_windows_after_step(windows, blocks, from, most);
    }
}

/// Pushing the samples of blocks into windows can be done in two steps.
pub proof fn lemma_windows_after_split(
    windows: Seq<CircularStackView<i16>>,
    blocks: Seq<Seq<i16>>,
    from: nat,
    mid: nat,
    upto: nat,
)
    requires
        from <= mid <= upto,
    ensures
        windows_after(windows, blocks, from, upto) == windows_after(
            windows_after(windows, blocks, from, mid),
            blocks,
            mid,
            upto,
        ),
    decreases upto,
{
    let middle = windows_after(windows, blocks, from, mid);
    if upto > mid {
        let most = (upto - 1) as nat;
        lemma_windows_after_split(windows, blocks, from, mid, most);
        lemma_windows_after_step(windows, blocks, from, most);
        lemma_windows_after_step(middle, blocks, mid, most);
    } else {
        assert(windows_after(middle, blocks, mid, upto) == middle);
    }
}

/// From before blocks without a whole round that lie before a block with
/// one, as many rounds of decoding as that block has hand out its samples,
/// in the order they came, and leave the decoder behind the block.
pub proof fn lemma_play_over(
    v: AdhocCodecView,
    blocks: Seq<Seq<i16>>,
    all: nat,
    from: nat,
    block: nat,
    windows: Seq<CircularStackView<i16>>,
    started: bool,
    out: Seq<i16>,
)
    requires
        before_first_block(v),
        v.codable(blocks, all),
        from <= block < all,
        v.recorded(blocks, all).stream.bits.len() + 17 <= usize::MAX,
        windows_fit(v, blocks, from, windows, started),
        v.recorded_exactly(blocks, all),
        all_quiet(blocks, v.channel_count(), from, block),
        blocks[block as int].len() / v.channel_count() >= 1,
        block - from < MAX_DECODE_ATTEMPTS,
    ensures
        (DecodeProgress {
            codec: v.standing(blocks, all, from, windows, started),
            samples: out,
            ended: false,
        }).rounds(blocks[block as int].len() / v.channel_count()) == (DecodeProgress {
            codec: v.standing(
                blocks,
                all,
                block + 1,
                windows_after(windows, blocks, from, block + 1),
                true,
            ),
            samples: out + whole_rounds(blocks[block as int], v.channel_count()),
            ended: false,
        }),
{
    let attempts = MAX_DECODE_ATTEMPTS as nat;
    let rounds = blocks[block as int].len() / v.channel_count();
    let before = windows_after(windows, blocks, from, block);
    let begun = started || block > from;
    let first = v.standing(blocks, all, from, windows, started);
    let standing = v.standing(blocks, all, block, before, begun);
    lemma_skip_quiet(v, blocks, all, from, block, windows, started, attempts);
    lemma_codable_prefix(v, blocks, block, all);
    lemma_windows_fit_later(v, blocks, from, block, windows, started);
    lemma_loud_block(v, blocks, all, block, before, begun, (attempts - (block - from)) as nat);
    lemma_loud_block(v, blocks, all, block, before, begun, attempts);
    let start = DecodeProgress { codec: first, samples: out, ended: false };
    let later = DecodeProgress { codec: standing, samples: out, ended: false };
    assert(first.refilled(attempts) == standing.refilled(attempts));
    assert(start.round() == later.round());
    lemma_rounds_same_after_first(start, later, rounds);
    lemma_play_block(v, blocks, all, block, before, begun, out);
    lemma_windows_after_step(windows, blocks, from, block);
}

/// A decoder before blocks of which none holds a whole round, up to the
/// end of the recording, hands out nothing: its stream ends in the first
/// round.
pub proof fn lemma_quiet_tail(
    v: AdhocCodecView,
    blocks: Seq<Seq<i16>>,
    all: nat,
    from: nat,
    windows: Seq<CircularStackView<i16>>,
    started: bool,
    out: Seq<i16>,
    asked: nat,
)
    requires
        before_first_block(v),
        v.codable(blocks, all),
        from <= all,
        v.recorded(blocks, all).stream.bits.len() + 17 <= usize::MAX,
        windows_fit(v, blocks, from, windows, started),
        v.recorded_exactly(blocks, all),
        all_quiet(blocks, v.channel_count(), from, all),
        asked >= 1,
    ensures
        (DecodeProgress {
            codec: v.standing(blocks, all, from, windows, started),
            samples: out,
            ended: false,
        }).rounds(asked).ended,
        (DecodeProgress {
            codec: v.standing(blocks, all, from, windows, started),
            samples: out,
            ended: false,
        }).rounds(asked).samples == out,
{
    let attempts = MAX_DECODE_ATTEMPTS as nat;
    let upto: nat = if all - from <= attempts {
        all
    } else {
        from + attempts
    };
    let first = v.standing(blocks, all, from, windows, started);
    let last = v.standing(
        blocks,
        all,
        upto,
        windows_after(windows, blocks, from, upto),
        started || upto > from,
    );
    let start = DecodeProgress { codec: first, samples: out, ended: false };
    lemma_skip_quiet(v, blocks, all, from, upto, windows, started, attempts);
    lemma_recorded_between(v, blocks, all);
    assert(last.all_empty() && (upto == all ==> last.headers.next().is_none())) by {
        reveal(AdhocCodecView::standing);
    }
    if upto == all {
        lemma_refilled_at_end(last, (attempts - (upto - from)) as nat);
    }
    assert(first.refilled(attempts) == last);
    assert(start.rounds(0) == start);
    assert(start.rounds(1) == start.round());
    lemma_rounds_ended(start, 1, asked);
}

/// From before a block of a recording, as many rounds of decoding as the
/// blocks up to a later block have hand out the samples of those blocks, in
/// the order they came, and leave the decoder behind the last of them that
/// holds a whole round.
#[verifier::rlimit(40)]
pub proof fn lemma_play_blocks(
    v: AdhocCodecView,
    blocks: Seq<Seq<i16>>,
    all: nat,
    from: nat,
    upto: nat,
    windows: Seq<CircularStackView<i16>>,
    started: bool,
    out: Seq<i16>,
)
    requires
        before_first_block(v),
        v.codable(blocks, all),
        runs_short(blocks, v.channel_count(), all),
        from <= upto <= all,
        v.recorded(blocks, all).stream.bits.len() + 17 <= usize::MAX,
        windows_fit(v, blocks, from, windows, started),
        v.recorded_exactly(blocks, all),
    ensures
        ({
            let reached = played_upto(blocks, v.channel_count(), from, upto);
            (DecodeProgress {
                codec: v.standing(blocks, all, from, windows, started),
                samples: out,
                ended: false,
            }).rounds(rounds_between(blocks, v.channel_count(), from, upto)) == (DecodeProgress {
                codec: v.standing(
                    blocks,
                    all,
                    reached,
                    windows_after(windows, blocks, from, reached),
                    started || reached > from,
                ),
                samples: out + recording_between(blocks, v.channel_count(), from, upto),
                ended: false,
            })
        }),
    decreases upto,
{
    let start = DecodeProgress {
        codec: v.standing(blocks, all, from, windows, started),
        samples: out,
        ended: false,
    };
    let channels = v.channel_count();
    if upto == from {
        assert(start.rounds(0) == start);
        assert(out + recording_between(blocks, channels, from, upto) =~= out);
        assert(windows_after(windows, blocks, from, from) == windows);
    } else {
        let most = (upto - 1) as nat;
        let rounds = blocks[most as int].len() / channels;
        let reached = played_upto(blocks, channels, from, most);
        let so_far = out + recording_between(blocks, channels, from, most);
        lemma_play_blocks(v, blocks, all, from, most, windows, started, out);
        lemma_played_upto(blocks, channels, from, most);
        if rounds == 0 {
            assert(0 * channels == 0) by (nonlinear_arith);
            assert(whole_rounds(blocks[most as int], channels) =~= Seq::<i16>::empty());
            assert(so_far =~= out + recording_between(blocks, channels, from, upto));
        } else {
            let before = windows_after(windows, blocks, from, reached);
            lemma_quiet_span(blocks, channels, reached, most, all);
            assert(reached + quiet_run(blocks, channels, reached, all) < all);
            lemma_codable_prefix(v, blocks, reached, all);
            lemma_windows_fit_later(v, blocks, from, reached, windows, started);
            lemma_play_over(
                v,
                blocks,
                all,
                reached,
                most,
                before,
                started || reached > from,
                so_far,
            );
            lemma_rounds_add(start, rounds_between(blocks, channels, from, most), rounds);
            lemma_windows_after_split(windows, blocks, from, reached, upto);
            assert(so_far + whole_rounds(blocks[most as int], channels) =~= out
                + recording_between(blocks, channels, from, upto));
        }
    }
}

/// The samples of blocks are as many as their rounds times the channels.
pub proof fn lemma_recording_len(blocks: Seq<Seq<i16>>, channels: nat, from: nat, upto: nat)
    requires
        channels >= 1,
    ensures
        recording_between(blocks, channels, from, upto).len() == rounds_between(
            blocks,
            channels,
            from,
            upto,
        ) * channels,
    decreases upto,
{
    if upto <= from {
        assert(0 * channels == 0) by (nonlinear_arith);
    } else {
        let done = (upto - 1) as nat;
        let block = blocks[upto - 1];
        lemma_recording_len(blocks, channels, from, done);
        let rounds = block.len() / channels;
        lemma_fundamental_div_mod(block.len() as int, channels as int);
        assert(rounds * channels <= block.len()) by (nonlinear_arith)
            requires
                block.len() == channels * rounds + block.len() % channels,
                0 <= block.len() % channels,
        ;
        assert((rounds_between(blocks, channels, from, done) + rounds) * channels
            == rounds_between(blocks, channels, from, done) * channels + rounds * channels)
            by (nonlinear_arith);
    }
}

/// What a decoder that stands before a block of a recording hands out: the
/// samples of the blocks from that block on, in the order they came, as
/// many as there is room for in whole rounds. With room for more rounds
/// than are left it hands out all of them, and its stream has ended.
#[verifier::rlimit(40)]
pub proof fn lemma_play_from(
    v: AdhocCodecView,
    blocks: Seq<Seq<i16>>,
    all: nat,
    from: nat,
    windows: Seq<CircularStackView<i16>>,
    started: bool,
    out: Seq<i16>,
    asked: nat,
)
    requires
        before_first_block(v),
        v.codable(blocks, all),
        runs_short(blocks, v.channel_count(), all),
        from <= all,
        v.recorded(blocks, all).stream.bits.len() + 17 <= usize::MAX,
        windows_fit(v, blocks, from, windows, started),
        v.recorded_exactly(blocks, all),
    ensures
        ({
            let channels = v.channel_count();
            let left = rounds_between(blocks, channels, from, all);
            let wanted = recording_between(blocks, channels, from, all);
            let played = (DecodeProgress {
                codec: v.standing(blocks, all, from, windows, started),
                samples: out,
                ended: false,
            }).rounds(asked);
            &&& asked <= left ==> !played.ended && played.samples == out + wanted.subrange(
                0,
                (asked * channels) as int,
            )
            &&& asked > left ==> played.ended && played.samples == out + wanted
        }),
{
    let channels = v.channel_count();
    let left = rounds_between(blocks, channels, from, all);
    let wanted = recording_between(blocks, channels, from, all);
    let reached = played_upto(blocks, channels, from, all);
    let start = DecodeProgress {
        codec: v.standing(blocks, all, from, windows, started),
        samples: out,
        ended: false,
    };
    lemma_recorded_between(v, blocks, all);
    lemma_play_blocks(v, blocks, all, from, all, windows, started, out);
    lemma_recording_len(blocks, channels, from, all);
    lemma_played_upto(blocks, channels, from, all);
    assert(start.codec.channels.len() == channels) by {
        reveal(AdhocCodecView::standing);
    }
    if asked <= left {
        lemma_rounds_prefix(start, asked, left);
        assert(asked * channels <= left * channels) by (nonlinear_arith)
            requires
                asked <= left,
        ;
        assert((out + wanted).subrange(0, (out.len() + asked * channels) as int) =~= out + wanted.subrange(
            0,
            (asked * channels) as int,
        ));
    } else {
        lemma_rounds_add(start, left, (asked - left) as nat);
        lemma_codable_prefix(v, blocks, reached, all);
        lemma_windows_fit_later(v, blocks, from, reached, windows, started);
        lemma_quiet_tail(
            v,
            blocks,
            all,
            reached,
            windows_after(windows, blocks, from, reached),
            started || reached > from,
            out + wanted,
            (asked - left) as nat,
        );
    }
}

/// Encode, rewind, decode: a recording comes back as it went in.
///
/// A codec that coded block after block from its first block on, none with
/// a residual that was cut, and was then rewound, hands out on `decode` the
/// samples that it coded, in the order they came, as many as there is room
/// for in whole rounds. With room for more rounds than were coded it hands
/// out all of them, and its stream has ended.
///
/// Left out are recordings in which `MAX_DECODE_ATTEMPTS` or more blocks
/// without a whole round lie before a block with one.
pub proof fn lemma_playback(v: AdhocCodecView, blocks: Seq<Seq<i16>>, all: nat, room: nat)
    requires
        before_first_block(v),
        v.codable(blocks, all),
        runs_short(blocks, v.channel_count(), all),
        v.recorded(blocks, all).stream.bits.len() + 17 <= usize::MAX,
        v.recorded_exactly(blocks, all),
    ensures
        ({
            let channels = v.channel_count();
            let coded = recording_rounds(blocks, channels, all);
            let asked = room / channels;
            let played = v.recorded(blocks, all).rewound().decoded(room);
            &&& asked <= coded ==> !played.ended && played.samples == recording(
                blocks,
                channels,
                all,
            ).subrange(0, (asked * channels) as int)
            &&& asked > coded ==> played.ended && played.samples == recording(
                blocks,
                channels,
                all,
            )
        }),
{
    let channels = v.channel_count();
    let asked = room / channels;
    let wanted = recording(blocks, channels, all);
    let end = v.recorded(blocks, all);
    lemma_recorded_between(v, blocks, all);
    lemma_rewound_is_playing(v, blocks, all);
    assert(windows_after(end.windows(), blocks, 0, 0) == end.windows());
    lemma_fundamental_div_mod(room as int, channels as int);
    assert(0 <= room / channels) by (nonlinear_arith)
        requires
            channels >= 1,
            room == channels * (room / channels) + room % channels,
            room % channels < channels,
    ;
    lemma_play_from(v, blocks, all, 0, end.windows(), false, Seq::empty(), asked);
    assert(Seq::<i16>::empty() + wanted =~= wanted);
    assert(Seq::<i16>::empty() + wanted.subrange(0, (asked * channels) as int)
        =~= wanted.subrange(0, (asked * channels) as int));
}

} // verus!
