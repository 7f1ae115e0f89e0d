//! Laws of blocks: what coding one frame for each channel leaves in the
//! stream and the directory, and how a decoder takes it out again round by
//! round.

use crate::codec::adhoc::frame::{
    encoded_frame, frame_code, frame_exponent, header_of, lemma_best_exponent_upto,
    next_frame_decoded, seed_count, FrameCodecView, FrameOutcome,
};
use crate::codec::adhoc::round_trip::{
    exact_residuals, lemma_holds_at_parts, lemma_next_frame_in_step,
    lemma_next_frame_round_trip, same_window,
};
use crate::codec::adhoc::frame_headers::{FrameHeader, FrameHeadersView};
use crate::codec::adhoc::{
    channel_samples, AdhocCodecView, CodecState, DecodeProgress, MAX_DECODE_ATTEMPTS,
};
use crate::collections::rice::{holds_at, lemma_write_seq_concat};
use vstd::arithmetic::div_mod::{lemma_fundamental_div_mod, lemma_fundamental_div_mod_converse};
use vstd::prelude::*;

verus! {

impl AdhocCodecView {
    /// The samples of channel `c` among `interleaved`.
    pub open spec fn share(self, interleaved: Seq<i16>, c: nat) -> Seq<i16> {
        channel_samples(interleaved, self.channel_count(), c)
    }

    /// The exponent of the frame that channel `c` codes of `interleaved`.
    pub open spec fn channel_exponent(self, interleaved: Seq<i16>, c: nat) -> nat {
        frame_exponent(
            self.channels[c as int].history,
            seed_count(self.channels[c as int].state),
            self.share(interleaved, c),
        )
    }

    /// The bits of the frame that channel `c` codes of `interleaved`.
    pub open spec fn channel_code(self, interleaved: Seq<i16>, c: nat) -> Seq<bool> {
        frame_code(
            self.channels[c as int].history,
            seed_count(self.channels[c as int].state),
            self.share(interleaved, c),
            self.channel_exponent(interleaved, c),
        )
    }

    /// The bits of the frames that the first `upto` channels code of
    /// `interleaved`, one frame behind the other.
    pub open spec fn block_code(self, interleaved: Seq<i16>, upto: nat) -> Seq<bool>
        decreases upto,
    {
        if upto == 0 {
            Seq::empty()
        } else {
            self.block_code(interleaved, (upto - 1) as nat) + self.channel_code(
                interleaved,
                (upto - 1) as nat,
            )
        }
    }

    /// The header of the frame that channel `c` codes of `interleaved`.
    pub open spec fn channel_header(self, interleaved: Seq<i16>, c: nat) -> FrameHeader {
        let codec = self.channels[c as int];
        let pcm = self.share(interleaved, c);
        header_of(
            self.channel_exponent(interleaved, c),
            pcm.len(),
            self.stream.cursor + self.block_code(interleaved, c).len(),
            codec.state == CodecState::Init,
            codec.history.push_all(pcm.subrange(0, seed_count(codec.state) as int)),
        )
    }

    /// The headers of the frames that the first `upto` channels code of
    /// `interleaved`.
    pub open spec fn block_headers(self, interleaved: Seq<i16>, upto: nat) -> Seq<FrameHeader> {
        Seq::new(upto, |c: int| self.channel_header(interleaved, c as nat))
    }

    /// The codec of channel `c` after it coded its share of `interleaved`.
    pub open spec fn channel_encoded(self, interleaved: Seq<i16>, c: nat) -> FrameCodecView {
        FrameCodecView {
            state: CodecState::Encoding,
            history: self.channels[c as int].history.push_all(self.share(interleaved, c)),
            fifo: self.channels[c as int].fifo,
        }
    }
}

/// What coding a block of interleaved samples leaves behind, channel by
/// channel: the stream holds the frames of the channels one behind the
/// other from where its cursor was, the directory holds their headers in
/// the same order, and each channel that has coded is in the state
/// `Encoding` with its samples in its window.
pub proof fn lemma_encoded_block(v: AdhocCodecView, interleaved: Seq<i16>, upto: nat)
    requires
        upto <= v.channels.len(),
    ensures
        v.encoded_upto(interleaved, upto) == (AdhocCodecView {
            stream: v.stream.write_seq(v.block_code(interleaved, upto)),
            headers: v.headers.push_all(v.block_headers(interleaved, upto)),
            channels: Seq::new(
                v.channels.len(),
                |c: int|
                    if c < upto {
                        v.channel_encoded(interleaved, c as nat)
                    } else {
                        v.channels[c]
                    },
            ),
            ..v
        }),
    decreases upto,
{
    let goal = AdhocCodecView {
        stream: v.stream.write_seq(v.block_code(interleaved, upto)),
        headers: v.headers.push_all(v.block_headers(interleaved, upto)),
        channels: Seq::new(
            v.channels.len(),
            |c: int|
                if c < upto {
                    v.channel_encoded(interleaved, c as nat)
                } else {
                    v.channels[c]
                },
        ),
        ..v
    };
    if upto == 0 {
        assert(v.block_code(interleaved, 0).len() == 0);
        assert(v.block_headers(interleaved, 0) =~= Seq::<FrameHeader>::empty());
        assert(goal.channels =~= v.channels);
    } else {
        let c = (upto - 1) as nat;
        lemma_encoded_block(v, interleaved, c);
        let before = v.encoded_upto(interleaved, c);
        let outcome = encoded_frame(
            before.channels[c as int],
            before.stream,
            before.headers,
            v.share(interleaved, c),
        );
        assert(before.channels[c as int] == v.channels[c as int]);
        lemma_write_seq_concat(
            v.stream,
            v.block_code(interleaved, c),
            v.channel_code(interleaved, c),
        );
        assert(before.stream.cursor == v.stream.cursor + v.block_code(interleaved, c).len());
        assert(outcome.stream == goal.stream);
        assert(v.block_headers(interleaved, upto).drop_last() =~= v.block_headers(interleaved, c));
        assert(v.block_headers(interleaved, upto).last() == v.channel_header(interleaved, c));
        assert(outcome.headers == goal.headers);
        assert(before.channels.update(c as int, outcome.codec) =~= goal.channels);
    }
}

/// The frames of the first channels of a block stand at the start of the
/// frames of all its channels.
pub proof fn lemma_block_code_prefix(v: AdhocCodecView, interleaved: Seq<i16>, upto: nat, all: nat)
    requires
        upto <= all,
    ensures
        v.block_code(interleaved, all).len() >= v.block_code(interleaved, upto).len(),
        v.block_code(interleaved, all).subrange(
            0,
            v.block_code(interleaved, upto).len() as int,
        ) == v.block_code(interleaved, upto),
    decreases all - upto,
{
    let short = v.block_code(interleaved, upto);
    if upto == all {
        assert(short.subrange(0, short.len() as int) =~= short);
    } else {
        lemma_block_code_prefix(v, interleaved, upto, (all - 1) as nat);
        let most = v.block_code(interleaved, (all - 1) as nat);
        let long = v.block_code(interleaved, all);
        assert(long.subrange(0, short.len() as int) =~= most.subrange(0, short.len() as int));
    }
}

/// Whether a decoder `w` stands before the frame that channel `c` of the
/// encoder `v` coded of `interleaved`: the header at its place in the
/// directory has the frame's exponent and size, the decoder's channel is in
/// the state that matches the encoder's and gives the predictor the same
/// three samples, and no residual of the frame was cut.
pub open spec fn channel_stored(
    w: AdhocCodecView,
    v: AdhocCodecView,
    interleaved: Seq<i16>,
    c: int,
) -> bool {
    let header = w.headers.headers[w.headers.cursor + c];
    let coder = v.channels[c];
    let decoder = w.channels[c];
    let pcm = v.share(interleaved, c as nat);
    let seeds = seed_count(coder.state);
    &&& header.exponent == v.channel_exponent(interleaved, c as nat)
    &&& header.size == pcm.len()
    &&& decoder.state != CodecState::Encoding
    &&& seed_count(decoder.state) == seeds
    &&& seeds <= pcm.len()
    &&& coder.history.recent.len() == 4
    &&& coder.history.len <= 4
    &&& decoder.history.recent.len() == 4
    &&& decoder.history.len <= 4
    &&& decoder.state == CodecState::Init || same_window(coder.history, decoder.history)
    &&& exact_residuals(
        coder.history.push_all(pcm.subrange(0, seeds as int)),
        pcm.subrange(seeds as int, pcm.len() as int),
    )
}

/// Whether a decoder `w` stands before the block that the encoder `v`
/// coded of `interleaved`: the stream holds the frames of the block at its
/// cursor and can be read to their end, the directory holds their headers
/// at its cursor, and every channel is ready for its frame.
pub open spec fn block_stored(w: AdhocCodecView, v: AdhocCodecView, interleaved: Seq<i16>) -> bool {
    let channels = v.channels.len();
    &&& w.channels.len() == channels
    &&& v.channel_count() == channels
    &&& w.headers.cursor + channels <= w.headers.headers.len()
    &&& holds_at(w.stream, v.block_code(interleaved, channels))
    &&& w.stream.bits.len() + 17 <= usize::MAX
    &&& w.stream.cursor + v.block_code(interleaved, channels).len() + 17 <= usize::MAX
    &&& forall|c: int| 0 <= c < channels ==> #[trigger] channel_stored(w, v, interleaved, c)
}

impl AdhocCodecView {
    /// The codec of channel `c` after it decoded the samples `pcm`.
    pub open spec fn channel_decoded(self, c: int, pcm: Seq<i16>) -> FrameCodecView {
        FrameCodecView {
            state: CodecState::Decoding,
            history: self.channels[c].history.push_all(pcm),
            fifo: self.channels[c].fifo + pcm,
        }
    }
}

/// A decoder that stands before a block decodes it as it was coded: every
/// channel that has decoded its frame has the samples of its share in its
/// queue and in its window, the stream is behind the frames, and the
/// directory behind their headers.
pub proof fn lemma_decoded_block(
    w: AdhocCodecView,
    v: AdhocCodecView,
    interleaved: Seq<i16>,
    upto: nat,
)
    requires
        block_stored(w, v, interleaved),
        upto <= v.channels.len(),
    ensures
        w.block_decoded_upto(upto) == (AdhocCodecView {
            stream: w.stream.advance(v.block_code(interleaved, upto).len()),
            headers: w.headers.at(w.headers.cursor + upto),
            channels: Seq::new(
                w.channels.len(),
                |c: int|
                    if c < upto {
                        w.channel_decoded(c, v.share(interleaved, c as nat))
                    } else {
                        w.channels[c]
                    },
            ),
            ..w
        }),
    decreases upto,
{
    let goal = AdhocCodecView {
        stream: w.stream.advance(v.block_code(interleaved, upto).len()),
        headers: w.headers.at(w.headers.cursor + upto),
        channels: Seq::new(
            w.channels.len(),
            |c: int|
                if c < upto {
                    w.channel_decoded(c, v.share(interleaved, c as nat))
                } else {
                    w.channels[c]
                },
        ),
        ..w
    };
    if upto == 0 {
        assert(goal.channels =~= w.channels);
        assert(v.block_code(interleaved, 0).len() == 0);
    } else {
        let c = (upto - 1) as nat;
        lemma_decoded_block(w, v, interleaved, c);
        let before = w.block_decoded_upto(c);
        assert(before.channels[c as int] == w.channels[c as int]);
        assert(channel_stored(w, v, interleaved, c as int));
        lemma_decoded_channel(w, v, interleaved, c);
        let outcome = next_frame_decoded(
            before.channels[c as int],
            before.stream,
            before.headers,
        );
        assert(before.channels.update(c as int, outcome.codec) =~= goal.channels);
    }
}

/// The step of `lemma_decoded_block` for one channel: a decoder that has
/// decoded the frames of the channels before `c` decodes the frame of
/// channel `c` as it was coded.
pub proof fn lemma_decoded_channel(
    w: AdhocCodecView,
    v: AdhocCodecView,
    interleaved: Seq<i16>,
    c: nat,
)
    requires
        block_stored(w, v, interleaved),
        c < v.channels.len(),
        channel_stored(w, v, interleaved, c as int),
    ensures
        next_frame_decoded(
            w.channels[c as int],
            w.stream.advance(v.block_code(interleaved, c).len()),
            w.headers.at(w.headers.cursor + c),
        ) == (FrameOutcome {
            codec: w.channel_decoded(c as int, v.share(interleaved, c)),
            stream: w.stream.advance(v.block_code(interleaved, c + 1).len()),
            headers: w.headers.at(w.headers.cursor + c + 1),
        }),
{
    let coder = v.channels[c as int];
    let pcm = v.share(interleaved, c);
    let seeds = seed_count(coder.state);
    let k = v.channel_exponent(interleaved, c);
    let done = v.block_code(interleaved, c);
    lemma_best_exponent_upto(
        coder.history.push_all(pcm.subrange(0, seeds as int)),
        pcm.subrange(seeds as int, pcm.len() as int),
        15,
    );
    lemma_channel_code_holds(w, v, interleaved, c);
    lemma_block_code_prefix(v, interleaved, c + 1, v.channels.len());
    lemma_next_frame_round_trip(
        w.channels[c as int],
        w.stream.advance(done.len()),
        w.headers.at(w.headers.cursor + c),
        coder.history,
        pcm,
        k,
    );
}

/// Where the frames of a block stand at the cursor of a stream, the frame of
/// channel `c` stands behind the frames of the channels before it.
pub proof fn lemma_channel_code_holds(
    w: AdhocCodecView,
    v: AdhocCodecView,
    interleaved: Seq<i16>,
    c: nat,
)
    requires
        holds_at(w.stream, v.block_code(interleaved, v.channels.len())),
        c < v.channels.len(),
    ensures
        holds_at(
            w.stream.advance(v.block_code(interleaved, c).len()),
            v.channel_code(interleaved, c),
        ),
{
    let done = v.block_code(interleaved, c);
    let code = v.channel_code(interleaved, c);
    let all = v.block_code(interleaved, v.channels.len());
    lemma_block_code_prefix(v, interleaved, c + 1, v.channels.len());
    assert(holds_at(w.stream, done + code)) by {
        assert forall|i: int| 0 <= i < (done + code).len() implies #[trigger] (done + code)[i]
            == w.stream.bit(w.stream.cursor + i) by {
            assert(all.subrange(0, (done + code).len() as int)[i] == all[i]);
        }
    }
    lemma_holds_at_parts(w.stream, done, code);
}

impl AdhocCodecView {
    /// The codec with the first `rounds` samples taken from every queue.
    pub open spec fn queues_advanced(self, rounds: nat) -> AdhocCodecView {
        AdhocCodecView {
            channels: Seq::new(
                self.channels.len(),
                |c: int|
                    FrameCodecView {
                        fifo: self.channels[c].fifo.subrange(
                            rounds as int,
                            self.channels[c].fifo.len() as int,
                        ),
                        ..self.channels[c]
                    },
            ),
            ..self
        }
    }

    /// The first `rounds` samples of every queue, interleaved: the first of
    /// each channel, channel 0 first, then the second of each, and so on.
    pub open spec fn queued_rounds(self, rounds: nat) -> Seq<i16> {
        Seq::new(
            rounds * self.channels.len(),
            |i: int|
                self.channels[i % (self.channels.len() as int)].fifo[i / (
                self.channels.len() as int)],
        )
    }

    /// Whether every queue holds at least `rounds` samples.
    pub open spec fn queues_hold(self, rounds: nat) -> bool {
        forall|c: int|
            0 <= c < self.channels.len() ==> (#[trigger] self.channels[c]).fifo.len() >= rounds
    }
}

/// The place `round * channels + c` is in round `round` at channel `c`.
pub proof fn lemma_round_place(round: int, c: int, channels: int)
    requires
        0 <= round,
        0 <= c < channels,
    ensures
        (round * channels + c) / channels == round,
        (round * channels + c) % channels == c,
        (round + 1) * channels == round * channels + channels,
        0 <= round * channels,
{
    lemma_fundamental_div_mod_converse(round * channels + c, channels, round, c);
    assert((round + 1) * channels == round * channels + channels) by (nonlinear_arith);
    assert(0 <= round * channels) by (nonlinear_arith)
        requires
            0 <= round,
            0 < channels,
    ;
}

/// A place below `rounds * channels` lies in a round below `rounds`.
pub proof fn lemma_place_round(i: int, rounds: int, channels: int)
    requires
        0 <= i < rounds * channels,
        0 < channels,
    ensures
        0 <= i / channels < rounds,
        0 <= i % channels < channels,
        i == (i / channels) * channels + i % channels,
{
    lemma_fundamental_div_mod(i, channels);
    assert(i / channels < rounds) by (nonlinear_arith)
        requires
            i < rounds * channels,
            0 < channels,
            i == channels * (i / channels) + i % channels,
            0 <= i % channels,
    ;
    assert(0 <= i / channels) by (nonlinear_arith)
        requires
            0 <= i,
            0 < channels,
            i == channels * (i / channels) + i % channels,
            i % channels < channels,
    ;
    assert((i / channels) * channels == channels * (i / channels)) by (nonlinear_arith);
}

/// While every queue holds a sample, each round of decoding hands out the
/// next sample of each channel, channel 0 first, and reads nothing from
/// the stream.
pub proof fn lemma_rounds_from_queues(f: AdhocCodecView, out: Seq<i16>, rounds: nat)
    requires
        f.channels.len() >= 1,
        f.queues_hold(rounds),
    ensures
        (DecodeProgress { codec: f, samples: out, ended: false }).rounds(rounds) == (
        DecodeProgress {
            codec: f.queues_advanced(rounds),
            samples: out + f.queued_rounds(rounds),
            ended: false,
        }),
    decreases rounds,
{
    let start = DecodeProgress { codec: f, samples: out, ended: false };
    let channels = f.channels.len() as int;
    if rounds == 0 {
        assert(f.queues_advanced(0).channels =~= f.channels) by {
            assert forall|c: int| 0 <= c < channels implies f.queues_advanced(0).channels[c]
                == f.channels[c] by {
                let queue = f.channels[c].fifo;
                assert(queue.subrange(0, queue.len() as int) =~= queue);
            }
        }
        assert(0 * f.channels.len() == 0) by (nonlinear_arith);
        assert(out + f.queued_rounds(0) =~= out);
    } else {
        let done = (rounds - 1) as nat;
        assert(f.queues_hold(done)) by {
            assert forall|c: int| 0 <= c < channels implies (#[trigger] f.channels[c]).fifo.len()
                >= done by {}
        }
        lemma_rounds_from_queues(f, out, done);
        let g = f.queues_advanced(done);
        assert(!g.all_empty()) by {
            assert(f.channels[0].fifo.len() >= rounds);
            assert(g.channels[0].fifo.len() >= 1);
        }
        assert(g.round_drained().channels =~= f.queues_advanced(rounds).channels) by {
            assert forall|c: int| 0 <= c < channels implies g.round_drained().channels[c]
                == f.queues_advanced(rounds).channels[c] by {
                let queue = f.channels[c].fifo;
                assert(queue.len() >= rounds);
                assert(queue.subrange(done as int, queue.len() as int).drop_first()
                    =~= queue.subrange(rounds as int, queue.len() as int));
            }
        }
        let longer = f.queued_rounds(rounds);
        let shorter = f.queued_rounds(done);
        let taken = g.round_samples();
        lemma_round_place(done as int, 0, channels);
        assert(longer =~= shorter + taken) by {
            assert forall|i: int| 0 <= i < longer.len() implies longer[i] == (shorter + taken)[i] by {
                if i >= shorter.len() {
                    let c = i - done * channels;
                    lemma_round_place(done as int, c, channels);
                    assert(f.channels[c].fifo.len() >= rounds);
                }
            }
        }
        assert(out + shorter + taken =~= out + longer);
    }
}

/// A codec whose directory is at its end decodes no further frame.
pub proof fn lemma_block_at_end(f: AdhocCodecView, upto: nat)
    requires
        f.headers.next().is_none(),
        upto <= f.channels.len(),
    ensures
        f.block_decoded_upto(upto) == f,
    decreases upto,
{
    if upto > 0 {
        let c = (upto - 1) as nat;
        lemma_block_at_end(f, c);
        assert(f.channels.update(c as int, f.channels[c as int]) =~= f.channels);
    }
}

/// A codec with empty queues whose directory is at its end stays as it is,
/// however often it tries to fill its queues.
pub proof fn lemma_refilled_at_end(f: AdhocCodecView, attempts: nat)
    requires
        f.headers.next().is_none(),
    ensures
        f.refilled(attempts) == f,
    decreases attempts,
{
    if attempts > 0 && f.all_empty() {
        lemma_block_at_end(f, f.channels.len());
        lemma_refilled_at_end(f, (attempts - 1) as nat);
    }
}

/// A codec with empty queues whose directory is at its end has nothing
/// left to decode: its stream has ended, and no sample comes.
pub proof fn lemma_rounds_at_end(f: AdhocCodecView, out: Seq<i16>, rounds: nat)
    requires
        f.headers.next().is_none(),
        f.all_empty(),
        rounds >= 1,
    ensures
        (DecodeProgress { codec: f, samples: out, ended: false }).rounds(rounds) == (
        DecodeProgress { codec: f, samples: out, ended: true }),
    decreases rounds,
{
    let start = DecodeProgress { codec: f, samples: out, ended: false };
    lemma_refilled_at_end(f, MAX_DECODE_ATTEMPTS as nat);
    if rounds > 1 {
        lemma_rounds_at_end(f, out, (rounds - 1) as nat);
    } else {
        assert(start.rounds(0) == start);
    }
}

/// Rounds of decoding add up: `a + b` rounds are `a` rounds and then `b`
/// more.
pub proof fn lemma_rounds_add(start: DecodeProgress, a: nat, b: nat)
    ensures
        start.rounds(a + b) == start.rounds(a).rounds(b),
    decreases b,
{
    if b > 0 {
        lemma_rounds_add(start, a, (b - 1) as nat);
    }
}

/// Whether a codec is about to code its first block: a description with
/// at least one channel is set, the directory and the stream are at their
/// start with nothing in them that a decoder would meet first, and every
/// channel is in the state `Init` with an empty queue.
pub open spec fn before_first_block(v: AdhocCodecView) -> bool {
    &&& v.channel_count() >= 1
    &&& v.channels.len() == v.channel_count()
    &&& v.headers == FrameHeadersView::empty()
    &&& v.stream.cursor == 0
    &&& forall|c: int|
        0 <= c < v.channels.len() ==> {
            &&& (#[trigger] v.channels[c]).state == CodecState::Init
            &&& v.channels[c].fifo.len() == 0
            &&& v.channels[c].history.recent.len() == 4
            &&& v.channels[c].history.len <= 4
        }
}

/// Whether no residual is cut when the codec `v` codes `interleaved`: in
/// every channel, each sample that is coded as a residual differs from its
/// prediction by at most 32766.
pub open spec fn block_exact(v: AdhocCodecView, interleaved: Seq<i16>) -> bool {
    forall|c: int| 0 <= c < v.channels.len() ==> #[trigger] channel_exact(v, interleaved, c)
}

/// Whether no residual is cut when channel `c` of the codec `v` codes its
/// share of `interleaved`.
pub open spec fn channel_exact(v: AdhocCodecView, interleaved: Seq<i16>, c: int) -> bool {
    let pcm = v.share(interleaved, c as nat);
    let seeds = seed_count(v.channels[c].state);
    exact_residuals(
        v.channels[c].history.push_all(pcm.subrange(0, seeds as int)),
        pcm.subrange(seeds as int, pcm.len() as int),
    )
}

/// The samples of a block that are coded: those of its whole rounds of all
/// channels.
pub open spec fn whole_rounds(interleaved: Seq<i16>, channels: nat) -> Seq<i16> {
    interleaved.subrange(0, ((interleaved.len() / channels) * channels) as int)
}

/// The exponent of a frame is one of `1..=15`.
pub proof fn lemma_channel_exponent(v: AdhocCodecView, interleaved: Seq<i16>, c: nat)
    ensures
        1 <= v.channel_exponent(interleaved, c) <= 15,
{
    let codec = v.channels[c as int];
    let pcm = v.share(interleaved, c);
    let seeds = seed_count(codec.state);
    lemma_best_exponent_upto(
        codec.history.push_all(pcm.subrange(0, seeds as int)),
        pcm.subrange(seeds as int, pcm.len() as int),
        15,
    );
}

/// Queues that hold the shares of the channels of a block hand out, round
/// by round, the samples of the block in the order they came.
pub proof fn lemma_queued_rounds_of_shares(
    f: AdhocCodecView,
    v: AdhocCodecView,
    interleaved: Seq<i16>,
    rounds: nat,
)
    requires
        f.channels.len() == v.channel_count(),
        v.channel_count() >= 1,
        rounds <= interleaved.len() / v.channel_count(),
        forall|c: int|
            0 <= c < f.channels.len() ==> (#[trigger] f.channels[c]).fifo == v.share(
                interleaved,
                c as nat,
            ),
    ensures
        rounds * v.channel_count() <= interleaved.len(),
        f.queued_rounds(rounds) == interleaved.subrange(0, (rounds * v.channel_count()) as int),
        f.queues_hold(rounds),
{
    let channels = v.channel_count() as int;
    let whole = interleaved.len() / (channels as nat);
    lemma_fundamental_div_mod(interleaved.len() as int, channels);
    assert(rounds * channels <= whole * channels) by (nonlinear_arith)
        requires
            rounds <= whole,
            channels >= 1,
    ;
    assert(whole * channels == channels * whole) by (nonlinear_arith);
    let wanted = interleaved.subrange(0, rounds * channels);
    assert forall|i: int| 0 <= i < rounds * channels implies f.queued_rounds(rounds)[i]
        == wanted[i] by {
        lemma_place_round(i, rounds as int, channels);
        assert(f.channels[i % channels].fifo == v.share(interleaved, (i % channels) as nat));
    }
    assert(f.queued_rounds(rounds) =~= wanted);
    assert forall|c: int| 0 <= c < f.channels.len() implies (#[trigger] f.channels[c]).fifo.len()
        >= rounds by {
        assert(f.channels[c].fifo == v.share(interleaved, c as nat));
    }
}

/// Two states of decoding that one round takes to the same state are taken
/// to the same state by any number of rounds, one at least.
pub proof fn lemma_rounds_same_after_first(a: DecodeProgress, b: DecodeProgress, rounds: nat)
    requires
        a.round() == b.round(),
        rounds >= 1,
    ensures
        a.rounds(rounds) == b.rounds(rounds),
    decreases rounds,
{
    if rounds > 1 {
        lemma_rounds_same_after_first(a, b, (rounds - 1) as nat);
    } else {
        assert(a.rounds(0) == a);
        assert(b.rounds(0) == b);
    }
}

/// A codec with empty queues whose directory is at its end decodes
/// nothing, however much room there is: `decode` returns 0.
pub proof fn lemma_nothing_left(f: AdhocCodecView, room: nat)
    requires
        f.channel_count() >= 1,
        f.headers.next().is_none(),
        f.all_empty(),
    ensures
        f.decoded(room).samples == Seq::<i16>::empty(),
        f.decoded(room).codec == f,
{
    let rounds = room / f.channel_count();
    let start = DecodeProgress { codec: f, samples: Seq::empty(), ended: false };
    if rounds >= 1 {
        lemma_rounds_at_end(f, Seq::empty(), rounds);
    } else {
        assert(start.rounds(0) == start);
    }
}

/// Decoding the next frames of its channels leaves a codec with as many
/// channels as it had.
pub proof fn lemma_block_decoded_channels(f: AdhocCodecView, upto: nat)
    requires
        upto <= f.channels.len(),
    ensures
        f.block_decoded_upto(upto).channels.len() == f.channels.len(),
    decreases upto,
{
    if upto > 0 {
        lemma_block_decoded_channels(f, (upto - 1) as nat);
    }
}

/// Filling its queues leaves a codec with as many channels as it had.
pub proof fn lemma_refilled_channels(f: AdhocCodecView, attempts: nat)
    ensures
        f.refilled(attempts).channels.len() == f.channels.len(),
    decreases attempts,
{
    if attempts > 0 && f.all_empty() {
        lemma_block_decoded_channels(f, f.channels.len());
        lemma_refilled_channels(f.block_decoded(), (attempts - 1) as nat);
    }
}

/// Before the stream has ended, every round of decoding has handed out one
/// sample for each channel, behind those that earlier rounds handed out.
pub proof fn lemma_rounds_prefix(start: DecodeProgress, fewer: nat, rounds: nat)
    requires
        fewer <= rounds,
        !start.rounds(rounds).ended,
    ensures
        !start.rounds(fewer).ended,
        start.rounds(fewer).codec.channels.len() == start.codec.channels.len(),
        start.rounds(fewer).samples.len() == start.samples.len() + fewer
            * start.codec.channels.len(),
        start.rounds(rounds).samples.len() == start.samples.len() + rounds
            * start.codec.channels.len(),
        start.rounds(rounds).samples.subrange(0, start.rounds(fewer).samples.len() as int)
            == start.rounds(fewer).samples,
    decreases rounds,
{
    let channels = start.codec.channels.len();
    if rounds == 0 {
        assert(start.rounds(0).samples.subrange(0, start.samples.len() as int)
            =~= start.samples);
        assert(0 * channels == 0) by (nonlinear_arith);
    } else {
        let most = (rounds - 1) as nat;
        let before = start.rounds(most);
        let after = start.rounds(rounds);
        assert(after == before.round());
        lemma_rounds_prefix(start, if fewer < rounds {
            fewer
        } else {
            most
        }, most);
        lemma_rounds_prefix(start, most, most);
        lemma_refilled_channels(before.codec, MAX_DECODE_ATTEMPTS as nat);
        assert(rounds * channels == most * channels + channels) by (nonlinear_arith)
            requires
                rounds == most + 1,
        ;
        if fewer == rounds {
            assert(after.samples.subrange(0, after.samples.len() as int) =~= after.samples);
        } else {
            let short = start.rounds(fewer).samples;
            assert(fewer * channels <= most * channels) by (nonlinear_arith)
                requires
                    fewer <= most,
            ;
            assert(after.samples.subrange(0, short.len() as int) =~= before.samples.subrange(
                0,
                short.len() as int,
            ));
        }
    }
}

/// Whether a decoder `w` stands before the frame that channel `c` of the
/// encoder `v` coded of `interleaved`, as far as the place of the frame
/// tells: the header at its place in the directory has the frame's exponent
/// and size, and the decoder's channel is in the state that matches the
/// encoder's.
pub open spec fn channel_written(
    w: AdhocCodecView,
    v: AdhocCodecView,
    interleaved: Seq<i16>,
    c: int,
) -> bool {
    let header = w.headers.headers[w.headers.cursor + c];
    let pcm = v.share(interleaved, c as nat);
    &&& header.exponent == v.channel_exponent(interleaved, c as nat)
    &&& header.size == pcm.len()
    &&& w.channels[c].state != CodecState::Encoding
    &&& seed_count(w.channels[c].state) == seed_count(v.channels[c].state)
    &&& seed_count(v.channels[c].state) <= pcm.len()
}

/// Whether a decoder `w` stands before the block that the encoder `v`
/// coded of `interleaved`, as far as the places of the frames tell: the
/// stream holds the frames of the block at its cursor and can be read to
/// their end, and the directory holds their headers at its cursor.
pub open spec fn block_written(w: AdhocCodecView, v: AdhocCodecView, interleaved: Seq<i16>) -> bool {
    let channels = v.channels.len();
    &&& w.channels.len() == channels
    &&& v.channel_count() == channels
    &&& w.headers.cursor + channels <= w.headers.headers.len()
    &&& holds_at(w.stream, v.block_code(interleaved, channels))
    &&& w.stream.bits.len() + 17 <= usize::MAX
    &&& w.stream.cursor + v.block_code(interleaved, channels).len() + 17 <= usize::MAX
    &&& forall|c: int| 0 <= c < channels ==> #[trigger] channel_written(w, v, interleaved, c)
}

/// What decoding the frames of the first channels of a block leaves, as far
/// as the places of the frames tell.
pub open spec fn block_in_step(
    w: AdhocCodecView,
    v: AdhocCodecView,
    interleaved: Seq<i16>,
    upto: nat,
    after: AdhocCodecView,
) -> bool {
    &&& after.stream == w.stream.advance(v.block_code(interleaved, upto).len())
    &&& after.headers == w.headers.at(w.headers.cursor + upto)
    &&& after.info == w.info
    &&& after.level == w.level
    &&& after.channels.len() == w.channels.len()
    &&& forall|c: int|
        0 <= c < after.channels.len() ==> if c < upto {
            &&& (#[trigger] after.channels[c]).state == CodecState::Decoding
            &&& after.channels[c].fifo.len() == w.channels[c].fifo.len() + v.share(
                interleaved,
                c as nat,
            ).len()
        } else {
            after.channels[c] == w.channels[c]
        }
}

/// A decoder that stands before a block decodes as many samples for each
/// channel as were coded, and ends behind the frames of the block and
/// behind their headers, whatever its windows are and whether or not
/// residuals were cut.
pub proof fn lemma_block_in_step(
    w: AdhocCodecView,
    v: AdhocCodecView,
    interleaved: Seq<i16>,
    upto: nat,
)
    requires
        block_written(w, v, interleaved),
        upto <= v.channels.len(),
    ensures
        block_in_step(w, v, interleaved, upto, w.block_decoded_upto(upto)),
    decreases upto,
{
    if upto == 0 {
        assert(v.block_code(interleaved, 0).len() == 0);
    } else {
        let c = (upto - 1) as nat;
        lemma_block_in_step(w, v, interleaved, c);
        let before = w.block_decoded_upto(c);
        assert(before.channels[c as int] == w.channels[c as int]);
        assert(channel_written(w, v, interleaved, c as int));
        lemma_channel_exponent(v, interleaved, c);
        lemma_channel_code_holds(w, v, interleaved, c);
        lemma_block_code_prefix(v, interleaved, c + 1, v.channels.len());
        lemma_next_frame_in_step(
            w.channels[c as int],
            before.stream,
            before.headers,
            v.channels[c as int].history,
            v.share(interleaved, c),
            v.channel_exponent(interleaved, c),
        );
    }
}

} // verus!
