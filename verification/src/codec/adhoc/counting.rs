//! Laws of recordings that hold whether or not residuals were cut: a
//! rewound codec hands out as many samples as were coded, and then none.

use crate::codec::adhoc::playback::{
    before_first_block, block_in_step, block_written, channel_written, lemma_block_at_end,
    lemma_block_in_step, lemma_channel_exponent, lemma_encoded_block, lemma_rounds_add,
    lemma_rounds_from_queues, lemma_rounds_same_after_first,
};
use crate::codec::adhoc::recording::{
    lemma_quiet_run, lemma_quiet_run_later, lemma_codable_prefix, lemma_recorded_between,
    lemma_recorded_keeps, lemma_rounds_from_front, quiet_run, recording_rounds, rounds_between,
    runs_short,
};
use crate::codec::adhoc::seeking::lemma_recorded_header;
use crate::codec::adhoc::{
    lemma_rounds_ended, AdhocCodecView, CodecState, DecodeProgress, MAX_DECODE_ATTEMPTS,
};
use crate::collections::rice::holds_at;
use vstd::arithmetic::div_mod::lemma_fundamental_div_mod;
use vstd::prelude::*;

verus! {

/// Whether a decoder `w` stands before block `done` of the recording that
/// `v` coded of the first `all` blocks of `blocks`: its directory and its
/// stream are those of the recording, at the start of the block, its queues
/// are empty, and every channel has decoded before just where `done` is
/// not the first block. Its windows may hold anything.
pub open spec fn in_step(
    w: AdhocCodecView,
    v: AdhocCodecView,
    blocks: Seq<Seq<i16>>,
    all: nat,
    done: nat,
) -> bool {
    let end = v.recorded(blocks, all);
    &&& done <= all
    &&& w.info == v.info
    &&& w.channels.len() == v.channels.len()
    &&& w.headers == end.headers.at(done * v.channels.len())
    &&& w.stream == end.stream.seek(v.recorded(blocks, done).stream.cursor)
    &&& forall|c: int|
        0 <= c < w.channels.len() ==> {
            &&& (#[trigger] w.channels[c]).fifo.len() == 0
            &&& w.channels[c].state == if done == 0 {
                CodecState::Init
            } else {
                CodecState::Decoding
            }
        }
}

/// Whether a decoder `w` has decoded block `done` of a recording into its
/// queues: its directory and its stream stand behind the block, and every
/// queue holds as many samples as the block has rounds.
pub open spec fn filled_at(
    w: AdhocCodecView,
    v: AdhocCodecView,
    blocks: Seq<Seq<i16>>,
    all: nat,
    done: nat,
) -> bool {
    let end = v.recorded(blocks, all);
    &&& done < all
    &&& w.info == v.info
    &&& w.channels.len() == v.channels.len()
    &&& w.headers == end.headers.at((done + 1) * v.channels.len())
    &&& w.stream == end.stream.seek(v.recorded(blocks, done + 1).stream.cursor)
    &&& forall|c: int|
        0 <= c < w.channels.len() ==> {
            &&& (#[trigger] w.channels[c]).fifo.len() == blocks[done as int].len()
                / v.channel_count()
            &&& w.channels[c].state == CodecState::Decoding
        }
}

/// Whether a decoder `w` has nothing left to hand out of a recording: it
/// stands before a block behind which no block holds a whole round.
pub open spec fn at_rest(
    w: AdhocCodecView,
    v: AdhocCodecView,
    blocks: Seq<Seq<i16>>,
    all: nat,
) -> bool {
    exists|done: nat|
        in_step(w, v, blocks, all, done) && done + #[trigger] quiet_run(
            blocks,
            v.channel_count(),
            done,
            all,
        ) == all
}

/// A decoder in step with a recording stands before each block as
/// `block_written` asks.
pub proof fn lemma_in_step_written(
    w: AdhocCodecView,
    v: AdhocCodecView,
    blocks: Seq<Seq<i16>>,
    all: nat,
    done: nat,
)
    requires
        before_first_block(v),
        v.codable(blocks, all),
        done < all,
        v.recorded(blocks, all).stream.bits.len() + 17 <= usize::MAX,
        in_step(w, v, blocks, all, done),
    ensures
        block_written(w, v.recorded(blocks, done), blocks[done as int]),
{
    let channels = v.channels.len();
    let end = v.recorded(blocks, all);
    let before = v.recorded(blocks, done);
    let after = v.recorded(blocks, done + 1);
    let block = blocks[done as int];
    let code = before.block_code(block, channels);
    lemma_recorded_keeps(v, blocks, done + 1, all);
    lemma_codable_prefix(v, blocks, done, all);
    lemma_recorded_between(v, blocks, done);
    lemma_recorded_between(v, blocks, done + 1);
    lemma_recorded_between(v, blocks, all);
    lemma_encoded_block(before, block, channels);
    assert((done + 1) * channels == done * channels + channels) by (nonlinear_arith);
    assert((done + 1) * channels <= all * channels) by (nonlinear_arith)
        requires
            done + 1 <= all,
    ;
    assert(holds_at(w.stream, code)) by {
        assert forall|i: int| 0 <= i < code.len() implies #[trigger] code[i] == w.stream.bit(
            w.stream.cursor + i,
        ) by {
            assert(end.stream.bit(before.stream.cursor + i) == after.stream.bit(
                before.stream.cursor + i,
            ));
        }
    }
    assert forall|c: int| 0 <= c < channels implies #[trigger] channel_written(
        w,
        before,
        block,
        c,
    ) by {
        lemma_channel_exponent(before, block, c as nat);
        lemma_recorded_header(v, blocks, all, done, c as nat);
    }
}

/// A decoder in step before a block has, once it has decoded the block, as
/// many samples in each queue as the block has rounds; after a block
/// without a whole round it is in step before the next block.
pub proof fn lemma_block_filled(
    w: AdhocCodecView,
    v: AdhocCodecView,
    blocks: Seq<Seq<i16>>,
    all: nat,
    done: nat,
)
    requires
        before_first_block(v),
        v.codable(blocks, all),
        done < all,
        v.recorded(blocks, all).stream.bits.len() + 17 <= usize::MAX,
        in_step(w, v, blocks, all, done),
    ensures
        filled_at(w.block_decoded(), v, blocks, all, done),
        blocks[done as int].len() / v.channel_count() == 0 ==> in_step(
            w.block_decoded(),
            v,
            blocks,
            all,
            done + 1,
        ),
{
    let channels = v.channels.len();
    let block = blocks[done as int];
    let before = v.recorded(blocks, done);
    lemma_codable_prefix(v, blocks, done, all);
    lemma_recorded_between(v, blocks, done);
    lemma_in_step_written(w, v, blocks, all, done);
    lemma_block_in_step(w, before, block, channels);
    lemma_encoded_block(before, block, channels);
    let filled = w.block_decoded();
    assert(block_in_step(w, before, block, channels, filled));
    assert((done + 1) * channels == done * channels + channels) by (nonlinear_arith);
    assert forall|c: int| 0 <= c < filled.channels.len() implies (#[trigger] filled.channels[c]).fifo.len()
        == block.len() / v.channel_count() by {
        assert(w.channels[c].fifo.len() == 0);
    }
}

/// What filling its queues does to a decoder in step before a block: it
/// decodes the blocks without a whole round that lie before it, and where
/// a block with samples follows within its attempts, that block; else it
/// is left with empty queues, in step before a later block.
pub proof fn lemma_refilled_in_step(
    w: AdhocCodecView,
    v: AdhocCodecView,
    blocks: Seq<Seq<i16>>,
    all: nat,
    done: nat,
    attempts: nat,
)
    requires
        before_first_block(v),
        v.codable(blocks, all),
        v.recorded(blocks, all).stream.bits.len() + 17 <= usize::MAX,
        in_step(w, v, blocks, all, done),
    ensures
        ({
            let quiet = quiet_run(blocks, v.channel_count(), done, all);
            let refilled = w.refilled(attempts);
            &&& done + quiet <= all
            &&& done + quiet < all ==> blocks[(done + quiet) as int].len() / v.channel_count()
                >= 1
            &&& done + quiet < all && quiet < attempts ==> filled_at(
                refilled,
                v,
                blocks,
                all,
                done + quiet,
            )
            &&& done + quiet == all || quiet >= attempts ==> refilled.all_empty() && in_step(
                refilled,
                v,
                blocks,
                all,
                if quiet < attempts {
                    done + quiet
                } else {
                    done + attempts
                },
            )
        }),
    decreases attempts,
{
    let channels = v.channel_count();
    lemma_recorded_between(v, blocks, all);
    lemma_quiet_run(blocks, channels, done, all);
    if attempts > 0 {
        assert(w.all_empty());
        let decoded = w.block_decoded();
        assert(w.refilled(attempts) == decoded.refilled((attempts - 1) as nat));
        if done < all {
            lemma_block_filled(w, v, blocks, all, done);
            if blocks[done as int].len() / channels >= 1 {
                assert(!decoded.all_empty()) by {
                    assert(decoded.channels[0].fifo.len() >= 1);
                }
            } else {
                lemma_refilled_in_step(decoded, v, blocks, all, done + 1, (attempts - 1) as nat);
            }
        } else {
            assert(w.headers.next().is_none());
            lemma_block_at_end(w, w.channels.len());
            lemma_refilled_in_step(w, v, blocks, all, done, (attempts - 1) as nat);
        }
    }
}

/// A decoder in step before a block behind which no block holds a whole
/// round hands out nothing: its stream ends in the first round, and it is
/// left with nothing to hand out.
pub proof fn lemma_count_at_end(
    w: AdhocCodecView,
    v: AdhocCodecView,
    blocks: Seq<Seq<i16>>,
    all: nat,
    done: nat,
    out: Seq<i16>,
    asked: nat,
)
    requires
        before_first_block(v),
        v.codable(blocks, all),
        v.recorded(blocks, all).stream.bits.len() + 17 <= usize::MAX,
        in_step(w, v, blocks, all, done),
        done + quiet_run(blocks, v.channel_count(), done, all) == all,
        asked >= 1,
    ensures
        ({
            let played = (DecodeProgress { codec: w, samples: out, ended: false }).rounds(asked);
            &&& played.ended
            &&& played.samples == out
            &&& at_rest(played.codec, v, blocks, all)
        }),
{
    let channels = v.channel_count();
    let quiet = quiet_run(blocks, channels, done, all);
    let attempts = MAX_DECODE_ATTEMPTS as nat;
    let start = DecodeProgress { codec: w, samples: out, ended: false };
    let refilled = w.refilled(attempts);
    lemma_refilled_in_step(w, v, blocks, all, done, attempts);
    assert(start.rounds(0) == start);
    assert(start.rounds(1) == start.round());
    lemma_rounds_ended(start, 1, asked);
    let rest: nat = if quiet < attempts {
        done + quiet
    } else {
        done + attempts
    };
    assert(in_step(refilled, v, blocks, all, rest));
    lemma_quiet_run_later(blocks, channels, done, all, (rest - done) as nat);
    assert(rest + quiet_run(blocks, channels, rest, all) == all);
}

/// A decoder that has decoded a block into its queues hands out the rounds
/// of the block, as many as are asked for, and is in step before the next
/// block once all of them are taken.
pub proof fn lemma_count_filled(
    filled: AdhocCodecView,
    v: AdhocCodecView,
    blocks: Seq<Seq<i16>>,
    all: nat,
    block: nat,
    out: Seq<i16>,
    asked: nat,
)
    requires
        v.channel_count() >= 1,
        v.channels.len() == v.channel_count(),
        filled_at(filled, v, blocks, all, block),
        asked <= blocks[block as int].len() / v.channel_count(),
    ensures
        (DecodeProgress { codec: filled, samples: out, ended: false }).rounds(asked) == (
        DecodeProgress {
            codec: filled.queues_advanced(asked),
            samples: out + filled.queued_rounds(asked),
            ended: false,
        }),
        (out + filled.queued_rounds(asked)).len() == out.len() + asked * v.channel_count(),
        asked == blocks[block as int].len() / v.channel_count() ==> in_step(
            filled.queues_advanced(asked),
            v,
            blocks,
            all,
            block + 1,
        ),
{
    assert(filled.queues_hold(asked)) by {
        assert forall|c: int| 0 <= c < filled.channels.len() implies (
        #[trigger] filled.channels[c]).fifo.len() >= asked by {}
    }
    lemma_rounds_from_queues(filled, out, asked);
    let taken = filled.queues_advanced(asked);
    if asked == blocks[block as int].len() / v.channel_count() {
        assert forall|c: int| 0 <= c < taken.channels.len() implies (#[trigger] taken.channels[c]).fifo.len()
            == 0 && taken.channels[c].state == CodecState::Decoding by {
            assert(filled.channels[c].fifo.len() == asked);
        }
    }
}

/// The first round of a decoder whose queues fill is that of the decoder
/// with its queues filled, and so are all rounds from the first on.
pub proof fn lemma_rounds_of_refilled(w: AdhocCodecView, out: Seq<i16>, asked: nat)
    requires
        !w.refilled(MAX_DECODE_ATTEMPTS as nat).all_empty(),
        asked >= 1,
    ensures
        (DecodeProgress { codec: w, samples: out, ended: false }).rounds(asked) == (
        DecodeProgress {
            codec: w.refilled(MAX_DECODE_ATTEMPTS as nat),
            samples: out,
            ended: false,
        }).rounds(asked),
{
    let attempts = MAX_DECODE_ATTEMPTS as nat;
    let refilled = w.refilled(attempts);
    let start = DecodeProgress { codec: w, samples: out, ended: false };
    let from_filled = DecodeProgress { codec: refilled, samples: out, ended: false };
    assert(refilled.refilled(attempts) == refilled);
    assert(start.round() == from_filled.round());
    lemma_rounds_same_after_first(start, from_filled, asked);
}

/// What a decoder in step before a block of a recording hands out: one
/// sample for each round and channel that is left of the recording, as many
/// as there is room for in whole rounds, whether or not residuals were cut.
/// With room for more its stream has ended, and it has nothing left to hand
/// out.
pub proof fn lemma_count_from(
    w: AdhocCodecView,
    v: AdhocCodecView,
    blocks: Seq<Seq<i16>>,
    all: nat,
    done: nat,
    out: Seq<i16>,
    asked: nat,
)
    requires
        before_first_block(v),
        v.codable(blocks, all),
        runs_short(blocks, v.channel_count(), all),
        v.recorded(blocks, all).stream.bits.len() + 17 <= usize::MAX,
        in_step(w, v, blocks, all, done),
    ensures
        ({
            let channels = v.channel_count();
            let left = rounds_between(blocks, channels, done, all);
            let played = (DecodeProgress { codec: w, samples: out, ended: false }).rounds(asked);
            &&& asked <= left ==> !played.ended && played.samples.len() == out.len() + asked
                * channels
            &&& asked > left ==> played.ended && played.samples.len() == out.len() + left
                * channels && at_rest(played.codec, v, blocks, all)
        }),
    decreases all - done,
{
    let channels = v.channel_count();
    let left = rounds_between(blocks, channels, done, all);
    let quiet = quiet_run(blocks, channels, done, all);
    let attempts = MAX_DECODE_ATTEMPTS as nat;
    let start = DecodeProgress { codec: w, samples: out, ended: false };
    lemma_quiet_run(blocks, channels, done, all);
    assert(0 * channels == 0) by (nonlinear_arith);
    if asked == 0 {
        assert(start.rounds(0) == start);
    } else if done + quiet == all {
        assert(rounds_between(blocks, channels, all, all) == 0);
        lemma_count_at_end(w, v, blocks, all, done, out, asked);
    } else {
        let block = (done + quiet) as nat;
        let rounds = blocks[block as int].len() / channels;
        let refilled = w.refilled(attempts);
        let from_filled = DecodeProgress { codec: refilled, samples: out, ended: false };
        assert(quiet < attempts);
        lemma_refilled_in_step(w, v, blocks, all, done, attempts);
        assert(filled_at(refilled, v, blocks, all, block));
        lemma_rounds_from_front(blocks, channels, block, all);
        let later = rounds_between(blocks, channels, block + 1, all);
        assert(left == rounds + later);
        assert(!refilled.all_empty()) by {
            assert(refilled.channels[0].fifo.len() >= 1);
        }
        lemma_rounds_of_refilled(w, out, asked);
        if asked <= rounds {
            lemma_count_filled(refilled, v, blocks, all, block, out, asked);
        } else {
            let more = (asked - rounds) as nat;
            lemma_count_filled(refilled, v, blocks, all, block, out, rounds);
            let taken = refilled.queues_advanced(rounds);
            let so_far = out + refilled.queued_rounds(rounds);
            lemma_rounds_add(from_filled, rounds, more);
            lemma_count_from(taken, v, blocks, all, block + 1, so_far, more);
            assert((rounds + more) * channels == rounds * channels + more * channels)
                by (nonlinear_arith);
            assert((rounds + later) * channels == rounds * channels + later * channels)
                by (nonlinear_arith);
        }
    }
}

/// Encode, rewind, decode: as many samples come back as went in, and then
/// none.
///
/// A codec that coded block after block from its first block on and was
/// then rewound hands out on `decode` one sample for each sample that it
/// coded, as many as there is room for in whole rounds, whether or not
/// residuals were cut. With room for more rounds than were coded it hands
/// out as many samples as it coded, its stream has ended, and what is left
/// of it hands out nothing, whatever room there is.
///
/// Left out are recordings in which `MAX_DECODE_ATTEMPTS` or more blocks
/// without a whole round lie before a block with one.
pub proof fn lemma_playback_count(
    v: AdhocCodecView,
    blocks: Seq<Seq<i16>>,
    all: nat,
    room: nat,
    more_room: nat,
)
    requires
        before_first_block(v),
        v.codable(blocks, all),
        runs_short(blocks, v.channel_count(), all),
        v.recorded(blocks, all).stream.bits.len() + 17 <= usize::MAX,
    ensures
        ({
            let channels = v.channel_count();
            let coded = recording_rounds(blocks, channels, all);
            let asked = room / channels;
            let played = v.recorded(blocks, all).rewound().decoded(room);
            &&& asked <= coded ==> !played.ended && played.samples.len() == asked * channels
            &&& asked > coded ==> played.ended && played.samples.len() == coded * channels
                && played.codec.decoded(more_room).samples == Seq::<i16>::empty()
        }),
{
    let channels = v.channel_count();
    let coded = recording_rounds(blocks, channels, all);
    let asked = room / channels;
    let rewound = v.recorded(blocks, all).rewound();
    lemma_recorded_between(v, blocks, all);
    assert(0 * v.channels.len() == 0) by (nonlinear_arith);
    assert(in_step(rewound, v, blocks, all, 0));
    lemma_fundamental_div_mod(room as int, channels as int);
    assert(0 <= room / channels) by (nonlinear_arith)
        requires
            channels >= 1,
            room == channels * (room / channels) + room % channels,
            room % channels < channels,
    ;
    lemma_count_from(rewound, v, blocks, all, 0, Seq::empty(), asked);
    if asked > coded {
        let played = rewound.decoded(room);
        lemma_at_rest(played.codec, v, blocks, all, more_room);
    }
}

/// A decoder that has nothing left to hand out of a recording hands out
/// nothing, whatever room there is.
pub proof fn lemma_at_rest(
    w: AdhocCodecView,
    v: AdhocCodecView,
    blocks: Seq<Seq<i16>>,
    all: nat,
    room: nat,
)
    requires
        before_first_block(v),
        v.codable(blocks, all),
        runs_short(blocks, v.channel_count(), all),
        v.recorded(blocks, all).stream.bits.len() + 17 <= usize::MAX,
        at_rest(w, v, blocks, all),
    ensures
        w.decoded(room).samples == Seq::<i16>::empty(),
{
    let channels = v.channel_count();
    let done = choose|done: nat|
        in_step(w, v, blocks, all, done) && done + #[trigger] quiet_run(
            blocks,
            channels,
            done,
            all,
        ) == all;
    lemma_recorded_between(v, blocks, all);
    lemma_quiet_run(blocks, channels, done, all);
    assert(rounds_between(blocks, channels, all, all) == 0);
    lemma_fundamental_div_mod(room as int, channels as int);
    assert(0 <= room / channels) by (nonlinear_arith)
        requires
            channels >= 1,
            room == channels * (room / channels) + room % channels,
            room % channels < channels,
    ;
    lemma_count_from(w, v, blocks, all, done, Seq::empty(), room / channels);
    assert(0 * channels == 0) by (nonlinear_arith);
    assert(w.decoded(room).samples =~= Seq::<i16>::empty());
}

} // verus!
