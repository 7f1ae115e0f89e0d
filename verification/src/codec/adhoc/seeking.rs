//! Laws of seeking: a seek into a recording lands on the block that holds
//! the sample of the time, and `decode` goes on from that sample.

use crate::codec::adhoc::frame::{next_frame_decoded, seed_count, FrameOutcome};
use crate::codec::adhoc::playback::{
    before_first_block, channel_stored, lemma_channel_exponent,
    lemma_decoded_block, lemma_decoded_channel, lemma_encoded_block, lemma_nothing_left,
    lemma_place_round, lemma_queued_rounds_of_shares, lemma_round_place, lemma_rounds_add,
    lemma_rounds_from_queues, whole_rounds,
};
use crate::codec::adhoc::recording::{
    lemma_play_from, lemma_push_all_appends, lemma_codable_prefix, lemma_recorded_between,
    lemma_recorded_keeps, lemma_recording_len, lemma_standing_stored, lemma_windows_fit_next,
    recording, recording_between, recording_rounds, rounds_between, runs_short, windows_after,
    windows_fit,
};
use crate::codec::adhoc::round_trip::same_window;
use crate::codec::adhoc::{AdhocCodecView, CodecState, DecodeProgress};
use crate::collections::stack::CircularStackView;
use vstd::arithmetic::div_mod::{lemma_fundamental_div_mod, lemma_fundamental_div_mod_converse};
use vstd::prelude::*;

verus! {

/// The header of each frame of a recording stands in the directory at the
/// place of its block and channel.
pub proof fn lemma_recorded_header(
    v: AdhocCodecView,
    blocks: Seq<Seq<i16>>,
    all: nat,
    block: nat,
    c: nat,
)
    requires
        before_first_block(v),
        v.codable(blocks, all),
        block < all,
        c < v.channels.len(),
    ensures
        block * v.channels.len() + c < v.recorded(blocks, all).headers.headers.len(),
        v.recorded(blocks, all).headers.headers[(block * v.channels.len() + c) as int] == v.recorded(
            blocks,
            block,
        ).channel_header(blocks[block as int], c),
{
    let channels = v.channels.len();
    let before = v.recorded(blocks, block);
    let after = v.recorded(blocks, block + 1);
    lemma_recorded_keeps(v, blocks, block + 1, all);
    lemma_codable_prefix(v, blocks, block, all);
    lemma_recorded_between(v, blocks, block);
    lemma_recorded_between(v, blocks, block + 1);
    lemma_recorded_between(v, blocks, all);
    lemma_encoded_block(before, blocks[block as int], channels);
    let headers = before.block_headers(blocks[block as int], channels);
    assert forall|i: int| 0 <= i < headers.len() implies headers[i].exponent < 16 by {
        lemma_channel_exponent(before, blocks[block as int], i as nat);
    }
    lemma_push_all_appends(before.headers, headers);
    assert((block + 1) * channels == block * channels + channels) by (nonlinear_arith);
    assert((block + 1) * channels <= all * channels) by (nonlinear_arith)
        requires
            block + 1 <= all,
    ;
    let place = (block * channels + c) as int;
    assert(after.headers.headers[place] == headers[c as int]);
}

/// The directory of a recording holds as many blocks as were coded, and
/// the first header of each block gives the number of its rounds.
pub proof fn lemma_recorded_blocks(v: AdhocCodecView, blocks: Seq<Seq<i16>>, all: nat, block: nat)
    requires
        before_first_block(v),
        v.codable(blocks, all),
        block < all,
    ensures
        v.recorded(blocks, all).rewound().block_count() == all,
        v.recorded(blocks, all).rewound().block_samples(block) == (blocks[block as int].len()
            / v.channel_count()) * v.channel_count(),
        v.recorded(blocks, all).rewound().channel_count() == v.channel_count(),
        v.recorded(blocks, all).rewound().headers.headers[(block * v.channels.len()) as int].bit_cursor
            == v.recorded(blocks, block).stream.cursor,
        v.recorded(blocks, block).stream.cursor <= usize::MAX,
{
    let channels = v.channels.len();
    let end = v.recorded(blocks, all);
    let before = v.recorded(blocks, block);
    lemma_recorded_between(v, blocks, all);
    lemma_codable_prefix(v, blocks, block, all);
    lemma_recorded_between(v, blocks, block);
    lemma_recorded_header(v, blocks, all, block, 0);
    lemma_fundamental_div_mod_converse((all * channels) as int, channels as int, all as int, 0);
    lemma_codable_prefix(v, blocks, block + 1, all);
    lemma_recorded_keeps(v, blocks, block, all);
    assert(before.block_code(blocks[block as int], 0).len() == 0);
    assert(before.encodable(blocks[block as int].len()));
    assert(end.stream.cursor <= end.stream.bits.len());
    let pcm = before.share(blocks[block as int], 0);
    assert(pcm.len() == blocks[block as int].len() / v.channel_count());
    assert(before.channel_header(blocks[block as int], 0).size == pcm.len());
    assert(0 * channels == 0) by (nonlinear_arith);
}

/// Where the walk of a seek over the blocks of a recording ends: on the
/// first block, from the block where the walk begins, that reaches the
/// target, with the samples of the blocks before it skipped; or behind the
/// last block where none reaches the target.
pub proof fn lemma_landing(
    v: AdhocCodecView,
    blocks: Seq<Seq<i16>>,
    all: nat,
    target: nat,
    block: nat,
)
    requires
        before_first_block(v),
        v.codable(blocks, all),
        block <= all,
        rounds_between(blocks, v.channel_count(), 0, block) * v.channel_count() <= target,
    ensures
        ({
            let channels = v.channel_count();
            let (landed, skipped) = v.recorded(blocks, all).rewound().landing(
                target,
                block,
                rounds_between(blocks, channels, 0, block) * channels,
            );
            &&& block <= landed <= all
            &&& skipped == rounds_between(blocks, channels, 0, landed) * channels
            &&& skipped <= target
            &&& landed < all ==> target <= skipped + (blocks[landed as int].len() / channels)
                * channels
            &&& landed == all && all > block ==> skipped < target
        }),
    decreases all - block,
{
    let channels = v.channel_count();
    let rewound = v.recorded(blocks, all).rewound();
    let skipped = rounds_between(blocks, channels, 0, block) * channels;
    lemma_recorded_between(v, blocks, all);
    if block < all {
        lemma_recorded_blocks(v, blocks, all, block);
        let size = (blocks[block as int].len() / channels) * channels;
        if skipped < target && skipped + size < target {
            assert(rounds_between(blocks, channels, 0, block + 1) * channels == skipped + size)
                by (nonlinear_arith)
                requires
                    rounds_between(blocks, channels, 0, block + 1) == rounds_between(
                        blocks,
                        channels,
                        0,
                        block,
                    ) + blocks[block as int].len() / channels,
                    skipped == rounds_between(blocks, channels, 0, block) * channels,
                    size == (blocks[block as int].len() / channels) * channels,
            ;
            lemma_landing(v, blocks, all, target, block + 1);
        }
    } else {
        if all > 0 {
            lemma_recorded_blocks(v, blocks, all, 0);
        } else {
            lemma_fundamental_div_mod_converse(0, channels as int, 0, 0);
            assert(0 * v.channels.len() == 0) by (nonlinear_arith);
        }
    }
}

impl AdhocCodecView {
    /// The windows that a seek to block `block` of a recording gives the
    /// channels before they decode the block: each channel's window with
    /// the three samples of its header pushed into it.
    pub open spec fn restored_windows(
        self,
        blocks: Seq<Seq<i16>>,
        all: nat,
        block: nat,
    ) -> Seq<CircularStackView<i16>> {
        let end = self.recorded(blocks, all).rewound();
        Seq::new(
            self.channels.len(),
            |c: int|
                end.channels[c].restored(
                    end.headers.headers[block * self.channels.len() + c],
                ).history,
        )
    }

    /// The codec that a seek to block `block` of a recording leaves before
    /// the channels are set up: rewound, with the directory and the stream
    /// at the start of the block.
    pub open spec fn placed(self, blocks: Seq<Seq<i16>>, all: nat, block: nat) -> AdhocCodecView {
        let end = self.recorded(blocks, all).rewound();
        AdhocCodecView {
            headers: end.headers.at(block * self.channels.len()),
            stream: end.stream.seek(self.recorded(blocks, block).stream.cursor),
            ..end
        }
    }
}

/// The windows that a seek gives the channels fit the block that the seek
/// lands on, and each channel set up from its header is the channel of a
/// decoder that stands before the block with these windows.
#[verifier::rlimit(40)]
pub proof fn lemma_restored_fit(v: AdhocCodecView, blocks: Seq<Seq<i16>>, all: nat, block: nat)
    requires
        before_first_block(v),
        v.codable(blocks, all),
        block < all,
    ensures
        windows_fit(v, blocks, block, v.restored_windows(blocks, all, block), block > 0),
        forall|c: int|
            0 <= c < v.channels.len() ==> (#[trigger] v.placed(
                blocks,
                all,
                block,
            ).channels[c]).restored(
                v.placed(blocks, all, block).headers.headers[block * v.channels.len() + c],
            ) == v.standing(
                blocks,
                all,
                block,
                v.restored_windows(blocks, all, block),
                block > 0,
            ).channels[c],
{
    reveal(AdhocCodecView::standing);
    let channels = v.channels.len();
    let end = v.recorded(blocks, all).rewound();
    let before = v.recorded(blocks, block);
    let windows = v.restored_windows(blocks, all, block);
    lemma_recorded_between(v, blocks, all);
    lemma_codable_prefix(v, blocks, block, all);
    lemma_codable_prefix(v, blocks, block + 1, all);
    lemma_recorded_between(v, blocks, block);
    assert forall|c: int| 0 <= c < channels implies {
        &&& (#[trigger] windows[c]).recent.len() == 4
        &&& windows[c].len <= 4
        &&& block > 0 ==> same_window(before.channels[c].history, windows[c])
        &&& end.channels[c].restored(end.headers.headers[block * channels + c]).state == if block
            > 0 {
            CodecState::Decoding
        } else {
            CodecState::Init
        }
    } by {
        lemma_recorded_header(v, blocks, all, block, c as nat);
        let header = end.headers.headers[block * channels + c];
        let coder = before.channels[c];
        let pcm = before.share(blocks[block as int], c as nat);
        assert(header == before.channel_header(blocks[block as int], c as nat));
        let seeded = coder.history.push_all(pcm.subrange(0, seed_count(coder.state) as int));
        assert(header.stack_history == [seeded.prev(3), seeded.prev(2), seeded.prev(1)]);
        assert(header.stack_history[0] == seeded.prev(3));
        assert(header.stack_history[1] == seeded.prev(2));
        assert(header.stack_history[2] == seeded.prev(1));
        if block > 0 {
            assert(pcm.subrange(0, 0) =~= Seq::<i16>::empty());
            assert(seeded == coder.history);
        }
    }
}

/// Taking samples from queues that hold them is taking them round by
/// round.
pub proof fn lemma_drained_queues(f: AdhocCodecView, rounds: nat)
    requires
        f.queues_hold(rounds),
    ensures
        f.drained(rounds) == f.queues_advanced(rounds),
    decreases rounds,
{
    let channels = f.channels.len() as int;
    if rounds == 0 {
        assert(f.queues_advanced(0).channels =~= f.channels) by {
            assert forall|c: int| 0 <= c < channels implies f.queues_advanced(0).channels[c]
                == f.channels[c] by {
                let queue = f.channels[c].fifo;
                assert(queue.subrange(0, queue.len() as int) =~= queue);
            }
        }
    } else {
        let done = (rounds - 1) as nat;
        assert(f.queues_hold(done)) by {
            assert forall|c: int| 0 <= c < channels implies (#[trigger] f.channels[c]).fifo.len()
                >= done by {}
        }
        lemma_drained_queues(f, done);
        let g = f.queues_advanced(done);
        assert(g.round_drained().channels =~= f.queues_advanced(rounds).channels) by {
            assert forall|c: int| 0 <= c < channels implies g.round_drained().channels[c]
                == f.queues_advanced(rounds).channels[c] by {
                let queue = f.channels[c].fifo;
                assert(queue.len() >= rounds);
                assert(queue.subrange(done as int, queue.len() as int).drop_first()
                    =~= queue.subrange(rounds as int, queue.len() as int));
            }
        }
    }
}

/// The step of `lemma_restored_block` for one channel: set up from its
/// header, the channel decodes its frame as it was coded.
#[verifier::rlimit(40)]
pub proof fn lemma_restored_channel(
    v: AdhocCodecView,
    blocks: Seq<Seq<i16>>,
    all: nat,
    block: nat,
    c: nat,
)
    requires
        before_first_block(v),
        v.codable(blocks, all),
        block < all,
        c < v.channels.len(),
        v.recorded(blocks, all).stream.bits.len() + 17 <= usize::MAX,
        v.recorded_exactly(blocks, all),
    ensures
        ({
            let standing = v.standing(
                blocks,
                all,
                block,
                v.restored_windows(blocks, all, block),
                block > 0,
            );
            let before = v.recorded(blocks, block);
            let placed = v.placed(blocks, all, block);
            &&& standing.channels.len() == v.channels.len()
            &&& placed.channels.len() == v.channels.len()
            &&& standing.headers.headers == placed.headers.headers
            &&& standing.headers.cursor == block * v.channels.len()
            &&& next_frame_decoded(
                placed.channels[c as int].restored(
                    placed.headers.headers[(block * v.channels.len() + c) as int],
                ),
                standing.stream.advance(before.block_code(blocks[block as int], c).len()),
                standing.headers.at(standing.headers.cursor + c),
            ) == (FrameOutcome {
                codec: standing.channel_decoded(
                    c as int,
                    before.share(blocks[block as int], c),
                ),
                stream: standing.stream.advance(
                    before.block_code(blocks[block as int], c + 1).len(),
                ),
                headers: standing.headers.at(standing.headers.cursor + c + 1),
            })
        }),
{
    let windows = v.restored_windows(blocks, all, block);
    let standing = v.standing(blocks, all, block, windows, block > 0);
    let before = v.recorded(blocks, block);
    lemma_recorded_between(v, blocks, all);
    lemma_codable_prefix(v, blocks, block, all);
    lemma_recorded_between(v, blocks, block);
    lemma_restored_fit(v, blocks, all, block);
    lemma_standing_stored(v, blocks, all, block, windows, block > 0);
    assert(channel_stored(standing, before, blocks[block as int], c as int));
    lemma_decoded_channel(standing, before, blocks[block as int], c);
    assert(standing.headers.headers == v.placed(blocks, all, block).headers.headers) by {
        reveal(AdhocCodecView::standing);
    }
    assert(standing.channels.len() == v.channels.len()) by {
        reveal(AdhocCodecView::standing);
    }
    assert(standing.headers.cursor == block * v.channels.len()) by {
        reveal(AdhocCodecView::standing);
    }
}

/// A seek that lands on a block sets up every channel from its header and
/// lets it decode its frame, which leaves what a decoder that stood before
/// the block with the windows of the seek leaves when it decodes the block.
#[verifier::rlimit(40)]
pub proof fn lemma_restored_block(
    v: AdhocCodecView,
    blocks: Seq<Seq<i16>>,
    all: nat,
    block: nat,
    upto: nat,
)
    requires
        before_first_block(v),
        v.codable(blocks, all),
        block < all,
        upto <= v.channels.len(),
        v.recorded(blocks, all).stream.bits.len() + 17 <= usize::MAX,
        v.recorded_exactly(blocks, all),
    ensures
        ({
            let standing = v.standing(
                blocks,
                all,
                block,
                v.restored_windows(blocks, all, block),
                block > 0,
            );
            let before = v.recorded(blocks, block);
            v.placed(blocks, all, block).restored_upto(block * v.channels.len(), upto) == (
            AdhocCodecView {
                stream: standing.stream.advance(
                    before.block_code(blocks[block as int], upto).len(),
                ),
                headers: standing.headers.at(standing.headers.cursor + upto),
                channels: Seq::new(
                    v.channels.len(),
                    |c: int|
                        if c < upto {
                            standing.channel_decoded(c, before.share(blocks[block as int], c as nat))
                        } else {
                            v.placed(blocks, all, block).channels[c]
                        },
                ),
                ..standing
            })
        }),
    decreases upto,
{
    let channels = v.channels.len();
    let windows = v.restored_windows(blocks, all, block);
    let standing = v.standing(blocks, all, block, windows, block > 0);
    let before = v.recorded(blocks, block);
    let placed = v.placed(blocks, all, block);
    let x = blocks[block as int];
    let start = block * channels;
    let goal = AdhocCodecView {
        stream: standing.stream.advance(before.block_code(x, upto).len()),
        headers: standing.headers.at(standing.headers.cursor + upto),
        channels: Seq::new(
            channels,
            |c: int|
                if c < upto {
                    standing.channel_decoded(c, before.share(x, c as nat))
                } else {
                    placed.channels[c]
                },
        ),
        ..standing
    };
    if upto == 0 {
        lemma_recorded_between(v, blocks, all);
        assert(goal.channels =~= placed.channels);
        assert(before.block_code(x, 0).len() == 0);
        assert(placed == goal) by {
            reveal(AdhocCodecView::standing);
        }
    } else {
        let c = (upto - 1) as nat;
        lemma_restored_block(v, blocks, all, block, c);
        lemma_restored_channel(v, blocks, all, block, c);
        let so_far = placed.restored_upto(start, c);
        let outcome = next_frame_decoded(
            so_far.channels[c as int].restored(so_far.headers.headers[(start + c) as int]),
            so_far.stream,
            so_far.headers,
        );
        assert(so_far.channels[c as int] == placed.channels[c as int]);
        assert(so_far.channels.update(c as int, outcome.codec) =~= goal.channels);
    }
}

/// Queues that hold the shares of the channels of a block, less the first
/// `taken` samples of each, hand out round by round the samples of the block
/// from the round `taken` on.
pub proof fn lemma_queued_rounds_of_rest(
    f: AdhocCodecView,
    v: AdhocCodecView,
    interleaved: Seq<i16>,
    taken: nat,
    rounds: nat,
)
    requires
        f.channels.len() == v.channel_count(),
        v.channel_count() >= 1,
        taken + rounds <= interleaved.len() / v.channel_count(),
        forall|c: int|
            0 <= c < f.channels.len() ==> (#[trigger] f.channels[c]).fifo == v.share(
                interleaved,
                c as nat,
            ),
    ensures
        (taken + rounds) * v.channel_count() <= interleaved.len(),
        f.queues_advanced(taken).queues_hold(rounds),
        f.queues_advanced(taken).queued_rounds(rounds) == interleaved.subrange(
            (taken * v.channel_count()) as int,
            ((taken + rounds) * v.channel_count()) as int,
        ),
        f.queues_hold(taken),
{
    let channels = v.channel_count() as int;
    let rest = f.queues_advanced(taken);
    lemma_queued_rounds_of_shares(f, v, interleaved, taken + rounds);
    let all = f.queued_rounds(taken + rounds);
    assert((taken + rounds) * channels == taken * channels + rounds * channels)
        by (nonlinear_arith);
    assert(0 <= taken * channels) by (nonlinear_arith)
        requires
            0 <= taken,
            0 < channels,
    ;
    let wanted = interleaved.subrange(taken * channels, (taken + rounds) * channels);
    assert forall|c: int| 0 <= c < f.channels.len() implies (#[trigger] f.channels[c]).fifo.len()
        >= taken by {
        assert(f.channels[c].fifo.len() >= taken + rounds);
    }
    assert forall|c: int| 0 <= c < rest.channels.len() implies (#[trigger] rest.channels[c]).fifo.len()
        >= rounds by {
        assert(f.channels[c].fifo.len() >= taken + rounds);
    }
    assert forall|i: int| 0 <= i < rounds * channels implies rest.queued_rounds(rounds)[i]
        == wanted[i] by {
        lemma_place_round(i, rounds as int, channels);
        let c = i % channels;
        let round = i / channels;
        assert(f.channels[c].fifo.len() >= taken + rounds);
        lemma_round_place(taken + round, c, channels);
        assert((taken + round) * channels == taken * channels + round * channels)
            by (nonlinear_arith);
        assert(all[(taken + round) * channels + c] == interleaved[(taken + round) * channels
            + c]);
    }
    assert(rest.queued_rounds(rounds) =~= wanted);
}

/// The samples of a recording from round `taken` of block `block` on.
pub open spec fn recording_from(
    blocks: Seq<Seq<i16>>,
    channels: nat,
    all: nat,
    block: nat,
    taken: nat,
) -> Seq<i16> {
    blocks[block as int].subrange(
        (taken * channels) as int,
        ((blocks[block as int].len() / channels) * channels) as int,
    ) + recording_between(blocks, channels, block + 1, all)
}

/// What a decoder that stood before a block of a recording has when it has
/// decoded the block: the shares of the channels in its queues; and once
/// these are taken out, it stands before the next block.
#[verifier::rlimit(40)]
pub proof fn lemma_filled(
    v: AdhocCodecView,
    blocks: Seq<Seq<i16>>,
    all: nat,
    block: nat,
    windows: Seq<CircularStackView<i16>>,
    started: bool,
    taken: nat,
)
    requires
        before_first_block(v),
        v.codable(blocks, all),
        block < all,
        v.recorded(blocks, all).stream.bits.len() + 17 <= usize::MAX,
        windows_fit(v, blocks, block, windows, started),
        taken <= blocks[block as int].len() / v.channel_count(),
        v.recorded_exactly(blocks, all),
    ensures
        ({
            let filled = v.standing(blocks, all, block, windows, started).block_decoded();
            let coded = blocks[block as int].len() / v.channel_count();
            &&& filled.channels.len() == v.channel_count()
            &&& v.recorded(blocks, block).channel_count() == v.channel_count()
            &&& forall|c: int|
                0 <= c < filled.channels.len() ==> (#[trigger] filled.channels[c]).fifo
                    == v.recorded(blocks, block).share(blocks[block as int], c as nat)
            &&& filled.queues_advanced(taken).queues_advanced((coded - taken) as nat)
                == v.standing(
                blocks,
                all,
                block + 1,
                windows_after(windows, blocks, block, block + 1),
                true,
            )
        }),
{
    reveal(AdhocCodecView::standing);
    let channels = v.channels.len();
    let x = blocks[block as int];
    let coded = x.len() / v.channel_count();
    let rest = (coded - taken) as nat;
    let before = v.recorded(blocks, block);
    let w = v.standing(blocks, all, block, windows, started);
    let filled = w.block_decoded();
    let next = v.standing(
        blocks,
        all,
        block + 1,
        windows_after(windows, blocks, block, block + 1),
        true,
    );
    lemma_codable_prefix(v, blocks, block + 1, all);
    lemma_codable_prefix(v, blocks, block, all);
    lemma_recorded_between(v, blocks, block);
    lemma_standing_stored(v, blocks, all, block, windows, started);
    lemma_windows_fit_next(v, blocks, block, windows, started);
    lemma_decoded_block(w, before, x, channels);
    lemma_encoded_block(before, x, channels);
    assert((block + 1) * channels == block * channels + channels) by (nonlinear_arith);
    assert forall|c: int| 0 <= c < filled.channels.len() implies (#[trigger] filled.channels[c]).fifo
        == before.share(x, c as nat) by {
        assert(w.channels[c].fifo + before.share(x, c as nat) =~= before.share(x, c as nat));
    }
    assert(filled.queues_advanced(taken).queues_advanced(rest).channels =~= next.channels) by {
        assert forall|c: int| 0 <= c < channels implies filled.queues_advanced(
            taken,
        ).queues_advanced(rest).channels[c] == next.channels[c] by {
            let queue = filled.channels[c].fifo;
            assert(queue == before.share(x, c as nat));
            assert(queue.subrange(taken as int, queue.len() as int).subrange(
                rest as int,
                (queue.len() - taken) as int,
            ) =~= Seq::<i16>::empty());
        }
    }
}

/// What a decoder hands out that has decoded a block of a recording into
/// its queues and taken the first `taken` rounds out of them, with room for
/// no more rounds than are left of the block: the samples of the block
/// from that round on.
pub proof fn lemma_play_rest_within(
    v: AdhocCodecView,
    blocks: Seq<Seq<i16>>,
    all: nat,
    block: nat,
    windows: Seq<CircularStackView<i16>>,
    started: bool,
    taken: nat,
    asked: nat,
)
    requires
        before_first_block(v),
        v.codable(blocks, all),
        block < all,
        v.recorded(blocks, all).stream.bits.len() + 17 <= usize::MAX,
        windows_fit(v, blocks, block, windows, started),
        taken + asked <= blocks[block as int].len() / v.channel_count(),
        v.recorded_exactly(blocks, all),
    ensures
        ({
            let channels = v.channel_count();
            let taken_out = v.standing(
                blocks,
                all,
                block,
                windows,
                started,
            ).block_decoded().queues_advanced(taken);
            &&& (taken + asked) * channels <= blocks[block as int].len()
            &&& (DecodeProgress { codec: taken_out, samples: Seq::empty(), ended: false }).rounds(
                asked,
            ) == (DecodeProgress {
                codec: taken_out.queues_advanced(asked),
                samples: blocks[block as int].subrange(
                    (taken * channels) as int,
                    ((taken + asked) * channels) as int,
                ),
                ended: false,
            })
        }),
{
    let channels = v.channel_count();
    let x = blocks[block as int];
    let before = v.recorded(blocks, block);
    let filled = v.standing(blocks, all, block, windows, started).block_decoded();
    let taken_out = filled.queues_advanced(taken);
    lemma_filled(v, blocks, all, block, windows, started, taken);
    lemma_queued_rounds_of_rest(filled, before, x, taken, asked);
    lemma_rounds_from_queues(taken_out, Seq::empty(), asked);
    assert(Seq::<i16>::empty() + taken_out.queued_rounds(asked) =~= taken_out.queued_rounds(
        asked,
    ));
}

/// The start of two runs joined: within the first run it is the start of
/// the first, beyond it the first and the start of the second.
pub proof fn lemma_concat_prefix(first: Seq<i16>, second: Seq<i16>, upto: int)
    requires
        0 <= upto <= first.len() + second.len(),
    ensures
        upto <= first.len() ==> (first + second).subrange(0, upto) == first.subrange(0, upto),
        upto >= first.len() ==> (first + second).subrange(0, upto) == first + second.subrange(
            0,
            upto - first.len(),
        ),
{
    if upto <= first.len() {
        assert((first + second).subrange(0, upto) =~= first.subrange(0, upto));
    }
    if upto >= first.len() {
        assert((first + second).subrange(0, upto) =~= first + second.subrange(
            0,
            upto - first.len(),
        ));
    }
}

/// Products of rounds and channels: they add up as the rounds do, and keep
/// their order.
pub proof fn lemma_round_products(a: nat, b: nat, channels: nat)
    ensures
        (a + b) * channels == a * channels + b * channels,
        a <= b ==> a * channels <= b * channels,
        0 <= a * channels,
{
    assert((a + b) * channels == a * channels + b * channels) by (nonlinear_arith);
    assert(a <= b ==> a * channels <= b * channels) by (nonlinear_arith);
    assert(0 <= a * channels) by (nonlinear_arith);
}

/// `lemma_play_rest` with room for more rounds than are left of the block.
pub proof fn lemma_play_rest_beyond(
    v: AdhocCodecView,
    blocks: Seq<Seq<i16>>,
    all: nat,
    block: nat,
    windows: Seq<CircularStackView<i16>>,
    started: bool,
    taken: nat,
    more: nat,
)
    requires
        before_first_block(v),
        v.codable(blocks, all),
        runs_short(blocks, v.channel_count(), all),
        v.recorded_exactly(blocks, all),
        block < all,
        v.recorded(blocks, all).stream.bits.len() + 17 <= usize::MAX,
        windows_fit(v, blocks, block, windows, started),
        taken <= blocks[block as int].len() / v.channel_count(),
    ensures
        ({
            let channels = v.channel_count();
            let rest = (blocks[block as int].len() / channels - taken) as nat;
            let later = rounds_between(blocks, channels, block + 1, all);
            let first = blocks[block as int].subrange(
                (taken * channels) as int,
                ((taken + rest) * channels) as int,
            );
            let second = recording_between(blocks, channels, block + 1, all);
            let played = (DecodeProgress {
                codec: v.standing(blocks, all, block, windows, started).block_decoded().queues_advanced(
                    taken,
                ),
                samples: Seq::empty(),
                ended: false,
            }).rounds(rest + more);
            &&& second.len() == later * channels
            &&& more <= later ==> !played.ended && played.samples == first + second.subrange(
                0,
                (more * channels) as int,
            )
            &&& more > later ==> played.ended && played.samples == first + second
        }),
{
    let channels = v.channel_count();
    let rest = (blocks[block as int].len() / channels - taken) as nat;
    let taken_out = v.standing(blocks, all, block, windows, started).block_decoded().queues_advanced(
        taken,
    );
    let start = DecodeProgress { codec: taken_out, samples: Seq::empty(), ended: false };
    let first = blocks[block as int].subrange(
        (taken * channels) as int,
        ((taken + rest) * channels) as int,
    );
    lemma_recording_len(blocks, channels, block + 1, all);
    lemma_play_rest_within(v, blocks, all, block, windows, started, taken, rest);
    lemma_filled(v, blocks, all, block, windows, started, taken);
    lemma_codable_prefix(v, blocks, block + 1, all);
    lemma_windows_fit_next(v, blocks, block, windows, started);
    lemma_rounds_add(start, rest, more);
    lemma_play_from(
        v,
        blocks,
        all,
        block + 1,
        windows_after(windows, blocks, block, block + 1),
        true,
        first,
        more,
    );
}

/// What a decoder hands out that has decoded a block of a recording into
/// its queues and taken the first `taken` rounds out of them: the samples
/// of the recording from that round on, in the order they came, as many as
/// there is room for in whole rounds.
pub proof fn lemma_play_rest(
    v: AdhocCodecView,
    blocks: Seq<Seq<i16>>,
    all: nat,
    block: nat,
    windows: Seq<CircularStackView<i16>>,
    started: bool,
    taken: nat,
    asked: nat,
)
    requires
        before_first_block(v),
        v.codable(blocks, all),
        runs_short(blocks, v.channel_count(), all),
        v.recorded_exactly(blocks, all),
        block < all,
        v.recorded(blocks, all).stream.bits.len() + 17 <= usize::MAX,
        windows_fit(v, blocks, block, windows, started),
        taken <= blocks[block as int].len() / v.channel_count(),
    ensures
        ({
            let channels = v.channel_count();
            let left = (blocks[block as int].len() / channels - taken) + rounds_between(
                blocks,
                channels,
                block + 1,
                all,
            );
            let wanted = recording_from(blocks, channels, all, block, taken);
            let played = (DecodeProgress {
                codec: v.standing(blocks, all, block, windows, started).block_decoded().queues_advanced(
                    taken,
                ),
                samples: Seq::empty(),
                ended: false,
            }).rounds(asked);
            &&& wanted.len() == left * channels
            &&& asked <= left ==> !played.ended && played.samples == wanted.subrange(
                0,
                (asked * channels) as int,
            )
            &&& asked > left ==> played.ended && played.samples == wanted
        }),
{
    let channels = v.channel_count();
    let coded = blocks[block as int].len() / channels;
    let rest = (coded - taken) as nat;
    let later = rounds_between(blocks, channels, block + 1, all);
    let first = blocks[block as int].subrange(
        (taken * channels) as int,
        (coded * channels) as int,
    );
    let second = recording_between(blocks, channels, block + 1, all);
    lemma_play_rest_within(v, blocks, all, block, windows, started, taken, rest);
    lemma_round_products(taken, rest, channels);
    lemma_round_products(rest, later, channels);
    lemma_recording_len(blocks, channels, block + 1, all);
    assert(first.len() == rest * channels);
    if asked <= rest {
        lemma_play_rest_within(v, blocks, all, block, windows, started, taken, asked);
        lemma_round_products(taken, asked, channels);
        lemma_round_products(asked, rest, channels);
        lemma_concat_prefix(first, second, (asked * channels) as int);
        assert(blocks[block as int].subrange(
            (taken * channels) as int,
            ((taken + asked) * channels) as int,
        ) =~= first.subrange(0, (asked * channels) as int));
    } else {
        let more = (asked - rest) as nat;
        lemma_play_rest_beyond(v, blocks, all, block, windows, started, taken, more);
        lemma_round_products(rest, more, channels);
        lemma_round_products(more, later, channels);
        if more <= later {
            lemma_concat_prefix(first, second, (asked * channels) as int);
        }
    }
}

impl AdhocCodecView {
    /// The number of rounds that a seek takes out of the queues of the
    /// block it lands on, which holds the `skipped` samples before it: the
    /// rounds between those samples and the target.
    pub open spec fn seek_rounds(self, target: nat, skipped: nat) -> nat {
        if target > skipped {
            ((target - skipped) / (self.channel_count() as int)) as nat
        } else {
            0
        }
    }
}

/// A seek into a recording, step by step: where no block reaches the
/// target, the rewound codec with its directory at its end; else the codec
/// placed at the block that the walk lands on, every channel set up and
/// its frame decoded, and the rounds before the target taken out.
pub proof fn lemma_sought_steps(v: AdhocCodecView, blocks: Seq<Seq<i16>>, all: nat, dt_ms: nat)
    requires
        before_first_block(v),
        v.codable(blocks, all),
    ensures
        ({
            let end = v.recorded(blocks, all);
            let channels = v.channel_count();
            let target = end.seek_target(dt_ms);
            let (block, skipped) = end.rewound().landing(target, 0, 0);
            &&& block <= all
            &&& skipped == rounds_between(blocks, channels, 0, block) * channels
            &&& skipped <= target
            &&& target == (dt_ms * v.info.unwrap().spec_frequency() / 1000) * channels
            &&& block == all ==> (all == 0 || skipped < target) && end.sought(dt_ms) == (
            AdhocCodecView {
                headers: end.rewound().headers.at(end.rewound().headers.headers.len()),
                ..end.rewound()
            })
            &&& block < all ==> {
                &&& target <= skipped + (blocks[block as int].len() / channels) * channels
                &&& end.sought(dt_ms) == v.placed(blocks, all, block).restored_upto(
                    block * v.channels.len(),
                    v.channels.len(),
                ).drained(end.seek_rounds(target, skipped))
            }
        }),
{
    let end = v.recorded(blocks, all);
    let channels = v.channel_count();
    let target = end.seek_target(dt_ms);
    lemma_recorded_between(v, blocks, all);
    assert(rounds_between(blocks, channels, 0, 0) == 0);
    assert(0 * channels == 0) by (nonlinear_arith);
    lemma_landing(v, blocks, all, target, 0);
    let (block, skipped) = end.rewound().landing(target, 0, 0);
    if block < all {
        lemma_recorded_blocks(v, blocks, all, block);
    } else if all > 0 {
        lemma_recorded_blocks(v, blocks, all, 0);
    } else {
        lemma_fundamental_div_mod_converse(0, channels as int, 0, 0);
    }
}

/// The rounds that a seek takes out of the queues of the block it lands on
/// lie within the block and end at the target.
pub proof fn lemma_seek_rounds(
    per_channel: nat,
    rounds_before: nat,
    coded: nat,
    channels: nat,
)
    requires
        channels >= 1,
        rounds_before * channels <= per_channel * channels,
        per_channel * channels <= rounds_before * channels + coded * channels,
    ensures
        rounds_before <= per_channel <= rounds_before + coded,
        (per_channel * channels - rounds_before * channels) / (channels as int) == per_channel
            - rounds_before,
        rounds_before * channels + (per_channel - rounds_before) * channels == per_channel
            * channels,
{
    assert(rounds_before <= per_channel) by (nonlinear_arith)
        requires
            rounds_before * channels <= per_channel * channels,
            channels >= 1,
    ;
    assert(per_channel <= rounds_before + coded) by (nonlinear_arith)
        requires
            per_channel * channels <= rounds_before * channels + coded * channels,
            channels >= 1,
    ;
    assert((per_channel - rounds_before) * channels == per_channel * channels - rounds_before
        * channels) by (nonlinear_arith);
    lemma_fundamental_div_mod_converse(
        per_channel * channels - rounds_before * channels,
        channels as int,
        per_channel - rounds_before,
        0,
    );
}

/// Setting up every channel of a block and letting it decode its frame
/// leaves what the decoder that stood before the block leaves when it
/// decodes the block.
pub proof fn lemma_restored_is_decoded(
    v: AdhocCodecView,
    blocks: Seq<Seq<i16>>,
    all: nat,
    block: nat,
)
    requires
        before_first_block(v),
        v.codable(blocks, all),
        block < all,
        v.recorded(blocks, all).stream.bits.len() + 17 <= usize::MAX,
        v.recorded_exactly(blocks, all),
    ensures
        v.placed(blocks, all, block).restored_upto(block * v.channels.len(), v.channels.len())
            == v.standing(
            blocks,
            all,
            block,
            v.restored_windows(blocks, all, block),
            block > 0,
        ).block_decoded(),
        windows_fit(v, blocks, block, v.restored_windows(blocks, all, block), block > 0),
{
    let channels = v.channels.len();
    let windows = v.restored_windows(blocks, all, block);
    let standing = v.standing(blocks, all, block, windows, block > 0);
    let before = v.recorded(blocks, block);
    lemma_restored_fit(v, blocks, all, block);
    lemma_restored_block(v, blocks, all, block, channels);
    lemma_standing_stored(v, blocks, all, block, windows, block > 0);
    lemma_codable_prefix(v, blocks, block, all);
    lemma_recorded_between(v, blocks, block);
    lemma_decoded_block(standing, before, blocks[block as int], channels);
    assert(standing.channels.len() == channels) by {
        reveal(AdhocCodecView::standing);
    }
    assert(v.placed(blocks, all, block).restored_upto(block * channels, channels).channels
        =~= standing.block_decoded().channels);
}

/// What a seek into a recording leaves: where no block reaches the target,
/// the rewound codec with its directory at its end; else the decoder that
/// stood before the block that the seek lands on, has decoded the block and
/// taken the rounds before the target out of its queues.
#[verifier::rlimit(40)]
pub proof fn lemma_sought(v: AdhocCodecView, blocks: Seq<Seq<i16>>, all: nat, dt_ms: nat)
    requires
        before_first_block(v),
        v.codable(blocks, all),
        v.recorded(blocks, all).stream.bits.len() + 17 <= usize::MAX,
        v.recorded_exactly(blocks, all),
    ensures
        ({
            let end = v.recorded(blocks, all);
            let channels = v.channel_count();
            let target = end.seek_target(dt_ms);
            let (block, skipped) = end.rewound().landing(target, 0, 0);
            let taken = end.seek_rounds(target, skipped);
            &&& block <= all
            &&& skipped == rounds_between(blocks, channels, 0, block) * channels
            &&& target == (dt_ms * v.info.unwrap().spec_frequency() / 1000) * channels
            &&& block == all ==> (all == 0 || skipped < target) && end.sought(dt_ms) == (
            AdhocCodecView {
                headers: end.rewound().headers.at(end.rewound().headers.headers.len()),
                ..end.rewound()
            })
            &&& block < all ==> {
                &&& skipped + taken * channels == target
                &&& taken <= blocks[block as int].len() / channels
                &&& windows_fit(v, blocks, block, v.restored_windows(blocks, all, block), block > 0)
                &&& end.sought(dt_ms) == v.standing(
                    blocks,
                    all,
                    block,
                    v.restored_windows(blocks, all, block),
                    block > 0,
                ).block_decoded().queues_advanced(taken)
            }
        }),
{
    let end = v.recorded(blocks, all);
    let channels = v.channel_count();
    let target = end.seek_target(dt_ms);
    lemma_recorded_between(v, blocks, all);
    lemma_sought_steps(v, blocks, all, dt_ms);
    let (block, skipped) = end.rewound().landing(target, 0, 0);
    if block < all {
        let windows = v.restored_windows(blocks, all, block);
        let filled = v.standing(blocks, all, block, windows, block > 0).block_decoded();
        let coded = blocks[block as int].len() / channels;
        let per_channel = dt_ms * v.info.unwrap().spec_frequency() / 1000;
        let rounds_before = rounds_between(blocks, channels, 0, block);
        lemma_seek_rounds(per_channel, rounds_before, coded, channels);
        let taken = end.seek_rounds(target, skipped);
        assert(taken == per_channel - rounds_before);
        lemma_restored_is_decoded(v, blocks, all, block);
        lemma_filled(v, blocks, all, block, windows, block > 0, taken);
        lemma_codable_prefix(v, blocks, block, all);
        lemma_queued_rounds_of_rest(filled, v.recorded(blocks, block), blocks[block as int], taken, 0);
        lemma_drained_queues(filled, taken);
    }
}

/// The first `upto` blocks of a recording hold the samples of the blocks
/// before `from` and then those of the blocks from `from` on.
pub proof fn lemma_recording_split(blocks: Seq<Seq<i16>>, channels: nat, from: nat, upto: nat)
    requires
        from <= upto,
    ensures
        recording_between(blocks, channels, 0, upto) == recording_between(
            blocks,
            channels,
            0,
            from,
        ) + recording_between(blocks, channels, from, upto),
    decreases upto,
{
    let whole = recording_between(blocks, channels, 0, upto);
    let first = recording_between(blocks, channels, 0, from);
    let second = recording_between(blocks, channels, from, upto);
    if upto > from {
        lemma_recording_split(blocks, channels, from, (upto - 1) as nat);
        let last = whole_rounds(blocks[upto - 1], channels);
        assert(whole == recording_between(blocks, channels, 0, (upto - 1) as nat) + last);
        assert(second == recording_between(blocks, channels, from, (upto - 1) as nat) + last);
        assert(whole =~= first + second);
    } else {
        assert(whole =~= first + second);
    }
}

/// The samples of a recording from a round of a block on are the samples of
/// the recording from the place of that round on.
pub proof fn lemma_recording_from(
    blocks: Seq<Seq<i16>>,
    channels: nat,
    all: nat,
    block: nat,
    taken: nat,
)
    requires
        channels >= 1,
        block < all,
        taken <= blocks[block as int].len() / channels,
    ensures
        ({
            let place = (rounds_between(blocks, channels, 0, block) + taken) * channels;
            let whole = recording(blocks, channels, all);
            &&& place <= whole.len()
            &&& whole.len() == recording_rounds(blocks, channels, all) * channels
            &&& recording_from(blocks, channels, all, block, taken) == whole.subrange(
                place as int,
                whole.len() as int,
            )
        }),
{
    let x = blocks[block as int];
    let coded = x.len() / channels;
    let before = recording_between(blocks, channels, 0, block);
    let this = whole_rounds(x, channels);
    let later = recording_between(blocks, channels, block + 1, all);
    let whole = recording(blocks, channels, all);
    lemma_recording_split(blocks, channels, block + 1, all);
    lemma_recording_len(blocks, channels, 0, block);
    lemma_recording_len(blocks, channels, 0, all);
    assert(recording_between(blocks, channels, 0, block + 1) == before + this);
    lemma_fundamental_div_mod(x.len() as int, channels as int);
    assert(coded * channels <= x.len()) by (nonlinear_arith)
        requires
            x.len() == channels * coded + x.len() % channels,
            0 <= x.len() % channels,
    ;
    assert(taken * channels <= coded * channels) by (nonlinear_arith)
        requires
            taken <= coded,
    ;
    assert(0 <= taken * channels) by (nonlinear_arith)
        requires
            0 <= taken,
            0 <= channels,
    ;
    assert((rounds_between(blocks, channels, 0, block) + taken) * channels == rounds_between(
        blocks,
        channels,
        0,
        block,
    ) * channels + taken * channels) by (nonlinear_arith);
    assert(this.len() == coded * channels);
    assert(x.subrange((taken * channels) as int, (coded * channels) as int) =~= this.subrange(
        (taken * channels) as int,
        (coded * channels) as int,
    ));
    assert(recording_from(blocks, channels, all, block, taken) =~= (before + this
        + later).subrange((before.len() + taken * channels) as int, whole.len() as int));
}

/// Seek, then decode: the recording from the sample of the time on.
///
/// After a seek to a time from the start of a recording of which no
/// residual was cut, `decode` hands out the samples of the recording from
/// the first sample of all channels at that time on, in the order they
/// came, as many as there is room for in whole rounds: the same samples
/// that `decode` hands out at that place after a rewind. A seek beyond the
/// end leaves nothing to decode.
///
/// Left out are recordings in which `MAX_DECODE_ATTEMPTS` or more blocks
/// without a whole round lie before a block with one.
#[verifier::rlimit(40)]
pub proof fn lemma_seek_playback(
    v: AdhocCodecView,
    blocks: Seq<Seq<i16>>,
    all: nat,
    dt_ms: nat,
    room: nat,
)
    requires
        before_first_block(v),
        v.codable(blocks, all),
        runs_short(blocks, v.channel_count(), all),
        v.recorded(blocks, all).stream.bits.len() + 17 <= usize::MAX,
        v.recorded_exactly(blocks, all),
    ensures
        ({
            let end = v.recorded(blocks, all);
            let channels = v.channel_count();
            let whole = recording(blocks, channels, all);
            let target = end.seek_target(dt_ms);
            let asked = room / channels;
            let played = end.sought(dt_ms).decoded(room);
            &&& target == (dt_ms * v.info.unwrap().spec_frequency() / 1000) * channels
            &&& (all == 0 || target > whole.len()) ==> played.samples == Seq::<i16>::empty()
            &&& all > 0 && target <= whole.len() ==> played.samples == whole.subrange(
                target as int,
                if target + asked * channels <= whole.len() {
                    (target + asked * channels) as int
                } else {
                    whole.len() as int
                },
            )
        }),
{
    let end = v.recorded(blocks, all);
    let rewound = end.rewound();
    let channels = v.channel_count();
    let whole = recording(blocks, channels, all);
    let target = end.seek_target(dt_ms);
    let asked = room / channels;
    let sought = end.sought(dt_ms);
    lemma_recorded_between(v, blocks, all);
    lemma_sought(v, blocks, all, dt_ms);
    lemma_recording_len(blocks, channels, 0, all);
    let (block, skipped) = rewound.landing(target, 0, 0);
    assert(sought.channel_count() == channels) by {
        reveal(AdhocCodecView::standing);
        if block < all {
            lemma_block_decoded_info(
                v.standing(blocks, all, block, v.restored_windows(blocks, all, block), block > 0),
                v.channels.len(),
            );
        }
    }
    lemma_fundamental_div_mod(room as int, channels as int);
    assert(0 <= room / channels) by (nonlinear_arith)
        requires
            channels >= 1,
            room == channels * (room / channels) + room % channels,
            room % channels < channels,
    ;
    if block == all {
        assert(sought.all_empty());
        lemma_nothing_left(sought, room);
        if all > 0 {
            assert(skipped == whole.len());
        }
    } else {
        let taken = end.seek_rounds(target, skipped);
        let coded = blocks[block as int].len() / channels;
        let left = (coded - taken) + rounds_between(blocks, channels, block + 1, all);
        let wanted = recording_from(blocks, channels, all, block, taken);
        lemma_play_rest(
            v,
            blocks,
            all,
            block,
            v.restored_windows(blocks, all, block),
            block > 0,
            taken,
            asked,
        );
        lemma_recording_from(blocks, channels, all, block, taken);
        assert((rounds_between(blocks, channels, 0, block) + taken) * channels == skipped + taken
            * channels) by (nonlinear_arith)
            requires
                skipped == rounds_between(blocks, channels, 0, block) * channels,
        ;
        if asked <= left {
            assert(asked * channels <= left * channels) by (nonlinear_arith)
                requires
                    asked <= left,
            ;
            assert(whole.subrange(target as int, whole.len() as int).subrange(
                0,
                (asked * channels) as int,
            ) =~= whole.subrange(target as int, (target + asked * channels) as int));
        } else {
            assert(asked * channels >= left * channels) by (nonlinear_arith)
                requires
                    asked >= left,
                    channels >= 0,
            ;
        }
    }
}

/// Decoding the next frames of its channels leaves the description of the
/// signal as it was.
pub proof fn lemma_block_decoded_info(f: AdhocCodecView, upto: nat)
    ensures
        f.block_decoded_upto(upto).info == f.info,
    decreases upto,
{
    if upto > 0 {
        lemma_block_decoded_info(f, (upto - 1) as nat);
    }
}

} // verus!
