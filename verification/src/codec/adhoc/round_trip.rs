//! Laws of the frame codec: a frame that was coded is decoded as it was,
//! where no residual was cut.

use crate::codec::adhoc::frame::{
    decoded_frame, frame_code, next_frame_decoded, predicted_sample, raw_code, raw_sample,
    raw_value, readable, rebuilt_sample, residual_code, residual_of, seed_count, DecodeState,
    FrameCodecView, FrameOutcome,
};
use crate::codec::adhoc::frame_headers::{FrameHeader, FrameHeadersView};
use crate::codec::adhoc::CodecState;
use crate::collections::bits::{bits_of, lemma_value_of_bits_of};
use crate::collections::bitstream::BitStreamView;
use crate::collections::rice::{holds_at, lemma_rice_decode, rice_code};
use crate::collections::stack::{lemma_push_all_concat, CircularStackView};
use vstd::arithmetic::div_mod::lemma_small_mod;
use vstd::arithmetic::power2::lemma2_to64;
use vstd::prelude::*;

verus! {

/// Whether two windows give the predictor the same three samples: both
/// hold at least three values, and the three most recent ones agree.
pub open spec fn same_window(a: CircularStackView<i16>, b: CircularStackView<i16>) -> bool {
    &&& a.recent.len() == 4
    &&& b.recent.len() == 4
    &&& 3 <= a.len <= 4
    &&& 3 <= b.len <= 4
    &&& a.recent[0] == b.recent[0]
    &&& a.recent[1] == b.recent[1]
    &&& a.recent[2] == b.recent[2]
}

/// Whether no residual of `samples`, coded after `history`, is cut to fit
/// `-32766..=32766`: each sample differs from its prediction by at most
/// 32766.
pub open spec fn exact_residuals(history: CircularStackView<i16>, samples: Seq<i16>) -> bool
    decreases samples.len(),
{
    if samples.len() == 0 {
        true
    } else {
        &&& exact_residuals(history, samples.drop_last())
        &&& -32766 <= samples.last() - predicted_sample(history.push_all(samples.drop_last()))
            <= 32766
    }
}

/// Windows that give the predictor the same three samples go on doing so
/// when the same values are pushed into both, and where at least three
/// values are pushed the windows need not have agreed before.
pub proof fn lemma_same_window_push_all(
    a: CircularStackView<i16>,
    b: CircularStackView<i16>,
    items: Seq<i16>,
)
    requires
        a.recent.len() == 4,
        b.recent.len() == 4,
        a.len <= 4,
        b.len <= 4,
        same_window(a, b) || items.len() >= 3,
    ensures
        same_window(a.push_all(items), b.push_all(items)),
    decreases items.len(),
{
    lemma_push_all_recent(a, items);
    lemma_push_all_recent(b, items);
}

/// After values were pushed, the window holds four slots, counts the values
/// pushed up to four, and its most recent slots hold the last values pushed,
/// the latest first.
pub proof fn lemma_push_all_recent(start: CircularStackView<i16>, items: Seq<i16>)
    requires
        start.recent.len() == 4,
        start.len <= 4,
    ensures
        start.push_all(items).recent.len() == 4,
        start.push_all(items).len == if start.len + items.len() < 4 {
            start.len + items.len()
        } else {
            4
        },
        forall|j: int|
            0 <= j < 4 ==> #[trigger] start.push_all(items).recent[j] == if j < items.len() {
                items[items.len() - 1 - j]
            } else {
                start.recent[j - items.len()]
            },
    decreases items.len(),
{
    if items.len() > 0 {
        lemma_push_all_recent(start, items.drop_last());
    }
}

/// Samples stored as they are take sixteen bits each.
pub proof fn lemma_raw_code_len(samples: Seq<i16>)
    ensures
        raw_code(samples).len() == 16 * samples.len(),
    decreases samples.len(),
{
    if samples.len() > 0 {
        lemma_raw_code_len(samples.drop_last());
    }
}

/// Where the samples of a frame stand in the stream as they are, the decoder
/// reads them back, moves behind them and has them in its window.
pub proof fn lemma_decode_seeds(start: DecodeState, seeds: Seq<i16>)
    requires
        holds_at(start.stream, raw_code(seeds)),
        start.stream.bits.len() + 16 <= usize::MAX,
        start.stream.cursor + 16 * seeds.len() <= usize::MAX,
    ensures
        start.raw_steps(seeds.len()) == start.after(16 * seeds.len(), seeds),
        raw_code(seeds).len() == 16 * seeds.len(),
    decreases seeds.len(),
{
    if seeds.len() == 0 {
        assert(start.samples + seeds =~= start.samples);
    } else {
        let front = seeds.drop_last();
        let last = seeds.last();
        let field = bits_of(raw_value(last), 16);
        assert(raw_code(seeds) == raw_code(front) + field);
        lemma_holds_at_parts(start.stream, raw_code(front), field);
        lemma_decode_seeds(start, front);
        let before = start.raw_steps(front.len());
        assert(start.raw_steps(seeds.len()) == before.raw_step());
        lemma_decode_raw(before, last);
        assert(front.push(last) =~= seeds);
        assert(start.samples + seeds =~= (start.samples + front).push(last));
    }
}

/// Where the sixteen bits of a sample stand at the cursor, the decoder reads
/// the sample.
pub proof fn lemma_decode_raw(before: DecodeState, sample: i16)
    requires
        holds_at(before.stream, bits_of(raw_value(sample), 16)),
        readable(before.stream, 16),
    ensures
        before.raw_step() == (DecodeState {
            stream: before.stream.advance(16),
            history: before.history.push(sample),
            samples: before.samples.push(sample),
        }),
{
    let field = bits_of(raw_value(sample), 16);
    assert(before.stream.window(16) =~= field);
    lemma_value_of_bits_of(raw_value(sample), 16);
    lemma2_to64();
    lemma_small_mod(raw_value(sample), 65536);
    assert(raw_sample(raw_value(sample)) == sample);
}

/// Where the Rice code of a sample's residual stands at the cursor, the
/// residual not cut, a decoder whose window gives the predictor the same
/// three samples as the encoder's decodes the sample.
pub proof fn lemma_decode_one(
    before: DecodeState,
    encoder: CircularStackView<i16>,
    sample: i16,
    k: nat,
)
    requires
        same_window(encoder, before.history),
        -32766 <= sample - predicted_sample(encoder) <= 32766,
        holds_at(before.stream, rice_code(k, residual_of(encoder, sample))),
        readable(before.stream, 17),
    ensures
        before.step(k) == (DecodeState {
            stream: before.stream.advance(rice_code(k, residual_of(encoder, sample)).len()),
            history: before.history.push(sample),
            samples: before.samples.push(sample),
        }),
{
    let entropy = residual_of(encoder, sample);
    assert(predicted_sample(before.history) == predicted_sample(encoder));
    assert(entropy == sample - predicted_sample(encoder));
    lemma_rice_decode(before.stream, k, entropy);
    assert(rebuilt_sample(before.history, entropy) == sample);
}

/// A code that stands at the cursor stands there in both of its parts: the
/// first at the cursor, the second behind the first.
pub proof fn lemma_holds_at_parts(stream: BitStreamView, first: Seq<bool>, second: Seq<bool>)
    requires
        holds_at(stream, first + second),
    ensures
        holds_at(stream, first),
        holds_at(stream.advance(first.len()), second),
{
    let code = first + second;
    assert forall|i: int| 0 <= i < first.len() implies #[trigger] first[i] == stream.bit(
        stream.cursor + i,
    ) by {
        assert(code[i] == first[i]);
    }
    let behind = stream.advance(first.len());
    assert forall|i: int| 0 <= i < second.len() implies #[trigger] second[i] == behind.bit(
        behind.cursor + i,
    ) by {
        assert(code[first.len() + i] == second[i]);
    }
}

/// Where the residuals of a frame stand in the stream, none of them cut,
/// a decoder whose window gives the predictor the same three samples as the
/// encoder's decodes exactly the samples that were coded, moves behind the
/// code and has the samples in its window.
pub proof fn lemma_decode_residuals(
    start: DecodeState,
    coded_after: CircularStackView<i16>,
    samples: Seq<i16>,
    k: nat,
)
    requires
        1 <= k <= 15,
        same_window(coded_after, start.history),
        exact_residuals(coded_after, samples),
        holds_at(start.stream, residual_code(coded_after, samples, k)),
        start.stream.bits.len() + 17 <= usize::MAX,
        start.stream.cursor + residual_code(coded_after, samples, k).len() + 17 <= usize::MAX,
    ensures
        start.steps(k, samples.len()) == start.after(
            residual_code(coded_after, samples, k).len(),
            samples,
        ),
        same_window(coded_after.push_all(samples), start.history.push_all(samples)),
    decreases samples.len(),
{
    lemma_same_window_push_all(coded_after, start.history, samples);
    if samples.len() == 0 {
        assert(start.samples + samples =~= start.samples);
    } else {
        let front = samples.drop_last();
        let last = samples.last();
        let front_code = residual_code(coded_after, front, k);
        let encoder = coded_after.push_all(front);
        let last_code = rice_code(k, residual_of(encoder, last));
        assert(residual_code(coded_after, samples, k) == front_code + last_code);
        lemma_holds_at_parts(start.stream, front_code, last_code);
        lemma_decode_residuals(start, coded_after, front, k);
        let before = start.steps(k, front.len());
        assert(start.steps(k, samples.len()) == before.step(k));
        lemma_decode_one(before, encoder, last, k);
        assert(front.push(last) =~= samples);
        assert(start.samples + samples =~= (start.samples + front).push(last));
        assert(before.stream.advance(last_code.len()) == start.stream.advance(
            (front_code + last_code).len(),
        ));
        assert(start.history.push_all(samples) == start.history.push_all(front).push(last));
    }
}

/// Whether the frame that coded `pcm` after `coded_after` comes back
/// exactly from a stream that holds it at the cursor: none of its residuals
/// was cut, and the stream can be read to the end of the frame.
pub open spec fn frame_recoverable(
    stream: BitStreamView,
    coded_after: CircularStackView<i16>,
    seeds: nat,
    pcm: Seq<i16>,
    k: nat,
) -> bool {
    &&& seeds <= pcm.len()
    &&& exact_residuals(
        coded_after.push_all(pcm.subrange(0, seeds as int)),
        pcm.subrange(seeds as int, pcm.len() as int),
    )
    &&& holds_at(stream, frame_code(coded_after, seeds, pcm, k))
    &&& stream.bits.len() + 17 <= usize::MAX
    &&& stream.cursor + frame_code(coded_after, seeds, pcm, k).len() + 17 <= usize::MAX
}

/// The first part of decoding a frame: the decoder reads the samples stored
/// as they are, and then stands before the residuals with a window that
/// gives the predictor the same three samples as the encoder's.
pub proof fn lemma_frame_seeds(
    start: DecodeState,
    coded_after: CircularStackView<i16>,
    count: nat,
    pcm: Seq<i16>,
    k: nat,
)
    requires
        start.history.recent.len() == 4,
        start.history.len <= 4,
        coded_after.recent.len() == 4,
        coded_after.len <= 4,
        count == 3 || (count == 0 && same_window(coded_after, start.history)),
        frame_recoverable(start.stream, coded_after, count, pcm, k),
    ensures
        start.raw_steps(count) == start.after(16 * count, pcm.subrange(0, count as int)),
        frame_code(coded_after, count, pcm, k).len() == 16 * count + residual_code(
            coded_after.push_all(pcm.subrange(0, count as int)),
            pcm.subrange(count as int, pcm.len() as int),
            k,
        ).len(),
        holds_at(
            start.stream.advance(16 * count),
            residual_code(
                coded_after.push_all(pcm.subrange(0, count as int)),
                pcm.subrange(count as int, pcm.len() as int),
                k,
            ),
        ),
        same_window(
            coded_after.push_all(pcm.subrange(0, count as int)),
            start.history.push_all(pcm.subrange(0, count as int)),
        ),
{
    let seeds = pcm.subrange(0, count as int);
    let rest = pcm.subrange(count as int, pcm.len() as int);
    let seed_bits = raw_code(seeds);
    let rest_bits = residual_code(coded_after.push_all(seeds), rest, k);
    lemma_raw_code_len(seeds);
    lemma_holds_at_parts(start.stream, seed_bits, rest_bits);
    lemma_decode_seeds(start, seeds);
    lemma_same_window_push_all(coded_after, start.history, seeds);
}

/// A frame that an encoder wrote, none of its residuals cut, is decoded as
/// it was coded: the decoder hands back the samples of the frame, moves
/// behind its bits and has the samples in its window.
///
/// The decoder's window before the frame need not be the encoder's: in a
/// channel's first frame the three samples stored as they are fill it, and
/// later it is enough that both give the predictor the same three samples.
pub proof fn lemma_frame_round_trip(
    start: DecodeState,
    coded_after: CircularStackView<i16>,
    state: CodecState,
    header: FrameHeader,
    pcm: Seq<i16>,
)
    requires
        1 <= header.exponent <= 15,
        header.size == pcm.len(),
        start.history.recent.len() == 4,
        start.history.len <= 4,
        coded_after.recent.len() == 4,
        coded_after.len <= 4,
        state == CodecState::Init || same_window(coded_after, start.history),
        frame_recoverable(
            start.stream,
            coded_after,
            seed_count(state),
            pcm,
            header.exponent as nat,
        ),
    ensures
        decoded_frame(start, state, header) == start.after(
            frame_code(coded_after, seed_count(state), pcm, header.exponent as nat).len(),
            pcm,
        ),
        same_window(coded_after.push_all(pcm), start.history.push_all(pcm)) || pcm.len() == 0,
{
    let k = header.exponent as nat;
    let count = seed_count(state);
    let seeds = pcm.subrange(0, count as int);
    let rest = pcm.subrange(count as int, pcm.len() as int);
    let seeded = coded_after.push_all(seeds);
    let rest_bits = residual_code(seeded, rest, k);
    lemma_frame_seeds(start, coded_after, count, pcm, k);
    let middle = start.after(16 * count, seeds);
    lemma_decode_residuals(middle, seeded, rest, k);
    lemma_after_after(start, 16 * count, seeds, rest_bits.len(), rest);
    assert(seeds + rest =~= pcm);
    lemma_push_all_concat(coded_after, seeds, rest);
}

/// Reading on from where a first reading ended is one reading of both
/// parts.
pub proof fn lemma_after_after(
    start: DecodeState,
    first_bits: nat,
    first: Seq<i16>,
    second_bits: nat,
    second: Seq<i16>,
)
    ensures
        start.after(first_bits, first).after(second_bits, second) == start.after(
            first_bits + second_bits,
            first + second,
        ),
{
    lemma_push_all_concat(start.history, first, second);
    assert(start.samples + first + second =~= start.samples + (first + second));
}

/// `lemma_frame_round_trip` for a channel's codec: decoding the next frame
/// of the directory, where that is a frame that an encoder wrote and none
/// of its residuals was cut, puts the samples of the frame into the queue
/// and into the window, moves the stream behind the frame and the directory
/// behind its header.
pub proof fn lemma_next_frame_round_trip(
    decoder: FrameCodecView,
    stream: BitStreamView,
    headers: FrameHeadersView,
    coded_after: CircularStackView<i16>,
    pcm: Seq<i16>,
    k: nat,
)
    requires
        1 <= k <= 15,
        headers.cursor < headers.headers.len(),
        headers.headers[headers.cursor as int].exponent == k,
        headers.headers[headers.cursor as int].size == pcm.len(),
        decoder.history.recent.len() == 4,
        decoder.history.len <= 4,
        coded_after.recent.len() == 4,
        coded_after.len <= 4,
        decoder.state == CodecState::Init || same_window(coded_after, decoder.history),
        frame_recoverable(stream, coded_after, seed_count(decoder.state), pcm, k),
    ensures
        next_frame_decoded(decoder, stream, headers) == (FrameOutcome {
            codec: FrameCodecView {
                state: CodecState::Decoding,
                history: decoder.history.push_all(pcm),
                fifo: decoder.fifo + pcm,
            },
            stream: stream.advance(
                frame_code(coded_after, seed_count(decoder.state), pcm, k).len(),
            ),
            headers: headers.at(headers.cursor + 1),
        }),
{
    let header = headers.headers[headers.cursor as int];
    let start = DecodeState { stream, history: decoder.history, samples: Seq::empty() };
    lemma_frame_round_trip(start, coded_after, decoder.state, header, pcm);
    assert(Seq::<i16>::empty() + pcm =~= pcm);
}

/// Where the residuals of a frame stand in the stream, a decoder reads one
/// sample for each and ends behind the code, whatever its window is and
/// whether or not residuals were cut: the samples may differ from those
/// that were coded, their number and the place of the stream do not.
pub proof fn lemma_residuals_in_step(
    start: DecodeState,
    coded_after: CircularStackView<i16>,
    samples: Seq<i16>,
    k: nat,
)
    requires
        1 <= k <= 15,
        holds_at(start.stream, residual_code(coded_after, samples, k)),
        start.stream.bits.len() + 17 <= usize::MAX,
        start.stream.cursor + residual_code(coded_after, samples, k).len() + 17 <= usize::MAX,
    ensures
        start.steps(k, samples.len()).stream == start.stream.advance(
            residual_code(coded_after, samples, k).len(),
        ),
        start.steps(k, samples.len()).samples.len() == start.samples.len() + samples.len(),
    decreases samples.len(),
{
    if samples.len() > 0 {
        let front = samples.drop_last();
        let front_code = residual_code(coded_after, front, k);
        let entropy = residual_of(coded_after.push_all(front), samples.last());
        let last_code = rice_code(k, entropy);
        assert(residual_code(coded_after, samples, k) == front_code + last_code);
        lemma_holds_at_parts(start.stream, front_code, last_code);
        lemma_residuals_in_step(start, coded_after, front, k);
        let before = start.steps(k, front.len());
        assert(start.steps(k, samples.len()) == before.step(k));
        lemma_rice_decode(before.stream, k, entropy);
        assert(before.stream.advance(last_code.len()) == start.stream.advance(
            (front_code + last_code).len(),
        ));
    }
}

/// Where a frame that an encoder wrote stands in the stream, decoding the
/// next frame of the directory with its header puts as many samples into
/// the queue as the frame has, moves the stream behind the frame and the
/// directory behind the header, whatever the decoder's window is and whether
/// or not residuals were cut.
pub proof fn lemma_next_frame_in_step(
    decoder: FrameCodecView,
    stream: BitStreamView,
    headers: FrameHeadersView,
    coded_after: CircularStackView<i16>,
    pcm: Seq<i16>,
    k: nat,
)
    requires
        1 <= k <= 15,
        headers.cursor < headers.headers.len(),
        headers.headers[headers.cursor as int].exponent == k,
        headers.headers[headers.cursor as int].size == pcm.len(),
        seed_count(decoder.state) <= pcm.len(),
        holds_at(stream, frame_code(coded_after, seed_count(decoder.state), pcm, k)),
        stream.bits.len() + 17 <= usize::MAX,
        stream.cursor + frame_code(coded_after, seed_count(decoder.state), pcm, k).len() + 17
            <= usize::MAX,
    ensures
        next_frame_decoded(decoder, stream, headers).stream == stream.advance(
            frame_code(coded_after, seed_count(decoder.state), pcm, k).len(),
        ),
        next_frame_decoded(decoder, stream, headers).headers == headers.at(headers.cursor + 1),
        next_frame_decoded(decoder, stream, headers).codec.state == CodecState::Decoding,
        next_frame_decoded(decoder, stream, headers).codec.fifo.len() == decoder.fifo.len()
            + pcm.len(),
{
    let count = seed_count(decoder.state);
    let seeds = pcm.subrange(0, count as int);
    let rest = pcm.subrange(count as int, pcm.len() as int);
    let seeded = coded_after.push_all(seeds);
    let start = DecodeState { stream, history: decoder.history, samples: Seq::empty() };
    lemma_raw_code_len(seeds);
    lemma_holds_at_parts(stream, raw_code(seeds), residual_code(seeded, rest, k));
    lemma_decode_seeds(start, seeds);
    lemma_residuals_in_step(start.raw_steps(count), seeded, rest, k);
    assert(rest.len() == pcm.len() - count);
}

} // verus!
