//! The codec of one channel: frames of samples coded as the residuals of a
//! quadratic prediction, Rice-coded with the exponent that suits the frame
//! best.

use crate::codec::adhoc::audio_stream::AudioStream;
use crate::codec::adhoc::frame_headers::{max_headers, FrameHeader, FrameHeaders, FrameHeadersView};
use crate::codec::adhoc::CodecState;
use crate::collections::bits::{bits_of, lemma_value_of_bound};
use crate::collections::bitstream::BitStreamView;
use crate::collections::rice::{
    lemma_rice_code_len, lemma_rice_code_len_bound, lemma_rice_len_bound, lemma_write_seq_concat,
    magnitude, rice_code,
};
use crate::collections::stack::{lemma_push_all_concat, CircularStack, CircularStackView};
use crate::math::parabola::FixedParabola;
use std::collections::VecDeque;
use vstd::arithmetic::power2::{lemma2_to64, pow2};
use vstd::bits::lemma_u32_shr_is_div;
use vstd::prelude::*;

verus! {

/// `x` kept within `lo..=hi`.
pub open spec fn clamp_to(x: int, lo: int, hi: int) -> int {
    if x < lo {
        lo
    } else if x > hi {
        hi
    } else {
        x
    }
}

/// The sample that the predictor expects after the three most recent ones:
/// the parabola through them, one step further on, kept within
/// `-32767..=32767`.
pub open spec fn predicted_sample(history: CircularStackView<i16>) -> int {
    clamp_to(history.prev(3) - 3 * history.prev(2) + 3 * history.prev(1), -32767, 32767)
}

/// The residual that stands for `sample` after `history`: the sample less
/// the predicted one, kept within `-32766..=32766`.
pub open spec fn residual_of(history: CircularStackView<i16>, sample: i16) -> int {
    clamp_to(sample - predicted_sample(history), -32766, 32766)
}

/// The sample that a decoder makes of `residual` after `history`.
pub open spec fn rebuilt_sample(history: CircularStackView<i16>, residual: int) -> i16 {
    clamp_to(residual + predicted_sample(history), i16::MIN as int, i16::MAX as int) as i16
}

/// The Rice codes, one after the other, of the residuals of `samples` coded
/// after `history` with the exponent `k`.
pub open spec fn residual_code(history: CircularStackView<i16>, samples: Seq<i16>, k: nat) -> Seq<
    bool,
>
    decreases samples.len(),
{
    if samples.len() == 0 {
        Seq::empty()
    } else {
        residual_code(history, samples.drop_last(), k) + rice_code(
            k,
            residual_of(history.push_all(samples.drop_last()), samples.last()),
        )
    }
}

/// The number that the sixteen bits of `sample` spell when read without a
/// sign.
pub open spec fn raw_value(sample: i16) -> nat {
    if sample < 0 {
        (sample + 65536) as nat
    } else {
        sample as nat
    }
}

/// The sample whose sixteen bits spell `value`.
pub open spec fn raw_sample(value: nat) -> i16 {
    if value >= 32768 {
        (value - 65536) as i16
    } else {
        value as i16
    }
}

/// The samples `samples`, each stored as it is in sixteen bits.
pub open spec fn raw_code(samples: Seq<i16>) -> Seq<bool>
    decreases samples.len(),
{
    if samples.len() == 0 {
        Seq::empty()
    } else {
        raw_code(samples.drop_last()) + bits_of(raw_value(samples.last()), 16)
    }
}

/// The number of bits that the residuals of `samples` take with the
/// exponent `k`.
pub open spec fn frame_cost(history: CircularStackView<i16>, samples: Seq<i16>, k: nat) -> nat {
    residual_code(history, samples, k).len()
}

/// The best exponent among `1..=n`: the one with the lowest cost, and of
/// several such the smallest.
pub open spec fn best_exponent_upto(
    history: CircularStackView<i16>,
    samples: Seq<i16>,
    n: nat,
) -> nat
    decreases n,
{
    if n <= 1 {
        1
    } else {
        let best = best_exponent_upto(history, samples, (n - 1) as nat);
        if frame_cost(history, samples, n) < frame_cost(history, samples, best) {
            n
        } else {
            best
        }
    }
}

/// The Rice exponent of a frame: the one among `1..=15` with the lowest
/// cost, and of several such the smallest.
pub open spec fn best_exponent(history: CircularStackView<i16>, samples: Seq<i16>) -> nat {
    best_exponent_upto(history, samples, 15)
}

/// The number of samples that a frame stores as they are: three in a
/// channel's first frame, none afterwards.
pub open spec fn seed_count(state: CodecState) -> nat {
    if state == CodecState::Init {
        3
    } else {
        0
    }
}

/// What a [`FrameCodec`] holds: its state, its window of recent samples and
/// the decoded samples that wait to be handed out.
pub struct FrameCodecView {
    pub state: CodecState,
    pub history: CircularStackView<i16>,
    pub fifo: Seq<i16>,
}

impl FrameCodecView {
    /// A codec in the state `Init`, with a window of zeros and an empty
    /// queue.
    pub open spec fn fresh() -> FrameCodecView {
        FrameCodecView {
            state: CodecState::Init,
            history: CircularStackView { recent: seq![0i16, 0i16, 0i16, 0i16], len: 0 },
            fifo: Seq::empty(),
        }
    }
}

impl FrameCodecView {
    /// The codec set up from `header` for decoding its frame after a seek:
    /// the three samples of the header are pushed into the window, oldest
    /// first, the queue is empty, and the state is `Init` for a frame that
    /// begins with samples stored as they are, else `Decoding`.
    pub open spec fn restored(self, header: FrameHeader) -> FrameCodecView {
        FrameCodecView {
            state: if header.is_init {
                CodecState::Init
            } else {
                CodecState::Decoding
            },
            history: self.history.push(header.stack_history[0]).push(header.stack_history[1]).push(
                header.stack_history[2],
            ),
            fifo: Seq::empty(),
        }
    }
}

/// Where a decoder is within a frame: the stream, the window of recent
/// samples and the samples decoded so far.
pub struct DecodeState {
    pub stream: BitStreamView,
    pub history: CircularStackView<i16>,
    pub samples: Seq<i16>,
}

/// Whether `bits` more bits can be read from `stream` whatever the stream
/// holds: the cursor and the high-water mark both stay `bits` places below
/// the largest place that a `usize` names.
pub open spec fn readable(stream: BitStreamView, bits: nat) -> bool {
    stream.cursor + bits <= usize::MAX && stream.bits.len() + bits <= usize::MAX
}

impl DecodeState {
    /// The state after `bits` bits were read and gave the samples `samples`.
    pub open spec fn after(self, bits: nat, samples: Seq<i16>) -> DecodeState {
        DecodeState {
            stream: self.stream.advance(bits),
            history: self.history.push_all(samples),
            samples: self.samples + samples,
        }
    }

    /// The state after one more sample was read as it is. Where the stream
    /// is not readable the state stays.
    pub open spec fn raw_step(self) -> DecodeState {
        if !readable(self.stream, 16) {
            self
        } else {
            let sample = raw_sample(self.stream.peek(16));
            DecodeState {
                stream: self.stream.advance(16),
                history: self.history.push(sample),
                samples: self.samples.push(sample),
            }
        }
    }

    /// The state after `n` more samples were read as they are.
    pub open spec fn raw_steps(self, n: nat) -> DecodeState
        decreases n,
    {
        if n == 0 {
            self
        } else {
            self.raw_steps((n - 1) as nat).raw_step()
        }
    }

    /// The state after one more residual was decoded with the exponent `k`.
    /// Where the stream is not readable the state stays.
    pub open spec fn step(self, k: nat) -> DecodeState {
        if !readable(self.stream, 17) {
            self
        } else {
            let sample = rebuilt_sample(self.history, self.stream.rice_value(k));
            DecodeState {
                stream: self.stream.advance(self.stream.rice_len(k)),
                history: self.history.push(sample),
                samples: self.samples.push(sample),
            }
        }
    }

    /// The state after `n` more residuals were decoded with the exponent
    /// `k`.
    pub open spec fn steps(self, k: nat, n: nat) -> DecodeState
        decreases n,
    {
        if n == 0 {
            self
        } else {
            self.steps(k, (n - 1) as nat).step(k)
        }
    }
}

/// The state in which decoding the frame of `header` ends: where the
/// exponent is one of `1..=15`, the seeds of a first frame are read as they
/// are and then the residuals are decoded, up to the frame's size; with
/// another exponent nothing is decoded.
pub open spec fn decoded_frame(start: DecodeState, state: CodecState, header: FrameHeader) -> DecodeState {
    if 1 <= header.exponent <= 15 {
        let seeds = seed_count(state);
        let residuals = if header.size > seeds {
            (header.size - seeds) as nat
        } else {
            0
        };
        start.raw_steps(seeds).steps(header.exponent as nat, residuals)
    } else {
        start
    }
}

/// The header that an encoder pushes for a frame.
pub open spec fn header_of(
    exponent: nat,
    size: nat,
    bit_cursor: nat,
    is_init: bool,
    history: CircularStackView<i16>,
) -> FrameHeader {
    FrameHeader {
        exponent: exponent as u8,
        size: size as u16,
        bit_cursor: bit_cursor as u64,
        is_init,
        stack_history: [history.prev(3), history.prev(2), history.prev(1)],
    }
}

/// What a frame call leaves behind: the channel's codec, the stream and the
/// directory.
pub struct FrameOutcome {
    pub codec: FrameCodecView,
    pub stream: BitStreamView,
    pub headers: FrameHeadersView,
}

/// Whether a channel's codec can code `samples` samples as its next frame:
/// it is not decoding, a first frame has its three samples, the frame's size
/// fits its header field, the directory has room, and the stream has room
/// for the longest code that the frame can take.
pub open spec fn frame_fits(
    codec: FrameCodecView,
    stream: BitStreamView,
    headers: FrameHeadersView,
    samples: nat,
) -> bool {
    &&& codec.state != CodecState::Decoding
    &&& seed_count(codec.state) <= samples <= u16::MAX
    &&& headers.cursor < max_headers()
    &&& stream.cursor + 16400 * samples <= usize::MAX
}

/// The bits of the frame that codes `pcm` after `history` with the exponent
/// `k`: the first `seeds` samples as they are, then the residuals of the
/// rest.
pub open spec fn frame_code(
    history: CircularStackView<i16>,
    seeds: nat,
    pcm: Seq<i16>,
    k: nat,
) -> Seq<bool> {
    raw_code(pcm.subrange(0, seeds as int)) + residual_code(
        history.push_all(pcm.subrange(0, seeds as int)),
        pcm.subrange(seeds as int, pcm.len() as int),
        k,
    )
}

/// The exponent of the frame that codes `pcm` after `history`: the best one
/// for the residuals behind the first `seeds` samples.
pub open spec fn frame_exponent(history: CircularStackView<i16>, seeds: nat, pcm: Seq<i16>) -> nat {
    best_exponent(
        history.push_all(pcm.subrange(0, seeds as int)),
        pcm.subrange(seeds as int, pcm.len() as int),
    )
}

/// What coding `pcm` as the next frame of a channel leaves behind.
///
/// A channel's first frame begins with its first three samples stored as
/// they are. The exponent is the best one for the frame's residuals. The
/// header records the place where the frame begins and the three most recent
/// samples before its residuals.
pub open spec fn encoded_frame(
    codec: FrameCodecView,
    stream: BitStreamView,
    headers: FrameHeadersView,
    pcm: Seq<i16>,
) -> FrameOutcome {
    let seeds = seed_count(codec.state);
    let k = frame_exponent(codec.history, seeds, pcm);
    FrameOutcome {
        codec: FrameCodecView {
            state: CodecState::Encoding,
            history: codec.history.push_all(pcm),
            fifo: codec.fifo,
        },
        stream: stream.write_seq(frame_code(codec.history, seeds, pcm, k)),
        headers: headers.push(
            header_of(
                k,
                pcm.len(),
                stream.cursor,
                codec.state == CodecState::Init,
                codec.history.push_all(pcm.subrange(0, seeds as int)),
            ),
        ),
    }
}

/// What decoding the next frame of the directory leaves behind. Without a
/// header left nothing changes. With a header whose exponent is not one of
/// `1..=15` only the directory moves on.
pub open spec fn next_frame_decoded(
    codec: FrameCodecView,
    stream: BitStreamView,
    headers: FrameHeadersView,
) -> FrameOutcome {
    match headers.next() {
        None => FrameOutcome { codec, stream, headers },
        Some(header) => {
            let start = DecodeState { stream, history: codec.history, samples: Seq::empty() };
            let end = decoded_frame(start, codec.state, header);
            FrameOutcome {
                codec: FrameCodecView {
                    state: if 1 <= header.exponent <= 15 {
                        CodecState::Decoding
                    } else {
                        codec.state
                    },
                    history: end.history,
                    fifo: codec.fifo + end.samples,
                },
                stream: end.stream,
                headers: headers.after_next(),
            }
        },
    }
}

/// The codec of one channel: it codes frames of samples as residuals of a
/// quadratic prediction, and decodes them into a queue.
pub struct FrameCodec {
    state: CodecState,
    sample_history: CircularStack<i16>,
    buffered_channel: VecDeque<i16>,
}

impl View for FrameCodec {
    type V = FrameCodecView;

    closed spec fn view(&self) -> FrameCodecView {
        FrameCodecView {
            state: self.state,
            history: self.sample_history@,
            fifo: self.buffered_channel@,
        }
    }
}

/// The sample that the predictor expects after `history`.
pub fn predict(history: &CircularStack<i16>) -> (predicted: i16)
    requires
        history.wf(),
    ensures
        predicted == predicted_sample(history@),
{
    let mut parabola = FixedParabola::from_samples(
        [history.prev(3) as i32, history.prev(2) as i32, history.prev(1) as i32],
    );
    parabola.compute_coefs();
    let value = parabola.eval(3);
    if value < -32767 {
        -32767
    } else if value > 32767 {
        32767
    } else {
        value as i16
    }
}

/// The residual that stands for `current` where `predicted` was expected.
pub fn residual(current: i16, predicted: i16) -> (entropy: i16)
    ensures
        entropy == clamp_to(current - predicted, -32766, 32766),
{
    let difference = current as i32 - predicted as i32;
    if difference < -32766 {
        -32766
    } else if difference > 32766 {
        32766
    } else {
        difference as i16
    }
}

/// Coding one more sample adds the Rice code of its residual.
pub proof fn lemma_residual_code_step(
    history: CircularStackView<i16>,
    samples: Seq<i16>,
    start: int,
    i: int,
    k: nat,
)
    requires
        0 <= start <= i < samples.len(),
    ensures
        residual_code(history, samples.subrange(start, i + 1), k) == residual_code(
            history,
            samples.subrange(start, i),
            k,
        ) + rice_code(k, residual_of(history.push_all(samples.subrange(start, i)), samples[i])),
        history.push_all(samples.subrange(start, i + 1)) == history.push_all(
            samples.subrange(start, i),
        ).push(samples[i]),
{
    let longer = samples.subrange(start, i + 1);
    assert(longer.drop_last() =~= samples.subrange(start, i));
    assert(longer.last() == samples[i]);
}

/// Storing one more sample as it is adds its sixteen bits.
pub proof fn lemma_raw_code_step(samples: Seq<i16>, i: int)
    requires
        0 <= i < samples.len(),
    ensures
        raw_code(samples.subrange(0, i + 1)) == raw_code(samples.subrange(0, i)) + bits_of(
            raw_value(samples[i]),
            16,
        ),
{
    let longer = samples.subrange(0, i + 1);
    assert(longer.drop_last() =~= samples.subrange(0, i));
    assert(longer.last() == samples[i]);
}

/// The Rice code of a residual takes at most 16400 bits with an exponent of
/// at most 15.
pub proof fn lemma_residual_bits(k: nat, entropy: int)
    requires
        1 <= k <= 15,
        -32766 <= entropy <= 32766,
    ensures
        rice_code(k, entropy).len() <= 16400,
        rice_code(k, entropy).len() == magnitude(entropy) / pow2(k) + 2 + k,
{
    lemma_rice_code_len_bound(k, entropy);
    lemma_rice_code_len(k, entropy);
}

/// The best exponent among `1..=n` lies in that range, no exponent of the
/// range costs less, and every smaller one costs more.
pub proof fn lemma_best_exponent_upto(history: CircularStackView<i16>, samples: Seq<i16>, n: nat)
    requires
        n >= 1,
    ensures
        1 <= best_exponent_upto(history, samples, n) <= n,
        forall|k: nat|
            1 <= k <= n ==> frame_cost(history, samples, best_exponent_upto(history, samples, n))
                <= #[trigger] frame_cost(history, samples, k),
        forall|k: nat|
            1 <= k < best_exponent_upto(history, samples, n) ==> frame_cost(
                history,
                samples,
                best_exponent_upto(history, samples, n),
            ) < #[trigger] frame_cost(history, samples, k),
    decreases n,
{
    if n > 1 {
        lemma_best_exponent_upto(history, samples, (n - 1) as nat);
    }
}

/// Finds the Rice exponent for the samples of `pcm` from `start` on, coded
/// after `history`.
fn optimal_exponent_from(history: &CircularStack<i16>, pcm: &[i16], start: usize) -> (exponent:
    i16)
    requires
        history.wf(),
        start <= pcm@.len() <= u32::MAX,
    ensures
        exponent == best_exponent(history@, pcm@.subrange(start as int, pcm@.len() as int)),
        1 <= exponent <= 15,
{
    let ghost samples = pcm@.subrange(start as int, pcm@.len() as int);
    let mut bit_sum_table: [u64; 16] = [0, 0, 0, 0, 0, 0, 0, 0, 0, 0, 0, 0, 0, 0, 0, 0];
    let mut sample_history = *history;
    let mut i: usize = start;
    assert(pcm@.subrange(start as int, start as int) =~= Seq::<i16>::empty());
    while i < pcm.len()
        invariant
            start <= i <= pcm@.len() <= u32::MAX,
            sample_history.wf(),
            sample_history@ == history@.push_all(pcm@.subrange(start as int, i as int)),
            forall|k: int|
                1 <= k <= 15 ==> #[trigger] bit_sum_table[k] == frame_cost(
                    history@,
                    pcm@.subrange(start as int, i as int),
                    k as nat,
                ),
            forall|k: int| 1 <= k <= 15 ==> #[trigger] bit_sum_table[k] <= 16400 * (i - start),
        decreases pcm@.len() - i,
    {
        let current = pcm[i];
        let predicted = predict(&sample_history);
        let entropy = residual(current, predicted);
        let magnitude: u32 = if entropy < 0 {
            (-(entropy as i32)) as u32
        } else {
            entropy as u32
        };
        let ghost before = bit_sum_table;
        let mut k: usize = 1;
        while k < 16
            invariant
                1 <= k <= 16,
                start <= i < pcm@.len() <= u32::MAX,
                -32766 <= entropy <= 32766,
                magnitude == crate::collections::rice::magnitude(entropy as int),
                forall|j: int| k <= j <= 15 ==> #[trigger] bit_sum_table[j] == before[j],
                forall|j: int|
                    1 <= j < k ==> #[trigger] bit_sum_table[j] == before[j] + rice_code(
                        j as nat,
                        entropy as int,
                    ).len(),
                forall|j: int| 1 <= j <= 15 ==> #[trigger] before[j] <= 16400 * (i - start),
            decreases 16 - k,
        {
            proof {
                lemma_residual_bits(k as nat, entropy as int);
                lemma_u32_shr_is_div(magnitude, k as u32);
            }
            let quotient_bits = (magnitude >> k) + 1;
            let remainder_bits = k as u32;
            bit_sum_table[k] = bit_sum_table[k] + (quotient_bits + remainder_bits + 1) as u64;
            k += 1;
        }
        proof {
            assert forall|j: int| 1 <= j <= 15 implies #[trigger] bit_sum_table[j] == frame_cost(
                history@,
                pcm@.subrange(start as int, i + 1),
                j as nat,
            ) && bit_sum_table[j] <= 16400 * (i + 1 - start) by {
                lemma_residual_code_step(history@, pcm@, start as int, i as int, j as nat);
                lemma_residual_bits(j as nat, entropy as int);
            }
            lemma_residual_code_step(history@, pcm@, start as int, i as int, 1);
        }
        sample_history.push(current);
        i += 1;
    }
    assert(pcm@.subrange(start as int, i as int) =~= samples);
    let mut best: usize = 1;
    let mut k: usize = 2;
    while k < 16
        invariant
            2 <= k <= 16,
            1 <= best < k,
            best == best_exponent_upto(history@, samples, (k - 1) as nat),
            forall|j: int|
                1 <= j <= 15 ==> #[trigger] bit_sum_table[j] == frame_cost(
                    history@,
                    samples,
                    j as nat,
                ),
        decreases 16 - k,
    {
        if bit_sum_table[k] < bit_sum_table[best] {
            best = k;
        }
        k += 1;
    }
    best as i16
}

/// A decoder that cannot read stays where it is, however many residuals
/// are asked of it.
pub proof fn lemma_steps_stuck(state: DecodeState, k: nat, done: nat, n: nat)
    requires
        done <= n,
        !readable(state.steps(k, done).stream, 17),
    ensures
        state.steps(k, n) == state.steps(k, done),
    decreases n,
{
    if n > done {
        lemma_steps_stuck(state, k, done, (n - 1) as nat);
    }
}

/// A decoder that cannot read a sample as it is stays where it is, however
/// many samples and residuals are asked of it.
pub proof fn lemma_raw_steps_stuck(state: DecodeState, done: nat, n: nat, k: nat, m: nat)
    requires
        done <= n,
        !readable(state.raw_steps(done).stream, 16),
    ensures
        state.raw_steps(n) == state.raw_steps(done),
        state.raw_steps(n).steps(k, m) == state.raw_steps(done),
    decreases n, m,
{
    if n > done {
        lemma_raw_steps_stuck(state, done, (n - 1) as nat, k, 0);
    }
    if m > 0 {
        lemma_raw_steps_stuck(state, done, n, k, (m - 1) as nat);
    }
}

impl FrameCodec {
    /// The window of recent samples is valid.
    pub closed spec fn wf(&self) -> bool {
        self.sample_history.wf()
    }

    /// The window of recent samples.
    pub closed spec fn spec_history(&self) -> CircularStack<i16> {
        self.sample_history
    }

    /// A codec in the state `Init`, with a window of zeros and an empty
    /// queue.
    pub fn new() -> (codec: Self)
        ensures
            codec.wf(),
            codec@ == FrameCodecView::fresh(),
    {
        let codec = Self {
            state: CodecState::Init,
            sample_history: CircularStack::new(),
            buffered_channel: VecDeque::new(),
        };
        proof {
            assert(codec@.history.recent =~= seq![0i16, 0i16, 0i16, 0i16]);
            assert(codec@.fifo =~= Seq::<i16>::empty());
        }
        codec
    }

    /// The state.
    pub fn state(&self) -> (state: CodecState)
        ensures
            state == self@.state,
    {
        self.state
    }

    /// The state, to set it.
    pub fn state_mut(&mut self) -> (state: &mut CodecState)
        ensures
            *state == old(self)@.state,
            final(self)@ == (FrameCodecView { state: *final(state), ..old(self)@ }),
            final(self).wf() == old(self).wf(),
    {
        &mut self.state
    }

    /// The window of recent samples, to push into it.
    pub fn sample_history_mut(&mut self) -> (history: &mut CircularStack<i16>)
        ensures
            *history == old(self).spec_history(),
            final(self).spec_history() == *final(history),
            final(self)@ == (FrameCodecView { history: final(history)@, ..old(self)@ }),
    {
        &mut self.sample_history
    }

    /// A codec is valid where its window is, and its view shows the window.
    pub proof fn lemma_history(&self)
        ensures
            self.wf() == self.spec_history().wf(),
            self@.history == self.spec_history()@,
    {
    }

    /// Back to the state `Init` with an empty queue. The window of recent
    /// samples stays.
    pub fn init(&mut self)
        requires
            old(self).wf(),
        ensures
            final(self).wf(),
            final(self)@ == (FrameCodecView {
                state: CodecState::Init,
                fifo: Seq::<i16>::empty(),
                ..old(self)@
            }),
    {
        self.state = CodecState::Init;
        self.buffered_channel.clear();
        proof {
            assert(self@.fifo =~= Seq::<i16>::empty());
        }
    }

    /// Codes the samples `pcm` of one channel as one frame.
    ///
    /// A channel's first frame begins with its first three samples stored as
    /// they are. The Rice exponent is the best one for the residuals of the
    /// frame. The header goes into the directory before the residuals are
    /// written, with the place where the frame begins and the three most
    /// recent samples before its residuals.
    pub fn encode_frame(
        &mut self,
        stream: &mut AudioStream,
        frame_headers: &mut FrameHeaders,
        pcm: &[i16],
    )
        requires
            old(self).wf(),
            old(stream).wf(),
            old(frame_headers).wf(),
            frame_fits(old(self)@, old(stream)@, old(frame_headers)@, pcm@.len()),
        ensures
            final(self).wf(),
            final(stream).wf(),
            final(frame_headers).wf(),
            final(stream).spec_info() == old(stream).spec_info(),
            (FrameOutcome {
                codec: final(self)@,
                stream: final(stream)@,
                headers: final(frame_headers)@,
            }) == encoded_frame(old(self)@, old(stream)@, old(frame_headers)@, pcm@),
            final(stream)@.cursor <= old(stream)@.cursor + 16400 * pcm@.len(),
    {
        let is_init = match self.state {
            CodecState::Init => true,
            _ => false,
        };
        let seeds: usize = if is_init {
            3
        } else {
            0
        };
        let bits = stream.bits_mut();
        let bit_cursor = bits.len() as u64;
        let ghost start = bits@;
        let mut j: usize = 0;
        proof {
            assert(pcm@.subrange(0, 0) =~= Seq::<i16>::empty());
        }
        while j < seeds
            invariant
                j <= seeds <= pcm@.len() <= u16::MAX,
                seeds == seed_count(old(self)@.state),
                bits.wf(),
                self.sample_history.wf(),
                self.state == old(self).state,
                self.buffered_channel == old(self).buffered_channel,
                start.cursor + 16400 * pcm@.len() <= usize::MAX,
                bits@ == start.write_seq(raw_code(pcm@.subrange(0, j as int))),
                bits@.cursor == start.cursor + 16 * j,
                self.sample_history@ == old(self)@.history.push_all(pcm@.subrange(0, j as int)),
            decreases seeds - j,
        {
            let sample = pcm[j];
            let raw: u16 = if sample < 0 {
                (sample as i32 + 65536) as u16
            } else {
                sample as u16
            };
            bits.write::<u16>(raw);
            self.sample_history.push(sample);
            proof {
                lemma_raw_code_step(pcm@, j as int);
                lemma_residual_code_step(old(self)@.history, pcm@, 0, j as int, 1);
                lemma_write_seq_concat(
                    start,
                    raw_code(pcm@.subrange(0, j as int)),
                    bits_of(raw as nat, 16),
                );
            }
            j += 1;
        }
        let ghost seeded = self.sample_history@;
        let ghost seed_bits = raw_code(pcm@.subrange(0, seeds as int));
        let ghost rest = pcm@.subrange(seeds as int, pcm@.len() as int);
        let divisor_exp = optimal_exponent_from(&self.sample_history, pcm, seeds);
        let stack_history = [
            self.sample_history.prev(3),
            self.sample_history.prev(2),
            self.sample_history.prev(1),
        ];
        let header = FrameHeader {
            exponent: divisor_exp as u8,
            size: pcm.len() as u16,
            bit_cursor,
            is_init,
            stack_history,
        };
        proof {
            let wanted = header_of(
                divisor_exp as nat,
                pcm@.len(),
                start.cursor,
                is_init,
                seeded,
            );
            assert(header.stack_history@ =~= wanted.stack_history@);
            assert(header.stack_history == wanted.stack_history);
        }
        frame_headers.push(header);
        let mut i: usize = seeds;
        proof {
            assert(pcm@.subrange(seeds as int, seeds as int) =~= Seq::<i16>::empty());
            assert(seed_bits + Seq::<bool>::empty() =~= seed_bits);
        }
        while i < pcm.len()
            invariant
                seeds <= i <= pcm@.len() <= u16::MAX,
                seeds <= 3,
                1 <= divisor_exp <= 15,
                bits.wf(),
                self.sample_history.wf(),
                self.state == old(self).state,
                self.buffered_channel == old(self).buffered_channel,
                start.cursor + 16400 * pcm@.len() <= usize::MAX,
                bits@ == start.write_seq(
                    seed_bits + residual_code(
                        seeded,
                        pcm@.subrange(seeds as int, i as int),
                        divisor_exp as nat,
                    ),
                ),
                bits@.cursor <= start.cursor + 16400 * i,
                self.sample_history@ == seeded.push_all(pcm@.subrange(seeds as int, i as int)),
            decreases pcm@.len() - i,
        {
            let current = pcm[i];
            let predicted = predict(&self.sample_history);
            let entropy = residual(current, predicted);
            proof {
                lemma_residual_bits(divisor_exp as nat, entropy as int);
                lemma_residual_code_step(seeded, pcm@, seeds as int, i as int, divisor_exp as nat);
                let done = seed_bits + residual_code(
                    seeded,
                    pcm@.subrange(seeds as int, i as int),
                    divisor_exp as nat,
                );
                let next = rice_code(divisor_exp as nat, entropy as int);
                lemma_write_seq_concat(start, done, next);
                assert(done + next =~= seed_bits + residual_code(
                    seeded,
                    pcm@.subrange(seeds as int, i + 1),
                    divisor_exp as nat,
                ));
            }
            bits.write_compressed(divisor_exp, entropy);
            self.sample_history.push(current);
            i += 1;
        }
        self.state = CodecState::Encoding;
        proof {
            assert(pcm@.subrange(seeds as int, i as int) =~= rest);
            lemma_push_all_concat(old(self)@.history, pcm@.subrange(0, seeds as int), rest);
            assert(pcm@.subrange(0, seeds as int) + rest =~= pcm@);
        }
    }

    /// Decodes the next frame of the directory into the queue.
    ///
    /// Returns `None`, and changes nothing, where the directory has no
    /// header left. Else it returns the number of samples decoded: the
    /// frame's size, or fewer where the header's exponent is not one of
    /// `1..=15` or the stream cannot be read further.
    pub fn decode_frame(&mut self, stream: &mut AudioStream, frame_info: &mut FrameHeaders) -> (count:
        Option<usize>)
        requires
            old(self).wf(),
            old(stream).wf(),
            old(frame_info).wf(),
            old(self)@.state != CodecState::Encoding,
        ensures
            final(self).wf(),
            final(stream).wf(),
            final(frame_info).wf(),
            final(stream).spec_info() == old(stream).spec_info(),
            (FrameOutcome {
                codec: final(self)@,
                stream: final(stream)@,
                headers: final(frame_info)@,
            }) == next_frame_decoded(old(self)@, old(stream)@, old(frame_info)@),
            final(self)@.fifo.len() <= old(self)@.fifo.len() + 65538,
            match count {
                None => old(frame_info)@.next().is_none(),
                Some(n) => old(frame_info)@.next().is_some() && n == final(self)@.fifo.len() - old(
                    self,
                )@.fifo.len(),
            },
    {
        let header = match frame_info.next() {
            None => {
                return None;
            },
            Some(header) => header,
        };
        let ghost start = DecodeState {
            stream: stream@,
            history: self.sample_history@,
            samples: Seq::empty(),
        };
        if header.exponent < 1 || header.exponent > 15 {
            proof {
                assert(self@.fifo + start.samples =~= self@.fifo);
            }
            return Some(0);
        }
        let exponent = header.exponent as i16;
        let seeds: usize = match self.state {
            CodecState::Init => 3,
            _ => 0,
        };
        let residuals: usize = if header.size as usize > seeds {
            header.size as usize - seeds
        } else {
            0
        };
        let bits = stream.bits_mut();
        let mut samples_read: usize = 0;
        let mut j: usize = 0;
        while j < seeds
            invariant_except_break
                j == samples_read,
            invariant
                j <= seeds <= 3,
                samples_read <= j,
                bits.wf(),
                self.sample_history.wf(),
                self.state == old(self).state,
                start.raw_steps(j as nat) == (DecodeState {
                    stream: bits@,
                    history: self.sample_history@,
                    samples: start.raw_steps(j as nat).samples,
                }),
                start.raw_steps(j as nat).samples.len() == samples_read,
                self.buffered_channel@ == old(self)@.fifo + start.raw_steps(j as nat).samples,
            ensures
                start.raw_steps(seeds as nat) == start.raw_steps(j as nat),
                j < seeds ==> !readable(bits@, 16),
            decreases seeds - j,
        {
            if bits.len() > usize::MAX - 16 || bits.capacity() > usize::MAX - 16 {
                proof {
                    lemma_raw_steps_stuck(start, j as nat, seeds as nat, 1, 0);
                }
                break ;
            }
            let raw = bits.read::<u16>();
            proof {
                lemma2_to64();
                lemma_value_of_bound(start.raw_steps(j as nat).stream.window(16));
            }
            let sample: i16 = if raw >= 32768 {
                (raw as i32 - 65536) as i16
            } else {
                raw as i16
            };
            self.sample_history.push(sample);
            self.buffered_channel.push_back(sample);
            proof {
                let before = start.raw_steps(j as nat);
                assert(old(self)@.fifo + before.samples.push(sample) =~= (old(self)@.fifo
                    + before.samples).push(sample));
            }
            samples_read += 1;
            j += 1;
        }
        let ghost seeded = start.raw_steps(seeds as nat);
        let mut i: usize = 0;
        while i < residuals
            invariant
                i <= residuals <= u16::MAX,
                1 <= exponent <= 15,
                samples_read <= 3 + i,
                bits.wf(),
                self.sample_history.wf(),
                self.state == old(self).state,
                j < seeds ==> !readable(bits@, 16),
                seeded.steps(exponent as nat, i as nat) == (DecodeState {
                    stream: bits@,
                    history: self.sample_history@,
                    samples: seeded.steps(exponent as nat, i as nat).samples,
                }),
                seeded.steps(exponent as nat, i as nat).samples.len() == samples_read,
                self.buffered_channel@ == old(self)@.fifo + seeded.steps(
                    exponent as nat,
                    i as nat,
                ).samples,
            ensures
                seeded.steps(exponent as nat, residuals as nat) == seeded.steps(
                    exponent as nat,
                    i as nat,
                ),
            decreases residuals - i,
        {
            if bits.len() > usize::MAX - 17 || bits.capacity() > usize::MAX - 17 {
                proof {
                    lemma_steps_stuck(seeded, exponent as nat, i as nat, residuals as nat);
                }
                break ;
            }
            proof {
                lemma_rice_len_bound(bits@, exponent as nat);
            }
            let entropy = bits.read_compressed(exponent);
            let predicted = predict(&self.sample_history);
            let rebuilt = entropy as i32 + predicted as i32;
            let current: i16 = if rebuilt < i16::MIN as i32 {
                i16::MIN
            } else if rebuilt > i16::MAX as i32 {
                i16::MAX
            } else {
                rebuilt as i16
            };
            self.sample_history.push(current);
            self.buffered_channel.push_back(current);
            proof {
                let before = seeded.steps(exponent as nat, i as nat);
                assert(old(self)@.fifo + before.samples.push(current) =~= (old(self)@.fifo
                    + before.samples).push(current));
            }
            samples_read += 1;
            i += 1;
        }
        self.state = CodecState::Decoding;
        Some(samples_read)
    }

    /// The Rice exponent for a frame of the samples `remaining_samples`
    /// coded after `sample_history_ref`: for each exponent of `1..=15` the
    /// number of bits of the frame's residuals is added up, and the exponent
    /// with the lowest sum wins, of several the smallest.
    pub fn compute_optimal_divisor_exponent(
        sample_history_ref: &CircularStack<i16>,
        remaining_samples: &[i16],
    ) -> (exponent: i16)
        requires
            sample_history_ref.wf(),
            remaining_samples@.len() <= u32::MAX,
        ensures
            exponent == best_exponent(sample_history_ref@, remaining_samples@),
            1 <= exponent <= 15,
    {
        proof {
            assert(remaining_samples@.subrange(0, remaining_samples@.len() as int)
                =~= remaining_samples@);
        }
        optimal_exponent_from(sample_history_ref, remaining_samples, 0)
    }

    /// The decoded samples that wait to be handed out, oldest first.
    pub fn buffered_channel(&self) -> (fifo: &VecDeque<i16>)
        ensures
            fifo@ == self@.fifo,
    {
        &self.buffered_channel
    }

    /// The queue of decoded samples, to take samples out of it.
    pub fn buffered_channel_mut(&mut self) -> (fifo: &mut VecDeque<i16>)
        ensures
            fifo@ == old(self)@.fifo,
            final(self)@ == (FrameCodecView { fifo: final(fifo)@, ..old(self)@ }),
            final(self).wf() == old(self).wf(),
    {
        &mut self.buffered_channel
    }
}

} // verus!
