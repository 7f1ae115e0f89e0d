//! The adaptive codec: it takes interleaved samples apart by channel, lets
//! one frame codec for each channel code them, and puts decoded samples
//! together again.

use crate::codec::adhoc::audio_stream::AudioStream;
use crate::codec::adhoc::frame::{
    encoded_frame, next_frame_decoded, seed_count, FrameCodec, FrameCodecView, FrameOutcome,
};
use crate::codec::adhoc::frame_headers::{
    max_headers, FrameHeaders, FrameHeadersView, MAX_HEADERS,
};
use crate::codec::{start_time, StreamInfo};
use crate::collections::bitstream::BitStreamView;
use crate::collections::bitvec::BitVec;
use std::io::SeekFrom;
use vstd::prelude::*;

pub mod audio_stream;
pub mod counting;
pub mod frame;
pub mod frame_headers;
pub mod playback;
pub mod recording;
pub mod round_trip;
pub mod seeking;

verus! {

/// The number of times that a decoder tries to fill empty queues before it
/// takes the stream to have ended.
pub const MAX_DECODE_ATTEMPTS: usize = 10;

/// What a channel's codec did last: nothing yet, encoding, or decoding.
#[derive(Copy, Clone, Debug, PartialEq, Eq, Structural)]
pub enum CodecState {
    Init,
    Encoding,
    Decoding,
}

/// What an [`AdhocCodec`] holds: its compression level, the description of
/// the signal, the directory, the stream and the codec of each channel.
pub struct AdhocCodecView {
    pub level: nat,
    pub info: Option<StreamInfo>,
    pub headers: FrameHeadersView,
    pub stream: BitStreamView,
    pub channels: Seq<FrameCodecView>,
}

/// The samples of channel `c` among `interleaved` samples of `channels`
/// channels: every `channels`-th sample from the `c`-th on, as many as there
/// are whole rounds of all channels.
pub open spec fn channel_samples(interleaved: Seq<i16>, channels: nat, c: nat) -> Seq<i16> {
    Seq::new(interleaved.len() / channels, |i: int| interleaved[i * channels + c])
}

impl AdhocCodecView {
    /// The number of channels of the signal; zero while no description is
    /// set.
    pub open spec fn channel_count(self) -> nat {
        match self.info {
            Some(info) => info.spec_channels(),
            None => 0,
        }
    }

    /// The codec after a frame call on channel `c` left `outcome` behind.
    pub open spec fn with_frame(self, c: int, outcome: FrameOutcome) -> AdhocCodecView {
        AdhocCodecView {
            headers: outcome.headers,
            stream: outcome.stream,
            channels: self.channels.update(c, outcome.codec),
            ..self
        }
    }

    /// Whether `samples` interleaved samples can be coded: a description
    /// with at least one channel is set, each channel's codec can take its
    /// share of the samples as a frame, and the directory and the stream
    /// have room for the frames of all channels.
    pub open spec fn encodable(self, samples: nat) -> bool {
        let channels = self.channel_count();
        &&& channels > 0
        &&& samples / channels <= u16::MAX
        &&& forall|c: int|
            0 <= c < self.channels.len() ==> {
                &&& (#[trigger] self.channels[c]).state != CodecState::Decoding
                &&& seed_count(self.channels[c].state) <= samples / channels
            }
        &&& self.headers.cursor + channels <= max_headers()
        &&& self.stream.cursor + 16400 * (samples / channels) * channels <= usize::MAX
    }

    /// The codec after the first `upto` channels coded their share of
    /// `interleaved` as one frame each, channel 0 first.
    pub open spec fn encoded_upto(self, interleaved: Seq<i16>, upto: nat) -> AdhocCodecView
        decreases upto,
    {
        if upto == 0 {
            self
        } else {
            let c = (upto - 1) as nat;
            let before = self.encoded_upto(interleaved, c);
            before.with_frame(
                c as int,
                encoded_frame(
                    before.channels[c as int],
                    before.stream,
                    before.headers,
                    channel_samples(interleaved, self.channel_count(), c),
                ),
            )
        }
    }

    /// The codec after `interleaved` was coded: one frame for each channel.
    pub open spec fn encoded(self, interleaved: Seq<i16>) -> AdhocCodecView {
        self.encoded_upto(interleaved, self.channel_count())
    }

    /// Whether the codec can decode: a description with at least one channel
    /// is set and no channel is encoding.
    pub open spec fn decodable(self) -> bool {
        &&& self.channel_count() > 0
        &&& forall|c: int|
            0 <= c < self.channels.len() ==> (#[trigger] self.channels[c]).state
                != CodecState::Encoding
    }

    /// Whether no channel has a decoded sample waiting.
    pub open spec fn all_empty(self) -> bool {
        forall|c: int| 0 <= c < self.channels.len() ==> (#[trigger] self.channels[c]).fifo.len() == 0
    }

    /// The codec after the first `upto` channels decoded their next frame
    /// each, channel 0 first.
    pub open spec fn block_decoded_upto(self, upto: nat) -> AdhocCodecView
        decreases upto,
    {
        if upto == 0 {
            self
        } else {
            let c = (upto - 1) as nat;
            let before = self.block_decoded_upto(c);
            before.with_frame(
                c as int,
                next_frame_decoded(before.channels[c as int], before.stream, before.headers),
            )
        }
    }

    /// The codec after every channel decoded its next frame.
    pub open spec fn block_decoded(self) -> AdhocCodecView {
        self.block_decoded_upto(self.channels.len())
    }

    /// The codec after its queues were filled: while every queue is empty,
    /// every channel decodes its next frame, at most `attempts` times.
    pub open spec fn refilled(self, attempts: nat) -> AdhocCodecView
        decreases attempts,
    {
        if attempts == 0 || !self.all_empty() {
            self
        } else {
            self.block_decoded().refilled((attempts - 1) as nat)
        }
    }

    /// The next sample of each channel, channel 0 first; zero for a channel
    /// whose queue is empty.
    pub open spec fn round_samples(self) -> Seq<i16> {
        Seq::new(
            self.channels.len(),
            |c: int|
                if self.channels[c].fifo.len() > 0 {
                    self.channels[c].fifo[0]
                } else {
                    0i16
                },
        )
    }

    /// The codec after the next sample of each channel was taken.
    pub open spec fn round_drained(self) -> AdhocCodecView {
        AdhocCodecView {
            channels: Seq::new(
                self.channels.len(),
                |c: int|
                    FrameCodecView {
                        fifo: if self.channels[c].fifo.len() > 0 {
                            self.channels[c].fifo.drop_first()
                        } else {
                            self.channels[c].fifo
                        },
                        ..self.channels[c]
                    },
            ),
            ..self
        }
    }

    /// What decoding `samples` samples gives, for a codec that can decode:
    /// as many rounds as `samples` holds whole rounds of all channels.
    pub open spec fn decoded(self, samples: nat) -> DecodeProgress {
        (DecodeProgress { codec: self, samples: Seq::empty(), ended: false }).rounds(
            samples / self.channel_count(),
        )
    }

    /// The number of samples, all channels counted, that lie before the
    /// time `dt_ms` milliseconds: the samples of one channel in that time,
    /// rounded down, times the number of channels.
    pub open spec fn seek_target(self, dt_ms: nat) -> nat {
        match self.info {
            Some(info) => (dt_ms * info.spec_frequency() / 1000) * info.spec_channels(),
            None => 0,
        }
    }

    /// The number of whole blocks of the directory: a block is one header
    /// for each channel.
    pub open spec fn block_count(self) -> nat {
        self.headers.headers.len() / self.channel_count()
    }

    /// The number of samples, all channels counted, that block `block` holds,
    /// going by its first header.
    pub open spec fn block_samples(self, block: nat) -> nat {
        (self.headers.headers[(block * self.channel_count()) as int].size * self.channel_count()) as nat
    }

    /// The block on which a seek to `target` samples lands, walking from
    /// `block` with `skipped` samples before it, and the samples before that
    /// block: the first block that reaches `target`. Where no block does, the
    /// number of blocks comes back.
    pub open spec fn landing(self, target: nat, block: nat, skipped: nat) -> (nat, nat)
        decreases self.block_count() - block,
    {
        if block >= self.block_count() || skipped >= target || skipped + self.block_samples(block)
            >= target {
            (block, skipped)
        } else {
            self.landing(target, block + 1, skipped + self.block_samples(block))
        }
    }

    /// The codec after the first `upto` channels were set up from their
    /// headers of the block that begins at header `start`, and decoded that
    /// frame each.
    pub open spec fn restored_upto(self, start: nat, upto: nat) -> AdhocCodecView
        decreases upto,
    {
        if upto == 0 {
            self
        } else {
            let c = (upto - 1) as nat;
            let before = self.restored_upto(start, c);
            before.with_frame(
                c as int,
                next_frame_decoded(
                    before.channels[c as int].restored(before.headers.headers[(start + c) as int]),
                    before.stream,
                    before.headers,
                ),
            )
        }
    }

    /// The codec after `rounds` times the next sample of each channel was
    /// taken.
    pub open spec fn drained(self, rounds: nat) -> AdhocCodecView
        decreases rounds,
    {
        if rounds == 0 {
            self
        } else {
            self.drained((rounds - 1) as nat).round_drained()
        }
    }

    /// The codec after a seek to the time `dt_ms` milliseconds from the
    /// start.
    ///
    /// The codec is rewound. Without a channel nothing more happens. The
    /// directory is walked block by block to the first block that reaches
    /// the target. Where there is none, or its place in the stream is not
    /// one that a `usize` names, the directory's cursor goes to its end.
    /// Else the stream and the directory go to the start of that block,
    /// every channel is set up from its header and decodes its frame, and
    /// the samples before the target are taken from the queues.
    pub open spec fn sought(self, dt_ms: nat) -> AdhocCodecView {
        let rewound = self.rewound();
        let channels = self.channel_count();
        let target = self.seek_target(dt_ms);
        let (block, skipped) = rewound.landing(target, 0, 0);
        let start = block * channels;
        if channels == 0 {
            rewound
        } else if block >= rewound.block_count() || rewound.headers.headers[start as int].bit_cursor
            > usize::MAX {
            AdhocCodecView { headers: rewound.headers.at(rewound.headers.headers.len()), ..rewound }
        } else {
            let placed = AdhocCodecView {
                headers: rewound.headers.at(start),
                stream: rewound.stream.seek(rewound.headers.headers[start as int].bit_cursor as nat),
                ..rewound
            };
            let rounds = if target > skipped {
                ((target - skipped) / (channels as int)) as nat
            } else {
                0
            };
            placed.restored_upto(start, channels).drained(rounds)
        }
    }

    /// An upper bound, in bits, of what the codec takes when stored: the
    /// bits of the stream, 128 each for its cursor and its high-water mark,
    /// 64 for the description of the signal, 32 for the level, and for each
    /// header 4 bits of exponent, 16 of size, 64 of place and 48 of recent
    /// samples, and one bit more in words of 64.
    pub open spec fn filesize_upperbound(self) -> nat {
        let headers = self.headers.headers.len();
        self.stream.bits.len() + 2 * 128 + 64 + 32 + 4 * headers + ((headers + 63) / 64) * 64 + 16
            * headers + 64 * headers + 48 * headers
    }

    /// The codec rewound for decoding: the stream and the directory at
    /// their start, every channel in the state `Init` with an empty queue.
    /// The windows of recent samples stay.
    pub open spec fn rewound(self) -> AdhocCodecView {
        AdhocCodecView {
            headers: self.headers.at(0),
            stream: self.stream.seek(0),
            channels: Seq::new(
                self.channels.len(),
                |c: int|
                    FrameCodecView {
                        state: CodecState::Init,
                        fifo: Seq::empty(),
                        ..self.channels[c]
                    },
            ),
            ..self
        }
    }
}

/// How far a call of `decode` has come: the codec, the samples handed out
/// so far, and whether the stream has ended.
pub struct DecodeProgress {
    pub codec: AdhocCodecView,
    pub samples: Seq<i16>,
    pub ended: bool,
}

impl DecodeProgress {
    /// The progress after one more round: the queues are filled where all
    /// are empty, with at most `MAX_DECODE_ATTEMPTS` attempts; where they are
    /// all empty still, the stream has ended; else one sample of each channel
    /// is handed out, channel 0 first.
    pub open spec fn round(self) -> DecodeProgress {
        if self.ended {
            self
        } else {
            let filled = self.codec.refilled(MAX_DECODE_ATTEMPTS as nat);
            if filled.all_empty() {
                DecodeProgress { codec: filled, samples: self.samples, ended: true }
            } else {
                DecodeProgress {
                    codec: filled.round_drained(),
                    samples: self.samples + filled.round_samples(),
                    ended: false,
                }
            }
        }
    }

    /// The progress after `n` more rounds.
    pub open spec fn rounds(self, n: nat) -> DecodeProgress
        decreases n,
    {
        if n == 0 {
            self
        } else {
            self.rounds((n - 1) as nat).round()
        }
    }
}

/// Once the stream has ended, further rounds change nothing.
pub proof fn lemma_rounds_ended(start: DecodeProgress, done: nat, n: nat)
    requires
        done <= n,
        start.rounds(done).ended,
    ensures
        start.rounds(n) == start.rounds(done),
    decreases n,
{
    if n > done {
        lemma_rounds_ended(start, done, (n - 1) as nat);
    }
}

/// The place of a sample among interleaved samples lies within them.
pub proof fn lemma_interleaved_index(i: int, c: int, chunks: int, channels: int, len: int)
    by (nonlinear_arith)
    requires
        0 <= i < chunks,
        0 <= c < channels,
        chunks * channels <= len,
    ensures
        0 <= i * channels,
        0 <= i * channels + c < len,
{
}

/// An adaptive lossy codec for interleaved 16-bit samples: each call of
/// `encode` codes one frame for each channel, and `decode` hands the samples
/// back in the order they came.
pub struct AdhocCodec {
    frame_header_list: FrameHeaders,
    channel_state_list: Vec<FrameCodec>,
    stream: AudioStream,
    deinterleaved_channel: Vec<i16>,
    compression_level: u32,
}

impl View for AdhocCodec {
    type V = AdhocCodecView;

    closed spec fn view(&self) -> AdhocCodecView {
        AdhocCodecView {
            level: self.compression_level as nat,
            info: self.stream.spec_info(),
            headers: self.frame_header_list@,
            stream: self.stream@,
            channels: Seq::new(
                self.channel_state_list@.len(),
                |c: int| self.channel_state_list@[c]@,
            ),
        }
    }
}

impl AdhocCodec {
    /// The directory, the stream and every channel's codec are valid, the
    /// level is at most 10, and there is one codec for each channel of the
    /// signal.
    pub closed spec fn wf(&self) -> bool {
        &&& self.frame_header_list.wf()
        &&& self.stream.wf()
        &&& self.compression_level <= 10
        &&& forall|c: int|
            0 <= c < self.channel_state_list@.len() ==> (#[trigger] self.channel_state_list@[c]).wf()
        &&& self.channel_state_list@.len() == self@.channel_count()
    }

    /// In a valid codec there is one channel codec for each channel, the
    /// level is at most 10, and the directory's cursor is within it.
    pub proof fn lemma_wf_view(&self)
        requires
            self.wf(),
        ensures
            self@.channels.len() == self@.channel_count(),
            self@.level <= 10,
            self@.headers.cursor <= self@.headers.headers.len() <= max_headers(),
            self@.stream.cursor <= usize::MAX,
            self@.stream.bits.len() <= usize::MAX,
    {
        self.frame_header_list.lemma_wf_view();
        self.stream.spec_bits().lemma_wf_view();
    }

    /// An empty codec at level 0, with no description of the signal.
    pub fn new() -> (codec: Self)
        ensures
            codec.wf(),
            codec@ == (AdhocCodecView {
                level: 0,
                info: None,
                headers: FrameHeadersView::empty(),
                stream: BitStreamView { bits: Seq::empty(), cursor: 0 },
                channels: Seq::empty(),
            }),
    {
        let codec = Self {
            stream: AudioStream::new(),
            frame_header_list: FrameHeaders::new(),
            deinterleaved_channel: Vec::new(),
            channel_state_list: Vec::new(),
            compression_level: 0,
        };
        proof {
            assert(codec@.channels =~= Seq::<FrameCodecView>::empty());
            assert(codec@.stream.bits =~= Seq::<bool>::empty());
        }
        codec
    }

    /// The codec with the description `info` set; see `set_info`.
    pub fn with_info(self, info: StreamInfo) -> (codec: Self)
        requires
            self.wf(),
        ensures
            codec.wf(),
            codec@.info == Some(info),
            codec@.level == self@.level,
            codec@.headers == self@.headers,
            codec@.stream == self@.stream,
            codec@.channels.len() == info.spec_channels(),
            forall|c: int|
                0 <= c < codec@.channels.len() ==> #[trigger] codec@.channels[c] == if c
                    < self@.channels.len() {
                    self@.channels[c]
                } else {
                    FrameCodecView::fresh()
                },
    {
        let mut codec = self;
        codec.set_info(info);
        codec
    }

    /// The description of the signal, once it is set.
    pub fn info(&self) -> (info: Option<StreamInfo>)
        ensures
            info == self@.info,
    {
        self.stream.info()
    }

    /// Sets the description of the signal and makes the list of channel
    /// codecs as long as the signal has channels: codecs that were there
    /// stay, fresh ones are added, those beyond the count go.
    pub fn set_info(&mut self, info: StreamInfo)
        requires
            old(self).wf(),
        ensures
            final(self).wf(),
            final(self)@.info == Some(info),
            final(self)@.level == old(self)@.level,
            final(self)@.headers == old(self)@.headers,
            final(self)@.stream == old(self)@.stream,
            final(self)@.channels.len() == info.spec_channels(),
            forall|c: int|
                0 <= c < final(self)@.channels.len() ==> #[trigger] final(self)@.channels[c] == if c
                    < old(self)@.channels.len() {
                    old(self)@.channels[c]
                } else {
                    FrameCodecView::fresh()
                },
    {
        let num_channels = info.channels();
        self.channel_state_list.truncate(num_channels);
        while self.channel_state_list.len() < num_channels
            invariant
                self.frame_header_list == old(self).frame_header_list,
                self.stream == old(self).stream,
                self.compression_level == old(self).compression_level,
                self.channel_state_list@.len() <= num_channels,
                self.channel_state_list@.len() >= old(self).channel_state_list@.len()
                    || self.channel_state_list@.len() >= num_channels,
                forall|c: int|
                    0 <= c < self.channel_state_list@.len() ==> (
                    #[trigger] self.channel_state_list@[c]).wf(),
                forall|c: int|
                    0 <= c < self.channel_state_list@.len() ==> (
                    #[trigger] self.channel_state_list@[c])@ == if c < old(self)@.channels.len() {
                        old(self)@.channels[c]
                    } else {
                        FrameCodecView::fresh()
                    },
            decreases num_channels - self.channel_state_list@.len(),
        {
            self.channel_state_list.push(FrameCodec::new());
        }
        self.stream.set_info(Some(info));
    }

    /// The compression level, from 0 to 10.
    pub fn compression_level(&self) -> (level: u32)
        ensures
            level == self@.level,
    {
        self.compression_level
    }

    /// The codec with the compression level `level`, or 10 where `level` is
    /// above.
    pub fn with_compression_level(self, level: u32) -> (codec: Self)
        requires
            self.wf(),
        ensures
            codec.wf(),
            codec@ == (AdhocCodecView {
                level: if level > 10 {
                    10
                } else {
                    level as nat
                },
                ..self@
            }),
    {
        let mut codec = self;
        codec.compression_level = if level > 10 {
            10
        } else {
            level
        };
        proof {
            assert(codec@.channels =~= self@.channels);
        }
        codec
    }

    /// Rewinds the codec, usually to switch to decoding: the stream and the
    /// directory are back at their start and every channel is in the state
    /// `Init` with an empty queue. The windows of recent samples stay.
    pub fn init(&mut self)
        requires
            old(self).wf(),
        ensures
            final(self).wf(),
            final(self)@ == old(self)@.rewound(),
    {
        self.stream.bits_mut().seek_start();
        self.frame_header_list.reset();
        let mut c: usize = 0;
        while c < self.channel_state_list.len()
            invariant
                self.frame_header_list.wf(),
                self.frame_header_list@ == old(self)@.headers.at(0),
                self.stream.wf(),
                self.stream@ == old(self)@.stream.seek(0),
                self.stream.spec_info() == old(self)@.info,
                self.compression_level == old(self).compression_level,
                self.channel_state_list@.len() == old(self).channel_state_list@.len(),
                c <= self.channel_state_list@.len(),
                forall|i: int|
                    0 <= i < self.channel_state_list@.len() ==> (
                    #[trigger] self.channel_state_list@[i]).wf(),
                forall|i: int|
                    0 <= i < c ==> (#[trigger] self.channel_state_list@[i])@ == old(
                        self,
                    )@.rewound().channels[i],
                forall|i: int|
                    c <= i < self.channel_state_list@.len() ==> #[trigger] self.channel_state_list@[i]
                        == old(self).channel_state_list@[i],
            decreases self.channel_state_list@.len() - c,
        {
            self.channel_state_list[c].init();
            c += 1;
        }
        proof {
            assert(self@.channels =~= old(self)@.rewound().channels);
        }
    }

    /// Whether `samples` interleaved samples can be coded by `encode`.
    pub fn can_encode(&self, samples: usize) -> (ok: bool)
        requires
            self.wf(),
        ensures
            ok == self@.encodable(samples as nat),
    {
        let info = match self.stream.info() {
            None => {
                return false;
            },
            Some(info) => info,
        };
        let channels = info.channels();
        if channels == 0 {
            return false;
        }
        let chunks = samples / channels;
        if chunks > 65535 {
            return false;
        }
        proof {
            self.lemma_wf_view();
            assert(16400 * chunks * channels <= 16400 * 65535 * 0xffff_ffff) by (nonlinear_arith)
                requires
                    0 <= chunks <= 65535,
                    0 <= channels <= 0xffff_ffff,
            ;
        }
        if self.frame_header_list.cursor() as u64 + channels as u64 > MAX_HEADERS as u64 {
            return false;
        }
        let needed: u128 = 16400 * (chunks as u128) * (channels as u128);
        if self.stream.bits().len() as u128 + needed > usize::MAX as u128 {
            return false;
        }
        let seeds_at_most_three = chunks >= 3;
        let mut c: usize = 0;
        while c < channels
            invariant
                self.wf(),
                c <= channels == self.channel_state_list@.len(),
                chunks == samples as nat / self@.channel_count(),
                seeds_at_most_three == (chunks >= 3),
                forall|i: int|
                    0 <= i < c ==> {
                        &&& (#[trigger] self@.channels[i]).state != CodecState::Decoding
                        &&& seed_count(self@.channels[i].state) <= chunks
                    },
            decreases channels - c,
        {
            let fits = match self.channel_state_list[c].state() {
                CodecState::Decoding => false,
                CodecState::Init => seeds_at_most_three,
                CodecState::Encoding => true,
            };
            if !fits {
                proof {
                    assert(self@.channels[c as int] == self.channel_state_list@[c as int]@);
                }
                return false;
            }
            c += 1;
        }
        true
    }

    /// Codes `interleaved_pcm` where `can_encode` allows it: the samples are
    /// taken apart by channel, and each channel's codec codes its share as
    /// one frame, channel 0 first. Samples beyond the last whole round of
    /// all channels are left out. Returns the number of samples taken, or
    /// `None`, with nothing changed, where the samples cannot be coded.
    pub fn encode(&mut self, interleaved_pcm: &[i16]) -> (encoded: Option<usize>)
        requires
            old(self).wf(),
        ensures
            final(self).wf(),
            old(self)@.encodable(interleaved_pcm@.len()) ==> encoded == Some(interleaved_pcm.len())
                && final(self)@ == old(self)@.encoded(interleaved_pcm@),
            !old(self)@.encodable(interleaved_pcm@.len()) ==> encoded.is_none() && final(self)@
                == old(self)@,
    {
        if !self.can_encode(interleaved_pcm.len()) {
            return None;
        }
        let num_channels = self.channel_state_list.len();
        let len = interleaved_pcm.len();
        let num_chunks = len / num_channels;
        let ghost total = old(self)@.stream.cursor + 16400 * num_chunks * num_channels;
        proof {
            self.lemma_wf_view();
            assert(num_chunks * num_channels <= len) by (nonlinear_arith)
                requires
                    num_channels > 0,
                    num_chunks == len / num_channels,
            ;
        }
        let mut channel_idx: usize = 0;
        while channel_idx < num_channels
            invariant
                self.frame_header_list.wf(),
                self.stream.wf(),
                self.stream.spec_info() == old(self)@.info,
                self.compression_level == old(self).compression_level,
                self.compression_level <= 10,
                channel_idx <= num_channels == self.channel_state_list@.len(),
                num_channels == old(self)@.channel_count(),
                num_channels == old(self)@.channels.len(),
                num_chunks == interleaved_pcm@.len() / (num_channels as nat),
                len == interleaved_pcm@.len(),
                num_chunks * num_channels <= len,
                old(self)@.encodable(interleaved_pcm@.len()),
                forall|c: int|
                    0 <= c < num_channels ==> (#[trigger] self.channel_state_list@[c]).wf(),
                forall|c: int|
                    channel_idx <= c < num_channels ==> (#[trigger] self.channel_state_list@[c])@
                        == old(self)@.channels[c],
                self@ == old(self)@.encoded_upto(interleaved_pcm@, channel_idx as nat),
                self@.headers.cursor == old(self)@.headers.cursor + channel_idx,
                self@.stream.cursor <= old(self)@.stream.cursor + 16400 * num_chunks * channel_idx,
            decreases num_channels - channel_idx,
        {
            let ghost snapshot = *self;
            self.deinterleaved_channel.clear();
            let mut chunk_idx: usize = 0;
            while chunk_idx < num_chunks
                invariant
                    chunk_idx <= num_chunks,
                    channel_idx < num_channels,
                    len == interleaved_pcm@.len(),
                num_chunks * num_channels <= len,
                    self.deinterleaved_channel@.len() == chunk_idx,
                    forall|i: int|
                        0 <= i < chunk_idx ==> #[trigger] self.deinterleaved_channel@[i]
                            == interleaved_pcm@[i * num_channels + channel_idx],
                    self.frame_header_list == snapshot.frame_header_list,
                    self.stream == snapshot.stream,
                    self.channel_state_list == snapshot.channel_state_list,
                    self.compression_level == snapshot.compression_level,
                decreases num_chunks - chunk_idx,
            {
                proof {
                    lemma_interleaved_index(
                        chunk_idx as int,
                        channel_idx as int,
                        num_chunks as int,
                        num_channels as int,
                        len as int,
                    );
                }
                self.deinterleaved_channel.push(
                    interleaved_pcm[chunk_idx * num_channels + channel_idx],
                );
                chunk_idx += 1;
            }
            let ghost before = self@;
            let ghost share = channel_samples(
                interleaved_pcm@,
                num_channels as nat,
                channel_idx as nat,
            );
            proof {
                assert(self.deinterleaved_channel@ =~= share);
                assert(16400 * num_chunks * channel_idx + 16400 * num_chunks <= 16400 * num_chunks
                    * num_channels) by (nonlinear_arith)
                    requires
                        channel_idx < num_channels,
                        0 <= num_chunks,
                ;
            }
            self.channel_state_list[channel_idx].encode_frame(
                &mut self.stream,
                &mut self.frame_header_list,
                self.deinterleaved_channel.as_slice(),
            );
            proof {
                let outcome = encoded_frame(
                    before.channels[channel_idx as int],
                    before.stream,
                    before.headers,
                    share,
                );
                assert(self@.channels =~= before.channels.update(channel_idx as int, outcome.codec));
                assert(self@ == before.with_frame(channel_idx as int, outcome));
                assert(16400 * num_chunks * channel_idx + 16400 * num_chunks == 16400 * num_chunks
                    * (channel_idx + 1)) by (nonlinear_arith);
            }
            channel_idx += 1;
        }
        Some(interleaved_pcm.len())
    }

    /// Whether the codec can decode.
    pub fn can_decode(&self) -> (ok: bool)
        requires
            self.wf(),
        ensures
            ok == self@.decodable(),
    {
        let channels = self.channel_state_list.len();
        if channels == 0 {
            return false;
        }
        let mut c: usize = 0;
        while c < channels
            invariant
                self.wf(),
                c <= channels == self.channel_state_list@.len(),
                forall|i: int|
                    0 <= i < c ==> (#[trigger] self@.channels[i]).state != CodecState::Encoding,
            decreases channels - c,
        {
            match self.channel_state_list[c].state() {
                CodecState::Encoding => {
                    proof {
                        assert(self@.channels[c as int] == self.channel_state_list@[c as int]@);
                    }
                    return false;
                },
                _ => {},
            }
            c += 1;
        }
        true
    }

    /// Whether no channel has a decoded sample waiting.
    fn is_buffers_empty(&self) -> (empty: bool)
        ensures
            empty == self@.all_empty(),
    {
        let mut c: usize = 0;
        while c < self.channel_state_list.len()
            invariant
                c <= self.channel_state_list@.len(),
                forall|i: int| 0 <= i < c ==> (#[trigger] self@.channels[i]).fifo.len() == 0,
            decreases self.channel_state_list@.len() - c,
        {
            if self.channel_state_list[c].buffered_channel().len() > 0 {
                proof {
                    assert(self@.channels[c as int] == self.channel_state_list@[c as int]@);
                }
                return false;
            }
            c += 1;
        }
        true
    }

    /// Every channel decodes its next frame, channel 0 first.
    fn decode_block(&mut self)
        requires
            old(self).wf(),
            old(self)@.decodable(),
        ensures
            final(self).wf(),
            final(self)@.decodable(),
            final(self)@.info == old(self)@.info,
            final(self)@ == old(self)@.block_decoded(),
    {
        let num_channels = self.channel_state_list.len();
        let mut channel_idx: usize = 0;
        while channel_idx < num_channels
            invariant
                self.wf(),
                self@.decodable(),
                self@.info == old(self)@.info,
                channel_idx <= num_channels == self.channel_state_list@.len(),
                num_channels == old(self)@.channels.len(),
                self@ == old(self)@.block_decoded_upto(channel_idx as nat),
            decreases num_channels - channel_idx,
        {
            let ghost before = self@;
            proof {
                assert(before.channels[channel_idx as int].state != CodecState::Encoding);
            }
            self.channel_state_list[channel_idx].decode_frame(
                &mut self.stream,
                &mut self.frame_header_list,
            );
            proof {
                let outcome = next_frame_decoded(
                    before.channels[channel_idx as int],
                    before.stream,
                    before.headers,
                );
                assert(self@.channels =~= before.channels.update(channel_idx as int, outcome.codec));
                assert(self@ == before.with_frame(channel_idx as int, outcome));
                assert forall|c: int| 0 <= c < self@.channels.len() implies (
                #[trigger] self@.channels[c]).state != CodecState::Encoding by {
                    if c != channel_idx {
                        assert(self@.channels[c] == before.channels[c]);
                    }
                }
            }
            channel_idx += 1;
        }
    }

    /// Fills the queues: while every queue is empty, every channel decodes
    /// its next frame, at most `MAX_DECODE_ATTEMPTS` times. Returns whether a
    /// sample is waiting afterwards.
    fn buffer_audio(&mut self) -> (filled: bool)
        requires
            old(self).wf(),
            old(self)@.decodable(),
        ensures
            final(self).wf(),
            final(self)@.decodable(),
            final(self)@.info == old(self)@.info,
            final(self)@ == old(self)@.refilled(MAX_DECODE_ATTEMPTS as nat),
            filled == !final(self)@.all_empty(),
    {
        let mut attempts: usize = 0;
        let mut empty = self.is_buffers_empty();
        while attempts < MAX_DECODE_ATTEMPTS && empty
            invariant
                self.wf(),
                self@.decodable(),
                attempts <= MAX_DECODE_ATTEMPTS,
                self@.info == old(self)@.info,
                empty == self@.all_empty(),
                self@.refilled((MAX_DECODE_ATTEMPTS - attempts) as nat) == old(self)@.refilled(
                    MAX_DECODE_ATTEMPTS as nat,
                ),
            decreases MAX_DECODE_ATTEMPTS - attempts,
        {
            self.decode_block();
            attempts += 1;
            empty = self.is_buffers_empty();
        }
        !empty
    }

    /// Decodes into `pcm_out`, for a codec that can decode: round by round,
    /// one sample of each channel, channel 0 first, for as many whole rounds
    /// as `pcm_out` has room for, or until the stream has ended. The queues
    /// are filled from the stream where all are empty. Returns the number of
    /// samples written; the rest of `pcm_out` stays as it was. A codec that
    /// cannot decode writes nothing and returns 0.
    pub fn decode(&mut self, pcm_out: &mut [i16]) -> (written: usize)
        requires
            old(self).wf(),
        ensures
            final(self).wf(),
            final(pcm_out)@.len() == old(pcm_out)@.len(),
            !old(self)@.decodable() ==> written == 0 && final(self)@ == old(self)@
                && final(pcm_out)@ == old(pcm_out)@,
            old(self)@.decodable() ==> {
                let end = old(self)@.decoded(old(pcm_out)@.len());
                &&& final(self)@ == end.codec
                &&& written == end.samples.len()
                &&& written <= old(pcm_out)@.len()
                &&& final(pcm_out)@ == end.samples + old(pcm_out)@.subrange(
                    written as int,
                    old(pcm_out)@.len() as int,
                )
            },
    {
        if !self.can_decode() {
            return 0;
        }
        let num_channels = self.channel_state_list.len();
        let len = pcm_out.len();
        let rounds = len / num_channels;
        let ghost start = DecodeProgress { codec: self@, samples: Seq::empty(), ended: false };
        proof {
            assert(rounds * num_channels <= len) by (nonlinear_arith)
                requires
                    num_channels > 0,
                    rounds == len / num_channels,
            ;
            assert(pcm_out@ =~= start.samples + pcm_out@.subrange(0, len as int));
        }
        let mut pcm_out_cursor: usize = 0;
        let mut round: usize = 0;
        while round < rounds
            invariant_except_break
                !start.rounds(round as nat).ended,
                pcm_out_cursor == round * num_channels,
            invariant
                self.wf(),
                self@.decodable(),
                round <= rounds,
                rounds * num_channels <= len,
                len == pcm_out@.len(),
                len == old(pcm_out)@.len(),
                num_channels == self@.channel_count(),
                num_channels > 0,
                pcm_out_cursor <= rounds * num_channels,
                start.rounds(round as nat).codec == self@,
                start.rounds(round as nat).samples.len() == pcm_out_cursor,
                pcm_out@ == start.rounds(round as nat).samples + old(pcm_out)@.subrange(
                    pcm_out_cursor as int,
                    len as int,
                ),
            ensures
                start.rounds(rounds as nat) == start.rounds(round as nat),
            decreases rounds - round,
        {
            let ghost progress = start.rounds(round as nat);
            if !self.buffer_audio() {
                proof {
                    assert(progress.round().ended);
                    lemma_rounds_ended(start, (round + 1) as nat, rounds as nat);
                }
                round += 1;
                break ;
            }
            let ghost filled = self@;
            proof {
                assert(round * num_channels + num_channels <= rounds * num_channels)
                    by (nonlinear_arith)
                    requires
                        round < rounds,
                        num_channels > 0,
                ;
            }
            let ghost base = pcm_out_cursor;
            let mut channel_idx: usize = 0;
            while channel_idx < num_channels
                invariant
                    channel_idx <= num_channels == self.channel_state_list@.len(),
                    num_channels == filled.channels.len(),
                    base + num_channels <= len,
                    len == pcm_out@.len(),
                    len == old(pcm_out)@.len(),
                    pcm_out_cursor == base + channel_idx,
                    self.frame_header_list.wf(),
                    self.stream.wf(),
                    self.compression_level <= 10,
                    self@.info == filled.info,
                    self@.level == filled.level,
                    self@.headers == filled.headers,
                    self@.stream == filled.stream,
                    self@.channels.len() == filled.channels.len(),
                    forall|c: int|
                        0 <= c < num_channels ==> (#[trigger] self.channel_state_list@[c]).wf(),
                    forall|c: int|
                        0 <= c < channel_idx ==> #[trigger] self@.channels[c]
                            == filled.round_drained().channels[c],
                    forall|c: int|
                        channel_idx <= c < num_channels ==> #[trigger] self@.channels[c]
                            == filled.channels[c],
                    pcm_out@ == progress.samples + filled.round_samples().subrange(
                        0,
                        channel_idx as int,
                    ) + old(pcm_out)@.subrange(pcm_out_cursor as int, len as int),
                decreases num_channels - channel_idx,
            {
                let ghost before = self@;
                proof {
                    assert(before.channels[channel_idx as int] == filled.channels[channel_idx as int]);
                    assert(before.channels[channel_idx as int]
                        == self.channel_state_list@[channel_idx as int]@);
                }
                let fifo = self.channel_state_list[channel_idx].buffered_channel_mut();
                let decoded_sample = match fifo.pop_front() {
                    Some(sample) => sample,
                    None => 0,
                };
                pcm_out[pcm_out_cursor] = decoded_sample;
                proof {
                    assert(self@.channels[channel_idx as int] == filled.round_drained().channels[channel_idx as int])
                        by {
                        let queue = filled.channels[channel_idx as int].fifo;
                        if queue.len() > 0 {
                            assert(queue.subrange(1, queue.len() as int) =~= queue.drop_first());
                        }
                    }
                    assert forall|c: int|
                        0 <= c < num_channels && c != channel_idx implies #[trigger] self@.channels[c]
                        == before.channels[c] by {}
                    let taken = filled.round_samples();
                    assert(taken[channel_idx as int] == decoded_sample);
                    assert(pcm_out@ =~= progress.samples + taken.subrange(0, channel_idx + 1)
                        + old(pcm_out)@.subrange(pcm_out_cursor + 1, len as int));
                }
                pcm_out_cursor += 1;
                channel_idx += 1;
            }
            proof {
                let taken = filled.round_samples();
                assert(taken.subrange(0, num_channels as int) =~= taken);
                assert(self@.channels =~= filled.round_drained().channels);
                assert(self@ == filled.round_drained());
                assert(progress.round() == (DecodeProgress {
                    codec: filled.round_drained(),
                    samples: progress.samples + taken,
                    ended: false,
                }));
                assert(base + num_channels == (round + 1) * num_channels) by (nonlinear_arith)
                    requires
                        base == round * num_channels,
                ;
            }
            round += 1;
        }
        pcm_out_cursor
    }

    /// Takes the next sample of each channel, `rounds` times.
    fn drain(&mut self, rounds: usize)
        requires
            old(self).wf(),
        ensures
            final(self).wf(),
            final(self)@ == old(self)@.drained(rounds as nat),
            final(self)@.info == old(self)@.info,
    {
        let num_channels = self.channel_state_list.len();
        let mut round: usize = 0;
        while round < rounds
            invariant
                self.wf(),
                round <= rounds,
                num_channels == self.channel_state_list@.len(),
                self@.info == old(self)@.info,
                self@ == old(self)@.drained(round as nat),
            decreases rounds - round,
        {
            let ghost filled = self@;
            let mut channel_idx: usize = 0;
            while channel_idx < num_channels
                invariant
                    channel_idx <= num_channels == self.channel_state_list@.len(),
                    num_channels == filled.channels.len(),
                    self.frame_header_list.wf(),
                    self.stream.wf(),
                    self.compression_level <= 10,
                    self@.info == filled.info,
                    self@.level == filled.level,
                    self@.headers == filled.headers,
                    self@.stream == filled.stream,
                    self.channel_state_list@.len() == self@.channel_count(),
                    forall|c: int|
                        0 <= c < num_channels ==> (#[trigger] self.channel_state_list@[c]).wf(),
                    forall|c: int|
                        0 <= c < channel_idx ==> #[trigger] self@.channels[c]
                            == filled.round_drained().channels[c],
                    forall|c: int|
                        channel_idx <= c < num_channels ==> #[trigger] self@.channels[c]
                            == filled.channels[c],
                decreases num_channels - channel_idx,
            {
                let ghost before = self@;
                proof {
                    assert(before.channels[channel_idx as int] == filled.channels[channel_idx as int]);
                    assert(before.channels[channel_idx as int]
                        == self.channel_state_list@[channel_idx as int]@);
                }
                let fifo = self.channel_state_list[channel_idx].buffered_channel_mut();
                let _ = fifo.pop_front();
                proof {
                    assert(self@.channels[channel_idx as int] == filled.round_drained().channels[channel_idx as int])
                        by {
                        let queue = filled.channels[channel_idx as int].fifo;
                        if queue.len() > 0 {
                            assert(queue.subrange(1, queue.len() as int) =~= queue.drop_first());
                        }
                    }
                    assert forall|c: int|
                        0 <= c < num_channels && c != channel_idx implies #[trigger] self@.channels[c]
                        == before.channels[c] by {}
                }
                channel_idx += 1;
            }
            proof {
                assert(self@.channels =~= filled.round_drained().channels);
            }
            round += 1;
        }
    }

    /// Seeks to a time given in milliseconds from the start of the signal,
    /// so that `decode` goes on from the first sample at or after that
    /// time. Only `SeekFrom::Start` is supported. Meant for a codec that has
    /// finished encoding, or was loaded.
    pub fn seek(&mut self, dt: SeekFrom)
        requires
            old(self).wf(),
            start_time(dt).is_some(),
        ensures
            final(self).wf(),
            final(self)@ == old(self)@.sought(start_time(dt).unwrap() as nat),
    {
        let dt_ms: u64 = match dt {
            SeekFrom::Start(t) => t,
            _ => 0,
        };
        self.init();
        let info = match self.stream.info() {
            None => {
                return ;
            },
            Some(info) => info,
        };
        let channels = info.channels();
        if channels == 0 {
            return ;
        }
        let ghost rewound = self@;
        proof {
            self.lemma_wf_view();
        }
        let frequency = info.frequency();
        assert(dt_ms * frequency <= 0xffff_ffff_ffff_ffff * 0xffff_ffff) by (nonlinear_arith)
            requires
                0 <= dt_ms <= 0xffff_ffff_ffff_ffff,
                0 <= frequency <= 0xffff_ffff,
        ;
        let per_channel: u128 = (dt_ms as u128) * (frequency as u128) / 1000;
        assert(per_channel * channels <= 0xffff_ffff_ffff_ffff_ffff_ffff * 0xffff_ffff)
            by (nonlinear_arith)
            requires
                0 <= per_channel <= 0xffff_ffff_ffff_ffff_ffff_ffff,
                0 <= channels <= 0xffff_ffff,
        ;
        let target: u128 = per_channel * (channels as u128);
        let total = self.frame_header_list.len();
        let header_block_len = total / channels;
        proof {
            assert(header_block_len * channels <= total) by (nonlinear_arith)
                requires
                    channels > 0,
                    header_block_len == total / channels,
            ;
        }
        let mut samples_skipped: u128 = 0;
        let mut header_block_index: usize = 0;
        while header_block_index < header_block_len && samples_skipped < target
            invariant
                self.wf(),
                self@ == rewound,
                channels == rewound.channel_count(),
                channels > 0,
                header_block_len == rewound.block_count(),
                total == rewound.headers.headers.len(),
                header_block_len * channels <= total,
                header_block_index <= header_block_len,
                samples_skipped <= header_block_index * 65535 * channels,
                rewound.landing(target as nat, header_block_index as nat, samples_skipped as nat)
                    == rewound.landing(target as nat, 0, 0),
            ensures
                (header_block_index as nat, samples_skipped as nat) == rewound.landing(
                    target as nat,
                    0,
                    0,
                ),
                header_block_index < header_block_len ==> samples_skipped >= target || target
                    - samples_skipped <= 65535 * channels,
            decreases header_block_len - header_block_index,
        {
            proof {
                lemma_interleaved_index(
                    header_block_index as int,
                    0,
                    header_block_len as int,
                    channels as int,
                    total as int,
                );
                assert(header_block_index * 65535 * channels + 65535 * channels <= header_block_len
                    * 65535 * channels) by (nonlinear_arith)
                    requires
                        header_block_index < header_block_len,
                        channels > 0,
                ;
                assert(header_block_len * 65535 * channels <= 0xffff_ffff_ffff_ffff * 65535
                    * 0xffff_ffff) by (nonlinear_arith)
                    requires
                        0 <= header_block_len <= 0xffff_ffff_ffff_ffff,
                        0 <= channels <= 0xffff_ffff,
                ;
            }
            let header = match self.frame_header_list.get(header_block_index * channels) {
                None => {
                    break ;
                },
                Some(header) => header,
            };
            assert(header.size * channels <= 65535 * channels) by (nonlinear_arith)
                requires
                    header.size <= 65535,
                    channels > 0,
            ;
            let header_size: u128 = (header.size as u128) * (channels as u128);
            if samples_skipped + header_size >= target {
                break ;
            }
            samples_skipped += header_size;
            header_block_index += 1;
            proof {
                assert(header_block_index * 65535 * channels == (header_block_index - 1) * 65535
                    * channels + 65535 * channels) by (nonlinear_arith);
            }
        }
        let landed = if header_block_index < header_block_len {
            proof {
                lemma_interleaved_index(
                    header_block_index as int,
                    0,
                    header_block_len as int,
                    channels as int,
                    total as int,
                );
            }
            match self.frame_header_list.get(header_block_index * channels) {
                Some(header) => if header.bit_cursor <= usize::MAX as u64 {
                    Some(header)
                } else {
                    None
                },
                None => None,
            }
        } else {
            None
        };
        let start_header = match landed {
            None => {
                let end = self.frame_header_list.len();
                self.frame_header_list.set_cursor(end as u32);
                return ;
            },
            Some(header) => header,
        };
        let start_header_index = header_block_index * channels;
        self.stream.bits_mut().set_bit_cursor(start_header.bit_cursor as u128);
        self.frame_header_list.set_cursor(start_header_index as u32);
        let ghost placed = self@;
        let mut offset: usize = 0;
        while offset < channels
            invariant
                self.wf(),
                offset <= channels,
                channels == placed.channel_count(),
                channels == self.channel_state_list@.len(),
                self@.info == placed.info,
                start_header_index == header_block_index * channels,
                header_block_index < header_block_len,
                total == placed.headers.headers.len(),
                header_block_len * channels <= total,
                self@.headers.headers == placed.headers.headers,
                self@ == placed.restored_upto(start_header_index as nat, offset as nat),
            decreases channels - offset,
        {
            proof {
                lemma_interleaved_index(
                    header_block_index as int,
                    offset as int,
                    header_block_len as int,
                    channels as int,
                    total as int,
                );
                self.lemma_wf_view();
            }
            let ghost before = self@;
            let header = match self.frame_header_list.get(start_header_index + offset) {
                None => {
                    assert(false);
                    return ;
                },
                Some(header) => header,
            };
            let codec = &mut self.channel_state_list[offset];
            let ghost codec_before = codec@;
            proof {
                codec.lemma_history();
            }
            let history = codec.sample_history_mut();
            history.push(header.stack_history[0]);
            history.push(header.stack_history[1]);
            history.push(header.stack_history[2]);
            proof {
                codec.lemma_history();
            }
            codec.buffered_channel_mut().clear();
            *codec.state_mut() = if header.is_init {
                CodecState::Init
            } else {
                CodecState::Decoding
            };
            proof {
                assert(codec@ == codec_before.restored(header));
            }
            codec.decode_frame(&mut self.stream, &mut self.frame_header_list);
            proof {
                let outcome = next_frame_decoded(
                    before.channels[offset as int].restored(header),
                    before.stream,
                    before.headers,
                );
                assert(self@.channels =~= before.channels.update(offset as int, outcome.codec));
                assert(self@ == before.with_frame(offset as int, outcome));
            }
            offset += 1;
        }
        let rounds: usize = if target > samples_skipped {
            proof {
                assert((target - samples_skipped) / (channels as int) <= 65535)
                    by (nonlinear_arith)
                    requires
                        channels > 0,
                        0 <= target - samples_skipped <= 65535 * channels,
                ;
            }
            ((target - samples_skipped) / (channels as u128)) as usize
        } else {
            0
        };
        self.drain(rounds);
    }

    /// A tight upper bound of the bits that the codec takes when stored, or
    /// `u64::MAX` where the bound is larger.
    pub fn filesize_upperbound(&self) -> (bits: u64)
        requires
            self.wf(),
        ensures
            bits == if self@.filesize_upperbound() > u64::MAX {
                u64::MAX as nat
            } else {
                self@.filesize_upperbound()
            },
    {
        proof {
            self.lemma_wf_view();
        }
        let headers = self.frame_header_list.len() as u128;
        let flags = BitVec::compute_bits_required(headers as u64) as u128;
        let total: u128 = self.stream.bits().capacity() as u128 + 2 * 128 + 64 + 32 + 4 * headers
            + flags + 16 * headers + 64 * headers + 48 * headers;
        if total > u64::MAX as u128 {
            u64::MAX
        } else {
            total as u64
        }
    }

    /// The directory of frame headers, to store it.
    pub fn frame_headers(&self) -> (headers: &FrameHeaders)
        requires
            self.wf(),
        ensures
            headers.wf(),
            headers@ == self@.headers,
    {
        &self.frame_header_list
    }

    /// The stream, to store it.
    pub fn stream(&self) -> (stream: &AudioStream)
        requires
            self.wf(),
        ensures
            stream.wf(),
            stream@ == self@.stream,
            stream.spec_info() == self@.info,
    {
        &self.stream
    }

    /// Builds a codec from what was stored of one: its level, its directory
    /// and its stream. The codec is rewound, with a fresh codec for each
    /// channel of the signal. Returns `None` where the stream has no
    /// description of the signal, or the level is above 10.
    pub fn from_parts(
        compression_level: u32,
        frame_header_list: FrameHeaders,
        stream: AudioStream,
    ) -> (codec: Option<Self>)
        requires
            frame_header_list.wf(),
            stream.wf(),
        ensures
            match codec {
                None => stream.spec_info().is_none() || compression_level > 10,
                Some(codec) => {
                    &&& compression_level <= 10
                    &&& stream.spec_info() is Some
                    &&& codec.wf()
                    &&& codec@ == (AdhocCodecView {
                        level: compression_level as nat,
                        info: stream.spec_info(),
                        headers: frame_header_list@.at(0),
                        stream: stream@.seek(0),
                        channels: Seq::new(
                            stream.spec_info().unwrap().spec_channels(),
                            |c: int| FrameCodecView::fresh(),
                        ),
                    })
                },
            },
    {
        let info = match stream.info() {
            None => {
                return None;
            },
            Some(info) => info,
        };
        if compression_level > 10 {
            return None;
        }
        let channels = info.channels();
        let mut channel_state_list: Vec<FrameCodec> = Vec::new();
        while channel_state_list.len() < channels
            invariant
                channel_state_list@.len() <= channels,
                forall|c: int|
                    0 <= c < channel_state_list@.len() ==> (#[trigger] channel_state_list@[c]).wf()
                        && channel_state_list@[c]@ == FrameCodecView::fresh(),
            decreases channels - channel_state_list@.len(),
        {
            channel_state_list.push(FrameCodec::new());
        }
        let mut codec = Self {
            compression_level,
            channel_state_list,
            stream,
            frame_header_list,
            deinterleaved_channel: Vec::new(),
        };
        codec.init();
        proof {
            assert(codec@.channels =~= Seq::new(
                info.spec_channels(),
                |c: int| FrameCodecView::fresh(),
            ));
        }
        Some(codec)
    }
}

} // verus!
