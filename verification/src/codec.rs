//! The codecs and the description of a signal.

use vstd::prelude::*;

pub mod adhoc;
pub mod wav;

pub use adhoc::audio_stream::AudioStream;
pub use adhoc::frame::{FrameCodec, FrameCodecView};
pub use adhoc::frame_headers::{FrameHeader, FrameHeaders, FrameHeadersView};
pub use adhoc::{AdhocCodec, AdhocCodecView, CodecState, MAX_DECODE_ATTEMPTS};
pub use std::io::SeekFrom;
pub use wav::WavCodec;

verus! {

/// `std::io::SeekFrom`, declared so that verified code can take one and
/// tell its variants apart. Nothing is claimed of it beyond its three
/// variants and their fields.
#[verifier::external_type_specification]
pub struct ExSeekFrom(std::io::SeekFrom);

/// The time of a seek from the start of the signal, in milliseconds;
/// `None` for a seek from elsewhere.
pub open spec fn start_time(dt: std::io::SeekFrom) -> Option<u64> {
    match dt {
        std::io::SeekFrom::Start(t) => Some(t),
        _ => None,
    }
}

/// Basic facts about an audio signal: its sample rate in Hz and its number of
/// interleaved channels.
#[derive(Copy, Clone, Debug, PartialEq, Eq, Structural)]
pub struct StreamInfo {
    sample_rate: u32,
    channels: u32,
}

impl StreamInfo {
    /// The sample rate in Hz, as a mathematical integer.
    pub closed spec fn spec_frequency(&self) -> nat {
        self.sample_rate as nat
    }

    /// The number of channels, as a mathematical integer.
    pub closed spec fn spec_channels(&self) -> nat {
        self.channels as nat
    }

    pub fn new(sample_rate: u32, channels: u32) -> (info: Self)
        ensures
            info.spec_frequency() == sample_rate,
            info.spec_channels() == channels,
    {
        Self { sample_rate, channels }
    }

    pub fn channels(&self) -> (n: usize)
        ensures
            n == self.spec_channels(),
    {
        self.channels as usize
    }

    pub fn frequency(&self) -> (n: usize)
        ensures
            n == self.spec_frequency(),
    {
        self.sample_rate as usize
    }
}

} // verus!
