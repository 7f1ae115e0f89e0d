//! An adaptive lossy audio codec: a bit-level stream with Rice coding, a
//! predictive per-channel frame codec, a frame-header directory and a
//! multi-channel orchestrator, all working on quantized 16-bit samples.
//!
//! Samples are whole numbers, `-32767..=32767` standing for `-1.0..=1.0`.
//! A caller that holds samples as fractions scales and rounds them before
//! `encode` and divides them after `decode`.

pub mod codec;
pub mod collections;
pub mod math;

pub use codec::adhoc::AdhocCodec;
pub use codec::wav::WavCodec;
pub use codec::StreamInfo;
pub use std::io::SeekFrom;
