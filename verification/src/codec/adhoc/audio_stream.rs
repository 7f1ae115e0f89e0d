//! The bit stream of a codec with the description of its signal.

use crate::codec::StreamInfo;
use crate::collections::bitstream::{BitStream, BitStreamView};
use vstd::prelude::*;

verus! {

/// A bit stream together with the description of the signal it holds.
pub struct AudioStream {
    info: Option<StreamInfo>,
    stream: BitStream,
}

impl View for AudioStream {
    type V = BitStreamView;

    open spec fn view(&self) -> BitStreamView {
        self.spec_bits()@
    }
}

impl AudioStream {
    /// The bit stream is valid.
    pub open spec fn wf(&self) -> bool {
        self.spec_bits().wf()
    }

    /// The description of the signal, once it is set.
    pub closed spec fn spec_info(&self) -> Option<StreamInfo> {
        self.info
    }

    /// The bit stream.
    pub closed spec fn spec_bits(&self) -> BitStream {
        self.stream
    }

    pub fn new() -> (stream: Self)
        ensures
            stream.wf(),
            stream.spec_info().is_none(),
            stream@.bits.len() == 0,
            stream@.cursor == 0,
    {
        Self { info: None, stream: BitStream::new() }
    }

    /// A stream with the description `info` and the bits `stream`.
    pub fn from_parts(info: Option<StreamInfo>, stream: BitStream) -> (audio: Self)
        ensures
            audio.spec_info() == info,
            audio.spec_bits() == stream,
    {
        Self { info, stream }
    }

    /// Sets the description of the signal. A description that is set stays
    /// set: `None` changes nothing.
    pub fn set_info(&mut self, info: Option<StreamInfo>)
        ensures
            final(self).spec_bits() == old(self).spec_bits(),
            final(self).spec_info() == if info.is_some() {
                info
            } else {
                old(self).spec_info()
            },
    {
        if info.is_some() {
            self.info = info;
        }
    }

    pub fn info(&self) -> (info: Option<StreamInfo>)
        ensures
            info == self.spec_info(),
    {
        self.info
    }

    /// The bit stream, to read its state.
    pub fn bits(&self) -> (bits: &BitStream)
        ensures
            *bits == self.spec_bits(),
    {
        &self.stream
    }

    /// The bit stream, to read from it and write to it.
    pub fn bits_mut(&mut self) -> (bits: &mut BitStream)
        ensures
            *bits == old(self).spec_bits(),
            final(self).spec_bits() == *final(bits),
            final(self).spec_info() == old(self).spec_info(),
    {
        &mut self.stream
    }
}

} // verus!
