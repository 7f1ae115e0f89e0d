//! Signals of 16-bit linear PCM as WAVE files hold them.

use crate::codec::StreamInfo;
use std::io::SeekFrom;
use vstd::prelude::*;

verus! {

/// The error of `load` for input shorter than the 256 bytes in which the
/// header is looked for.
pub const ERR_HEADER: &'static str = "failed to read header bytes";

/// The error of `load` for a header without a data chunk.
pub const ERR_DATA: &'static str = "data region not found";

/// The error of `load` for samples of another size than 8 or 16 bits.
pub const ERR_BITS: &'static str =
    "invalid bits per sample, either 16 or 8 bits per sample is supported ";

/// The error of `load` for a format other than linear PCM.
pub const ERR_FORMAT: &'static str = "formats other than PCM liner isn't supported";

/// The error of `save_to` for a signal whose description or length does not
/// fit the fields of a header.
pub const ERR_SAVE: &'static str = "failed to write header";

/// The number of bytes of a header.
pub const HEADER_LEN: usize = 44;

/// The number of bytes at the start of the input in which `load` looks for
/// the header and the start of the data.
pub const HEADER_WINDOW: usize = 256;

/// The two bytes of `value`, the low byte first.
pub open spec fn le_u16(value: nat) -> Seq<u8> {
    seq![(value % 256) as u8, ((value / 256) % 256) as u8]
}

/// The four bytes of `value`, the lowest byte first.
pub open spec fn le_u32(value: nat) -> Seq<u8> {
    seq![
        (value % 256) as u8,
        ((value / 256) % 256) as u8,
        ((value / 65536) % 256) as u8,
        ((value / 16777216) % 256) as u8,
    ]
}

/// The number that the two bytes at `at` spell, the low byte first.
pub open spec fn u16_at(bytes: Seq<u8>, at: int) -> nat {
    (bytes[at] + 256 * bytes[at + 1]) as nat
}

/// The number that the four bytes at `at` spell, the lowest byte first.
pub open spec fn u32_at(bytes: Seq<u8>, at: int) -> nat {
    (bytes[at] + 256 * bytes[at + 1] + 65536 * bytes[at + 2] + 16777216 * bytes[at + 3]) as nat
}

/// The sample that the two bytes at `at` spell, the low byte first, with a
/// sign.
pub open spec fn sample_at(bytes: Seq<u8>, at: int) -> i16 {
    let raw = u16_at(bytes, at);
    if raw >= 32768 {
        (raw - 65536) as i16
    } else {
        raw as i16
    }
}

/// The two bytes of `sample`, the low byte first, two's complement.
pub open spec fn sample_bytes(sample: i16) -> Seq<u8> {
    le_u16(
        if sample < 0 {
            (sample + 65536) as nat
        } else {
            sample as nat
        },
    )
}

/// Whether a signal of `channels` channels at `sample_rate` Hz with
/// `data_len` bytes of samples fits the fields of a header.
pub open spec fn fits_header(sample_rate: nat, channels: nat, data_len: nat) -> bool {
    &&& data_len + 36 <= u32::MAX
    &&& channels * 2 <= i16::MAX
    &&& sample_rate * channels * 2 <= i32::MAX
}

/// The header of a file of 16-bit linear PCM.
pub open spec fn wave_header(sample_rate: nat, channels: nat, data_len: nat) -> Seq<u8> {
    seq![82u8, 73u8, 70u8, 70u8] + le_u32(data_len + 36) + seq![87u8, 65u8, 86u8, 69u8] + seq![
        102u8,
        109u8,
        116u8,
        32u8,
    ] + le_u32(16) + le_u16(1) + le_u16(channels) + le_u32(sample_rate) + le_u32(
        sample_rate * channels * 2,
    ) + le_u16(channels * 2) + le_u16(16) + seq![100u8, 97u8, 116u8, 97u8] + le_u32(data_len)
}

/// Whether the four bytes at `at` spell `data`.
pub open spec fn is_data_tag(bytes: Seq<u8>, at: int) -> bool {
    bytes[at] == 100 && bytes[at + 1] == 97 && bytes[at + 2] == 116 && bytes[at + 3] == 97
}

/// Whether `at` is where the first `data` lies within the header window.
pub open spec fn is_data_start(bytes: Seq<u8>, at: int) -> bool {
    &&& 0 <= at <= HEADER_WINDOW - 4
    &&& is_data_tag(bytes, at)
    &&& forall|j: int| 0 <= j < at ==> !is_data_tag(bytes, j)
}

/// The 16-bit sample that stands for the 8-bit sample `sample`: the sample
/// stretched from `0..=255` to `-32766..=32766`, rounded towards zero.
pub open spec fn widened_sample(sample: u8) -> int {
    let scaled = (2 * sample - 255) * 32766;
    if scaled < 0 {
        -((-scaled) / 255)
    } else {
        scaled / 255
    }
}

/// The samples `data` of 8 bits each as samples of 16 bits each.
pub open spec fn widened(data: Seq<u8>) -> Seq<u8>
    decreases data.len(),
{
    if data.len() == 0 {
        Seq::empty()
    } else {
        widened(data.drop_last()) + sample_bytes(widened_sample(data.last()) as i16)
    }
}

/// A number read as a 16-bit field with a sign and widened to 32 bits.
pub open spec fn sign_extended(raw: nat) -> nat {
    if raw >= 32768 {
        (raw + 0xffff_0000) as nat
    } else {
        raw
    }
}

/// What a [`WavCodec`] holds: the bytes of its samples, two for each sample
/// with the low byte first, and the place of its cursor, counted in samples.
pub struct WavView {
    pub bytes: Seq<u8>,
    pub cursor: nat,
}

impl WavView {
    /// The number of whole samples.
    pub open spec fn num_samples(self) -> nat {
        self.bytes.len() / 2
    }

    /// The sample at place `i`.
    pub open spec fn sample(self, i: int) -> i16 {
        sample_at(self.bytes, 2 * i)
    }

    /// The samples after `sample` was written at the cursor: over the sample
    /// there where the cursor is before the end, else appended. The cursor
    /// moves one on.
    pub open spec fn write(self, sample: i16) -> WavView {
        let low = sample_bytes(sample)[0];
        let high = sample_bytes(sample)[1];
        WavView {
            bytes: if self.cursor < self.num_samples() {
                self.bytes.update(2 * self.cursor as int, low).update(2 * self.cursor as int + 1, high)
            } else {
                self.bytes.push(low).push(high)
            },
            cursor: self.cursor + 1,
        }
    }

    /// The samples after each sample of `samples` was written in turn.
    pub open spec fn write_all(self, samples: Seq<i16>) -> WavView
        decreases samples.len(),
    {
        if samples.len() == 0 {
            self
        } else {
            self.write_all(samples.drop_last()).write(samples.last())
        }
    }

    /// The number of samples that lie in `dt` milliseconds at `sample_rate`
    /// Hz, rounded towards zero.
    pub open spec fn offset_of(sample_rate: nat, dt: int) -> int {
        if dt < 0 {
            -((-dt * sample_rate) / 1000)
        } else {
            (dt * sample_rate) / 1000
        }
    }

    /// The place that a seek leaves the cursor at: the offset of the time,
    /// in samples of all channels, from the start of the samples, or for
    /// `Current` from the first sample of the round that the cursor is in;
    /// kept within the samples.
    pub open spec fn sought(self, sample_rate: nat, channels: nat, dt: SeekFrom) -> nat {
        let base = match dt {
            SeekFrom::Current(_) => if channels == 0 {
                0
            } else {
                (self.cursor / channels) * channels
            },
            _ => 0,
        };
        let time: int = match dt {
            SeekFrom::Start(t) => t as int,
            SeekFrom::Current(t) => t as int,
            SeekFrom::End(t) => t as int,
        };
        let place = base + Self::offset_of(sample_rate, time) * channels;
        if self.num_samples() == 0 || place < 0 {
            0
        } else if place > self.num_samples() - 1 {
            (self.num_samples() - 1) as nat
        } else {
            place as nat
        }
    }
}

/// A signal of 16-bit linear PCM samples, as a WAVE file holds it.
pub struct WavCodec {
    info: StreamInfo,
    pcm: Vec<u8>,
    short_cursor: u64,
}

impl View for WavCodec {
    type V = WavView;

    closed spec fn view(&self) -> WavView {
        WavView { bytes: self.pcm@, cursor: self.short_cursor as nat }
    }
}

/// Appends the two bytes of `value` to `dst`, the low byte first.
fn push_u16(dst: &mut Vec<u8>, value: u16)
    ensures
        final(dst)@ == old(dst)@ + le_u16(value as nat),
{
    dst.push((value % 256) as u8);
    dst.push((value / 256) as u8);
    proof {
        assert(final(dst)@ =~= old(dst)@ + le_u16(value as nat));
    }
}

/// Appends the four bytes of `value` to `dst`, the lowest byte first.
fn push_u32(dst: &mut Vec<u8>, value: u32)
    ensures
        final(dst)@ == old(dst)@ + le_u32(value as nat),
{
    dst.push((value % 256) as u8);
    dst.push(((value / 256) % 256) as u8);
    dst.push(((value / 65536) % 256) as u8);
    dst.push((value / 16777216) as u8);
    proof {
        assert(final(dst)@ =~= old(dst)@ + le_u32(value as nat));
    }
}

/// Appends the four bytes `tag` to `dst`.
fn push_tag(dst: &mut Vec<u8>, tag: [u8; 4])
    ensures
        final(dst)@ == old(dst)@ + seq![tag[0], tag[1], tag[2], tag[3]],
{
    dst.push(tag[0]);
    dst.push(tag[1]);
    dst.push(tag[2]);
    dst.push(tag[3]);
    proof {
        assert(final(dst)@ =~= old(dst)@ + seq![tag[0], tag[1], tag[2], tag[3]]);
    }
}

impl WavCodec {
    /// The cursor is not behind the last whole sample.
    pub closed spec fn wf(&self) -> bool {
        self.short_cursor <= self.pcm@.len() / 2
    }

    /// The description of the signal.
    pub closed spec fn spec_info(&self) -> StreamInfo {
        self.info
    }

    /// An empty signal with the description `info`.
    pub fn new(info: StreamInfo) -> (codec: Self)
        ensures
            codec.wf(),
            codec.spec_info() == info,
            codec@ == (WavView { bytes: Seq::empty(), cursor: 0 }),
    {
        Self { info, pcm: Vec::new(), short_cursor: 0 }
    }

    pub fn info(&self) -> (info: StreamInfo)
        ensures
            info == self.spec_info(),
    {
        self.info
    }

    /// Appends the file to `dst`: the header and the samples. Fails, with
    /// `dst` as it was, where the signal does not fit the header's fields.
    #[verifier::rlimit(40)]
    pub fn save_to(&self, dst: &mut Vec<u8>) -> (result: Result<(), &'static str>)
        ensures
            fits_header(
                self.spec_info().spec_frequency(),
                self.spec_info().spec_channels(),
                self@.bytes.len(),
            ) ==> result.is_ok() && final(dst)@ == old(dst)@ + wave_header(
                self.spec_info().spec_frequency(),
                self.spec_info().spec_channels(),
                self@.bytes.len(),
            ) + self@.bytes,
            !fits_header(
                self.spec_info().spec_frequency(),
                self.spec_info().spec_channels(),
                self@.bytes.len(),
            ) ==> result == Err::<(), &'static str>(ERR_SAVE) && final(dst)@ == old(dst)@,
    {
        let rate = self.info.frequency() as u64;
        let channels = self.info.channels() as u64;
        let data_len = self.pcm.len();
        if data_len > 0xffff_ffff - 36 || channels * 2 > 32767 {
            return Err(ERR_SAVE);
        }
        assert(rate * channels <= 0xffff_ffff * 16383) by (nonlinear_arith)
            requires
                0 <= rate <= 0xffff_ffff,
                0 <= channels <= 16383,
        ;
        if rate * channels * 2 > 0x7fff_ffff {
            return Err(ERR_SAVE);
        }
        push_tag(dst, [82, 73, 70, 70]);
        push_u32(dst, (data_len + 36) as u32);
        push_tag(dst, [87, 65, 86, 69]);
        push_tag(dst, [102, 109, 116, 32]);
        push_u32(dst, 16);
        push_u16(dst, 1);
        push_u16(dst, channels as u16);
        push_u32(dst, rate as u32);
        push_u32(dst, (rate * channels * 2) as u32);
        push_u16(dst, (channels * 2) as u16);
        push_u16(dst, 16);
        push_tag(dst, [100, 97, 116, 97]);
        push_u32(dst, data_len as u32);
        let mut i: usize = 0;
        let ghost headed = dst@;
        while i < data_len
            invariant
                i <= data_len == self.pcm@.len(),
                dst@ == headed + self.pcm@.subrange(0, i as int),
            decreases data_len - i,
        {
            dst.push(self.pcm[i]);
            proof {
                assert(dst@ =~= headed + self.pcm@.subrange(0, i + 1));
            }
            i += 1;
        }
        proof {
            assert(self.pcm@.subrange(0, data_len as int) =~= self.pcm@);
        }
        Ok(())
    }

    /// The number of whole samples.
    pub fn num_samples(&self) -> (n: usize)
        ensures
            n == self@.num_samples(),
    {
        self.pcm.len() / 2
    }

    /// Writes `truncated_sample` at the cursor and moves the cursor one on.
    pub fn write_sample(&mut self, truncated_sample: i16)
        requires
            old(self).wf(),
        ensures
            final(self).wf(),
            final(self).spec_info() == old(self).spec_info(),
            final(self)@ == old(self)@.write(truncated_sample),
    {
        let raw: u16 = if truncated_sample < 0 {
            (truncated_sample as i32 + 65536) as u16
        } else {
            truncated_sample as u16
        };
        let upper_byte = (raw / 256) as u8;
        let lower_byte = (raw % 256) as u8;
        let len = self.pcm.len();
        if self.short_cursor < (len / 2) as u64 {
            let byte_index = (self.short_cursor as usize) * 2;
            self.pcm[byte_index] = lower_byte;
            self.pcm[byte_index + 1] = upper_byte;
        } else {
            self.pcm.push(lower_byte);
            self.pcm.push(upper_byte);
        }
        self.offset_cursor(1);
    }

    fn offset_cursor(&mut self, offset: i64)
        requires
            old(self).short_cursor + offset <= u64::MAX,
        ensures
            final(self).short_cursor == if old(self).short_cursor + offset < 0 {
                0
            } else {
                old(self).short_cursor + offset
            },
            final(self).pcm == old(self).pcm,
            final(self).info == old(self).info,
    {
        let moved = self.short_cursor as i128 + offset as i128;
        self.short_cursor = if moved < 0 {
            0
        } else {
            moved as u64
        };
    }

    /// Reads the sample of 16 bits that the two bytes at `at` spell.
    fn read_sample(bytes: &[u8], at: usize) -> (sample: i16)
        requires
            at + 1 < bytes@.len(),
        ensures
            sample == sample_at(bytes@, at as int),
    {
        let raw = bytes[at] as i32 + 256 * (bytes[at + 1] as i32);
        if raw >= 32768 {
            (raw - 65536) as i16
        } else {
            raw as i16
        }
    }

    /// The two bytes of the 16-bit sample that stands for the 8-bit sample
    /// `sample`, the low byte first.
    #[verifier::rlimit(40)]
    fn widen(sample: u8) -> (bytes: (u8, u8))
        ensures
            seq![bytes.0, bytes.1] == sample_bytes(widened_sample(sample) as i16),
            -32766 <= widened_sample(sample) <= 32766,
    {
        let scaled = (2 * (sample as i32) - 255) * 32766;
        let wide: i32 = if scaled < 0 {
            -((-scaled) / 255)
        } else {
            scaled / 255
        };
        let raw: u32 = if wide < 0 {
            (wide + 65536) as u32
        } else {
            wide as u32
        };
        let bytes = ((raw % 256) as u8, (raw / 256) as u8);
        proof {
            assert(seq![bytes.0, bytes.1] =~= sample_bytes(widened_sample(sample) as i16));
        }
        bytes
    }

    /// Where the first `data` lies within the header window.
    fn find_data(bytes: &[u8]) -> (start: Option<usize>)
        requires
            bytes@.len() >= HEADER_WINDOW,
        ensures
            match start {
                Some(at) => is_data_start(bytes@, at as int),
                None => forall|j: int| 0 <= j <= HEADER_WINDOW - 4 ==> !is_data_tag(bytes@, j),
            },
    {
        let mut at: usize = 0;
        while at + 4 <= HEADER_WINDOW
            invariant
                at <= HEADER_WINDOW - 3,
                bytes@.len() >= HEADER_WINDOW,
                forall|j: int| 0 <= j < at ==> !is_data_tag(bytes@, j),
            decreases HEADER_WINDOW - at,
        {
            if bytes[at] == 100 && bytes[at + 1] == 97 && bytes[at + 2] == 116 && bytes[at + 3]
                == 97 {
                return Some(at);
            }
            at += 1;
        }
        None
    }

    /// Parses the bytes of a file.
    ///
    /// The header is looked for in the first `HEADER_WINDOW` bytes: the
    /// format, the number of channels, the sample rate and the sample size
    /// are taken from their places in the first `HEADER_LEN` bytes, and the
    /// samples begin eight bytes behind the first `data`. Samples of 8 bits
    /// are widened to 16 bits.
    #[verifier::rlimit(40)]
    pub fn load(bytes: &[u8]) -> (result: Result<Self, &'static str>)
        ensures
            bytes@.len() < HEADER_WINDOW ==> result == Err::<Self, &'static str>(ERR_HEADER),
            bytes@.len() >= HEADER_WINDOW ==> {
                let bits = u16_at(bytes@, 34);
                let format = u16_at(bytes@, 20);
                match result {
                    Err(message) => {
                        if forall|j: int| 0 <= j <= HEADER_WINDOW - 8 ==> !is_data_start(bytes@, j) {
                            message == ERR_DATA
                        } else if bits != 16 && bits != 8 {
                            message == ERR_BITS
                        } else {
                            format != 1 && message == ERR_FORMAT
                        }
                    },
                    Ok(codec) => {
                        &&& (bits == 16 || bits == 8)
                        &&& format == 1
                        &&& codec.wf()
                        &&& codec.spec_info().spec_channels() == sign_extended(u16_at(bytes@, 22))
                        &&& codec.spec_info().spec_frequency() == u32_at(bytes@, 24)
                        &&& codec@.cursor == 0
                        &&& exists|start: int|
                            is_data_start(bytes@, start) && start <= HEADER_WINDOW - 8 && {
                                let data = bytes@.subrange(start + 8, bytes@.len() as int);
                                codec@.bytes == if bits == 8 {
                                    widened(data)
                                } else {
                                    data
                                }
                            }
                    },
                }
            },
    {
        if bytes.len() < HEADER_WINDOW {
            return Err(ERR_HEADER);
        }
        let data_start = match Self::find_data(bytes) {
            Some(at) => at,
            None => {
                return Err(ERR_DATA);
            },
        };
        if data_start + 8 > HEADER_WINDOW {
            proof {
                assert forall|j: int| 0 <= j <= HEADER_WINDOW - 8 implies !is_data_start(
                    bytes@,
                    j,
                ) by {}
            }
            return Err(ERR_DATA);
        }
        let audio_format = bytes[20] as u32 + 256 * (bytes[21] as u32);
        let num_channels = bytes[22] as u32 + 256 * (bytes[23] as u32);
        let frequency = bytes[24] as u32 + 256 * (bytes[25] as u32) + 65536 * (bytes[26] as u32)
            + 16777216 * (bytes[27] as u32);
        let bits_per_sample = bytes[34] as u32 + 256 * (bytes[35] as u32);
        if bits_per_sample != 16 && bits_per_sample != 8 {
            return Err(ERR_BITS);
        }
        if audio_format != 1 {
            return Err(ERR_FORMAT);
        }
        let channels: u32 = if num_channels >= 32768 {
            num_channels + 0xffff_0000
        } else {
            num_channels
        };
        let mut pcm: Vec<u8> = Vec::new();
        let ghost data = bytes@.subrange(data_start + 8, bytes@.len() as int);
        let mut i: usize = data_start + 8;
        proof {
            assert(bytes@.subrange(data_start + 8, i as int) =~= Seq::<u8>::empty());
        }
        while i < bytes.len()
            invariant
                data_start + 8 <= i <= bytes@.len(),
                bits_per_sample == 8 || bits_per_sample == 16,
                pcm@ == if bits_per_sample == 8 {
                    widened(bytes@.subrange(data_start + 8, i as int))
                } else {
                    bytes@.subrange(data_start + 8, i as int)
                },
            decreases bytes@.len() - i,
        {
            let ghost before = bytes@.subrange(data_start + 8, i as int);
            let ghost after = bytes@.subrange(data_start + 8, i + 1);
            proof {
                assert(after.drop_last() =~= before);
                assert(after.last() == bytes@[i as int]);
                assert(after =~= before.push(bytes@[i as int]));
            }
            if bits_per_sample == 8 {
                let (low, high) = Self::widen(bytes[i]);
                pcm.push(low);
                pcm.push(high);
                proof {
                    assert(pcm@ =~= widened(before) + sample_bytes(
                        widened_sample(bytes@[i as int]) as i16,
                    ));
                }
            } else {
                pcm.push(bytes[i]);
            }
            i += 1;
        }
        proof {
            assert(bytes@.subrange(data_start + 8, i as int) =~= data);
        }
        let codec = Self { info: StreamInfo::new(frequency, channels), pcm, short_cursor: 0 };
        proof {
            assert(is_data_start(bytes@, data_start as int));
        }
        Ok(codec)
    }

    /// Writes the samples `samples` at the cursor, as many as make whole
    /// rounds of all channels, and returns their number. Without a channel
    /// nothing is written and `None` comes back.
    pub fn encode(&mut self, samples: &[i16]) -> (written: Option<usize>)
        requires
            old(self).wf(),
        ensures
            final(self).wf(),
            final(self).spec_info() == old(self).spec_info(),
            match written {
                None => old(self).spec_info().spec_channels() == 0 && final(self)@ == old(self)@,
                Some(n) => {
                    let channels = old(self).spec_info().spec_channels();
                    &&& channels > 0
                    &&& n == (samples@.len() / channels) * channels
                    &&& final(self)@ == old(self)@.write_all(samples@.subrange(0, n as int))
                },
            },
    {
        let num_channels = self.info.channels();
        if num_channels == 0 {
            return None;
        }
        let len = samples.len();
        let rounds = len / num_channels;
        assert(rounds * num_channels <= len) by (nonlinear_arith)
            requires
                num_channels > 0,
                rounds == len / num_channels,
        ;
        let valid_len = rounds * num_channels;
        let mut i: usize = 0;
        proof {
            assert(samples@.subrange(0, 0) =~= Seq::<i16>::empty());
        }
        while i < valid_len
            invariant
                self.wf(),
                self.spec_info() == old(self).spec_info(),
                i <= valid_len <= len == samples@.len(),
                self@ == old(self)@.write_all(samples@.subrange(0, i as int)),
            decreases valid_len - i,
        {
            proof {
                let longer = samples@.subrange(0, i + 1);
                assert(longer.drop_last() =~= samples@.subrange(0, i as int));
                assert(longer.last() == samples@[i as int]);
            }
            self.write_sample(samples[i]);
            i += 1;
        }
        Some(valid_len)
    }

    /// Reads samples from the cursor on into `out`, as many as `out` has
    /// room for in whole rounds of all channels and as the signal has left,
    /// and moves the cursor behind them. Returns their number, or `None`
    /// where there is none: at the end of the signal, without room, or
    /// without a channel.
    pub fn decode(&mut self, out: &mut [i16]) -> (read: Option<usize>)
        requires
            old(self).wf(),
        ensures
            final(self).wf(),
            final(self).spec_info() == old(self).spec_info(),
            final(self)@.bytes == old(self)@.bytes,
            final(out)@.len() == old(out)@.len(),
            ({
                let channels = old(self).spec_info().spec_channels();
                let room: int = if channels == 0 {
                    0
                } else {
                    ((old(out)@.len() / channels) * channels) as int
                };
                let left: int = old(self)@.num_samples() - old(self)@.cursor;
                let count = if room < left {
                    room
                } else {
                    left
                };
                &&& read == if count > 0 {
                    Some(count as usize)
                } else {
                    None
                }
                &&& final(self)@.cursor == old(self)@.cursor + count
                &&& forall|i: int|
                    0 <= i < count ==> #[trigger] final(out)@[i] == old(self)@.sample(
                        old(self)@.cursor + i,
                    )
                &&& forall|i: int|
                    count <= i < old(out)@.len() ==> #[trigger] final(out)@[i] == old(out)@[i]
            }),
    {
        let num_channels = self.info.channels();
        if num_channels == 0 {
            return None;
        }
        let len = out.len();
        let rounds = len / num_channels;
        assert(rounds * num_channels <= len) by (nonlinear_arith)
            requires
                num_channels > 0,
                rounds == len / num_channels,
        ;
        let valid_length = rounds * num_channels;
        let byte_len = self.pcm.len();
        let stream_length = (byte_len / 2) as u64;
        let mut out_cursor: usize = 0;
        while self.short_cursor < stream_length && out_cursor < valid_length
            invariant
                self.wf(),
                self.info == old(self).info,
                self.pcm == old(self).pcm,
                byte_len == self.pcm@.len(),
                stream_length == byte_len / 2,
                out_cursor <= valid_length <= len == out@.len(),
                len == old(out)@.len(),
                self.short_cursor == old(self).short_cursor + out_cursor,
                self.short_cursor <= stream_length,
                forall|i: int|
                    0 <= i < out_cursor ==> #[trigger] out@[i] == old(self)@.sample(
                        old(self)@.cursor + i,
                    ),
                forall|i: int| out_cursor <= i < len ==> #[trigger] out@[i] == old(out)@[i],
            decreases valid_length - out_cursor,
        {
            let at = (self.short_cursor as usize) * 2;
            out[out_cursor] = Self::read_sample(self.pcm.as_slice(), at);
            self.short_cursor = self.short_cursor + 1;
            out_cursor += 1;
        }
        if out_cursor > 0 {
            Some(out_cursor)
        } else {
            None
        }
    }

    /// Moves the cursor by time: `dt` milliseconds from the start of the
    /// signal, or for `SeekFrom::Current` from the round that the cursor is
    /// in. The cursor stays within the samples.
    pub fn seek(&mut self, dt: SeekFrom)
        requires
            old(self).wf(),
        ensures
            final(self).wf(),
            final(self).spec_info() == old(self).spec_info(),
            final(self)@.bytes == old(self)@.bytes,
            final(self)@.cursor == old(self)@.sought(
                old(self).spec_info().spec_frequency(),
                old(self).spec_info().spec_channels(),
                dt,
            ),
    {
        let sample_rate = self.info.frequency() as i128;
        let num_channels = self.info.channels() as i128;
        let num_samples = self.num_samples() as i128;
        let cursor = self.short_cursor as i128;
        let (base, time): (i128, i128) = match dt {
            SeekFrom::Current(t) => (
                if num_channels == 0 {
                    0
                } else {
                    let rounds = cursor / num_channels;
                    assert(0 <= rounds * num_channels <= cursor) by (nonlinear_arith)
                        requires
                            num_channels > 0,
                            cursor >= 0,
                            rounds == cursor / num_channels,
                    ;
                    rounds * num_channels
                },
                t as i128,
            ),
            SeekFrom::Start(t) => (0, t as i128),
            SeekFrom::End(t) => (0, t as i128),
        };
        let span: i128 = if time < 0 {
            -time
        } else {
            time
        };
        assert(0 <= span * sample_rate <= 0x1_0000_0000_0000_0000 * 0xffff_ffff)
            by (nonlinear_arith)
            requires
                0 <= span <= 0x1_0000_0000_0000_0000,
                0 <= sample_rate <= 0xffff_ffff,
        ;
        let samples_in_span = (span * sample_rate) / 1000;
        assert(0 <= samples_in_span * num_channels <= 0x80_0000_0000_0000_0000_0000
            * 0xffff_ffff) by (nonlinear_arith)
            requires
                0 <= samples_in_span <= 0x80_0000_0000_0000_0000_0000,
                0 <= num_channels <= 0xffff_ffff,
        ;
        let moved = samples_in_span * num_channels;
        let place = if time < 0 {
            proof {
                assert((-samples_in_span) * num_channels == -moved) by (nonlinear_arith)
                    requires
                        moved == samples_in_span * num_channels,
                ;
            }
            base - moved
        } else {
            base + moved
        };
        self.short_cursor = if num_samples == 0 || place < 0 {
            0
        } else if place > num_samples - 1 {
            (num_samples - 1) as u64
        } else {
            place as u64
        };
    }
}

} // verus!
