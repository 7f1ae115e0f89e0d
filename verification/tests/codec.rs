use adhoc_audio::codec::adhoc::audio_stream::AudioStream;
use adhoc_audio::codec::adhoc::frame::{predict, residual, FrameCodec};
use adhoc_audio::codec::adhoc::frame_headers::{FrameHeader, FrameHeaders};
use adhoc_audio::codec::adhoc::{AdhocCodec, CodecState, MAX_DECODE_ATTEMPTS};
use adhoc_audio::codec::StreamInfo;
use adhoc_audio::collections::bitstream::BitStream;
use adhoc_audio::collections::bitvec::BitVec;
use adhoc_audio::collections::nibble_list::NibbleList;
use adhoc_audio::collections::stack::CircularStack;
use adhoc_audio::math::noise::PseudoRandom;
use std::io::SeekFrom;

fn truncate_sample(samp: f32) -> i16 {
    (samp.clamp(-1.0, 1.0) * 32767.0).round() as i16
}

fn normalize_sample(samp: i16) -> f32 {
    samp as f32 * (1.0 / 32767.0)
}

fn quantize(samples: &[f32]) -> Vec<i16> {
    samples.iter().map(|&s| truncate_sample(s)).collect()
}

fn compute_mse(a: &[f32], b: &[f32]) -> f32 {
    let n = a.len().min(b.len()) as f32;
    a.iter()
        .zip(b.iter())
        .fold(0.0, |acc, (y, y_est)| acc + (y - y_est).powf(2.0))
        / n
}

/// Decodes everything that is left of `codec`, `chunk` samples at a time.
fn decode_all(codec: &mut AdhocCodec, chunk: usize) -> Vec<i16> {
    let mut all = Vec::new();
    let mut buffer = vec![0i16; chunk];
    loop {
        let n = codec.decode(&mut buffer);
        if n == 0 {
            break;
        }
        all.extend_from_slice(&buffer[0..n]);
    }
    all
}

/// A signal of `len` samples that a quadratic predictor follows closely.
fn smooth_signal(len: usize, channels: usize) -> Vec<i16> {
    (0..len)
        .map(|i| {
            let t = (i / channels) as f32;
            let c = (i % channels) as f32;
            let v = (t * 0.013 + c).sin() * 0.6 + (t * 0.0041).cos() * 0.3;
            truncate_sample(v)
        })
        .collect()
}

#[test]
fn adhoc_sanity() {
    let mut codec = AdhocCodec::new();
    let data = [
        0.0, 0.0, 0.01, 0.01, 0.02, 0.02, 0.03, 0.03, 0.019, 0.020, 0.019, 0.018, 0.017,
    ];

    codec.set_info(StreamInfo::new(44100, 1));

    assert_eq!(Some(data.len()), codec.encode(&quantize(&data)));

    let mut decoded = vec![0i16; data.len()];
    codec.init();
    let samples_read = codec.decode(&mut decoded[..]);
    let out_buffer: Vec<f32> = decoded.iter().map(|&s| normalize_sample(s)).collect();
    let mean_squared_error = compute_mse(&out_buffer, &data);

    println!("data   :{:?}", data);
    println!("decoded:{:?}", &out_buffer[0..samples_read]);
    println!(
        "bits written = {}\ncompression_ratio={}\nMean Squared Error={:.6}",
        codec.stream().bits().capacity(),
        codec.stream().bits().capacity() as f32 / (data.len() * 16) as f32,
        mean_squared_error
    );

    for (&input_sample, &decoded_sample) in data.iter().zip(out_buffer.iter()) {
        let close_enough = (input_sample - decoded_sample).abs() < 0.01;
        assert_eq!(close_enough, true, "accuracy threshold not met");
    }
    assert_eq!(13, samples_read);
    assert_eq!(0, codec.decode(&mut decoded[..]));
}

#[test]
fn sanity2() {
    let mut codec = AdhocCodec::new();
    let data = [
        0.0, 0.0, 0.1, 0.01, 0.2, 0.02, 0.3, 0.03, 0.4, 0.020, 0.5, 0.018, 0.6, 0.019,
    ];

    codec.set_info(StreamInfo::new(44100, 2));

    assert_eq!(Some(8), codec.encode(&quantize(&data[0..8])));
    assert_eq!(Some(6), codec.encode(&quantize(&data[8..])));

    let mut decoded = vec![0i16; data.len()];
    codec.init();
    let samples_read = codec.decode(&mut decoded[..]);
    let out_buffer: Vec<f32> = decoded.iter().map(|&s| normalize_sample(s)).collect();
    let mean_squared_error = compute_mse(&out_buffer, &data);

    println!("data   :{:?}", data);
    println!("decoded:{:?}", &out_buffer[0..samples_read]);
    println!(
        "bits written = {}\ncompression_ratio={}\nMean Squared Error={:.6}",
        codec.stream().bits().capacity(),
        codec.stream().bits().capacity() as f32 / (data.len() * 16) as f32,
        mean_squared_error
    );

    for (&input_sample, &decoded_sample) in data.iter().zip(out_buffer.iter()) {
        let close_enough = (input_sample - decoded_sample).abs() < 0.01;
        assert_eq!(close_enough, true, "accuracy threshold not met");
    }
    assert_eq!(14, samples_read);
    assert_eq!(0, codec.decode(&mut decoded[..]));
}

#[test]
fn first_frame_bits_and_header() {
    let mut codec = AdhocCodec::new().with_info(StreamInfo::new(8000, 1));
    assert_eq!(Some(4), codec.encode(&[0, 0, 0, 1]));
    // three samples of sixteen clear bits, then the residual 1 with the
    // exponent 1: a clear sign bit, an empty quotient with its end mark, and
    // the remainder 1
    assert_eq!(51, codec.stream().bits().capacity());
    assert_eq!(51, codec.stream().bits().len());
    assert_eq!(1u128 << 50, codec.stream().bits().words()[0]);
    assert!(codec.stream().bits().words()[1..].iter().all(|&w| w == 0));
    assert_eq!(1, codec.frame_headers().len());
    let header = codec.frame_headers().get(0).unwrap();
    assert_eq!(1, header.exponent);
    assert_eq!(4, header.size);
    assert_eq!(0, header.bit_cursor);
    assert!(header.is_init);
    assert_eq!([0, 0, 0], header.stack_history);
    assert!(codec.frame_headers().get(1).is_none());
    // 51 bits of stream, 256 for its cursor and mark, 64 for the
    // description, 32 for the level, and for the one header 4 + 64 + 16 + 64
    // + 48
    assert_eq!(599, codec.filesize_upperbound());
}

#[test]
fn later_frames_carry_no_seeds() {
    let mut codec = AdhocCodec::new().with_info(StreamInfo::new(8000, 1));
    codec.encode(&[10, 20, 30, 40]);
    let first_end = codec.stream().bits().len();
    assert_eq!(Some(2), codec.encode(&[50, 60]));
    let second = codec.frame_headers().get(1).unwrap();
    assert!(!second.is_init);
    assert_eq!(2, second.size);
    assert_eq!(first_end as u64, second.bit_cursor);
    assert_eq!([20, 30, 40], second.stack_history);
    // both residuals are zero: the samples lie on the predicted line
    assert_eq!(1, second.exponent);
    assert_eq!(first_end + 6, codec.stream().bits().len());
    codec.init();
    assert_eq!(vec![10, 20, 30, 40, 50, 60], decode_all(&mut codec, 64));
}

#[test]
fn channels_are_coded_in_order() {
    let mut codec = AdhocCodec::new().with_info(StreamInfo::new(8000, 2));
    // fifteen samples: seven whole rounds, the last sample is left out
    let samples = [1, -1, 2, -2, 3, -3, 4, -4, 5, -5, 6, -6, 7, -7, 99];
    assert_eq!(Some(15), codec.encode(&samples));
    assert_eq!(2, codec.frame_headers().len());
    let left = codec.frame_headers().get(0).unwrap();
    let right = codec.frame_headers().get(1).unwrap();
    assert_eq!(7, left.size);
    assert_eq!(7, right.size);
    assert_eq!([1, 2, 3], left.stack_history);
    assert_eq!([-1, -2, -3], right.stack_history);
    assert_eq!(0, left.bit_cursor);
    assert!(right.bit_cursor > 48);
    codec.init();
    assert_eq!(samples[0..14].to_vec(), decode_all(&mut codec, 4));
}

#[test]
fn encode_then_decode_is_exact() {
    for &channels in &[1usize, 2, 3] {
        let signal = smooth_signal(3000 * channels, channels);
        let mut codec = AdhocCodec::new().with_info(StreamInfo::new(44100, channels as u32));
        for chunk in signal.chunks(250 * channels) {
            assert_eq!(Some(chunk.len()), codec.encode(chunk));
        }
        codec.init();
        let decoded = decode_all(&mut codec, 7 * channels);
        assert_eq!(signal, decoded);
        let mut more = vec![0i16; 8 * channels];
        assert_eq!(0, codec.decode(&mut more));
    }
}

#[test]
fn cut_residuals_are_lossy_but_decodable() {
    // jumps between the extremes make residuals that do not fit
    let signal: Vec<i16> = (0..64)
        .map(|i| if i % 2 == 0 { 32767 } else { -32767 })
        .collect();
    let mut codec = AdhocCodec::new().with_info(StreamInfo::new(8000, 1));
    assert_eq!(Some(64), codec.encode(&signal));
    codec.init();
    let decoded = decode_all(&mut codec, 64);
    assert_eq!(64, decoded.len());
    assert_eq!(signal[0..3], decoded[0..3]);
}

#[test]
fn decode_leaves_the_rest_of_the_buffer() {
    let mut codec = AdhocCodec::new().with_info(StreamInfo::new(8000, 2));
    codec.encode(&[1, 2, 3, 4, 5, 6]);
    codec.init();
    let mut out = [77i16; 9];
    // room for four whole rounds, three are there
    assert_eq!(6, codec.decode(&mut out));
    assert_eq!([1, 2, 3, 4, 5, 6, 77, 77, 77], out);
    let mut single = [55i16; 1];
    assert_eq!(0, codec.decode(&mut single));
    assert_eq!([55], single);
}

#[test]
fn codec_refuses_what_it_cannot_code() {
    let mut codec = AdhocCodec::new();
    assert!(codec.info().is_none());
    // no description of the signal
    assert!(!codec.can_encode(4));
    assert!(!codec.can_decode());
    assert_eq!(None, codec.encode(&[1, 2, 3, 4]));
    let mut out = [9i16; 4];
    assert_eq!(0, codec.decode(&mut out));
    assert_eq!([9, 9, 9, 9], out);

    // a first frame needs three samples for each channel
    codec.set_info(StreamInfo::new(8000, 2));
    assert!(!codec.can_encode(5));
    assert_eq!(None, codec.encode(&[1, 2, 3, 4, 5]));
    assert!(codec.can_encode(6));
    assert_eq!(Some(6), codec.encode(&[1, 2, 3, 4, 5, 6]));
    // later frames may be short
    assert_eq!(Some(2), codec.encode(&[7, 8]));

    // a codec that is encoding cannot decode, and the other way round
    assert!(!codec.can_decode());
    assert_eq!(0, codec.decode(&mut out));
    codec.init();
    assert!(codec.can_decode());
    assert_eq!(4, codec.decode(&mut out));
    assert_eq!([1, 2, 3, 4], out);
    assert!(!codec.can_encode(6));
    assert_eq!(None, codec.encode(&[1, 2, 3, 4, 5, 6]));

    // a frame holds at most 65535 samples of a channel
    let mut mono = AdhocCodec::new().with_info(StreamInfo::new(8000, 1));
    assert!(mono.can_encode(65535));
    assert!(!mono.can_encode(65536));
    assert_eq!(None, mono.encode(&vec![0i16; 65536]));

    // without a channel there is nothing to code
    let mut silent = AdhocCodec::new().with_info(StreamInfo::new(8000, 0));
    assert_eq!(None, silent.encode(&[1, 2, 3]));
    assert_eq!(0, silent.decode(&mut out));
}

#[test]
fn compression_level_is_clamped() {
    assert_eq!(0, AdhocCodec::new().compression_level());
    assert_eq!(7, AdhocCodec::new().with_compression_level(7).compression_level());
    assert_eq!(10, AdhocCodec::new().with_compression_level(10).compression_level());
    assert_eq!(10, AdhocCodec::new().with_compression_level(11).compression_level());
    assert_eq!(10, AdhocCodec::new().with_compression_level(u32::MAX).compression_level());
}

#[test]
fn set_info_sizes_the_channel_list() {
    let mut codec = AdhocCodec::new().with_info(StreamInfo::new(8000, 1));
    codec.encode(&[5, 6, 7]);
    // a second channel is added fresh, the first stays as it is
    codec.set_info(StreamInfo::new(8000, 2));
    assert_eq!(2, codec.info().unwrap().channels());
    assert_eq!(8000, codec.info().unwrap().frequency());
    assert!(!codec.can_encode(2));
    assert!(codec.can_encode(6));
}

#[test]
fn seek_to_start() {
    // two seconds of a stereo signal, quantized as at level 4 with dither
    let rate = 8000usize;
    let mut seq = PseudoRandom::new(314);
    let inv_scale = 1.0f32 / 16.0;
    let signal: Vec<i16> = (0..2 * rate * 2)
        .map(|i| {
            let t = (i / 2) as f32 / rate as f32;
            let s = (t * 440.0 * 6.283).sin() * 0.5;
            let noise = seq.triangle() as f32 / 16384.0;
            truncate_sample((s + noise * 0.001 * (1.0 - inv_scale)) * inv_scale)
        })
        .collect();

    let mut codec = AdhocCodec::new()
        .with_compression_level(4)
        .with_info(StreamInfo::new(rate as u32, 2));
    for chunk in signal.chunks(1024) {
        assert_eq!(Some(chunk.len()), codec.encode(chunk));
    }
    codec.seek(SeekFrom::Start(0));
    let after_seek = decode_all(&mut codec, 1024);

    let mut fresh = AdhocCodec::new()
        .with_compression_level(4)
        .with_info(StreamInfo::new(rate as u32, 2));
    for chunk in signal.chunks(1024) {
        fresh.encode(chunk);
    }
    fresh.init();
    let plain = decode_all(&mut fresh, 1024);

    assert_eq!(signal.len(), plain.len());
    assert_eq!(plain, after_seek);
    assert_eq!(signal, plain);
}

#[test]
fn seek_lands_on_the_sample_of_the_time() {
    // 1000 Hz: one sample of a channel for each millisecond
    let channels = 2usize;
    let signal = smooth_signal(24 * channels, channels);
    let mut codec = AdhocCodec::new().with_info(StreamInfo::new(1000, channels as u32));
    for chunk in signal.chunks(8 * channels) {
        codec.encode(chunk);
    }
    for dt in [0u64, 1, 7, 8, 9, 10, 15, 16, 17, 23] {
        codec.seek(SeekFrom::Start(dt));
        let decoded = decode_all(&mut codec, 6);
        let from = dt as usize * channels;
        assert_eq!(signal[from..].to_vec(), decoded, "seek to {} ms", dt);
    }
    // the end of the signal, and beyond it
    codec.seek(SeekFrom::Start(24));
    assert_eq!(Vec::<i16>::new(), decode_all(&mut codec, 6));
    codec.seek(SeekFrom::Start(25));
    assert_eq!(Vec::<i16>::new(), decode_all(&mut codec, 6));
    codec.seek(SeekFrom::Start(u64::MAX));
    assert_eq!(Vec::<i16>::new(), decode_all(&mut codec, 6));
    // and back
    codec.seek(SeekFrom::Start(3));
    assert_eq!(signal[6..].to_vec(), decode_all(&mut codec, 6));
}

#[test]
fn seek_rounds_the_time_down_to_a_sample() {
    // 44100 Hz: 44.1 samples for each millisecond
    let signal = smooth_signal(500, 1);
    let mut codec = AdhocCodec::new().with_info(StreamInfo::new(44100, 1));
    for chunk in signal.chunks(100) {
        codec.encode(chunk);
    }
    // 3 ms: 132.3 samples, 5 ms: 220.5 samples
    codec.seek(SeekFrom::Start(3));
    assert_eq!(signal[132..].to_vec(), decode_all(&mut codec, 50));
    codec.seek(SeekFrom::Start(5));
    assert_eq!(signal[220..].to_vec(), decode_all(&mut codec, 50));
}

#[test]
fn seek_without_frames_or_info_decodes_nothing() {
    let mut empty = AdhocCodec::new().with_info(StreamInfo::new(8000, 2));
    empty.seek(SeekFrom::Start(0));
    assert_eq!(Vec::<i16>::new(), decode_all(&mut empty, 8));
    let mut bare = AdhocCodec::new();
    bare.seek(SeekFrom::Start(10));
    assert_eq!(Vec::<i16>::new(), decode_all(&mut bare, 8));
}

#[test]
fn decoder_gives_up_after_ten_empty_blocks() {
    assert_eq!(10, MAX_DECODE_ATTEMPTS);
    let mut codec = AdhocCodec::new().with_info(StreamInfo::new(8000, 1));
    codec.encode(&[1, 2, 3]);
    for _ in 0..9 {
        assert_eq!(Some(0), codec.encode(&[]));
    }
    codec.encode(&[4]);
    for _ in 0..10 {
        codec.encode(&[]);
    }
    codec.encode(&[5]);
    codec.init();
    let mut out = [0i16; 8];
    // nine empty frames are passed over, ten end the call
    assert_eq!(4, codec.decode(&mut out));
    assert_eq!([1, 2, 3, 4], out[0..4]);
    // the next call goes on behind them
    assert_eq!(1, codec.decode(&mut out));
    assert_eq!(5, out[0]);
    assert_eq!(0, codec.decode(&mut out));
}

#[test]
fn stored_parts_make_the_same_codec() {
    let signal = smooth_signal(400, 2);
    let mut codec = AdhocCodec::new()
        .with_compression_level(3)
        .with_info(StreamInfo::new(22050, 2));
    for chunk in signal.chunks(100) {
        codec.encode(chunk);
    }

    let headers = codec.frame_headers();
    let exponents =
        NibbleList::from_raw(headers.exponents().data().clone(), headers.len() as u32).unwrap();
    let flags =
        BitVec::from_raw(headers.init_flags().words().clone(), headers.len() as u128).unwrap();
    let directory = FrameHeaders::from_raw(
        exponents,
        flags,
        headers.sizes().clone(),
        headers.bit_cursors().clone(),
        headers.histories().clone(),
        headers.cursor(),
    )
    .unwrap();
    let bits = codec.stream().bits();
    let stream = BitStream::from_raw(
        bits.words().clone(),
        bits.len() as u128,
        bits.capacity() as u128,
    )
    .unwrap();
    let audio = AudioStream::from_parts(codec.stream().info(), stream);

    let mut loaded = AdhocCodec::from_parts(codec.compression_level(), directory, audio).unwrap();
    assert_eq!(3, loaded.compression_level());
    assert_eq!(2, loaded.info().unwrap().channels());
    assert_eq!(22050, loaded.info().unwrap().frequency());
    assert_eq!(codec.filesize_upperbound(), loaded.filesize_upperbound());
    assert_eq!(signal, decode_all(&mut loaded, 64));
}

#[test]
fn malformed_parts_are_refused() {
    // a level above 10, a stream without a description
    let with_info = AudioStream::from_parts(Some(StreamInfo::new(8000, 1)), BitStream::new());
    assert!(AdhocCodec::from_parts(11, FrameHeaders::new(), with_info).is_none());
    assert!(AdhocCodec::from_parts(0, FrameHeaders::new(), AudioStream::new()).is_none());
    let with_info = AudioStream::from_parts(Some(StreamInfo::new(8000, 1)), BitStream::new());
    assert!(AdhocCodec::from_parts(10, FrameHeaders::new(), with_info).is_some());

    // bits at or above the high-water mark
    assert!(BitStream::from_raw(vec![1], 0, 0).is_none());
    assert!(BitStream::from_raw(vec![0b100], 0, 2).is_none());
    assert!(BitStream::from_raw(vec![0b100], 0, 3).is_some());
    assert!(BitStream::from_raw(vec![0, 1], 0, 128).is_none());
    assert!(BitStream::from_raw(vec![0, 1], 500, 129).is_some());
    assert!(BitStream::from_raw(vec![], 0, 1000).is_some());
    assert!(BitStream::from_raw(vec![u128::MAX], 128, 128).is_some());
    assert!(BitStream::from_raw(vec![], u128::MAX, 0).is_none());
    assert!(BitStream::from_raw(vec![], 0, u128::MAX).is_none());

    // more values than the bytes or words hold
    assert!(NibbleList::from_raw(vec![0x21], 3).is_none());
    assert_eq!(vec![1, 2], NibbleList::from_raw(vec![0x21], 2).unwrap().iter());
    assert_eq!(vec![1], NibbleList::from_raw(vec![0x21], 1).unwrap().iter());
    assert!(BitVec::from_raw(vec![5], 65).is_none());
    assert_eq!(vec![1, 0, 1], BitVec::from_raw(vec![5], 3).unwrap().iter());

    // columns of unequal length, a cursor behind the end
    let column = || NibbleList::from_raw(vec![0x21], 2).unwrap();
    let flags = || BitVec::from_raw(vec![1], 2).unwrap();
    assert!(FrameHeaders::from_raw(
        column(),
        flags(),
        vec![3, 4],
        vec![0, 100],
        vec![[0, 0, 0], [1, 2, 3]],
        2
    )
    .is_some());
    assert!(FrameHeaders::from_raw(
        column(),
        flags(),
        vec![3, 4],
        vec![0, 100],
        vec![[0, 0, 0], [1, 2, 3]],
        3
    )
    .is_none());
    assert!(FrameHeaders::from_raw(
        column(),
        flags(),
        vec![3],
        vec![0, 100],
        vec![[0, 0, 0], [1, 2, 3]],
        0
    )
    .is_none());
    assert!(FrameHeaders::from_raw(
        column(),
        BitVec::from_raw(vec![1], 1).unwrap(),
        vec![3, 4],
        vec![0, 100],
        vec![[0, 0, 0], [1, 2, 3]],
        0
    )
    .is_none());
    let built = FrameHeaders::from_raw(
        column(),
        flags(),
        vec![3, 4],
        vec![0, 100],
        vec![[0, 0, 0], [1, 2, 3]],
        1,
    )
    .unwrap();
    let second = built.get(1).unwrap();
    assert_eq!(2, second.exponent);
    assert_eq!(4, second.size);
    assert_eq!(100, second.bit_cursor);
    assert!(!second.is_init);
    assert_eq!([1, 2, 3], second.stack_history);
    assert!(built.get(0).unwrap().is_init);
}

#[test]
fn malformed_stream_ends_the_decoding() {
    // a header with the exponent 0 decodes nothing
    let directory = FrameHeaders::from_raw(
        NibbleList::from_raw(vec![0x00], 1).unwrap(),
        BitVec::from_raw(vec![1], 1).unwrap(),
        vec![10],
        vec![0],
        vec![[0, 0, 0]],
        0,
    )
    .unwrap();
    let stream = AudioStream::from_parts(
        Some(StreamInfo::new(8000, 1)),
        BitStream::from_raw(vec![u128::MAX], 0, 128).unwrap(),
    );
    let mut codec = AdhocCodec::from_parts(0, directory, stream).unwrap();
    let mut out = [0i16; 16];
    assert_eq!(0, codec.decode(&mut out));

    // a frame that claims more samples than the stream holds reads clear
    // bits past the high-water mark
    let directory = FrameHeaders::from_raw(
        NibbleList::from_raw(vec![0x01], 1).unwrap(),
        BitVec::from_raw(vec![1], 1).unwrap(),
        vec![5],
        vec![0],
        vec![[0, 0, 0]],
        0,
    )
    .unwrap();
    let stream = AudioStream::from_parts(
        Some(StreamInfo::new(8000, 1)),
        BitStream::from_raw(vec![], 0, 0).unwrap(),
    );
    let mut codec = AdhocCodec::from_parts(0, directory, stream).unwrap();
    assert_eq!(5, codec.decode(&mut out));
    assert_eq!([0, 0, 0, 0, 0], out[0..5]);
    assert_eq!(0, codec.decode(&mut out));
}

#[test]
fn optimal_exponent_prefers_the_smallest_of_the_cheapest() {
    let history: CircularStack<i16> = CircularStack::new();
    // the residual 100 costs 9 bits with the exponents 6 and 7
    assert_eq!(6, FrameCodec::compute_optimal_divisor_exponent(&history, &[100]));
    // an empty frame costs nothing with any exponent
    assert_eq!(1, FrameCodec::compute_optimal_divisor_exponent(&history, &[]));
    assert_eq!(1, FrameCodec::compute_optimal_divisor_exponent(&history, &[0, 0, 0, 0]));
    // large residuals want a large exponent
    assert_eq!(
        14,
        FrameCodec::compute_optimal_divisor_exponent(&history, &[32766])
    );
}

#[test]
fn predictor_extends_the_parabola() {
    let mut history: CircularStack<i16> = CircularStack::new();
    history.push(1);
    history.push(2);
    history.push(4);
    // 1 - 3 * 2 + 3 * 4
    assert_eq!(7, predict(&history));
    history.push(7);
    // 2 - 3 * 4 + 3 * 7
    assert_eq!(11, predict(&history));
    let mut steep: CircularStack<i16> = CircularStack::new();
    steep.push(-32768);
    steep.push(0);
    steep.push(32767);
    assert_eq!(32767, predict(&steep));
    let mut falling: CircularStack<i16> = CircularStack::new();
    falling.push(32767);
    falling.push(0);
    falling.push(-32768);
    assert_eq!(-32767, predict(&falling));
}

#[test]
fn residual_is_cut_to_its_range() {
    assert_eq!(5, residual(12, 7));
    assert_eq!(-19, residual(-12, 7));
    assert_eq!(32766, residual(32767, -32767));
    assert_eq!(-32766, residual(-32768, 32767));
    assert_eq!(32766, residual(32766, 0));
}

#[test]
fn frame_codec_states() {
    let mut codec = FrameCodec::new();
    let mut stream = AudioStream::new();
    let mut headers = FrameHeaders::new();
    assert!(matches!(codec.state(), CodecState::Init));
    // nothing to decode: no header
    assert_eq!(None, codec.decode_frame(&mut stream, &mut headers));
    assert!(matches!(codec.state(), CodecState::Init));

    codec.encode_frame(&mut stream, &mut headers, &[3, 1, 4, 1, 5, 9, 2, 6]);
    assert!(matches!(codec.state(), CodecState::Encoding));
    assert_eq!(1, headers.len());
    assert_eq!(1, headers.cursor());

    codec.init();
    assert!(matches!(codec.state(), CodecState::Init));
    stream.bits_mut().seek_start();
    headers.reset();
    assert_eq!(Some(8), codec.decode_frame(&mut stream, &mut headers));
    assert!(matches!(codec.state(), CodecState::Decoding));
    assert_eq!(
        vec![3, 1, 4, 1, 5, 9, 2, 6],
        codec.buffered_channel().iter().copied().collect::<Vec<_>>()
    );
    assert_eq!(Some(3), codec.buffered_channel_mut().pop_front());
    assert_eq!(None, codec.decode_frame(&mut stream, &mut headers));
    assert_eq!(6, codec.sample_history_mut().prev(1));
    *codec.state_mut() = CodecState::Encoding;
    assert!(matches!(codec.state(), CodecState::Encoding));
}

#[test]
fn frame_headers_keep_what_was_pushed() {
    let mut list = FrameHeaders::new();
    let headers: Vec<FrameHeader> = (0..100u32)
        .map(|i| FrameHeader {
            exponent: (i % 15 + 1) as u8,
            size: (i * 7) as u16,
            bit_cursor: i as u64 * 1_000_000_007,
            is_init: i % 3 == 0,
            stack_history: [i as i16, -(i as i16), 2 * i as i16],
        })
        .collect();
    for (i, &h) in headers.iter().enumerate() {
        list.push(h);
        assert_eq!(i + 1, list.len());
        let last = list.get(list.len() - 1).unwrap();
        assert_eq!(h.exponent, last.exponent);
        assert_eq!(h.size, last.size);
        assert_eq!(h.bit_cursor, last.bit_cursor);
        assert_eq!(h.is_init, last.is_init);
        assert_eq!(h.stack_history, last.stack_history);
    }
    assert!(list.get(100).is_none());
    assert!(list.next().is_none());
    list.reset();
    for h in headers.iter() {
        let next = list.next().unwrap();
        assert_eq!(h.exponent, next.exponent);
        assert_eq!(h.size, next.size);
        assert_eq!(h.bit_cursor, next.bit_cursor);
        assert_eq!(h.is_init, next.is_init);
        assert_eq!(h.stack_history, next.stack_history);
    }
    assert!(list.next().is_none());
    assert_eq!(100, list.cursor());

    // a push before the end writes over the header there
    list.set_cursor(4);
    list.push(FrameHeader {
        exponent: 0x2f,
        size: 1,
        bit_cursor: 2,
        is_init: true,
        stack_history: [7, 8, 9],
    });
    assert_eq!(100, list.len());
    assert_eq!(5, list.cursor());
    let written = list.get(4).unwrap();
    // of the exponent four bits are kept
    assert_eq!(15, written.exponent);
    assert_eq!(1, written.size);
    assert_eq!([7, 8, 9], written.stack_history);
    assert_eq!(headers[3].size, list.get(3).unwrap().size);
    assert_eq!(headers[5].size, list.get(5).unwrap().size);
}

#[test]
fn audio_stream_info_stays_set() {
    let mut stream = AudioStream::new();
    assert!(stream.info().is_none());
    stream.set_info(None);
    assert!(stream.info().is_none());
    stream.set_info(Some(StreamInfo::new(48000, 2)));
    assert_eq!(48000, stream.info().unwrap().frequency());
    stream.set_info(None);
    assert_eq!(2, stream.info().unwrap().channels());
    stream.set_info(Some(StreamInfo::new(44100, 1)));
    assert_eq!(44100, stream.info().unwrap().frequency());
    stream.bits_mut().write_bit(1);
    assert_eq!(1, stream.bits().len());
}
