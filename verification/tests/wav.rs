use adhoc_audio::codec::wav::{
    WavCodec, ERR_BITS, ERR_DATA, ERR_FORMAT, ERR_HEADER, ERR_SAVE,
};
use adhoc_audio::codec::StreamInfo;
use std::io::SeekFrom;

/// A file of 16-bit samples counting up from 0, long enough to load.
fn counting_file(channels: u32, samples: usize) -> Vec<u8> {
    let mut codec = WavCodec::new(StreamInfo::new(8000, channels));
    let data: Vec<i16> = (0..samples as i16).collect();
    assert_eq!(Some(samples), codec.encode(&data));
    let mut file = Vec::new();
    codec.save_to(&mut file).unwrap();
    file
}

#[test]
fn header_bytes() {
    let mut codec = WavCodec::new(StreamInfo::new(44100, 2));
    assert_eq!(Some(4), codec.encode(&[1, -2, 258, -32768]));
    assert_eq!(4, codec.num_samples());
    let mut file = vec![0xaa];
    assert_eq!(Ok(()), codec.save_to(&mut file));
    let expected: Vec<u8> = vec![
        0xaa, // what was there before
        b'R', b'I', b'F', b'F', 44, 0, 0, 0, // 36 + 8 bytes follow
        b'W', b'A', b'V', b'E', b'f', b'm', b't', b' ', 16, 0, 0, 0, // chunk size
        1, 0, // linear PCM
        2, 0, // channels
        0x44, 0xac, 0, 0, // 44100 Hz
        0x10, 0xb1, 0x02, 0, // 176400 bytes a second
        4, 0, // bytes for each round of channels
        16, 0, // bits for each sample
        b'd', b'a', b't', b'a', 8, 0, 0, 0, // bytes of samples
        1, 0, 0xfe, 0xff, 2, 1, 0, 0x80,
    ];
    assert_eq!(expected, file);
}

#[test]
fn save_refuses_what_does_not_fit_a_header() {
    let mut file = vec![1, 2, 3];
    let many_channels = WavCodec::new(StreamInfo::new(8000, 16384));
    assert_eq!(Err(ERR_SAVE), many_channels.save_to(&mut file));
    assert_eq!(vec![1, 2, 3], file);
    let fast = WavCodec::new(StreamInfo::new(u32::MAX, 1));
    assert_eq!(Err(ERR_SAVE), fast.save_to(&mut file));
    assert_eq!(vec![1, 2, 3], file);
    let fits = WavCodec::new(StreamInfo::new(65535, 16383));
    assert_eq!(Ok(()), fits.save_to(&mut file));
    assert_eq!(47, file.len());
}

#[test]
fn load_reads_back_what_was_saved() {
    let file = counting_file(2, 300);
    let mut loaded = WavCodec::load(&file).unwrap();
    assert_eq!(2, loaded.info().channels());
    assert_eq!(8000, loaded.info().frequency());
    assert_eq!(300, loaded.num_samples());
    let mut out = [0i16; 301];
    assert_eq!(Some(300), loaded.decode(&mut out));
    assert_eq!((0..300).collect::<Vec<i16>>(), out[0..300].to_vec());
    assert_eq!(0, out[300]);
    assert_eq!(None, loaded.decode(&mut out));
    let mut copy = Vec::new();
    loaded.save_to(&mut copy).unwrap();
    assert_eq!(file, copy);
}

#[test]
fn load_errors() {
    // shorter than the window in which the header is looked for
    assert_eq!(ERR_HEADER, WavCodec::load(&[]).err().unwrap());
    assert_eq!(ERR_HEADER, WavCodec::load(&counting_file(1, 105)).err().unwrap());
    assert!(WavCodec::load(&counting_file(1, 106)).is_ok());

    // no data chunk within the window
    let mut file = counting_file(1, 200);
    file[36] = b'x';
    assert_eq!(ERR_DATA, WavCodec::load(&file).err().unwrap());
    // one that begins too late for its length to lie within the window
    file[250] = b'd';
    file[251] = b'a';
    file[252] = b't';
    file[253] = b'a';
    assert_eq!(ERR_DATA, WavCodec::load(&file).err().unwrap());

    // samples of 24 bits
    let mut file = counting_file(1, 200);
    file[34] = 24;
    assert_eq!(ERR_BITS, WavCodec::load(&file).err().unwrap());
    // a format other than linear PCM; the sample size is looked at first
    let mut file = counting_file(1, 200);
    file[20] = 3;
    assert_eq!(ERR_FORMAT, WavCodec::load(&file).err().unwrap());
    file[34] = 32;
    assert_eq!(ERR_BITS, WavCodec::load(&file).err().unwrap());
}

#[test]
fn load_skips_chunks_before_the_data() {
    let mut file = counting_file(1, 400);
    // push the data chunk back by a chunk of twelve bytes
    let mut stretched = file[0..36].to_vec();
    stretched.extend_from_slice(b"LIST\x04\x00\x00\x00abcd");
    stretched.extend_from_slice(&file[36..]);
    file = stretched;
    let mut loaded = WavCodec::load(&file).unwrap();
    assert_eq!(400, loaded.num_samples());
    let mut out = [0i16; 4];
    assert_eq!(Some(4), loaded.decode(&mut out));
    assert_eq!([0, 1, 2, 3], out);
}

#[test]
fn load_widens_samples_of_eight_bits() {
    let mut file = counting_file(1, 200);
    file[34] = 8;
    // the first samples of the data
    file[44] = 0;
    file[45] = 255;
    file[46] = 128;
    file[47] = 127;
    file[48] = 85;
    file[49] = 170;
    let mut loaded = WavCodec::load(&file).unwrap();
    assert_eq!(400, loaded.num_samples());
    let mut out = [0i16; 6];
    assert_eq!(Some(6), loaded.decode(&mut out));
    // (2 * s - 255) * 32766 / 255, rounded towards zero
    assert_eq!([-32766, 32766, 128, -128, -10922, 10922], out);
}

#[test]
fn load_takes_the_channel_field_with_its_sign() {
    let mut file = counting_file(1, 200);
    file[22] = 0xff;
    file[23] = 0xff;
    let loaded = WavCodec::load(&file).unwrap();
    assert_eq!(u32::MAX as usize, loaded.info().channels());
}

#[test]
fn encode_writes_whole_rounds() {
    let mut codec = WavCodec::new(StreamInfo::new(8000, 3));
    assert_eq!(Some(6), codec.encode(&[1, 2, 3, 4, 5, 6, 7, 8]));
    assert_eq!(6, codec.num_samples());
    assert_eq!(Some(0), codec.encode(&[9, 10]));
    let mut silent = WavCodec::new(StreamInfo::new(8000, 0));
    assert_eq!(None, silent.encode(&[1, 2, 3]));
    let mut out = [0i16; 4];
    assert_eq!(None, silent.decode(&mut out));
}

#[test]
fn write_sample_overwrites_within_and_appends_at_the_end() {
    let mut codec = WavCodec::new(StreamInfo::new(1000, 1));
    codec.encode(&[10, 20, 30, 40]);
    codec.seek(SeekFrom::Start(1));
    codec.write_sample(-1);
    codec.write_sample(-2);
    codec.write_sample(-3);
    codec.write_sample(-4);
    assert_eq!(5, codec.num_samples());
    codec.seek(SeekFrom::Start(0));
    let mut out = [0i16; 8];
    assert_eq!(Some(5), codec.decode(&mut out));
    assert_eq!([10, -1, -2, -3, -4], out[0..5]);
}

#[test]
fn decode_reads_whole_rounds() {
    let mut codec = WavCodec::new(StreamInfo::new(8000, 2));
    codec.encode(&[1, 2, 3, 4, 5, 6]);
    codec.seek(SeekFrom::Start(0));
    let mut out = [0i16; 5];
    assert_eq!(Some(4), codec.decode(&mut out));
    assert_eq!([1, 2, 3, 4, 0], out);
    let mut one = [0i16; 1];
    assert_eq!(None, codec.decode(&mut one));
    assert_eq!(Some(2), codec.decode(&mut out));
    assert_eq!([5, 6, 3, 4, 0], out);
    assert_eq!(None, codec.decode(&mut out));
}

#[test]
fn seek_by_time() {
    // 2000 Hz, two channels: four samples for each millisecond
    let mut codec = WavCodec::new(StreamInfo::new(2000, 2));
    let data: Vec<i16> = (0..100).collect();
    codec.encode(&data);
    let mut out = [0i16; 2];

    codec.seek(SeekFrom::Start(3));
    assert_eq!(Some(2), codec.decode(&mut out));
    assert_eq!([12, 13], out);

    // from the round that the cursor is in: the cursor is at 14
    codec.seek(SeekFrom::Current(2));
    assert_eq!(Some(2), codec.decode(&mut out));
    assert_eq!([22, 23], out);
    codec.seek(SeekFrom::Current(-5));
    assert_eq!(Some(2), codec.decode(&mut out));
    assert_eq!([4, 5], out);
    codec.seek(SeekFrom::Current(-5));
    assert_eq!(Some(2), codec.decode(&mut out));
    assert_eq!([0, 1], out);

    // from the end the offset counts from the start as well
    codec.seek(SeekFrom::End(1));
    assert_eq!(Some(2), codec.decode(&mut out));
    assert_eq!([4, 5], out);
    codec.seek(SeekFrom::End(-1));
    assert_eq!(Some(2), codec.decode(&mut out));
    assert_eq!([0, 1], out);

    // beyond the end: the last sample
    codec.seek(SeekFrom::Start(u64::MAX));
    let mut rest = [0i16; 2];
    assert_eq!(None, codec.decode(&mut rest[0..1]));
    assert_eq!(Some(2), {
        codec.seek(SeekFrom::Start(24));
        codec.decode(&mut rest)
    });
    assert_eq!([96, 97], rest);

    // an empty signal
    let mut empty = WavCodec::new(StreamInfo::new(2000, 2));
    empty.seek(SeekFrom::Start(5));
    assert_eq!(None, empty.decode(&mut out));
}

#[test]
fn seek_rounds_towards_zero() {
    // 1500 Hz: one and a half samples for each millisecond
    let mut codec = WavCodec::new(StreamInfo::new(1500, 1));
    let data: Vec<i16> = (0..100).collect();
    codec.encode(&data);
    let mut out = [0i16; 1];
    codec.seek(SeekFrom::Start(3));
    codec.decode(&mut out);
    assert_eq!([4], out);
    codec.seek(SeekFrom::Start(50));
    // the cursor is at 75; three milliseconds back are 4.5 samples
    codec.seek(SeekFrom::Current(-3));
    codec.decode(&mut out);
    assert_eq!([71], out);
}
