use adhoc_audio::collections::bitstream::{BitStream, CAPPED_MAX, CAPPED_MIN};

#[test]
fn compressed_capped() {
    let mut bit_stream = BitStream::new();
    for k in CAPPED_MIN + 1..CAPPED_MAX - 1 {
        bit_stream.write_compressed_capped(2, k as i16);
        bit_stream.seek_start();
        let result = bit_stream.read_compressed_capped(2);
        bit_stream.seek_start();
        assert_eq!(k, result, "{}!={} but should be equal", k, result);
    }
}

#[test]
fn compressed_test_negative() {
    let mut bit_stream = BitStream::new();
    for k in -31000..=-1 {
        bit_stream.write_compressed_divisor(2, k);
        bit_stream.seek_start();
        let result = bit_stream.read_compressed_divisor(2);
        bit_stream.seek_start();
        assert_eq!(k, result);
    }
}

#[test]
fn compressed_test_positive() {
    let mut bit_stream = BitStream::new();
    for k in 0..31000 {
        bit_stream.write_compressed_divisor(2, k);
        bit_stream.seek_start();
        let result = bit_stream.read_compressed_divisor(2);
        bit_stream.seek_start();

        assert_eq!(k, result, "k == {}", k);
    }
}

#[test]
fn bitstream_sanity() {
    let mut bit_stream = BitStream::new();

    let write_numbers = vec![1u32, 10, 15, 20, 25];
    let mut read_numbers: Vec<u32> = vec![];
    for &x in write_numbers.iter() {
        bit_stream.write(x);
    }
    bit_stream.set_bit_cursor(0);
    for _ in 0..write_numbers.len() {
        read_numbers.push(bit_stream.read::<u32>() as u32);
    }
    assert_eq!(write_numbers, read_numbers);
}

#[test]
fn boundary() {
    let mut bit_stream = BitStream::new();
    bit_stream.set_bit_cursor(126);
    bit_stream.write::<u8>(7);
    bit_stream.set_bit_cursor(126);
    let val = bit_stream.read::<u8>();
    assert_eq!(val, 7);
}

#[test]
fn shotgun_aligned() {
    let mut bit_stream = BitStream::new();

    let mut write_numbers: Vec<u32> = vec![];
    let mut read_numbers: Vec<u32> = vec![];

    for trial in 0..1000 {
        let length = rand::random::<u32>() % 1000;
        write_numbers.clear();
        read_numbers.clear();
        bit_stream.seek_start();

        for _ in 0..length {
            write_numbers.push(rand::random::<u32>() % 10u32);
        }

        bit_stream.seek_start();
        for &x in write_numbers.iter() {
            bit_stream.write::<u32>(x);
        }

        bit_stream.seek_start();

        for _ in 0..write_numbers.len() {
            read_numbers.push(bit_stream.read::<u32>() as u32);
        }
        assert_eq!(write_numbers, read_numbers, "trial number: {}", trial + 1);
    }
}

#[test]
fn shotgun_unaligned() {
    let mut bit_stream = BitStream::new();

    let mut write_numbers: Vec<u32> = vec![];
    let mut read_numbers: Vec<u32> = vec![];

    for trial in 0..1000 {
        let length = rand::random::<u32>() % 1000;
        write_numbers.clear();
        read_numbers.clear();
        bit_stream.seek_start();

        write_numbers.push(1);
        for _ in 0..length {
            write_numbers.push(rand::random::<u32>() % 10u32);
        }

        bit_stream.seek_start();

        bit_stream.write_bit(1);
        for &x in write_numbers.iter().skip(1) {
            bit_stream.write::<u32>(x);
        }

        bit_stream.seek_start();

        read_numbers.push(bit_stream.read_bit() as u32);
        for _ in 0..write_numbers.len() - 1 {
            read_numbers.push(bit_stream.read::<u32>() as u32);
        }
        assert_eq!(write_numbers, read_numbers, "trial number: {}", trial + 1);
    }
}

#[test]
fn rice_round_trip_for_every_exponent() {
    let mut bit_stream = BitStream::new();
    for k in 1..=15i16 {
        for &e in &[
            0i16, 1, -1, 2, -2, 15, 16, 17, -255, 256, 1000, -4096, 31000, -31000, 32767, -32767,
        ] {
            bit_stream.set_bit_cursor(77);
            bit_stream.write_compressed(k, e);
            let end = bit_stream.len();
            bit_stream.set_bit_cursor(77);
            assert_eq!(e, bit_stream.read_compressed(k), "k == {}", k);
            assert_eq!(end, bit_stream.len());
        }
    }
}

#[test]
fn rice_code_bits() {
    // 5 with the exponent 2: a clear sign bit, the quotient 1 as one set bit
    // and the end mark, the remainder 1 in two bits
    let mut bit_stream = BitStream::new();
    bit_stream.write_compressed(2, 5);
    assert_eq!(5, bit_stream.len());
    assert_eq!(5, bit_stream.capacity());
    bit_stream.seek_start();
    assert_eq!(0b01010, bit_stream.read_bits(5));
    // -5: the same behind a set sign bit
    bit_stream.seek_start();
    bit_stream.write_compressed(2, -5);
    bit_stream.seek_start();
    assert_eq!(0b01011, bit_stream.read_bits(5));
    // 40 with the divisor 8: exponent 3, quotient 5, remainder 0
    bit_stream.seek_start();
    bit_stream.write_compressed_divisor(8, 40);
    assert_eq!(1 + 6 + 3, bit_stream.len());
    bit_stream.seek_start();
    assert_eq!(0b000_0111110, bit_stream.read_bits(10));
    // a quotient of 33 (one set bit, then two runs of sixteen), the end mark
    // and the remainder 1
    bit_stream.seek_start();
    bit_stream.write_compressed(1, 67);
    assert_eq!(1 + 34 + 1, bit_stream.len());
    bit_stream.seek_start();
    assert_eq!((1u128 << 35) | ((1u128 << 33) - 1) << 1, bit_stream.read_bits(36));
}

#[test]
fn divisor_stands_for_the_set_bits_below_it() {
    let mut by_divisor = BitStream::new();
    let mut by_exponent = BitStream::new();
    // 2, 4, 16384: powers of two; 3 and 6 count the set bits of 2 and 5
    for &(divisor, exponent) in &[(2i16, 1i16), (4, 2), (16384, 14), (3, 1), (6, 2), (32767, 14)] {
        by_divisor.seek_start();
        by_exponent.seek_start();
        by_divisor.write_compressed_divisor(divisor, -1234);
        by_exponent.write_compressed(exponent, -1234);
        assert_eq!(by_exponent.len(), by_divisor.len());
        by_divisor.seek_start();
        assert_eq!(-1234, by_divisor.read_compressed(exponent));
        by_exponent.seek_start();
        assert_eq!(-1234, by_exponent.read_compressed_divisor(divisor));
    }
}

#[test]
fn capped_code_bits_and_limits() {
    let mut bit_stream = BitStream::new();
    // a quotient below 16: a clear bit and the Rice code
    bit_stream.write_compressed_capped(2, 31);
    assert_eq!(1 + 1 + 16 + 1, bit_stream.len());
    bit_stream.seek_start();
    assert_eq!(31, bit_stream.read_compressed_capped(2));
    // a quotient of 16: a set bit and fourteen bits
    bit_stream.seek_start();
    bit_stream.write_compressed_capped(2, 32);
    assert_eq!(15, bit_stream.len());
    bit_stream.seek_start();
    assert_eq!(0b1 | 32 << 1, bit_stream.read_bits(15));
    bit_stream.seek_start();
    assert_eq!(32, bit_stream.read_compressed_capped(2));
    // the limits of the fourteen bits
    for &value in &[CAPPED_MIN, CAPPED_MIN + 1, -33, 33, CAPPED_MAX - 1, CAPPED_MAX] {
        bit_stream.seek_start();
        bit_stream.write_compressed_capped(2, value);
        bit_stream.seek_start();
        assert_eq!(value, bit_stream.read_compressed_capped(2));
    }
    assert_eq!(8191, CAPPED_MAX);
    assert_eq!(-8192, CAPPED_MIN);
    // beyond them the value is clamped
    bit_stream.seek_start();
    bit_stream.write_compressed_capped(2, 20000);
    bit_stream.seek_start();
    assert_eq!(CAPPED_MAX, bit_stream.read_compressed_capped(2));
    bit_stream.seek_start();
    bit_stream.write_compressed_capped(2, -20000);
    bit_stream.seek_start();
    assert_eq!(CAPPED_MIN, bit_stream.read_compressed_capped(2));
    // with a large divisor large values keep their Rice code
    bit_stream.seek_start();
    bit_stream.write_compressed_capped(4096, 20000);
    bit_stream.seek_start();
    assert_eq!(20000, bit_stream.read_compressed_capped(4096));
}

#[test]
fn write_keeps_the_bits_around_it() {
    let mut bit_stream = BitStream::new();
    bit_stream.write_bits(u64::MAX, 64);
    bit_stream.write_bits(u64::MAX, 64);
    bit_stream.write_bits(u64::MAX, 64);
    assert_eq!(192, bit_stream.capacity());
    // of the value only the low bits are written
    bit_stream.set_bit_cursor(120);
    bit_stream.write_bits(0xff00u16, 12);
    assert_eq!(132, bit_stream.len());
    assert_eq!(192, bit_stream.capacity());
    bit_stream.seek_start();
    assert_eq!(u64::MAX as u128, bit_stream.read_bits(64));
    assert_eq!((1u128 << 56) - 1, bit_stream.read_bits(56));
    assert_eq!(0xf00, bit_stream.read_bits(12));
    assert_eq!((1u128 << 60) - 1, bit_stream.read_bits(60));
    // nothing is written with no bits
    bit_stream.set_bit_cursor(1000);
    bit_stream.write_bits(1u8, 0);
    assert_eq!(1000, bit_stream.len());
    assert_eq!(192, bit_stream.capacity());
}

#[test]
fn fields_of_128_bits() {
    let mut bit_stream = BitStream::new();
    let value = 0x0123_4567_89ab_cdef_fedc_ba98_7654_3210u128;
    bit_stream.write_bit(1);
    for shift in 0..64 {
        bit_stream.write_bits(value.rotate_left(shift) as u64, 64);
        bit_stream.write_bits((value.rotate_left(shift) >> 64) as u64, 64);
    }
    bit_stream.seek_start();
    assert_eq!(1, bit_stream.read_bit());
    for shift in 0..64 {
        assert_eq!(value.rotate_left(shift), bit_stream.peek::<u128>());
        assert_eq!(value.rotate_left(shift), bit_stream.peek_bits(128));
        assert_eq!(value.rotate_left(shift), bit_stream.read_bits(128));
    }
    assert_eq!(1 + 64 * 128, bit_stream.len());
}

#[test]
fn reading_past_the_end_gives_clear_bits() {
    let mut bit_stream = BitStream::new();
    assert_eq!(0, bit_stream.read_bit());
    assert_eq!(1, bit_stream.len());
    assert_eq!(0, bit_stream.capacity());
    bit_stream.seek_start();
    bit_stream.write::<u8>(0xff);
    bit_stream.set_bit_cursor(4);
    // four bits of the byte, then clear bits
    assert_eq!(0x0f, bit_stream.peek::<u16>());
    assert_eq!(4, bit_stream.len());
    assert_eq!(0x0f, bit_stream.read::<u16>());
    assert_eq!(20, bit_stream.len());
    assert_eq!(8, bit_stream.capacity());
    assert_eq!(0, bit_stream.read_bits(128));
    bit_stream.set_bit_cursor(1 << 40);
    assert_eq!(0, bit_stream.read_bits(100));
    assert_eq!(0, bit_stream.read_compressed(3));
    assert_eq!((1 << 40) + 100 + 5, bit_stream.len());
    assert_eq!(8, bit_stream.capacity());
}

#[test]
fn decoder_saturates_on_endless_quotients() {
    let mut bit_stream = BitStream::new();
    for _ in 0..1000 {
        bit_stream.write_bits(u64::MAX, 64);
    }
    // a set sign bit and 63999 set bits: more than sixteen bits hold
    bit_stream.seek_start();
    assert_eq!(-32767, bit_stream.read_compressed(1));
    assert_eq!(64000 + 1 + 1, bit_stream.len());
    // behind a clear sign bit
    bit_stream.seek_start();
    bit_stream.write_bit(0);
    bit_stream.seek_start();
    assert_eq!(32767, bit_stream.read_compressed(15));
    // the largest magnitude that fits
    bit_stream.seek_start();
    bit_stream.write_compressed(1, -32767);
    bit_stream.seek_start();
    assert_eq!(-32767, bit_stream.read_compressed(1));
}

#[test]
fn zero_and_cursor_moves() {
    let mut bit_stream = BitStream::new();
    bit_stream.write::<u32>(0xdead_beef);
    bit_stream.write::<u64>(u64::MAX);
    assert_eq!(96, bit_stream.len());
    bit_stream.offset_bit_cursor(-90);
    assert_eq!(6, bit_stream.len());
    assert_eq!(96, bit_stream.capacity());
    // the cursor raises the high-water mark where it passes it
    bit_stream.offset_bit_cursor(200);
    assert_eq!(206, bit_stream.len());
    assert_eq!(206, bit_stream.capacity());
    bit_stream.seek_start();
    assert_eq!(0xdead_beef, bit_stream.read::<u32>());
    bit_stream.zero();
    assert_eq!(32, bit_stream.len());
    assert_eq!(206, bit_stream.capacity());
    bit_stream.seek_start();
    assert_eq!(0, bit_stream.read_bits(128));
    assert_eq!(0, bit_stream.read_bits(78));
    assert!(bit_stream.words().iter().all(|&w| w == 0));
}

#[test]
fn mixed_widths_round_trip() {
    let mut bit_stream = BitStream::new();
    let fields: Vec<(u64, usize)> = (1..=64usize)
        .map(|n| {
            let value = 0x9e37_79b9_7f4a_7c15u64.wrapping_mul(n as u64 + 1);
            (if n == 64 { value } else { value & ((1 << n) - 1) }, n)
        })
        .collect();
    bit_stream.set_bit_cursor(3);
    for &(value, n) in fields.iter() {
        bit_stream.write_bits(value, n);
    }
    bit_stream.set_bit_cursor(3);
    for &(value, n) in fields.iter() {
        assert_eq!(value as u128, bit_stream.read_bits(n));
    }
}

#[test]
fn fresh_stream_allocates_nothing() {
    let stream = BitStream::new();
    assert_eq!(0, stream.len());
    assert_eq!(0, stream.capacity());
    assert!(stream.words().is_empty());
}

#[test]
fn quotient_runs_of_every_length_are_read() {
    // the decoder passes over the quotient in groups of set bits; every
    // length around the group widths must come back
    for quotient in 0..300i32 {
        let value = (quotient * 2 + 1) as i16;
        let mut stream = BitStream::new();
        stream.write_compressed(1, value);
        stream.write_compressed(1, -value);
        let written = stream.len();
        stream.seek_start();
        assert_eq!(value, stream.read_compressed(1));
        assert_eq!(-value, stream.read_compressed(1));
        assert_eq!(written, stream.len());
    }
}
