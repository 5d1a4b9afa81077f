use std::io::Cursor;

use rand::Rng;

use rice::bitstream_io::{BigEndian, BitReader, BitWrite, BitWriter};
use rice::stream::{BitSink, BitSource};
use rice::{as_big, mask, Codec, ConfigError};

fn sink_over(buf: Vec<u8>) -> BitSink {
    BitSink { inner: BitWriter::new(Cursor::new(buf)) }
}

fn source_over(c: Cursor<Vec<u8>>) -> BitSource {
    BitSource { inner: BitReader::<_, BigEndian>::new(c) }
}

/// Encodes `words` one after another, then `pad` zero bits, and returns the bytes.
fn encode_all(codec: &Codec, width: u32, words: &[u64], pad: u32, buf: Vec<u8>) -> Vec<u8> {
    let mut b = sink_over(buf);
    for &w in words {
        codec.encode_word(width, w, &mut b).unwrap();
    }
    b.inner.write::<u64>(pad, 0).unwrap();
    b.inner.into_writer().into_inner()
}

fn decode_all(codec: &Codec, width: u32, bytes: Vec<u8>, n: usize) -> Vec<u64> {
    let mut r = source_over(Cursor::new(bytes));
    (0..n).map(|_| codec.decode_word(width, &mut r).unwrap()).collect()
}

#[test]
fn test_as_big() {
    assert!(as_big(0u8 as u64, 0));
    assert!(!as_big(0u8 as u64, 1));
    assert!(as_big(1u8 as u64, 0));
    assert!(!as_big((1u32 << 31 - 1) as u64, 1u32 << 31));
    assert!(as_big((1u32 << 31) as u64, 1u32 << 31));
    assert!(as_big(1u64 << 63, 1u32 << 31));
}

#[test]
fn test_mask() {
    assert_eq!(Ok(0), mask(0, 32));
    assert_eq!(Ok(1), mask(1, 32));
    assert_eq!(Ok(0b11), mask(2, 32));
    assert_eq!(Ok(0b111), mask(3, 32));
    assert_eq!(Ok(0xffffffff), mask(32, 32));
}

#[test]
fn test_roundtrip() {
    let codec = Codec(3);
    for i in 0u8..=255 {
        let mut b = sink_over(vec![0u8; 8]);
        codec.encode_word(8, i as u64, &mut b).unwrap();
        b.inner.write::<u32>(8, 0).unwrap();

        let mut c = b.inner.into_writer();
        c.set_position(0);
        if i < 8 {
            assert_eq!(&[0b10000_000 + (i << 3), 0, 0, 0, 0, 0, 0, 0], c.get_ref().as_slice());
        }

        let mut b = source_over(c);
        let j = codec.decode_word(8, &mut b).unwrap();

        assert_eq!(i as u64, j);
    }
}

#[test]
fn test_random() {
    let mut rng = rand::thread_rng();
    let msg: [u16; 32] = std::array::from_fn(|_| rng.gen());
    let words: Vec<u64> = msg.iter().map(|&w| w as u64).collect();

    for k in 1..13 {
        let codec = Codec(k);
        let bytes = encode_all(&codec, 16, &words, 16, Vec::new());
        let dmsg = decode_all(&codec, 16, bytes, 32);
        assert_eq!(words, dmsg);
    }
}

#[test]
fn small_symbols_take_one_byte() {
    let codec = Codec(3);
    for i in 0u8..8 {
        let bytes = encode_all(&codec, 8, &[i as u64], 8, vec![0u8; 4]);
        assert_eq!(vec![0b1000_0000 | (i << 3), 0, 0, 0], bytes);
    }
}

#[test]
fn rice_form_bits_exact() {
    // 13 = 0b1101 with k = 2: flag 1, quotient 3 as 111, terminator 0, low bits 01.
    let bytes = encode_all(&Codec(2), 8, &[13], 8, Vec::new());
    assert_eq!(vec![0b1111_0010], bytes);
}

#[test]
fn top_bit_forces_raw_form() {
    // 0xA5 with k = 1: flag 0, then the eight bits 10100101.
    let bytes = encode_all(&Codec(1), 8, &[0xA5], 7, Vec::new());
    assert_eq!(vec![0b0101_0010, 0b1000_0000], bytes);
    for k in 0..8 {
        let bytes = encode_all(&Codec(k), 8, &[0xFF], 7, Vec::new());
        assert_eq!(vec![0b0111_1111, 0b1000_0000], bytes);
    }
}

#[test]
fn full_literal_width_goes_raw() {
    // With k equal to the width the rice form would take w + 2 bits.
    let bytes = encode_all(&Codec(8), 8, &[3], 7, Vec::new());
    assert_eq!(vec![0b0000_0001, 0b1000_0000], bytes);
    assert_eq!(vec![3], decode_all(&Codec(8), 8, bytes, 1));
}

#[test]
fn codes_fit_width_plus_one() {
    for k in 0..=8u32 {
        let codec = Codec(k);
        for x in 0u64..256 {
            let mut b = sink_over(Vec::new());
            codec.encode_word(8, x, &mut b).unwrap();
            // Seven more bits flush any code of at most nine bits into two bytes.
            b.inner.write::<u32>(7, 0).unwrap();
            assert!(b.inner.into_writer().into_inner().len() <= 2);
        }
    }
}

#[test]
fn encoding_twice_gives_same_bits() {
    for k in 0..=16u32 {
        let codec = Codec(k);
        for &x in &[0u64, 1, 77, 4095, 65535] {
            let a = encode_all(&codec, 16, &[x], 16, Vec::new());
            let b = encode_all(&codec, 16, &[x], 16, Vec::new());
            assert_eq!(a, b);
        }
    }
}

#[test]
fn round_trip_all_widths() {
    let widths = [8u32, 16, 32, 64];
    for &w in &widths {
        let max = if w == 64 { u64::MAX } else { (1u64 << w) - 1 };
        let values = [0u64, 1, 2, 7, 100, max / 3, max - 1, max];
        for k in 0..=w {
            let codec = Codec(k);
            let bytes = encode_all(&codec, w, &values, 64, Vec::new());
            assert_eq!(values.to_vec(), decode_all(&codec, w, bytes, values.len()));
        }
    }
}

#[test]
fn mask_boundaries() {
    for &w in &[8u32, 16, 32, 64] {
        assert_eq!(Ok(0), mask(0, w));
    }
    assert_eq!(Ok(0xff), mask(8, 8));
    assert_eq!(Ok(0xffff), mask(16, 16));
    assert_eq!(Ok(0xffff_ffff), mask(32, 32));
    assert_eq!(Ok(u64::MAX), mask(64, 64));
    assert_eq!(Err(ConfigError::BitsExceedWidth), mask(9, 8));
    assert_eq!(Err(ConfigError::WidthTooLarge), mask(3, 65));
}

#[test]
fn guard_at_threshold() {
    let t = 1u32 << 31;
    assert!(!as_big(t as u64 - 1, t));
    assert!(as_big(t as u64, t));
    assert!(as_big(t as u64 + 1, t));
    assert!(as_big(1u64 << 32, t));
    assert!(as_big(1u64 << 32, u32::MAX));
    assert!(as_big(u64::MAX, u32::MAX));
    assert!(as_big(u32::MAX as u64, u32::MAX));
}

#[test]
fn validate_reports_config_errors() {
    assert_eq!(Ok(()), Codec(8).validate(8));
    assert_eq!(Err(ConfigError::BitsExceedWidth), Codec(9).validate(8));
    assert_eq!(Err(ConfigError::WidthTooLarge), Codec(1).validate(65));
}

#[test]
fn decode_from_empty_input_fails() {
    let mut r = source_over(Cursor::new(Vec::new()));
    assert!(Codec(3).decode_word(8, &mut r).is_err());
    // A rice flag and a run of ones with no terminator before the end.
    let mut r = source_over(Cursor::new(vec![0xFF]));
    assert!(Codec(3).decode_word(8, &mut r).is_err());
}
