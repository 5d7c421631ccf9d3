use session_codec::error::DecodeError;
use session_codec::wire::{Decoder, Encoder};

#[test]
fn integers_are_written_most_significant_byte_first() {
    let mut e = Encoder::new();
    e.put_u16(0x0102);
    e.put_u32(0x0304_0506);
    e.put_u64(0x0708_090a_0b0c_0d0e);
    assert_eq!(e.into_bytes(), vec![1, 2, 3, 4, 5, 6, 7, 8, 9, 10, 11, 12, 13, 14]);
}

#[test]
fn u128_is_written_as_sixteen_bytes() {
    let mut e = Encoder::new();
    e.put_u128(0x0001_0203_0405_0607_0809_0a0b_0c0d_0e0f);
    let expected: Vec<u8> = (0u8..16).collect();
    assert_eq!(e.into_bytes(), expected);
}

#[test]
fn small_numbers_are_padded_with_zero_bytes() {
    let mut e = Encoder::new();
    e.put_u32(1);
    e.put_u64(2);
    e.put_u128(3);
    let mut expected = vec![0, 0, 0, 1];
    expected.extend_from_slice(&[0, 0, 0, 0, 0, 0, 0, 2]);
    expected.extend_from_slice(&[0; 15]);
    expected.push(3);
    assert_eq!(e.into_bytes(), expected);
}

#[test]
fn encoder_agrees_with_bincode() {
    let mut e = Encoder::new();
    e.put_u16(0xbeef);
    e.put_u32(0xdead_beef);
    e.put_u64(0x0123_4567_89ab_cdef);
    let mut expected = bincode::rustc_serialize::encode(&0xbeefu16, bincode::SizeLimit::Infinite).unwrap();
    expected.extend(bincode::rustc_serialize::encode(&0xdead_beefu32, bincode::SizeLimit::Infinite).unwrap());
    expected.extend(
        bincode::rustc_serialize::encode(&0x0123_4567_89ab_cdefu64, bincode::SizeLimit::Infinite).unwrap(),
    );
    assert_eq!(e.into_bytes(), expected);
}

#[test]
fn put_array_appends_the_bytes_unchanged() {
    let mut e = Encoder::new();
    e.put_u16(0xffff);
    e.put_array(&[9u8, 8, 7]);
    assert_eq!(e.into_bytes(), vec![0xff, 0xff, 9, 8, 7]);
}

#[test]
fn integers_are_read_most_significant_byte_first() {
    let bytes = [1u8, 2, 3, 4, 5, 6, 7, 8, 9, 10, 11, 12, 13, 14, 99];
    let mut d = Decoder::new(&bytes);
    assert_eq!(d.get_u16(), Ok(0x0102));
    assert_eq!(d.position(), 2);
    assert_eq!(d.get_u32(), Ok(0x0304_0506));
    assert_eq!(d.position(), 6);
    assert_eq!(d.get_u64(), Ok(0x0708_090a_0b0c_0d0e));
    assert_eq!(d.position(), 14);
    assert_eq!(d.remaining_len(), 1);
}

#[test]
fn u128_is_read_from_sixteen_bytes() {
    let bytes: Vec<u8> = (0u8..16).collect();
    let mut d = Decoder::new(&bytes);
    assert_eq!(d.get_u128(), Ok(0x0001_0203_0405_0607_0809_0a0b_0c0d_0e0f));
    assert_eq!(d.remaining_len(), 0);
}

#[test]
fn largest_values_survive() {
    let mut e = Encoder::new();
    e.put_u16(u16::MAX);
    e.put_u32(u32::MAX);
    e.put_u64(u64::MAX);
    e.put_u128(u128::MAX);
    let bytes = e.into_bytes();
    assert_eq!(bytes, vec![0xff; 30]);
    let mut d = Decoder::new(&bytes);
    assert_eq!(d.get_u16(), Ok(u16::MAX));
    assert_eq!(d.get_u32(), Ok(u32::MAX));
    assert_eq!(d.get_u64(), Ok(u64::MAX));
    assert_eq!(d.get_u128(), Ok(u128::MAX));
}

#[test]
fn many_u32_values_survive() {
    let mut v: u32 = 1;
    for _ in 0..200 {
        let mut e = Encoder::new();
        e.put_u32(v);
        let bytes = e.into_bytes();
        assert_eq!(bytes, v.to_be_bytes().to_vec());
        let mut d = Decoder::new(&bytes);
        assert_eq!(d.get_u32(), Ok(v));
        v = v.wrapping_mul(2654435761).wrapping_add(12345);
    }
}

#[test]
fn many_u64_and_u16_values_survive() {
    let mut v: u64 = 7;
    for _ in 0..200 {
        let mut e = Encoder::new();
        e.put_u64(v);
        e.put_u16(v as u16);
        let bytes = e.into_bytes();
        let mut expected = v.to_be_bytes().to_vec();
        expected.extend_from_slice(&(v as u16).to_be_bytes());
        assert_eq!(bytes, expected);
        let mut d = Decoder::new(&bytes);
        assert_eq!(d.get_u64(), Ok(v));
        assert_eq!(d.get_u16(), Ok(v as u16));
        v = v.wrapping_mul(6364136223846793005).wrapping_add(1442695040888963407);
    }
}

#[test]
fn a_short_source_is_an_unexpected_end() {
    let bytes = [1u8, 2, 3];
    let mut d = Decoder::new(&bytes);
    assert_eq!(d.get_u32(), Err(DecodeError::UnexpectedEof));
    assert_eq!(d.position(), 0);
    assert_eq!(d.get_u64(), Err(DecodeError::UnexpectedEof));
    assert_eq!(d.get_u128(), Err(DecodeError::UnexpectedEof));
    assert_eq!(d.get_array::<4>(), Err(DecodeError::UnexpectedEof));
    assert_eq!(d.position(), 0);
    assert_eq!(d.get_u16(), Ok(0x0102));
    assert_eq!(d.get_u16(), Err(DecodeError::UnexpectedEof));
    assert_eq!(d.position(), 2);
}

#[test]
fn an_empty_source_yields_nothing_but_the_empty_array() {
    let bytes: [u8; 0] = [];
    let mut d = Decoder::new(&bytes);
    assert_eq!(d.get_u16(), Err(DecodeError::UnexpectedEof));
    assert_eq!(d.get_array::<0>(), Ok([]));
    assert_eq!(d.remaining_len(), 0);
}

#[test]
fn get_array_reads_the_bytes_unchanged() {
    let bytes = [5u8, 6, 7, 8, 9];
    let mut d = Decoder::new(&bytes);
    assert_eq!(d.get_array::<2>(), Ok([5, 6]));
    assert_eq!(d.get_array::<3>(), Ok([7, 8, 9]));
    assert_eq!(d.remaining_len(), 0);
}
