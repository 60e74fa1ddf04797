//! The shared wire primitives, and the read-skip offset agreement.

use rdb::decimal::i64_decimal;
use rdb::error::RdbError;
use rdb::primitives::{read_blob, read_length, read_length_with_encoding, skip_blob, verify_magic, verify_version};
use rdb::parser::skip_key_and_object;
use rdb::reader::ByteReader;

#[test]
fn length_six_bit() {
    let mut r = ByteReader::new(vec![5]);
    assert_eq!(read_length_with_encoding(&mut r), Ok((5, false)));
}

#[test]
fn length_fourteen_bit() {
    let mut r = ByteReader::new(vec![0x41, 0x02]);
    assert_eq!(read_length_with_encoding(&mut r), Ok((258, false)));
}

#[test]
fn length_thirty_two_bit_big_endian() {
    let mut r = ByteReader::new(vec![0x80, 0, 0, 1, 0]);
    assert_eq!(read_length(&mut r), Ok(256));
}

#[test]
fn length_encoding_code() {
    let mut r = ByteReader::new(vec![0xC2]);
    assert_eq!(read_length_with_encoding(&mut r), Ok((2, true)));
}

#[test]
fn length_short_read() {
    let mut r = ByteReader::new(vec![0x41]);
    assert_eq!(read_length(&mut r), Err(RdbError::ShortRead));
}

#[test]
fn blob_plain() {
    let mut r = ByteReader::new(vec![3, 97, 98, 99, 100]);
    assert_eq!(read_blob(&mut r), Ok(b"abc".to_vec()));
    assert_eq!(r.pos, 4);
}

#[test]
fn blob_int8_negative() {
    let mut r = ByteReader::new(vec![0xC0, 0xF6]);
    assert_eq!(read_blob(&mut r), Ok(b"-10".to_vec()));
}

#[test]
fn blob_int16() {
    let mut r = ByteReader::new(vec![0xC1, 0x2C, 0x01]);
    assert_eq!(read_blob(&mut r), Ok(b"300".to_vec()));
}

#[test]
fn blob_int32_negative() {
    let mut r = ByteReader::new(vec![0xC2, 0xFE, 0xFF, 0xFF, 0xFF]);
    assert_eq!(read_blob(&mut r), Ok(b"-2".to_vec()));
}

#[test]
fn blob_unknown_encoding_is_corrupt() {
    let mut r = ByteReader::new(vec![0xC5, 1, 2, 3]);
    assert_eq!(read_blob(&mut r), Err(RdbError::Corrupt));
}

fn lzf_blob() -> (Vec<u8>, Vec<u8>) {
    let data: Vec<u8> = std::iter::repeat(b"redisredis".to_vec()).take(5).flatten().collect();
    let compressed = lzf::compress(&data).unwrap();
    assert!(compressed.len() < 64);
    let mut blob = vec![0xC3, compressed.len() as u8, data.len() as u8];
    blob.extend(compressed);
    (blob, data)
}

#[test]
fn blob_lzf_roundtrip() {
    let (blob, data) = lzf_blob();
    let mut r = ByteReader::new(blob);
    assert_eq!(read_blob(&mut r), Ok(data));
}

#[test]
fn blob_lzf_wrong_declared_length_is_corrupt() {
    let (mut blob, _) = lzf_blob();
    blob[2] = blob[2] - 1;
    let mut r = ByteReader::new(blob);
    assert_eq!(read_blob(&mut r), Err(RdbError::Corrupt));
}

#[test]
fn read_and_skip_agree_on_lzf_blob() {
    let (blob, _) = lzf_blob();
    let mut reading = ByteReader::new(blob.clone());
    let mut skipping = ByteReader::new(blob);
    assert!(read_blob(&mut reading).is_ok());
    assert_eq!(skip_blob(&mut skipping), Ok(()));
    assert_eq!(reading.pos, skipping.pos);
}

#[test]
fn read_and_skip_agree_on_plain_blob() {
    let blob = vec![4, 1, 2, 3, 4, 9, 9];
    let mut reading = ByteReader::new(blob.clone());
    let mut skipping = ByteReader::new(blob);
    assert!(read_blob(&mut reading).is_ok());
    assert_eq!(skip_blob(&mut skipping), Ok(()));
    assert_eq!(reading.pos, skipping.pos);
    assert_eq!(reading.pos, 5);
}

#[test]
fn skip_key_and_object_lands_after_record() {
    let bytes = vec![0x03, 0x66, 0x6F, 0x6F, 0x03, 0x62, 0x61, 0x72, 0xAA];
    let mut r = ByteReader::new(bytes);
    assert_eq!(skip_key_and_object(&mut r, 0), Ok(()));
    assert_eq!(r.pos, 8);
}

#[test]
fn magic_accepted() {
    let mut r = ByteReader::new(b"REDIS0009".to_vec());
    assert_eq!(verify_magic(&mut r), Ok(()));
    assert_eq!(r.pos, 5);
    assert_eq!(verify_version(&mut r), Ok(()));
    assert_eq!(r.pos, 9);
}

#[test]
fn magic_rejected() {
    let mut r = ByteReader::new(b"READY0009".to_vec());
    assert_eq!(verify_magic(&mut r), Err(RdbError::InvalidMagic));
}

#[test]
fn version_above_range_rejected() {
    let mut r = ByteReader::new(b"0010".to_vec());
    assert_eq!(verify_version(&mut r), Err(RdbError::UnsupportedVersion(10)));
}

#[test]
fn decimal_rendering_extremes() {
    assert_eq!(i64_decimal(0), b"0".to_vec());
    assert_eq!(i64_decimal(-1), b"-1".to_vec());
    assert_eq!(i64_decimal(i64::MAX), b"9223372036854775807".to_vec());
    assert_eq!(i64_decimal(i64::MIN), b"-9223372036854775808".to_vec());
}
