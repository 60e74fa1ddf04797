//! End-to-end parses of small snapshots.

use rdb::error::RdbError;
use rdb::events::{EncodingType, Event};
use rdb::filter::{AllowAllFilter, DenyAllFilter};
use rdb::formatter::VecFormatter;
use rdb::parser::RdbParser;
use rdb::reader::ByteReader;

fn head() -> Vec<u8> {
    vec![0x52, 0x45, 0x44, 0x49, 0x53, 0x30, 0x30, 0x30, 0x39]
}

fn parse_all(bytes: Vec<u8>) -> (Result<(), RdbError>, Vec<Event>) {
    let mut p = RdbParser::new(ByteReader::new(bytes), VecFormatter::new(), AllowAllFilter);
    let r = p.parse();
    (r, p.formatter.log)
}

#[test]
fn empty_db_v9() {
    let mut bytes = head();
    bytes.extend(vec![0xFF, 1, 2, 3, 4, 5, 6, 7, 8]);
    let (r, log) = parse_all(bytes);
    assert!(r.is_ok());
    assert_eq!(
        log,
        vec![
            Event::StartRdb,
            Event::EndDatabase(0),
            Event::EndRdb,
            Event::Checksum(vec![1, 2, 3, 4, 5, 6, 7, 8]),
        ]
    );
}

#[test]
fn single_string() {
    let mut bytes = head();
    bytes.extend(vec![0xFE, 0x00]);
    bytes.extend(vec![0x00, 0x03, 0x66, 0x6F, 0x6F, 0x03, 0x62, 0x61, 0x72]);
    bytes.extend(vec![0xFF, 0, 0, 0, 0, 0, 0, 0, 0]);
    let (r, log) = parse_all(bytes);
    assert!(r.is_ok());
    assert_eq!(
        log,
        vec![
            Event::StartRdb,
            Event::StartDatabase(0),
            Event::Scalar { key: b"foo".to_vec(), value: b"bar".to_vec(), expiry: None },
            Event::EndDatabase(0),
            Event::EndRdb,
            Event::Checksum(vec![0; 8]),
        ]
    );
}

#[test]
fn expiring_string() {
    let mut bytes = head();
    bytes.extend(vec![0xFE, 0x00]);
    bytes.extend(vec![0xFC, 0x01, 0, 0, 0, 0, 0, 0, 0]);
    bytes.extend(vec![0x00, 0x03, 0x66, 0x6F, 0x6F, 0x03, 0x62, 0x61, 0x72]);
    bytes.extend(vec![0xFF, 0, 0, 0, 0, 0, 0, 0, 0]);
    let (r, log) = parse_all(bytes);
    assert!(r.is_ok());
    assert_eq!(
        log[2],
        Event::Scalar { key: b"foo".to_vec(), value: b"bar".to_vec(), expiry: Some(1) }
    );
}

#[test]
fn expiry_cleared_after_one_record() {
    let mut bytes = head();
    bytes.extend(vec![0xFE, 0x00]);
    bytes.extend(vec![0xFC, 0x01, 0, 0, 0, 0, 0, 0, 0]);
    bytes.extend(vec![0x00, 0x03, 0x66, 0x6F, 0x6F, 0x03, 0x62, 0x61, 0x72]);
    bytes.extend(vec![0x00, 0x03, 0x62, 0x61, 0x7A, 0x03, 0x71, 0x75, 0x78]);
    bytes.extend(vec![0xFF, 0, 0, 0, 0, 0, 0, 0, 0]);
    let (r, log) = parse_all(bytes);
    assert!(r.is_ok());
    assert_eq!(
        log[2],
        Event::Scalar { key: b"foo".to_vec(), value: b"bar".to_vec(), expiry: Some(1) }
    );
    assert_eq!(
        log[3],
        Event::Scalar { key: b"baz".to_vec(), value: b"qux".to_vec(), expiry: None }
    );
}

#[test]
fn expiry_in_seconds() {
    let mut bytes = head();
    bytes.extend(vec![0xFE, 0x00]);
    bytes.extend(vec![0xFD, 0x00, 0x00, 0x00, 0x02]);
    bytes.extend(vec![0x00, 0x01, 0x6B, 0x01, 0x76]);
    bytes.extend(vec![0xFF, 0, 0, 0, 0, 0, 0, 0, 0]);
    let (r, log) = parse_all(bytes);
    assert!(r.is_ok());
    assert_eq!(
        log[2],
        Event::Scalar { key: b"k".to_vec(), value: b"v".to_vec(), expiry: Some(2000) }
    );
}

fn small_list_ziplist_bytes() -> Vec<u8> {
    let mut zl = vec![17, 0, 0, 0, 0, 0, 0, 0, 3, 0];
    zl.extend(vec![0x00, 0xF2, 0x02, 0xF3, 0x02, 0xF4, 0xFF]);
    assert_eq!(zl.len(), 17);
    let mut bytes = head();
    bytes.extend(vec![0xFE, 0x00]);
    bytes.extend(vec![0x0A, 0x01, 0x6B, 0x11]);
    bytes.extend(zl);
    bytes.extend(vec![0xFF, 0, 0, 0, 0, 0, 0, 0, 0]);
    bytes
}

#[test]
fn small_list_ziplist() {
    let (r, log) = parse_all(small_list_ziplist_bytes());
    assert!(r.is_ok());
    assert_eq!(
        log[2..6].to_vec(),
        vec![
            Event::StartList { key: b"k".to_vec(), count: 3, expiry: None, enc: EncodingType::Ziplist(17) },
            Event::ListElement { key: b"k".to_vec(), value: b"1".to_vec() },
            Event::ListElement { key: b"k".to_vec(), value: b"2".to_vec() },
            Event::ListElement { key: b"k".to_vec(), value: b"3".to_vec() },
        ]
    );
    assert_eq!(log[6], Event::EndList { key: b"k".to_vec() });
}

#[test]
fn intset_of_two() {
    let mut bytes = head();
    bytes.extend(vec![0xFE, 0x00]);
    bytes.extend(vec![0x0B, 0x01, 0x6B, 0x0C]);
    bytes.extend(vec![2, 0, 0, 0, 2, 0, 0, 0, 7, 0, 42, 0]);
    bytes.extend(vec![0xFF, 0, 0, 0, 0, 0, 0, 0, 0]);
    let (r, log) = parse_all(bytes);
    assert!(r.is_ok());
    assert_eq!(
        log[2..6].to_vec(),
        vec![
            Event::StartSet { key: b"k".to_vec(), count: 2, expiry: None, enc: EncodingType::Intset(12) },
            Event::SetElement { key: b"k".to_vec(), value: b"7".to_vec() },
            Event::SetElement { key: b"k".to_vec(), value: b"42".to_vec() },
            Event::EndSet { key: b"k".to_vec() },
        ]
    );
}

#[test]
fn unsupported_version() {
    let bytes = vec![0x52, 0x45, 0x44, 0x49, 0x53, 0x30, 0x30, 0x30, 0x31];
    let (r, log) = parse_all(bytes);
    assert_eq!(r, Err(RdbError::UnsupportedVersion(1)));
    assert!(log.is_empty());
}

#[test]
fn deny_all_filter_reaches_same_stream_end() {
    let bytes = small_list_ziplist_bytes();
    let (r1, log1) = parse_all(bytes.clone());
    let mut p2 = RdbParser::new(ByteReader::new(bytes), VecFormatter::new(), DenyAllFilter);
    let r2 = p2.parse();
    let log2 = p2.formatter.log;
    assert!(r1.is_ok());
    assert!(r2.is_ok());
    assert_eq!(
        log2,
        vec![
            Event::StartRdb,
            Event::EndDatabase(0),
            Event::EndRdb,
            Event::Checksum(vec![0; 8]),
        ]
    );
    assert_eq!(log1[log1.len() - 3..], log2[log2.len() - 3..]);
}

#[test]
fn aux_and_resizedb_events() {
    let mut bytes = head();
    bytes.extend(vec![0xFA, 0x01, 0x61, 0x01, 0x62]);
    bytes.extend(vec![0xFB, 0x05, 0x03]);
    bytes.extend(vec![0xFF, 0, 0, 0, 0, 0, 0, 0, 0]);
    let (r, log) = parse_all(bytes);
    assert!(r.is_ok());
    assert_eq!(log[1], Event::Aux { key: b"a".to_vec(), value: b"b".to_vec() });
    assert_eq!(log[2], Event::ResizeDb { db_size: 5, expires_size: 3 });
}

#[test]
fn invalid_magic() {
    let bytes = vec![0x52, 0x45, 0x44, 0x49, 0x58, 0x30, 0x30, 0x30, 0x39, 0xFF];
    let (r, log) = parse_all(bytes);
    assert_eq!(r, Err(RdbError::InvalidMagic));
    assert!(log.is_empty());
}

#[test]
fn truncated_magic_is_short_read() {
    let (r, log) = parse_all(vec![0x52, 0x45]);
    assert_eq!(r, Err(RdbError::ShortRead));
    assert!(log.is_empty());
}

#[test]
fn non_digit_version_is_corrupt() {
    let bytes = vec![0x52, 0x45, 0x44, 0x49, 0x53, 0x30, 0x30, 0x61, 0x39];
    let (r, _) = parse_all(bytes);
    assert_eq!(r, Err(RdbError::Corrupt));
}

struct OnlyKeyB;

impl rdb::filter::Filter for OnlyKeyB {
    fn matches_db(&self, _db: u32) -> bool {
        true
    }
    fn matches_type(&self, _tag: u8) -> bool {
        true
    }
    fn matches_key(&self, key: &Vec<u8>) -> bool {
        key.as_slice() == b"b"
    }
}

#[test]
fn expiry_cleared_even_when_record_is_skipped() {
    let mut bytes = head();
    bytes.extend(vec![0xFE, 0x00]);
    bytes.extend(vec![0xFC, 0x05, 0, 0, 0, 0, 0, 0, 0]);
    bytes.extend(vec![0x00, 0x01, 0x61, 0x01, 0x78]);
    bytes.extend(vec![0x00, 0x01, 0x62, 0x01, 0x79]);
    bytes.extend(vec![0xFF, 0, 0, 0, 0, 0, 0, 0, 0]);
    let mut p = RdbParser::new(ByteReader::new(bytes), VecFormatter::new(), OnlyKeyB);
    assert!(p.parse().is_ok());
    assert_eq!(
        p.formatter.log,
        vec![
            Event::StartRdb,
            Event::StartDatabase(0),
            Event::Scalar { key: b"b".to_vec(), value: b"y".to_vec(), expiry: None },
            Event::EndDatabase(0),
            Event::EndRdb,
            Event::Checksum(vec![0; 8]),
        ]
    );
}
