//! One parse per container encoding, plus the structural rejections.

use rdb::error::{RdbError, RdbOk};
use rdb::events::{EncodingType, Event, Score};
use rdb::filter::AllowAllFilter;
use rdb::formatter::{Formatter, VecFormatter};
use rdb::parser::RdbParser;
use rdb::reader::ByteReader;

fn snapshot(tag: u8, payload: Vec<u8>) -> Vec<u8> {
    let mut bytes = vec![0x52, 0x45, 0x44, 0x49, 0x53, 0x30, 0x30, 0x30, 0x39];
    bytes.extend(vec![0xFE, 0x00, tag, 0x01, 0x6B]);
    bytes.extend(payload);
    bytes.extend(vec![0xFF, 0, 0, 0, 0, 0, 0, 0, 0]);
    bytes
}

fn record_events(tag: u8, payload: Vec<u8>) -> Result<Vec<Event>, RdbError> {
    let mut p = RdbParser::new(ByteReader::new(snapshot(tag, payload)), VecFormatter::new(), AllowAllFilter);
    p.parse()?;
    let log = p.formatter.log;
    Ok(log[2..log.len() - 3].to_vec())
}

fn key() -> Vec<u8> {
    b"k".to_vec()
}

#[test]
fn plain_list() {
    let events = record_events(0x01, vec![0x02, 0x01, 0x61, 0x01, 0x62]).unwrap();
    assert_eq!(
        events,
        vec![
            Event::StartList { key: key(), count: 2, expiry: None, enc: EncodingType::LinkedList },
            Event::ListElement { key: key(), value: b"a".to_vec() },
            Event::ListElement { key: key(), value: b"b".to_vec() },
            Event::EndList { key: key() },
        ]
    );
}

#[test]
fn plain_set() {
    let events = record_events(0x02, vec![0x01, 0x01, 0x61]).unwrap();
    assert_eq!(
        events,
        vec![
            Event::StartSet { key: key(), count: 1, expiry: None, enc: EncodingType::LinkedList },
            Event::SetElement { key: key(), value: b"a".to_vec() },
            Event::EndSet { key: key() },
        ]
    );
}

#[test]
fn plain_hash() {
    let events = record_events(0x04, vec![0x01, 0x01, 0x66, 0x01, 0x76]).unwrap();
    assert_eq!(
        events,
        vec![
            Event::StartHash { key: key(), count: 1, expiry: None, enc: EncodingType::Hashtable },
            Event::HashElement { key: key(), field: b"f".to_vec(), value: b"v".to_vec() },
            Event::EndHash { key: key() },
        ]
    );
}

#[test]
fn sorted_set_ascii_scores() {
    let payload = vec![0x02, 0x01, 0x6D, 0x03, 0x31, 0x2E, 0x35, 0x01, 0x6E, 253];
    let events = record_events(0x03, payload).unwrap();
    assert_eq!(
        events,
        vec![
            Event::StartSortedSet { key: key(), count: 2, expiry: None, enc: EncodingType::Hashtable },
            Event::SortedSetElement { key: key(), score: Score::Ascii(b"1.5".to_vec()), value: b"m".to_vec() },
            Event::SortedSetElement { key: key(), score: Score::NotANumber, value: b"n".to_vec() },
            Event::EndSortedSet { key: key() },
        ]
    );
}

#[test]
fn sorted_set_binary_scores() {
    let mut payload = vec![0x01, 0x01, 0x6D];
    payload.extend(1.5f64.to_le_bytes());
    let events = record_events(0x05, payload).unwrap();
    assert_eq!(
        events,
        vec![
            Event::StartSortedSet { key: key(), count: 1, expiry: None, enc: EncodingType::Hashtable },
            Event::SortedSetElement { key: key(), score: Score::Wire(1.5f64.to_bits()), value: b"m".to_vec() },
            Event::EndSortedSet { key: key() },
        ]
    );
}

#[test]
fn hash_ziplist() {
    let mut zl = vec![17, 0, 0, 0, 0, 0, 0, 0, 2, 0];
    zl.extend(vec![0x00, 0x01, 0x66, 0x03, 0x01, 0x76, 0xFF]);
    assert_eq!(zl.len(), 17);
    let mut payload = vec![0x11];
    payload.extend(zl);
    let events = record_events(0x0D, payload).unwrap();
    assert_eq!(
        events,
        vec![
            Event::StartHash { key: key(), count: 1, expiry: None, enc: EncodingType::Ziplist(17) },
            Event::HashElement { key: key(), field: b"f".to_vec(), value: b"v".to_vec() },
            Event::EndHash { key: key() },
        ]
    );
}

#[test]
fn sorted_set_ziplist() {
    let mut zl = vec![17, 0, 0, 0, 0, 0, 0, 0, 2, 0];
    zl.extend(vec![0x00, 0x01, 0x6D, 0x03, 0x01, 0x32, 0xFF]);
    let mut payload = vec![0x11];
    payload.extend(zl);
    let events = record_events(0x0C, payload).unwrap();
    assert_eq!(
        events,
        vec![
            Event::StartSortedSet { key: key(), count: 1, expiry: None, enc: EncodingType::Ziplist(17) },
            Event::SortedSetElement { key: key(), score: Score::Ascii(b"2".to_vec()), value: b"m".to_vec() },
            Event::EndSortedSet { key: key() },
        ]
    );
}

#[test]
fn ziplist_integer_entry_widths() {
    // One i16, one i8, one i64 entry, rendered in decimal.
    let mut zl = vec![28, 0, 0, 0, 0, 0, 0, 0, 3, 0];
    zl.extend(vec![0x00, 0xC0, 0x2C, 0x01]);
    zl.extend(vec![0x04, 0xFE, 0xF6]);
    zl.extend(vec![0x03, 0xE0, 1, 0, 0, 0, 0, 0, 0, 0x80]);
    zl.push(0xFF);
    assert_eq!(zl.len(), 28);
    let mut payload = vec![28];
    payload.extend(zl);
    let events = record_events(0x0A, payload).unwrap();
    assert_eq!(events[1], Event::ListElement { key: key(), value: b"300".to_vec() });
    assert_eq!(events[2], Event::ListElement { key: key(), value: b"-10".to_vec() });
    assert_eq!(events[3], Event::ListElement { key: key(), value: b"-9223372036854775807".to_vec() });
}

#[test]
fn zipmap_counted() {
    let payload = vec![0x07, 0x01, 0x01, 0x61, 0x01, 0x00, 0x62, 0xFF];
    let events = record_events(0x09, payload).unwrap();
    assert_eq!(
        events,
        vec![
            Event::StartHash { key: key(), count: 1, expiry: None, enc: EncodingType::Zipmap(7) },
            Event::HashElement { key: key(), field: b"a".to_vec(), value: b"b".to_vec() },
            Event::EndHash { key: key() },
        ]
    );
}

#[test]
fn zipmap_unknown_count_runs_to_terminator() {
    let payload = vec![0x07, 0xFE, 0x01, 0x61, 0x01, 0x00, 0x62, 0xFF];
    let events = record_events(0x09, payload).unwrap();
    assert_eq!(events[0], Event::StartHash { key: key(), count: 0, expiry: None, enc: EncodingType::Zipmap(7) });
    assert_eq!(events[1], Event::HashElement { key: key(), field: b"a".to_vec(), value: b"b".to_vec() });
}

#[test]
fn quicklist_concatenates_ziplists() {
    let mut zl1 = vec![14, 0, 0, 0, 0, 0, 0, 0, 1, 0];
    zl1.extend(vec![0x00, 0x01, 0x61, 0xFF]);
    let mut zl2 = vec![14, 0, 0, 0, 0, 0, 0, 0, 1, 0];
    zl2.extend(vec![0x00, 0x01, 0x62, 0xFF]);
    let mut payload = vec![0x02, 0x0E];
    payload.extend(zl1);
    payload.push(0x0E);
    payload.extend(zl2);
    let events = record_events(0x0E, payload).unwrap();
    assert_eq!(
        events,
        vec![
            Event::StartList { key: key(), count: 0, expiry: None, enc: EncodingType::Quicklist },
            Event::ListElement { key: key(), value: b"a".to_vec() },
            Event::ListElement { key: key(), value: b"b".to_vec() },
            Event::EndList { key: key() },
        ]
    );
}

#[test]
fn ziplist_bad_terminator_is_corrupt() {
    let mut zl = vec![14, 0, 0, 0, 0, 0, 0, 0, 1, 0];
    zl.extend(vec![0x00, 0x01, 0x61, 0xAA]);
    let mut payload = vec![0x0E];
    payload.extend(zl);
    assert_eq!(record_events(0x0A, payload), Err(RdbError::Corrupt));
}

#[test]
fn zipmap_bad_terminator_is_corrupt() {
    let payload = vec![0x07, 0x01, 0x01, 0x61, 0x01, 0x00, 0x62, 0xAB];
    assert_eq!(record_events(0x09, payload), Err(RdbError::Corrupt));
}

#[test]
fn hash_ziplist_odd_count_is_corrupt() {
    let mut zl = vec![14, 0, 0, 0, 0, 0, 0, 0, 1, 0];
    zl.extend(vec![0x00, 0x01, 0x66, 0xFF]);
    let mut payload = vec![0x0E];
    payload.extend(zl);
    assert_eq!(record_events(0x0D, payload), Err(RdbError::Corrupt));
}

#[test]
fn intset_bad_width_is_corrupt() {
    let payload = vec![0x0C, 3, 0, 0, 0, 2, 0, 0, 0, 7, 0, 42, 0];
    assert_eq!(record_events(0x0B, payload), Err(RdbError::Corrupt));
}

#[test]
fn unknown_value_tag_is_corrupt() {
    let payload = vec![0x01, 0x61];
    assert_eq!(record_events(0x63, payload), Err(RdbError::Corrupt));
}

struct RefusingSink;

impl Formatter for RefusingSink {
    fn start_rdb(&mut self) -> RdbOk {
        Err(RdbError::SinkFailed)
    }
    fn end_rdb(&mut self) -> RdbOk {
        Err(RdbError::SinkFailed)
    }
    fn start_database(&mut self, _db: u32) -> RdbOk {
        Err(RdbError::SinkFailed)
    }
    fn end_database(&mut self, _db: u32) -> RdbOk {
        Err(RdbError::SinkFailed)
    }
    fn checksum(&mut self, _bytes: &Vec<u8>) -> RdbOk {
        Err(RdbError::SinkFailed)
    }
    fn resizedb(&mut self, _db_size: u32, _expires_size: u32) -> RdbOk {
        Err(RdbError::SinkFailed)
    }
    fn aux_field(&mut self, _key: &Vec<u8>, _value: &Vec<u8>) -> RdbOk {
        Err(RdbError::SinkFailed)
    }
    fn set(&mut self, _key: &Vec<u8>, _value: &Vec<u8>, _expiry: Option<u64>) -> RdbOk {
        Err(RdbError::SinkFailed)
    }
    fn start_list(&mut self, _key: &Vec<u8>, _count: u32, _expiry: Option<u64>, _enc: EncodingType) -> RdbOk {
        Err(RdbError::SinkFailed)
    }
    fn list_element(&mut self, _key: &Vec<u8>, _value: &Vec<u8>) -> RdbOk {
        Err(RdbError::SinkFailed)
    }
    fn end_list(&mut self, _key: &Vec<u8>) -> RdbOk {
        Err(RdbError::SinkFailed)
    }
    fn start_set(&mut self, _key: &Vec<u8>, _count: u32, _expiry: Option<u64>, _enc: EncodingType) -> RdbOk {
        Err(RdbError::SinkFailed)
    }
    fn set_element(&mut self, _key: &Vec<u8>, _value: &Vec<u8>) -> RdbOk {
        Err(RdbError::SinkFailed)
    }
    fn end_set(&mut self, _key: &Vec<u8>) -> RdbOk {
        Err(RdbError::SinkFailed)
    }
    fn start_hash(&mut self, _key: &Vec<u8>, _count: u32, _expiry: Option<u64>, _enc: EncodingType) -> RdbOk {
        Err(RdbError::SinkFailed)
    }
    fn hash_element(&mut self, _key: &Vec<u8>, _field: &Vec<u8>, _value: &Vec<u8>) -> RdbOk {
        Err(RdbError::SinkFailed)
    }
    fn end_hash(&mut self, _key: &Vec<u8>) -> RdbOk {
        Err(RdbError::SinkFailed)
    }
    fn start_sorted_set(&mut self, _key: &Vec<u8>, _count: u32, _expiry: Option<u64>, _enc: EncodingType) -> RdbOk {
        Err(RdbError::SinkFailed)
    }
    fn sorted_set_element(&mut self, _key: &Vec<u8>, _score: Score, _value: &Vec<u8>) -> RdbOk {
        Err(RdbError::SinkFailed)
    }
    fn end_sorted_set(&mut self, _key: &Vec<u8>) -> RdbOk {
        Err(RdbError::SinkFailed)
    }
}

#[test]
fn sink_failure_propagates() {
    let bytes = vec![0x52, 0x45, 0x44, 0x49, 0x53, 0x30, 0x30, 0x30, 0x39, 0xFF];
    let mut p = RdbParser::new(ByteReader::new(bytes), RefusingSink, AllowAllFilter);
    assert_eq!(p.parse(), Err(RdbError::SinkFailed));
}

#[test]
fn sorted_set_non_decimal_score_is_corrupt() {
    let payload = vec![0x01, 0x01, 0x6D, 0x03, 0x61, 0x62, 0x63];
    assert_eq!(record_events(0x03, payload), Err(RdbError::Corrupt));
}

#[test]
fn sorted_set_empty_score_is_corrupt() {
    let payload = vec![0x01, 0x01, 0x6D, 0x00];
    assert_eq!(record_events(0x03, payload), Err(RdbError::Corrupt));
}

#[test]
fn sorted_set_exponent_score_accepted() {
    let payload = vec![0x01, 0x01, 0x6D, 0x06, 0x2D, 0x31, 0x2E, 0x35, 0x65, 0x33];
    let events = record_events(0x03, payload).unwrap();
    assert_eq!(
        events[1],
        Event::SortedSetElement { key: key(), score: Score::Ascii(b"-1.5e3".to_vec()), value: b"m".to_vec() }
    );
}
