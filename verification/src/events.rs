//! The events a parse emits, and their mathematical form.

use vstd::prelude::*;
use crate::model::{
    ScoreS, length_at, blob_at, blob_end, object_end, blobs_at, blob_pairs_at, zset_entries_at, zset2_entries_at,
    quicklist_elems, ziplist_count, ziplist_strings, zipmap_pairs_of,
    intset_count, intset_strings,
    OP_AUX, OP_RESIZEDB, OP_EXPIRETIME_MS, OP_EXPIRETIME, OP_SELECTDB, OP_EOF,
    TYPE_STRING, TYPE_LIST, TYPE_SET, TYPE_ZSET, TYPE_HASH, TYPE_ZSET_2,
    TYPE_HASH_ZIPMAP, TYPE_LIST_ZIPLIST, TYPE_SET_INTSET, TYPE_ZSET_ZIPLIST,
    TYPE_HASH_ZIPLIST, TYPE_LIST_QUICKLIST,
};

verus! {

/// The on-disk layout of a value record, reported with each container start.
/// The wrapped layouts carry the raw byte length of the outer payload.
#[derive(Clone, Copy, Debug, PartialEq, Eq, Structural)]
pub enum EncodingType {
    /// A length-prefixed run of blobs.
    LinkedList,
    /// A length-prefixed run of blobs or entries, hash-table shaped.
    Hashtable,
    /// A ziplist payload of the given raw byte length.
    Ziplist(u64),
    /// A zipmap payload of the given raw byte length.
    Zipmap(u64),
    /// An intset payload of the given raw byte length.
    Intset(u64),
    /// A sequence of ziplist payloads.
    Quicklist,
}

/// A sorted-set score as read off the wire. Binary scores keep their bit
/// pattern; textual scores keep their bytes; the three special one-byte codes
/// keep their meaning.
#[derive(Debug, PartialEq)]
pub enum Score {
    /// Not a number.
    NotANumber,
    /// Positive infinity.
    PositiveInfinity,
    /// Negative infinity.
    NegativeInfinity,
    /// ASCII bytes holding a decimal rendering.
    Ascii(Vec<u8>),
    /// The bit pattern of an 8-byte little-endian binary score.
    Wire(u64),
}

impl View for Score {
    type V = ScoreS;

    open spec fn view(&self) -> ScoreS {
        match self {
            Score::NotANumber => ScoreS::NotANumber,
            Score::PositiveInfinity => ScoreS::PositiveInfinity,
            Score::NegativeInfinity => ScoreS::NegativeInfinity,
            Score::Ascii(v) => ScoreS::Ascii(v@),
            Score::Wire(u) => ScoreS::Wire(*u),
        }
    }
}

impl Clone for Score {
    /// A clone carries the same abstract score.
    fn clone(&self) -> (r: Score)
        ensures
            r@ == self@,
    {
        match self {
            Score::NotANumber => Score::NotANumber,
            Score::PositiveInfinity => Score::PositiveInfinity,
            Score::NegativeInfinity => Score::NegativeInfinity,
            Score::Ascii(v) => Score::Ascii(v.clone()),
            Score::Wire(u) => Score::Wire(*u),
        }
    }
}

/// One semantic event of a parse.
#[derive(Clone, Debug, PartialEq)]
pub enum Event {
    /// The stream opened.
    StartRdb,
    /// The stream closed.
    EndRdb,
    /// A database was selected and admitted by the filter.
    StartDatabase(u32),
    /// The database selected when the terminator arrived.
    EndDatabase(u32),
    /// The bytes after the terminator.
    Checksum(Vec<u8>),
    /// A hash-table resize hint.
    ResizeDb { db_size: u32, expires_size: u32 },
    /// An auxiliary key-value field.
    Aux { key: Vec<u8>, value: Vec<u8> },
    /// A scalar record.
    Scalar { key: Vec<u8>, value: Vec<u8>, expiry: Option<u64> },
    /// A list record opened.
    StartList { key: Vec<u8>, count: u32, expiry: Option<u64>, enc: EncodingType },
    /// One list element.
    ListElement { key: Vec<u8>, value: Vec<u8> },
    /// A list record closed.
    EndList { key: Vec<u8> },
    /// A set record opened.
    StartSet { key: Vec<u8>, count: u32, expiry: Option<u64>, enc: EncodingType },
    /// One set element.
    SetElement { key: Vec<u8>, value: Vec<u8> },
    /// A set record closed.
    EndSet { key: Vec<u8> },
    /// A hash record opened.
    StartHash { key: Vec<u8>, count: u32, expiry: Option<u64>, enc: EncodingType },
    /// One hash field with its value.
    HashElement { key: Vec<u8>, field: Vec<u8>, value: Vec<u8> },
    /// A hash record closed.
    EndHash { key: Vec<u8> },
    /// A sorted-set record opened.
    StartSortedSet { key: Vec<u8>, count: u32, expiry: Option<u64>, enc: EncodingType },
    /// One sorted-set member with its score.
    SortedSetElement { key: Vec<u8>, score: Score, value: Vec<u8> },
    /// A sorted-set record closed.
    EndSortedSet { key: Vec<u8> },
}

/// The mathematical form of an event.
pub enum EventS {
    /// The stream opened.
    StartRdb,
    /// The stream closed.
    EndRdb,
    /// A database was selected and admitted by the filter.
    StartDatabase(u32),
    /// The database selected when the terminator arrived.
    EndDatabase(u32),
    /// The bytes after the terminator.
    Checksum(Seq<u8>),
    /// A hash-table resize hint.
    ResizeDb { db_size: u32, expires_size: u32 },
    /// An auxiliary key-value field.
    Aux { key: Seq<u8>, value: Seq<u8> },
    /// A scalar record.
    Scalar { key: Seq<u8>, value: Seq<u8>, expiry: Option<u64> },
    /// A list record opened.
    StartList { key: Seq<u8>, count: u32, expiry: Option<u64>, enc: EncodingType },
    /// One list element.
    ListElement { key: Seq<u8>, value: Seq<u8> },
    /// A list record closed.
    EndList { key: Seq<u8> },
    /// A set record opened.
    StartSet { key: Seq<u8>, count: u32, expiry: Option<u64>, enc: EncodingType },
    /// One set element.
    SetElement { key: Seq<u8>, value: Seq<u8> },
    /// A set record closed.
    EndSet { key: Seq<u8> },
    /// A hash record opened.
    StartHash { key: Seq<u8>, count: u32, expiry: Option<u64>, enc: EncodingType },
    /// One hash field with its value.
    HashElement { key: Seq<u8>, field: Seq<u8>, value: Seq<u8> },
    /// A hash record closed.
    EndHash { key: Seq<u8> },
    /// A sorted-set record opened.
    StartSortedSet { key: Seq<u8>, count: u32, expiry: Option<u64>, enc: EncodingType },
    /// One sorted-set member with its score.
    SortedSetElement { key: Seq<u8>, score: ScoreS, value: Seq<u8> },
    /// A sorted-set record closed.
    EndSortedSet { key: Seq<u8> },
}

impl View for Event {
    type V = EventS;

    open spec fn view(&self) -> EventS {
        match self {
            Event::StartRdb => EventS::StartRdb,
            Event::EndRdb => EventS::EndRdb,
            Event::StartDatabase(db) => EventS::StartDatabase(*db),
            Event::EndDatabase(db) => EventS::EndDatabase(*db),
            Event::Checksum(v) => EventS::Checksum(v@),
            Event::ResizeDb { db_size, expires_size } => EventS::ResizeDb { db_size: *db_size, expires_size: *expires_size },
            Event::Aux { key, value } => EventS::Aux { key: key@, value: value@ },
            Event::Scalar { key, value, expiry } => EventS::Scalar { key: key@, value: value@, expiry: *expiry },
            Event::StartList { key, count, expiry, enc } => EventS::StartList { key: key@, count: *count, expiry: *expiry, enc: *enc },
            Event::ListElement { key, value } => EventS::ListElement { key: key@, value: value@ },
            Event::EndList { key } => EventS::EndList { key: key@ },
            Event::StartSet { key, count, expiry, enc } => EventS::StartSet { key: key@, count: *count, expiry: *expiry, enc: *enc },
            Event::SetElement { key, value } => EventS::SetElement { key: key@, value: value@ },
            Event::EndSet { key } => EventS::EndSet { key: key@ },
            Event::StartHash { key, count, expiry, enc } => EventS::StartHash { key: key@, count: *count, expiry: *expiry, enc: *enc },
            Event::HashElement { key, field, value } => EventS::HashElement { key: key@, field: field@, value: value@ },
            Event::EndHash { key } => EventS::EndHash { key: key@ },
            Event::StartSortedSet { key, count, expiry, enc } => EventS::StartSortedSet { key: key@, count: *count, expiry: *expiry, enc: *enc },
            Event::SortedSetElement { key, score, value } => EventS::SortedSetElement { key: key@, score: score@, value: value@ },
            Event::EndSortedSet { key } => EventS::EndSortedSet { key: key@ },
        }
    }
}

/// The views of a sequence of byte vectors.
pub open spec fn views_of(s: Seq<Vec<u8>>) -> Seq<Seq<u8>> {
    s.map_values(|v: Vec<u8>| v@)
}

/// The views of a sequence of byte-vector pairs.
pub open spec fn pair_views(s: Seq<(Vec<u8>, Vec<u8>)>) -> Seq<(Seq<u8>, Seq<u8>)> {
    s.map_values(|p: (Vec<u8>, Vec<u8>)| (p.0@, p.1@))
}

/// The views of a sequence of scored members.
pub open spec fn score_views(s: Seq<(Score, Vec<u8>)>) -> Seq<(ScoreS, Seq<u8>)> {
    s.map_values(|p: (Score, Vec<u8>)| (p.0@, p.1@))
}

/// Consecutive entries taken two at a time: fields with their values.
pub open spec fn pairs_of(s: Seq<Seq<u8>>) -> Seq<(Seq<u8>, Seq<u8>)> {
    Seq::new(s.len() / 2, |i: int| (s[2 * i], s[2 * i + 1]))
}

/// Consecutive entries taken two at a time: members with their textual
/// scores, which follow them on the wire.
pub open spec fn scored_pairs_of(s: Seq<Seq<u8>>) -> Seq<(ScoreS, Seq<u8>)> {
    Seq::new(s.len() / 2, |i: int| (ScoreS::Ascii(s[2 * i + 1]), s[2 * i]))
}


/// The event run of one whole value record: what a decoding parse hands the
/// sink for the payload with tag `tag` at `pos`, for the given key and
/// pending expiration. Meaningful wherever the record's read view is
/// defined.
#[verifier::opaque]
pub open spec fn record_events(data: Seq<u8>, pos: int, tag: u8, key: Seq<u8>, expiry: Option<u64>) -> Seq<EventS> {
    if tag == TYPE_STRING {
        match blob_at(data, pos) {
            Some(t) => seq![EventS::Scalar { key, value: t.1, expiry }],
            None => Seq::empty(),
        }
    } else if tag == TYPE_LIST || tag == TYPE_SET {
        match length_at(data, pos) {
            Some(lt) => match blobs_at(data, lt.0, lt.1) {
                Some(bt) => if tag == TYPE_LIST {
                    list_events(key, lt.1 as u32, expiry, EncodingType::LinkedList, bt.1)
                } else {
                    set_events(key, lt.1 as u32, expiry, EncodingType::LinkedList, bt.1)
                },
                None => Seq::empty(),
            },
            None => Seq::empty(),
        }
    } else if tag == TYPE_ZSET {
        match length_at(data, pos) {
            Some(lt) => match zset_entries_at(data, lt.0, lt.1) {
                Some(bt) => zset_events(key, lt.1 as u32, expiry, EncodingType::Hashtable, bt.1),
                None => Seq::empty(),
            },
            None => Seq::empty(),
        }
    } else if tag == TYPE_ZSET_2 {
        match length_at(data, pos) {
            Some(lt) => match zset2_entries_at(data, lt.0, lt.1) {
                Some(bt) => zset_events(key, lt.1 as u32, expiry, EncodingType::Hashtable, bt.1),
                None => Seq::empty(),
            },
            None => Seq::empty(),
        }
    } else if tag == TYPE_HASH {
        match length_at(data, pos) {
            Some(lt) => match blob_pairs_at(data, lt.0, lt.1) {
                Some(bt) => hash_events(key, lt.1 as u32, expiry, EncodingType::Hashtable, bt.1),
                None => Seq::empty(),
            },
            None => Seq::empty(),
        }
    } else if tag == TYPE_HASH_ZIPMAP {
        match blob_at(data, pos) {
            Some(t) => hash_events(key, (if t.1.len() >= 1 && t.1[0] <= 253 { t.1[0] as u32 } else { 0u32 }), expiry, EncodingType::Zipmap(t.1.len() as u64), zipmap_pairs_of(t.1)),
            None => Seq::empty(),
        }
    } else if tag == TYPE_LIST_ZIPLIST {
        match blob_at(data, pos) {
            Some(t) => list_events(key, ziplist_count(t.1) as u32, expiry, EncodingType::Ziplist(t.1.len() as u64), ziplist_strings(t.1)),
            None => Seq::empty(),
        }
    } else if tag == TYPE_SET_INTSET {
        match blob_at(data, pos) {
            Some(t) => set_events(key, intset_count(t.1) as u32, expiry, EncodingType::Intset(t.1.len() as u64), intset_strings(t.1)),
            None => Seq::empty(),
        }
    } else if tag == TYPE_ZSET_ZIPLIST {
        match blob_at(data, pos) {
            Some(t) => zset_events(key, (ziplist_count(t.1) / 2) as u32, expiry, EncodingType::Ziplist(t.1.len() as u64), scored_pairs_of(ziplist_strings(t.1))),
            None => Seq::empty(),
        }
    } else if tag == TYPE_HASH_ZIPLIST {
        match blob_at(data, pos) {
            Some(t) => hash_events(key, (ziplist_count(t.1) / 2) as u32, expiry, EncodingType::Ziplist(t.1.len() as u64), pairs_of(ziplist_strings(t.1))),
            None => Seq::empty(),
        }
    } else if tag == TYPE_LIST_QUICKLIST {
        match length_at(data, pos) {
            Some(lt) => match quicklist_elems(data, lt.0, lt.1) {
                Some(qt) => list_events(key, 0, expiry, EncodingType::Quicklist, qt.1),
                None => Seq::empty(),
            },
            None => Seq::empty(),
        }
    } else {
        Seq::empty()
    }
}


/// The whole event stream of the record loop from `pos`: what a parse that
/// decodes with the given filter predicates hands the sink after `StartRdb`,
/// the closing `EndDatabase`/`EndRdb` and trailing checksum included.
/// `expiry` is the pending expiration carried into the first record.
/// Meaningful wherever the loop runs to EOF.
#[verifier::opaque]
pub open spec fn frame_events(data: Seq<u8>, pos: int, db: u32, expiry: Option<u64>, dbf: spec_fn(u32) -> bool, tyf: spec_fn(u8) -> bool, keyf: spec_fn(Seq<u8>) -> bool) -> Seq<EventS>
    decreases data.len() - pos,
{
    if !(0 <= pos < data.len()) {
        Seq::empty()
    } else {
        let op = data[pos];
        if op == OP_EOF {
            seq![EventS::EndDatabase(db), EventS::EndRdb]
                + if pos + 1 < data.len() {
                    seq![EventS::Checksum(data.subrange(pos + 1, data.len() as int))]
                } else {
                    Seq::empty()
                }
        } else if op == OP_SELECTDB {
            match length_at(data, pos + 1) {
                None => Seq::empty(),
                Some(lt) => {
                    if pos < lt.0 <= data.len() {
                        (if dbf(lt.1 as u32) { seq![EventS::StartDatabase(lt.1 as u32)] } else { Seq::empty() })
                            + frame_events(data, lt.0, lt.1 as u32, expiry, dbf, tyf, keyf)
                    } else {
                        Seq::empty()
                    }
                },
            }
        } else if op == OP_EXPIRETIME_MS {
            if pos + 9 <= data.len() {
                frame_events(data, pos + 9, db, Some(crate::model::u64_le(data.subrange(pos + 1, pos + 9)) as u64), dbf, tyf, keyf)
            } else {
                Seq::empty()
            }
        } else if op == OP_EXPIRETIME {
            if pos + 5 <= data.len() {
                frame_events(data, pos + 5, db, Some((crate::model::u32_be(data[pos + 1], data[pos + 2], data[pos + 3], data[pos + 4]) * 1000) as u64), dbf, tyf, keyf)
            } else {
                Seq::empty()
            }
        } else if op == OP_RESIZEDB {
            match length_at(data, pos + 1) {
                None => Seq::empty(),
                Some(l1) => match length_at(data, l1.0) {
                    None => Seq::empty(),
                    Some(l2) => {
                        if pos < l2.0 <= data.len() {
                            seq![EventS::ResizeDb { db_size: l1.1 as u32, expires_size: l2.1 as u32 }]
                                + frame_events(data, l2.0, db, expiry, dbf, tyf, keyf)
                        } else {
                            Seq::empty()
                        }
                    },
                },
            }
        } else if op == OP_AUX {
            match blob_at(data, pos + 1) {
                None => Seq::empty(),
                Some(kt) => match blob_at(data, kt.0) {
                    None => Seq::empty(),
                    Some(vt) => {
                        if pos < vt.0 <= data.len() {
                            seq![EventS::Aux { key: kt.1, value: vt.1 }]
                                + frame_events(data, vt.0, db, expiry, dbf, tyf, keyf)
                        } else {
                            Seq::empty()
                        }
                    },
                },
            }
        } else {
            match blob_end(data, pos + 1) {
                None => Seq::empty(),
                Some(kp) => match object_end(data, kp, op) {
                    None => Seq::empty(),
                    Some(p) => {
                        if pos < p <= data.len() {
                            (if dbf(db) {
                                match blob_at(data, pos + 1) {
                                    Some(kt) => if tyf(op) && keyf(kt.1) {
                                        record_events(data, kp, op, kt.1, expiry)
                                    } else {
                                        Seq::empty()
                                    },
                                    None => Seq::empty(),
                                }
                            } else {
                                Seq::empty()
                            }) + frame_events(data, p, db, None, dbf, tyf, keyf)
                        } else {
                            Seq::empty()
                        }
                    },
                },
            }
        }
    }
}

/// True of every event that may stand between the opening `StartRdb` and the
/// closing run `EndDatabase; EndRdb; Checksum?` of a parse.
pub open spec fn is_stream_event(e: EventS) -> bool {
    !(e is StartRdb || e is EndRdb || e is EndDatabase || e is Checksum)
}

/// The event run of one list record: a start, one element event per element,
/// an end, all for the same key.
pub open spec fn list_events(key: Seq<u8>, count: u32, expiry: Option<u64>, enc: EncodingType, elems: Seq<Seq<u8>>) -> Seq<EventS> {
    seq![EventS::StartList { key, count, expiry, enc }]
        + elems.map_values(|v: Seq<u8>| EventS::ListElement { key, value: v })
        + seq![EventS::EndList { key }]
}

/// The event run of one set record.
pub open spec fn set_events(key: Seq<u8>, count: u32, expiry: Option<u64>, enc: EncodingType, elems: Seq<Seq<u8>>) -> Seq<EventS> {
    seq![EventS::StartSet { key, count, expiry, enc }]
        + elems.map_values(|v: Seq<u8>| EventS::SetElement { key, value: v })
        + seq![EventS::EndSet { key }]
}

/// The event run of one hash record, one element event per field-value pair.
pub open spec fn hash_events(key: Seq<u8>, count: u32, expiry: Option<u64>, enc: EncodingType, pairs: Seq<(Seq<u8>, Seq<u8>)>) -> Seq<EventS> {
    seq![EventS::StartHash { key, count, expiry, enc }]
        + pairs.map_values(|p: (Seq<u8>, Seq<u8>)| EventS::HashElement { key, field: p.0, value: p.1 })
        + seq![EventS::EndHash { key }]
}

/// The event run of one sorted-set record, one element event per entry.
pub open spec fn zset_events(key: Seq<u8>, count: u32, expiry: Option<u64>, enc: EncodingType, entries: Seq<(ScoreS, Seq<u8>)>) -> Seq<EventS> {
    seq![EventS::StartSortedSet { key, count, expiry, enc }]
        + entries.map_values(|p: (ScoreS, Seq<u8>)| EventS::SortedSetElement { key, score: p.0, value: p.1 })
        + seq![EventS::EndSortedSet { key }]
}

} // verus!
