//! The decoder itself: the outer frame driver, one reader per value-type
//! tag, and the skip path that advances the cursor past records the filter
//! turns away.

use vstd::prelude::*;
use crate::error::{RdbError, RdbOk};
use crate::model::{
    length_at, blob_at, blob_end, blobs_at, blobs_end, blob_pairs_at,
    zset_entries_at, zset_entries_end, zset2_entries_at, zset2_entries_end,
    quicklist_elems, score_at, object_end, object_read_end, frame_at, frame_read_at, magic_ok, version_of,
    u64_le, u32_le, u32_be, known_tag,
    ziplist_ok, ziplist_count, ziplist_strings, ziplist_bad_terminator,
    zipmap_ok, zipmap_declared, zipmap_pairs_of, zm_bad_terminator,
    intset_ok, intset_count, intset_strings,
    VERSION_MIN, VERSION_MAX,
    OP_AUX, OP_RESIZEDB, OP_EXPIRETIME_MS, OP_EXPIRETIME, OP_SELECTDB, OP_EOF,
    TYPE_STRING, TYPE_LIST, TYPE_SET, TYPE_ZSET, TYPE_HASH, TYPE_ZSET_2,
    TYPE_HASH_ZIPMAP, TYPE_LIST_ZIPLIST, TYPE_SET_INTSET, TYPE_ZSET_ZIPLIST,
    TYPE_HASH_ZIPLIST, TYPE_LIST_QUICKLIST,
};
use crate::reader::ByteReader;
use crate::primitives::{read_length, read_blob, skip_blob, verify_magic, verify_version};
use crate::collect::{read_n_blobs, read_n_pairs, read_zset_entries, read_zset2_entries};
use crate::ziplist::parse_ziplist;
use crate::zipmap::parse_zipmap;
use crate::intset::parse_intset;
use crate::events::{
    EventS, EncodingType, Score, record_events, frame_events,
    list_events, set_events, hash_events, zset_events,
    views_of, pair_views, score_views, pairs_of, scored_pairs_of, is_stream_event,
};
use crate::formatter::Formatter;
use crate::filter::Filter;
use crate::emit::{
    emit_list, emit_set, emit_hash, emit_zset,
    lemma_list_events_stream, lemma_set_events_stream, lemma_hash_events_stream, lemma_zset_events_stream,
};
use crate::laws::{
    lemma_blob_end_bounds, lemma_blob_read_skip_agree, lemma_blobs_read_skip_agree,
    lemma_pairs_read_skip_agree, lemma_zset_read_skip_agree, lemma_zset2_read_skip_agree,
    lemma_quicklist_read_skip_agree, lemma_object_read_skip_agree, lemma_object_end_bounds, lemma_length_at_bounds,
};

verus! {

/// Appending a run of stream events keeps the old events a prefix and adds
/// only stream events.
proof fn lemma_append_stream(a: Seq<EventS>, b: Seq<EventS>, c: Seq<EventS>)
    requires
        c == a + b,
        forall|i: int| 0 <= i < b.len() ==> is_stream_event(#[trigger] b[i]),
    ensures
        a.is_prefix_of(c),
        forall|i: int| a.len() <= i < c.len() ==> is_stream_event(#[trigger] c[i]),
{
    assert(c.subrange(0, a.len() as int) =~= a);
    assert forall|i: int| a.len() <= i < c.len() implies is_stream_event(c[i]) by {
        assert(c[i] == b[i - a.len()]);
    }
}

/// Appending one stream event keeps a prefix and adds only stream events.
proof fn lemma_push_stream(a: Seq<EventS>, c: Seq<EventS>, x: EventS)
    requires
        c == a.push(x),
        is_stream_event(x),
    ensures
        a.is_prefix_of(c),
        forall|i: int| a.len() <= i < c.len() ==> is_stream_event(#[trigger] c[i]),
{
    assert(c =~= a + seq![x]);
    lemma_append_stream(a, seq![x], a + seq![x]);
}

/// One step of the record loop keeps the event bookkeeping: the opening
/// events stay a prefix, the opener stays in place, and everything after it
/// is still a stream event.
proof fn lemma_stream_step(oe: Seq<EventS>, eb: Seq<EventS>, ne: Seq<EventS>)
    requires
        oe.is_prefix_of(eb),
        eb.len() >= oe.len() + 1,
        eb[oe.len() as int] is StartRdb,
        forall|i: int| oe.len() < i < eb.len() ==> is_stream_event(#[trigger] eb[i]),
        eb.is_prefix_of(ne),
        forall|i: int| eb.len() <= i < ne.len() ==> is_stream_event(#[trigger] ne[i]),
    ensures
        oe.is_prefix_of(ne),
        ne.len() >= oe.len() + 1,
        ne[oe.len() as int] is StartRdb,
        forall|i: int| oe.len() < i < ne.len() ==> is_stream_event(#[trigger] ne[i]),
{
    assert forall|i: int| 0 <= i < eb.len() implies ne[i] == eb[i] by {
        assert(eb[i] == ne.subrange(0, eb.len() as int)[i]);
    }
    assert(ne.subrange(0, oe.len() as int) =~= oe);
    assert forall|i: int| oe.len() < i < ne.len() implies is_stream_event(ne[i]) by {
        if i < eb.len() {
            assert(ne[i] == eb[i]);
        }
    }
}

/// Closing a stream with a trailing checksum puts the closing events, and
/// nothing else, after the record stream.
proof fn lemma_close_with_checksum(oe: Seq<EventS>, eb: Seq<EventS>, ne: Seq<EventS>, db: u32, cs: Seq<u8>)
    requires
        oe.is_prefix_of(eb),
        eb.len() >= oe.len() + 1,
        eb[oe.len() as int] is StartRdb,
        forall|i: int| oe.len() < i < eb.len() ==> is_stream_event(#[trigger] eb[i]),
        ne == eb + seq![EventS::EndDatabase(db), EventS::EndRdb, EventS::Checksum(cs)],
    ensures
        oe.is_prefix_of(ne),
        ne.len() >= oe.len() + 4,
        ne[oe.len() as int] is StartRdb,
        ne.last() == EventS::Checksum(cs),
        ne[ne.len() - 2] is EndRdb,
        ne[ne.len() - 3] == EventS::EndDatabase(db),
        forall|i: int| oe.len() < i < ne.len() - 3 ==> is_stream_event(#[trigger] ne[i]),
{
    assert(ne.subrange(0, oe.len() as int) =~= oe);
    assert forall|i: int| oe.len() < i < ne.len() - 3 implies is_stream_event(ne[i]) by {
        assert(ne[i] == eb[i]);
    }
}

/// Closing a stream with no trailing bytes puts the two closing events, and
/// nothing else, after the record stream.
proof fn lemma_close_plain(oe: Seq<EventS>, eb: Seq<EventS>, ne: Seq<EventS>, db: u32)
    requires
        oe.is_prefix_of(eb),
        eb.len() >= oe.len() + 1,
        eb[oe.len() as int] is StartRdb,
        forall|i: int| oe.len() < i < eb.len() ==> is_stream_event(#[trigger] eb[i]),
        ne == eb + seq![EventS::EndDatabase(db), EventS::EndRdb],
    ensures
        oe.is_prefix_of(ne),
        ne.len() >= oe.len() + 3,
        ne[oe.len() as int] is StartRdb,
        ne.last() is EndRdb,
        ne[ne.len() - 2] == EventS::EndDatabase(db),
        forall|i: int| oe.len() < i < ne.len() - 2 ==> is_stream_event(#[trigger] ne[i]),
{
    assert(ne.subrange(0, oe.len() as int) =~= oe);
    assert forall|i: int| oe.len() < i < ne.len() - 2 implies is_stream_event(ne[i]) by {
        assert(ne[i] == eb[i]);
    }
}

/// True of a filter that admits every database, type tag and key.
pub open spec fn admits_all<L: Filter>(l: L) -> bool {
    &&& forall|d: u32| #[trigger] l.db_spec(d)
    &&& forall|t: u8| #[trigger] l.type_spec(t)
    &&& forall|k: Seq<u8>| #[trigger] l.key_spec(k)
}

/// The record-loop event stream under a filter value's three predicates.
pub open spec fn frame_events_of<L: Filter>(data: Seq<u8>, pos: int, db: u32, expiry: Option<u64>, l: L) -> Seq<EventS> {
    frame_events(data, pos, db, expiry,
        |d: u32| l.db_spec(d),
        |t: u8| l.type_spec(t),
        |k: Seq<u8>| l.key_spec(k))
}

/// One step of the record loop keeps the emitted stream in step with the
/// frame's event stream: the step's events move from the remaining stream to
/// the emitted one.
proof fn lemma_stream_extend(oe: Seq<EventS>, before: Seq<EventS>, after: Seq<EventS>, step: Seq<EventS>, total: Seq<EventS>, rest_old: Seq<EventS>, rest_new: Seq<EventS>)
    requires
        oe.len() + 1 <= before.len(),
        after == before + step,
        total == before.skip(oe.len() + 1 as int) + rest_old,
        rest_old == step + rest_new,
    ensures
        total == after.skip(oe.len() + 1 as int) + rest_new,
{
    assert(after.skip(oe.len() + 1 as int) =~= before.skip(oe.len() + 1 as int) + step);
    assert((before.skip(oe.len() + 1 as int) + step) + rest_new =~= before.skip(oe.len() + 1 as int) + (step + rest_new));
}

/// Advance the cursor past one ASCII score field.
fn skip_score(input: &mut ByteReader) -> (r: RdbOk)
    ensures
        final(input).bytes() == old(input).bytes(),
        match score_at(old(input).bytes(), old(input).pos()) {
            Some(t) => r == Ok::<(), RdbError>(()) && final(input).pos() == t.0,
            None => r is Err,
        },
{
    let b = match input.read_u8() {
        Ok(b) => b,
        Err(e) => return Err(e),
    };
    if b == 253 || b == 254 || b == 255 {
        Ok(())
    } else {
        input.skip(b as usize)
    }
}

/// Advance the cursor past one value payload without decoding it or touching
/// any sink. It lands exactly where the decoding reader would.
#[verifier::loop_isolation(false)]
#[verifier::rlimit(50)]
pub fn skip_object(input: &mut ByteReader, enc_type: u8) -> (r: RdbOk)
    ensures
        final(input).bytes() == old(input).bytes(),
        match object_end(old(input).bytes(), old(input).pos(), enc_type) {
            Some(p) => r == Ok::<(), RdbError>(()) && final(input).pos() == p,
            None => r is Err,
        },
{
    proof {
        reveal(object_end);
    }
    let ghost data = old(input).bytes();
    if enc_type == TYPE_STRING || enc_type == TYPE_HASH_ZIPMAP || enc_type == TYPE_LIST_ZIPLIST
        || enc_type == TYPE_SET_INTSET || enc_type == TYPE_ZSET_ZIPLIST || enc_type == TYPE_HASH_ZIPLIST {
        skip_blob(input)
    } else if enc_type == TYPE_LIST || enc_type == TYPE_SET || enc_type == TYPE_LIST_QUICKLIST {
        let n = match read_length(input) {
            Ok(v) => v,
            Err(e) => return Err(e),
        };
        let ghost ps = input.pos();
        let mut i: u32 = 0;
        while i < n
            invariant
                input.bytes() == data,
                i <= n,
                blobs_end(data, input.pos(), (n - i) as nat) == blobs_end(data, ps, n as nat),
            decreases n - i,
        {
            match skip_blob(input) {
                Ok(()) => (),
                Err(e) => return Err(e),
            }
            i = i + 1;
        }
        Ok(())
    } else if enc_type == TYPE_ZSET || enc_type == TYPE_HASH {
        let n = match read_length(input) {
            Ok(v) => v,
            Err(e) => return Err(e),
        };
        let ghost ps = input.pos();
        if enc_type == TYPE_ZSET {
            let mut i: u32 = 0;
            while i < n
                invariant
                    input.bytes() == data,
                    i <= n,
                    zset_entries_end(data, input.pos(), (n - i) as nat) == zset_entries_end(data, ps, n as nat),
                decreases n - i,
            {
                match skip_blob(input) {
                    Ok(()) => (),
                    Err(e) => return Err(e),
                }
                match skip_score(input) {
                    Ok(()) => (),
                    Err(e) => return Err(e),
                }
                i = i + 1;
            }
            Ok(())
        } else {
            let n2: u64 = 2 * n as u64;
            let mut i: u64 = 0;
            while i < n2
                invariant
                    input.bytes() == data,
                    i <= n2,
                    n2 == 2 * n,
                    blobs_end(data, input.pos(), (n2 - i) as nat) == blobs_end(data, ps, (2 * n) as nat),
                decreases n2 - i,
            {
                match skip_blob(input) {
                    Ok(()) => (),
                    Err(e) => return Err(e),
                }
                i = i + 1;
            }
            Ok(())
        }
    } else if enc_type == TYPE_ZSET_2 {
        let n = match read_length(input) {
            Ok(v) => v,
            Err(e) => return Err(e),
        };
        let ghost ps = input.pos();
        let mut i: u32 = 0;
        while i < n
            invariant
                input.bytes() == data,
                i <= n,
                zset2_entries_end(data, input.pos(), (n - i) as nat) == zset2_entries_end(data, ps, n as nat),
            decreases n - i,
        {
            match skip_blob(input) {
                Ok(()) => (),
                Err(e) => return Err(e),
            }
            match input.skip(8) {
                Ok(()) => (),
                Err(e) => return Err(e),
            }
            i = i + 1;
        }
        Ok(())
    } else {
        Err(RdbError::Corrupt)
    }
}

/// Advance the cursor past a key blob and the value payload after it.
pub fn skip_key_and_object(input: &mut ByteReader, enc_type: u8) -> (r: RdbOk)
    ensures
        final(input).bytes() == old(input).bytes(),
        match blob_end(old(input).bytes(), old(input).pos()) {
            Some(kp) => match object_end(old(input).bytes(), kp, enc_type) {
                Some(p) => r == Ok::<(), RdbError>(()) && final(input).pos() == p,
                None => r is Err,
            },
            None => r is Err,
        },
{
    match skip_blob(input) {
        Ok(()) => (),
        Err(e) => return Err(e),
    }
    skip_object(input, enc_type)
}

/// A streaming decoder: the input bytes, the event sink it drives, the
/// predicate that decides what is materialised, and the one piece of carried
/// state, a pending expiration waiting for the next value record.
pub struct RdbParser<F: Formatter, L: Filter> {
    /// The snapshot bytes.
    pub input: ByteReader,
    /// The event sink.
    pub formatter: F,
    /// The predicate deciding which records are materialised.
    pub filter: L,
    /// An absolute expiration in milliseconds, set by an expiration opcode
    /// and attached to the value record that follows it.
    pub last_expiretime: Option<u64>,
}

impl<F: Formatter, L: Filter> RdbParser<F, L> {
    /// A decoder at the start of its input, with no pending expiration.
    pub fn new(input: ByteReader, formatter: F, filter: L) -> (r: RdbParser<F, L>)
        ensures
            r.input == input,
            r.formatter == formatter,
            r.filter == filter,
            r.last_expiretime is None,
    {
        RdbParser { input, formatter, filter, last_expiretime: None }
    }

    /// Decode a length-prefixed run of blobs as a list or a set.
    fn read_linked_list(&mut self, key: &Vec<u8>, as_list: bool) -> (r: RdbOk)
        ensures
            final(self).input.bytes() == old(self).input.bytes(),
            final(self).filter == old(self).filter,
            final(self).last_expiretime == old(self).last_expiretime,
            r is Ok ==> match length_at(old(self).input.bytes(), old(self).input.pos()) {
                Some(lt) => match blobs_at(old(self).input.bytes(), lt.0, lt.1) {
                    Some(bt) => {
                        &&& final(self).input.pos() == bt.0
                        &&& final(self).formatter.events() == old(self).formatter.events()
                            + if as_list {
                                list_events(key@, lt.1 as u32, old(self).last_expiretime, EncodingType::LinkedList, bt.1)
                            } else {
                                set_events(key@, lt.1 as u32, old(self).last_expiretime, EncodingType::LinkedList, bt.1)
                            }
                    },
                    None => false,
                },
                None => false,
            },
            r is Ok ==> match length_at(old(self).input.bytes(), old(self).input.pos()) {
                Some(lt) => blobs_end(old(self).input.bytes(), lt.0, lt.1) == Some(final(self).input.pos()),
                None => false,
            },
            r is Ok ==> old(self).formatter.events().is_prefix_of(final(self).formatter.events())
                && (forall|i: int| old(self).formatter.events().len() <= i < final(self).formatter.events().len()
                    ==> is_stream_event(#[trigger] final(self).formatter.events()[i])),
            final(self).formatter.infallible() == old(self).formatter.infallible(),
            old(self).formatter.events().is_prefix_of(final(self).formatter.events()),
            match length_at(old(self).input.bytes(), old(self).input.pos()) {
                Some(lt) => (old(self).formatter.infallible() && blobs_at(old(self).input.bytes(), lt.0, lt.1) is Some) ==> r is Ok,
                None => true,
            },
    {
        let ghost data = old(self).input.bytes();
        let ghost p0 = old(self).input.pos();
        let ghost e0 = old(self).formatter.events();
        let expiry = self.last_expiretime;
        let len = match read_length(&mut self.input) {
            Ok(v) => v,
            Err(e) => return Err(e),
        };
        let ghost lt = length_at(data, p0).unwrap();
        let elems = match read_n_blobs(&mut self.input, len) {
            Ok(v) => v,
            Err(e) => return Err(e),
        };
        let r = if as_list {
            emit_list(&mut self.formatter, key, len, expiry, EncodingType::LinkedList, &elems)
        } else {
            emit_set(&mut self.formatter, key, len, expiry, EncodingType::LinkedList, &elems)
        };
        proof {
            if r is Ok {
                lemma_blobs_read_skip_agree(data, lt.0, lt.1);
                if as_list {
                    lemma_list_events_stream(key@, len, expiry, EncodingType::LinkedList, views_of(elems@));
                    lemma_append_stream(e0, list_events(key@, len, expiry, EncodingType::LinkedList, views_of(elems@)), self.formatter.events());
                } else {
                    lemma_set_events_stream(key@, len, expiry, EncodingType::LinkedList, views_of(elems@));
                    lemma_append_stream(e0, set_events(key@, len, expiry, EncodingType::LinkedList, views_of(elems@)), self.formatter.events());
                }
            }
        }
        r
    }

    /// Decode a length-prefixed run of field-value pairs as a hash.
    fn read_hash(&mut self, key: &Vec<u8>) -> (r: RdbOk)
        ensures
            final(self).input.bytes() == old(self).input.bytes(),
            final(self).filter == old(self).filter,
            final(self).last_expiretime == old(self).last_expiretime,
            r is Ok ==> match length_at(old(self).input.bytes(), old(self).input.pos()) {
                Some(lt) => match blob_pairs_at(old(self).input.bytes(), lt.0, lt.1) {
                    Some(bt) => {
                        &&& final(self).input.pos() == bt.0
                        &&& final(self).formatter.events() == old(self).formatter.events()
                            + hash_events(key@, lt.1 as u32, old(self).last_expiretime, EncodingType::Hashtable, bt.1)
                    },
                    None => false,
                },
                None => false,
            },
            r is Ok ==> match length_at(old(self).input.bytes(), old(self).input.pos()) {
                Some(lt) => blobs_end(old(self).input.bytes(), lt.0, 2 * lt.1) == Some(final(self).input.pos()),
                None => false,
            },
            r is Ok ==> old(self).formatter.events().is_prefix_of(final(self).formatter.events())
                && (forall|i: int| old(self).formatter.events().len() <= i < final(self).formatter.events().len()
                    ==> is_stream_event(#[trigger] final(self).formatter.events()[i])),
            final(self).formatter.infallible() == old(self).formatter.infallible(),
            old(self).formatter.events().is_prefix_of(final(self).formatter.events()),
            match length_at(old(self).input.bytes(), old(self).input.pos()) {
                Some(lt) => (old(self).formatter.infallible() && blob_pairs_at(old(self).input.bytes(), lt.0, lt.1) is Some) ==> r is Ok,
                None => true,
            },
    {
        let ghost data = old(self).input.bytes();
        let ghost p0 = old(self).input.pos();
        let ghost e0 = old(self).formatter.events();
        let expiry = self.last_expiretime;
        let len = match read_length(&mut self.input) {
            Ok(v) => v,
            Err(e) => return Err(e),
        };
        let ghost lt = length_at(data, p0).unwrap();
        let pairs = match read_n_pairs(&mut self.input, len) {
            Ok(v) => v,
            Err(e) => return Err(e),
        };
        let r = emit_hash(&mut self.formatter, key, len, expiry, EncodingType::Hashtable, &pairs);
        proof {
            if r is Ok {
                lemma_pairs_read_skip_agree(data, lt.0, lt.1);
                lemma_hash_events_stream(key@, len, expiry, EncodingType::Hashtable, pair_views(pairs@));
                lemma_append_stream(e0, hash_events(key@, len, expiry, EncodingType::Hashtable, pair_views(pairs@)), self.formatter.events());
            }
        }
        r
    }

    /// Decode a length-prefixed run of member-and-ASCII-score entries.
    fn read_sorted_set(&mut self, key: &Vec<u8>) -> (r: RdbOk)
        ensures
            final(self).input.bytes() == old(self).input.bytes(),
            final(self).filter == old(self).filter,
            final(self).last_expiretime == old(self).last_expiretime,
            r is Ok ==> match length_at(old(self).input.bytes(), old(self).input.pos()) {
                Some(lt) => match zset_entries_at(old(self).input.bytes(), lt.0, lt.1) {
                    Some(bt) => {
                        &&& final(self).input.pos() == bt.0
                        &&& final(self).formatter.events() == old(self).formatter.events()
                            + zset_events(key@, lt.1 as u32, old(self).last_expiretime, EncodingType::Hashtable, bt.1)
                    },
                    None => false,
                },
                None => false,
            },
            r is Ok ==> match length_at(old(self).input.bytes(), old(self).input.pos()) {
                Some(lt) => zset_entries_end(old(self).input.bytes(), lt.0, lt.1) == Some(final(self).input.pos()),
                None => false,
            },
            r is Ok ==> old(self).formatter.events().is_prefix_of(final(self).formatter.events())
                && (forall|i: int| old(self).formatter.events().len() <= i < final(self).formatter.events().len()
                    ==> is_stream_event(#[trigger] final(self).formatter.events()[i])),
            final(self).formatter.infallible() == old(self).formatter.infallible(),
            old(self).formatter.events().is_prefix_of(final(self).formatter.events()),
            match length_at(old(self).input.bytes(), old(self).input.pos()) {
                Some(lt) => (old(self).formatter.infallible() && zset_entries_at(old(self).input.bytes(), lt.0, lt.1) is Some) ==> r is Ok,
                None => true,
            },
    {
        let ghost data = old(self).input.bytes();
        let ghost p0 = old(self).input.pos();
        let ghost e0 = old(self).formatter.events();
        let expiry = self.last_expiretime;
        let len = match read_length(&mut self.input) {
            Ok(v) => v,
            Err(e) => return Err(e),
        };
        let ghost lt = length_at(data, p0).unwrap();
        let entries = match read_zset_entries(&mut self.input, len) {
            Ok(v) => v,
            Err(e) => return Err(e),
        };
        let r = emit_zset(&mut self.formatter, key, len, expiry, EncodingType::Hashtable, &entries);
        proof {
            if r is Ok {
                lemma_zset_read_skip_agree(data, lt.0, lt.1);
                lemma_zset_events_stream(key@, len, expiry, EncodingType::Hashtable, score_views(entries@));
                lemma_append_stream(e0, zset_events(key@, len, expiry, EncodingType::Hashtable, score_views(entries@)), self.formatter.events());
            }
        }
        r
    }

    /// Decode a length-prefixed run of member-and-binary-score entries.
    fn read_sorted_set_type_2(&mut self, key: &Vec<u8>) -> (r: RdbOk)
        ensures
            final(self).input.bytes() == old(self).input.bytes(),
            final(self).filter == old(self).filter,
            final(self).last_expiretime == old(self).last_expiretime,
            r is Ok ==> match length_at(old(self).input.bytes(), old(self).input.pos()) {
                Some(lt) => match zset2_entries_at(old(self).input.bytes(), lt.0, lt.1) {
                    Some(bt) => {
                        &&& final(self).input.pos() == bt.0
                        &&& final(self).formatter.events() == old(self).formatter.events()
                            + zset_events(key@, lt.1 as u32, old(self).last_expiretime, EncodingType::Hashtable, bt.1)
                    },
                    None => false,
                },
                None => false,
            },
            r is Ok ==> match length_at(old(self).input.bytes(), old(self).input.pos()) {
                Some(lt) => zset2_entries_end(old(self).input.bytes(), lt.0, lt.1) == Some(final(self).input.pos()),
                None => false,
            },
            r is Ok ==> old(self).formatter.events().is_prefix_of(final(self).formatter.events())
                && (forall|i: int| old(self).formatter.events().len() <= i < final(self).formatter.events().len()
                    ==> is_stream_event(#[trigger] final(self).formatter.events()[i])),
            final(self).formatter.infallible() == old(self).formatter.infallible(),
            old(self).formatter.events().is_prefix_of(final(self).formatter.events()),
            match length_at(old(self).input.bytes(), old(self).input.pos()) {
                Some(lt) => (old(self).formatter.infallible() && zset2_entries_at(old(self).input.bytes(), lt.0, lt.1) is Some) ==> r is Ok,
                None => true,
            },
    {
        let ghost data = old(self).input.bytes();
        let ghost p0 = old(self).input.pos();
        let ghost e0 = old(self).formatter.events();
        let expiry = self.last_expiretime;
        let len = match read_length(&mut self.input) {
            Ok(v) => v,
            Err(e) => return Err(e),
        };
        let ghost lt = length_at(data, p0).unwrap();
        let entries = match read_zset2_entries(&mut self.input, len) {
            Ok(v) => v,
            Err(e) => return Err(e),
        };
        let r = emit_zset(&mut self.formatter, key, len, expiry, EncodingType::Hashtable, &entries);
        proof {
            if r is Ok {
                lemma_zset2_read_skip_agree(data, lt.0, lt.1);
                lemma_zset_events_stream(key@, len, expiry, EncodingType::Hashtable, score_views(entries@));
                lemma_append_stream(e0, zset_events(key@, len, expiry, EncodingType::Hashtable, score_views(entries@)), self.formatter.events());
            }
        }
        r
    }

    /// Decode one blob holding a ziplist as a list record.
    fn read_list_ziplist(&mut self, key: &Vec<u8>) -> (r: RdbOk)
        ensures
            final(self).input.bytes() == old(self).input.bytes(),
            final(self).filter == old(self).filter,
            final(self).last_expiretime == old(self).last_expiretime,
            r is Ok ==> match blob_at(old(self).input.bytes(), old(self).input.pos()) {
                Some(t) => {
                    &&& final(self).input.pos() == t.0
                    &&& ziplist_ok(t.1)
                    &&& final(self).formatter.events() == old(self).formatter.events()
                        + list_events(key@, ziplist_count(t.1) as u32, old(self).last_expiretime, EncodingType::Ziplist(t.1.len() as u64), ziplist_strings(t.1))
                },
                None => false,
            },
            (blob_at(old(self).input.bytes(), old(self).input.pos()) matches Some(t) && ziplist_bad_terminator(t.1))
                ==> r == Err::<(), RdbError>(RdbError::Corrupt),
            r is Ok ==> blob_end(old(self).input.bytes(), old(self).input.pos()) == Some(final(self).input.pos()),
            r is Ok ==> old(self).formatter.events().is_prefix_of(final(self).formatter.events())
                && (forall|i: int| old(self).formatter.events().len() <= i < final(self).formatter.events().len()
                    ==> is_stream_event(#[trigger] final(self).formatter.events()[i])),
            final(self).formatter.infallible() == old(self).formatter.infallible(),
            old(self).formatter.events().is_prefix_of(final(self).formatter.events()),
            match blob_at(old(self).input.bytes(), old(self).input.pos()) {
                Some(t) => (old(self).formatter.infallible() && ziplist_ok(t.1)) ==> r is Ok,
                None => true,
            },
    {
        let ghost data = old(self).input.bytes();
        let ghost p0 = old(self).input.pos();
        let ghost e0 = old(self).formatter.events();
        let expiry = self.last_expiretime;
        let b = match read_blob(&mut self.input) {
            Ok(v) => v,
            Err(e) => return Err(e),
        };
        let raw_length = b.len() as u64;
        let (zllen, elems) = match parse_ziplist(b) {
            Ok(t) => t,
            Err(e) => return Err(e),
        };
        let r = emit_list(&mut self.formatter, key, zllen as u32, expiry, EncodingType::Ziplist(raw_length), &elems);
        proof {
            if r is Ok {
                lemma_blob_read_skip_agree(data, p0);
                lemma_list_events_stream(key@, zllen as u32, expiry, EncodingType::Ziplist(raw_length), views_of(elems@));
                lemma_append_stream(e0, list_events(key@, zllen as u32, expiry, EncodingType::Ziplist(raw_length), views_of(elems@)), self.formatter.events());
            }
        }
        r
    }

    /// Decode one blob holding a ziplist of field-value pairs as a hash
    /// record. An odd entry count is `Corrupt`.
    fn read_hash_ziplist(&mut self, key: &Vec<u8>) -> (r: RdbOk)
        ensures
            final(self).input.bytes() == old(self).input.bytes(),
            final(self).filter == old(self).filter,
            final(self).last_expiretime == old(self).last_expiretime,
            r is Ok ==> match blob_at(old(self).input.bytes(), old(self).input.pos()) {
                Some(t) => {
                    &&& final(self).input.pos() == t.0
                    &&& ziplist_ok(t.1)
                    &&& ziplist_count(t.1) % 2 == 0
                    &&& final(self).formatter.events() == old(self).formatter.events()
                        + hash_events(key@, (ziplist_count(t.1) / 2) as u32, old(self).last_expiretime, EncodingType::Ziplist(t.1.len() as u64), pairs_of(ziplist_strings(t.1)))
                },
                None => false,
            },
            (blob_at(old(self).input.bytes(), old(self).input.pos()) matches Some(t) && ziplist_bad_terminator(t.1))
                ==> r == Err::<(), RdbError>(RdbError::Corrupt),
            (blob_at(old(self).input.bytes(), old(self).input.pos()) matches Some(t)
                && ziplist_ok(t.1) && ziplist_count(t.1) % 2 != 0)
                ==> r == Err::<(), RdbError>(RdbError::Corrupt),
            r is Ok ==> blob_end(old(self).input.bytes(), old(self).input.pos()) == Some(final(self).input.pos()),
            r is Ok ==> old(self).formatter.events().is_prefix_of(final(self).formatter.events())
                && (forall|i: int| old(self).formatter.events().len() <= i < final(self).formatter.events().len()
                    ==> is_stream_event(#[trigger] final(self).formatter.events()[i])),
            final(self).formatter.infallible() == old(self).formatter.infallible(),
            old(self).formatter.events().is_prefix_of(final(self).formatter.events()),
            match blob_at(old(self).input.bytes(), old(self).input.pos()) {
                Some(t) => (old(self).formatter.infallible() && ziplist_ok(t.1) && ziplist_count(t.1) % 2 == 0) ==> r is Ok,
                None => true,
            },
    {
        let ghost data = old(self).input.bytes();
        let ghost p0 = old(self).input.pos();
        let ghost e0 = old(self).formatter.events();
        let expiry = self.last_expiretime;
        let b = match read_blob(&mut self.input) {
            Ok(v) => v,
            Err(e) => return Err(e),
        };
        let raw_length = b.len() as u64;
        let (zllen, elems) = match parse_ziplist(b) {
            Ok(t) => t,
            Err(e) => return Err(e),
        };
        if zllen % 2 != 0 {
            return Err(RdbError::Corrupt);
        }
        let pairs = pair_up(&elems);
        let r = emit_hash(&mut self.formatter, key, (zllen / 2) as u32, expiry, EncodingType::Ziplist(raw_length), &pairs);
        proof {
            if r is Ok {
                lemma_blob_read_skip_agree(data, p0);
                lemma_hash_events_stream(key@, (zllen / 2) as u32, expiry, EncodingType::Ziplist(raw_length), pair_views(pairs@));
                lemma_append_stream(e0, hash_events(key@, (zllen / 2) as u32, expiry, EncodingType::Ziplist(raw_length), pair_views(pairs@)), self.formatter.events());
            }
        }
        r
    }

    /// Decode one blob holding a ziplist of member-score pairs as a sorted-set
    /// record. An odd entry count is `Corrupt`.
    fn read_sortedset_ziplist(&mut self, key: &Vec<u8>) -> (r: RdbOk)
        ensures
            final(self).input.bytes() == old(self).input.bytes(),
            final(self).filter == old(self).filter,
            final(self).last_expiretime == old(self).last_expiretime,
            r is Ok ==> match blob_at(old(self).input.bytes(), old(self).input.pos()) {
                Some(t) => {
                    &&& final(self).input.pos() == t.0
                    &&& ziplist_ok(t.1)
                    &&& ziplist_count(t.1) % 2 == 0
                    &&& final(self).formatter.events() == old(self).formatter.events()
                        + zset_events(key@, (ziplist_count(t.1) / 2) as u32, old(self).last_expiretime, EncodingType::Ziplist(t.1.len() as u64), scored_pairs_of(ziplist_strings(t.1)))
                },
                None => false,
            },
            (blob_at(old(self).input.bytes(), old(self).input.pos()) matches Some(t) && ziplist_bad_terminator(t.1))
                ==> r == Err::<(), RdbError>(RdbError::Corrupt),
            (blob_at(old(self).input.bytes(), old(self).input.pos()) matches Some(t)
                && ziplist_ok(t.1) && ziplist_count(t.1) % 2 != 0)
                ==> r == Err::<(), RdbError>(RdbError::Corrupt),
            r is Ok ==> blob_end(old(self).input.bytes(), old(self).input.pos()) == Some(final(self).input.pos()),
            r is Ok ==> old(self).formatter.events().is_prefix_of(final(self).formatter.events())
                && (forall|i: int| old(self).formatter.events().len() <= i < final(self).formatter.events().len()
                    ==> is_stream_event(#[trigger] final(self).formatter.events()[i])),
            final(self).formatter.infallible() == old(self).formatter.infallible(),
            old(self).formatter.events().is_prefix_of(final(self).formatter.events()),
            match blob_at(old(self).input.bytes(), old(self).input.pos()) {
                Some(t) => (old(self).formatter.infallible() && ziplist_ok(t.1) && ziplist_count(t.1) % 2 == 0) ==> r is Ok,
                None => true,
            },
    {
        let ghost data = old(self).input.bytes();
        let ghost p0 = old(self).input.pos();
        let ghost e0 = old(self).formatter.events();
        let expiry = self.last_expiretime;
        let b = match read_blob(&mut self.input) {
            Ok(v) => v,
            Err(e) => return Err(e),
        };
        let raw_length = b.len() as u64;
        let (zllen, elems) = match parse_ziplist(b) {
            Ok(t) => t,
            Err(e) => return Err(e),
        };
        if zllen % 2 != 0 {
            return Err(RdbError::Corrupt);
        }
        let entries = score_up(&elems);
        let r = emit_zset(&mut self.formatter, key, (zllen / 2) as u32, expiry, EncodingType::Ziplist(raw_length), &entries);
        proof {
            if r is Ok {
                lemma_blob_read_skip_agree(data, p0);
                lemma_zset_events_stream(key@, (zllen / 2) as u32, expiry, EncodingType::Ziplist(raw_length), score_views(entries@));
                lemma_append_stream(e0, zset_events(key@, (zllen / 2) as u32, expiry, EncodingType::Ziplist(raw_length), score_views(entries@)), self.formatter.events());
            }
        }
        r
    }

    /// Decode one blob holding a zipmap as a hash record. The declared count
    /// is reported when it is known; 254 and 255 mean it is not.
    fn read_hash_zipmap(&mut self, key: &Vec<u8>) -> (r: RdbOk)
        ensures
            final(self).input.bytes() == old(self).input.bytes(),
            final(self).filter == old(self).filter,
            final(self).last_expiretime == old(self).last_expiretime,
            r is Ok ==> match blob_at(old(self).input.bytes(), old(self).input.pos()) {
                Some(t) => {
                    &&& final(self).input.pos() == t.0
                    &&& zipmap_ok(t.1)
                    &&& final(self).formatter.events() == old(self).formatter.events()
                        + hash_events(key@, (if t.1[0] <= 253 { t.1[0] as u32 } else { 0u32 }), old(self).last_expiretime, EncodingType::Zipmap(t.1.len() as u64), zipmap_pairs_of(t.1))
                },
                None => false,
            },
            (blob_at(old(self).input.bytes(), old(self).input.pos()) matches Some(t) && t.1.len() >= 1
                && zm_bad_terminator(t.1, 1, zipmap_declared(t.1)))
                ==> r == Err::<(), RdbError>(RdbError::Corrupt),
            r is Ok ==> blob_end(old(self).input.bytes(), old(self).input.pos()) == Some(final(self).input.pos()),
            r is Ok ==> old(self).formatter.events().is_prefix_of(final(self).formatter.events())
                && (forall|i: int| old(self).formatter.events().len() <= i < final(self).formatter.events().len()
                    ==> is_stream_event(#[trigger] final(self).formatter.events()[i])),
            final(self).formatter.infallible() == old(self).formatter.infallible(),
            old(self).formatter.events().is_prefix_of(final(self).formatter.events()),
            match blob_at(old(self).input.bytes(), old(self).input.pos()) {
                Some(t) => (old(self).formatter.infallible() && zipmap_ok(t.1)) ==> r is Ok,
                None => true,
            },
    {
        let ghost data = old(self).input.bytes();
        let ghost p0 = old(self).input.pos();
        let ghost e0 = old(self).formatter.events();
        let expiry = self.last_expiretime;
        let b = match read_blob(&mut self.input) {
            Ok(v) => v,
            Err(e) => return Err(e),
        };
        let raw_length = b.len() as u64;
        let (zmlen, pairs) = match parse_zipmap(b) {
            Ok(t) => t,
            Err(e) => return Err(e),
        };
        let size: u32 = if zmlen <= 253 { zmlen as u32 } else { 0 };
        let r = emit_hash(&mut self.formatter, key, size, expiry, EncodingType::Zipmap(raw_length), &pairs);
        proof {
            if r is Ok {
                lemma_blob_read_skip_agree(data, p0);
                lemma_hash_events_stream(key@, size, expiry, EncodingType::Zipmap(raw_length), pair_views(pairs@));
                lemma_append_stream(e0, hash_events(key@, size, expiry, EncodingType::Zipmap(raw_length), pair_views(pairs@)), self.formatter.events());
            }
        }
        r
    }

    /// Decode one blob holding an intset as a set record.
    fn read_set_intset(&mut self, key: &Vec<u8>) -> (r: RdbOk)
        ensures
            final(self).input.bytes() == old(self).input.bytes(),
            final(self).filter == old(self).filter,
            final(self).last_expiretime == old(self).last_expiretime,
            r is Ok ==> match blob_at(old(self).input.bytes(), old(self).input.pos()) {
                Some(t) => {
                    &&& final(self).input.pos() == t.0
                    &&& intset_ok(t.1)
                    &&& final(self).formatter.events() == old(self).formatter.events()
                        + set_events(key@, intset_count(t.1) as u32, old(self).last_expiretime, EncodingType::Intset(t.1.len() as u64), intset_strings(t.1))
                },
                None => false,
            },
            (blob_at(old(self).input.bytes(), old(self).input.pos()) matches Some(t) && t.1.len() >= 8
                && !({
                    let w = u32_le(t.1[0], t.1[1], t.1[2], t.1[3]);
                    w == 2 || w == 4 || w == 8
                }))
                ==> r == Err::<(), RdbError>(RdbError::Corrupt),
            r is Ok ==> blob_end(old(self).input.bytes(), old(self).input.pos()) == Some(final(self).input.pos()),
            r is Ok ==> old(self).formatter.events().is_prefix_of(final(self).formatter.events())
                && (forall|i: int| old(self).formatter.events().len() <= i < final(self).formatter.events().len()
                    ==> is_stream_event(#[trigger] final(self).formatter.events()[i])),
            final(self).formatter.infallible() == old(self).formatter.infallible(),
            old(self).formatter.events().is_prefix_of(final(self).formatter.events()),
            match blob_at(old(self).input.bytes(), old(self).input.pos()) {
                Some(t) => (old(self).formatter.infallible() && intset_ok(t.1)) ==> r is Ok,
                None => true,
            },
    {
        let ghost data = old(self).input.bytes();
        let ghost p0 = old(self).input.pos();
        let ghost e0 = old(self).formatter.events();
        let expiry = self.last_expiretime;
        let b = match read_blob(&mut self.input) {
            Ok(v) => v,
            Err(e) => return Err(e),
        };
        let raw_length = b.len() as u64;
        let (count, elems) = match parse_intset(b) {
            Ok(t) => t,
            Err(e) => return Err(e),
        };
        let r = emit_set(&mut self.formatter, key, count, expiry, EncodingType::Intset(raw_length), &elems);
        proof {
            if r is Ok {
                lemma_blob_read_skip_agree(data, p0);
                lemma_set_events_stream(key@, count, expiry, EncodingType::Intset(raw_length), views_of(elems@));
                lemma_append_stream(e0, set_events(key@, count, expiry, EncodingType::Intset(raw_length), views_of(elems@)), self.formatter.events());
            }
        }
        r
    }

    /// Decode a quicklist: a length-prefixed run of ziplist blobs whose
    /// entries are emitted as one list record. The element total is not known
    /// ahead of the inner ziplists, so the start event carries a count of 0.
    #[verifier::loop_isolation(false)]
    #[verifier::rlimit(50)]
    fn read_quicklist(&mut self, key: &Vec<u8>) -> (r: RdbOk)
        ensures
            final(self).input.bytes() == old(self).input.bytes(),
            final(self).filter == old(self).filter,
            final(self).last_expiretime == old(self).last_expiretime,
            r is Ok ==> match length_at(old(self).input.bytes(), old(self).input.pos()) {
                Some(lt) => match quicklist_elems(old(self).input.bytes(), lt.0, lt.1) {
                    Some(qt) => {
                        &&& final(self).input.pos() == qt.0
                        &&& final(self).formatter.events() == old(self).formatter.events()
                            + list_events(key@, 0, old(self).last_expiretime, EncodingType::Quicklist, qt.1)
                    },
                    None => false,
                },
                None => false,
            },
            r is Ok ==> match length_at(old(self).input.bytes(), old(self).input.pos()) {
                Some(lt) => blobs_end(old(self).input.bytes(), lt.0, lt.1) == Some(final(self).input.pos()),
                None => false,
            },
            r is Ok ==> old(self).formatter.events().is_prefix_of(final(self).formatter.events())
                && (forall|i: int| old(self).formatter.events().len() <= i < final(self).formatter.events().len()
                    ==> is_stream_event(#[trigger] final(self).formatter.events()[i])),
            final(self).formatter.infallible() == old(self).formatter.infallible(),
            old(self).formatter.events().is_prefix_of(final(self).formatter.events()),
            match length_at(old(self).input.bytes(), old(self).input.pos()) {
                Some(lt) => (old(self).formatter.infallible() && quicklist_elems(old(self).input.bytes(), lt.0, lt.1) is Some) ==> r is Ok,
                None => true,
            },
    {
        let ghost data = old(self).input.bytes();
        let ghost p0 = old(self).input.pos();
        let ghost e0 = old(self).formatter.events();
        let expiry = self.last_expiretime;
        let n = match read_length(&mut self.input) {
            Ok(v) => v,
            Err(e) => return Err(e),
        };
        let ghost ps = self.input.pos();
        let mut all: Vec<Vec<u8>> = Vec::new();
        let mut i: u32 = 0;
        while i < n
            invariant
                self.input.bytes() == data,
                self.filter == old(self).filter,
                self.last_expiretime == old(self).last_expiretime,
                self.formatter == old(self).formatter,
                i <= n,
                match quicklist_elems(data, self.input.pos(), (n - i) as nat) {
                    Some(t) => quicklist_elems(data, ps, n as nat) == Some((t.0, views_of(all@) + t.1)),
                    None => quicklist_elems(data, ps, n as nat) is None,
                },
            decreases n - i,
        {
            let ghost cur = self.input.pos();
            let b = match read_blob(&mut self.input) {
                Ok(v) => v,
                Err(e) => {
                    proof {
                        assert(quicklist_elems(data, cur, (n - i) as nat) is None);
                    }
                    return Err(e);
                },
            };
            let ghost bb = blob_at(data, cur).unwrap().1;
            let (_zllen, mut elems) = match parse_ziplist(b) {
                Ok(t) => t,
                Err(e) => {
                    proof {
                        assert(!ziplist_ok(bb));
                        assert(quicklist_elems(data, cur, (n - i) as nat) is None);
                    }
                    return Err(e);
                },
            };
            proof {
                match quicklist_elems(data, self.input.pos(), (n - i - 1) as nat) {
                    Some(t2) => {
                        assert(quicklist_elems(data, cur, (n - i) as nat) == Some((t2.0, ziplist_strings(bb) + t2.1)));
                        assert(views_of(all@ + elems@) =~= views_of(all@) + views_of(elems@));
                        assert(views_of(all@) + (ziplist_strings(bb) + t2.1) =~= (views_of(all@) + views_of(elems@)) + t2.1);
                    },
                    None => {
                        assert(quicklist_elems(data, cur, (n - i) as nat) is None);
                    },
                }
            }
            all.append(&mut elems);
            i = i + 1;
        }
        proof {
            assert(quicklist_elems(data, self.input.pos(), 0) == Some((self.input.pos(), Seq::<Seq<u8>>::empty())));
            assert(views_of(all@) + Seq::<Seq<u8>>::empty() =~= views_of(all@));
        }
        let r = emit_list(&mut self.formatter, key, 0, expiry, EncodingType::Quicklist, &all);
        proof {
            if r is Ok {
                let lt = length_at(data, p0).unwrap();
                lemma_quicklist_read_skip_agree(data, lt.0, lt.1);
                lemma_list_events_stream(key@, 0, expiry, EncodingType::Quicklist, views_of(all@));
                lemma_append_stream(e0, list_events(key@, 0, expiry, EncodingType::Quicklist, views_of(all@)), self.formatter.events());
            }
        }
        r
    }

    /// Decode one value record of the given type tag and drive the sink
    /// through its event run. An unknown tag is `Corrupt`. Whatever the tag,
    /// on success the cursor lands exactly where the skip path would land.
    /// Decode one record whose payload is a counted run of fields.
    #[verifier::rlimit(100)]
    fn read_type_counted(&mut self, key: &Vec<u8>, value_type: u8) -> (r: RdbOk)
        requires
            value_type == TYPE_LIST || value_type == TYPE_SET || value_type == TYPE_ZSET
                || value_type == TYPE_ZSET_2 || value_type == TYPE_HASH,
        ensures
            final(self).input.bytes() == old(self).input.bytes(),
            final(self).filter == old(self).filter,
            final(self).last_expiretime == old(self).last_expiretime,
            r is Ok ==> {
                &&& object_end(old(self).input.bytes(), old(self).input.pos(), value_type) == Some(final(self).input.pos())
                &&& old(self).formatter.events().is_prefix_of(final(self).formatter.events())
                &&& forall|i: int| old(self).formatter.events().len() <= i < final(self).formatter.events().len()
                    ==> is_stream_event(#[trigger] final(self).formatter.events()[i])
            },
            final(self).formatter.infallible() == old(self).formatter.infallible(),
            old(self).formatter.events().is_prefix_of(final(self).formatter.events()),
            (old(self).formatter.infallible()
                && object_read_end(old(self).input.bytes(), old(self).input.pos(), value_type) is Some) ==> r is Ok,
            r is Ok ==> final(self).formatter.events() == old(self).formatter.events()
                + record_events(old(self).input.bytes(), old(self).input.pos(), value_type, key@, old(self).last_expiretime),
            r is Ok ==> object_read_end(old(self).input.bytes(), old(self).input.pos(), value_type) is Some,
    {
        let ghost data = old(self).input.bytes();
        let ghost p0 = old(self).input.pos();
        let ghost expiry = self.last_expiretime;
        if value_type == TYPE_LIST || value_type == TYPE_SET {
            proof {
                assert(object_read_end(data, p0, value_type) is Some <==> (match length_at(data, p0) { Some(lt) => blobs_at(data, lt.0, lt.1) is Some, None => false })) by {
                    reveal(object_read_end);
                }
                assert(object_end(data, p0, value_type) == (match length_at(data, p0) { Some(lt) => blobs_end(data, lt.0, lt.1), None => None })) by {
                    reveal(object_end);
                }
            }
                assert(match length_at(data, p0) {
                    Some(lt) => match blobs_at(data, lt.0, lt.1) {
                        Some(bt) => record_events(data, p0, value_type, key@, expiry) == (if value_type == TYPE_LIST {
                            list_events(key@, lt.1 as u32, expiry, EncodingType::LinkedList, bt.1)
                        } else {
                            set_events(key@, lt.1 as u32, expiry, EncodingType::LinkedList, bt.1)
                        }),
                        None => true,
                    },
                    None => true,
                }) by {
                    reveal(record_events);
                }
            self.read_linked_list(key, value_type == TYPE_LIST)
        } else if value_type == TYPE_ZSET {
            proof {
                assert(object_read_end(data, p0, value_type) is Some <==> (match length_at(data, p0) { Some(lt) => zset_entries_at(data, lt.0, lt.1) is Some, None => false })) by {
                    reveal(object_read_end);
                }
                assert(object_end(data, p0, value_type) == (match length_at(data, p0) { Some(lt) => zset_entries_end(data, lt.0, lt.1), None => None })) by {
                    reveal(object_end);
                }
                assert(match length_at(data, p0) {
                    Some(lt) => match zset_entries_at(data, lt.0, lt.1) {
                        Some(bt) => record_events(data, p0, value_type, key@, expiry) == zset_events(key@, lt.1 as u32, expiry, EncodingType::Hashtable, bt.1),
                        None => true,
                    },
                    None => true,
                }) by {
                    reveal(record_events);
                }
            }
            self.read_sorted_set(key)
        } else if value_type == TYPE_ZSET_2 {
            proof {
                assert(object_read_end(data, p0, value_type) is Some <==> (match length_at(data, p0) { Some(lt) => zset2_entries_at(data, lt.0, lt.1) is Some, None => false })) by {
                    reveal(object_read_end);
                }
                assert(object_end(data, p0, value_type) == (match length_at(data, p0) { Some(lt) => zset2_entries_end(data, lt.0, lt.1), None => None })) by {
                    reveal(object_end);
                }
                assert(match length_at(data, p0) {
                    Some(lt) => match zset2_entries_at(data, lt.0, lt.1) {
                        Some(bt) => record_events(data, p0, value_type, key@, expiry) == zset_events(key@, lt.1 as u32, expiry, EncodingType::Hashtable, bt.1),
                        None => true,
                    },
                    None => true,
                }) by {
                    reveal(record_events);
                }
            }
            self.read_sorted_set_type_2(key)
        } else if value_type == TYPE_HASH {
            proof {
                assert(object_read_end(data, p0, value_type) is Some <==> (match length_at(data, p0) { Some(lt) => blob_pairs_at(data, lt.0, lt.1) is Some, None => false })) by {
                    reveal(object_read_end);
                }
                assert(object_end(data, p0, value_type) == (match length_at(data, p0) { Some(lt) => blobs_end(data, lt.0, 2 * lt.1), None => None })) by {
                    reveal(object_end);
                }
                assert(match length_at(data, p0) {
                    Some(lt) => match blob_pairs_at(data, lt.0, lt.1) {
                        Some(bt) => record_events(data, p0, value_type, key@, expiry) == hash_events(key@, lt.1 as u32, expiry, EncodingType::Hashtable, bt.1),
                        None => true,
                    },
                    None => true,
                }) by {
                    reveal(record_events);
                }
            }
            self.read_hash(key)
        } else {
            proof {
                assert(false);
            }
            Err(RdbError::Corrupt)
        }
    }

    /// Decode one record whose payload is a wrapped sub-container or a
    /// quicklist.
    #[verifier::rlimit(100)]
    fn read_type_wrapped(&mut self, key: &Vec<u8>, value_type: u8) -> (r: RdbOk)
        requires
            value_type == TYPE_HASH_ZIPMAP || value_type == TYPE_LIST_ZIPLIST
                || value_type == TYPE_SET_INTSET || value_type == TYPE_ZSET_ZIPLIST
                || value_type == TYPE_HASH_ZIPLIST || value_type == TYPE_LIST_QUICKLIST,
        ensures
            final(self).input.bytes() == old(self).input.bytes(),
            final(self).filter == old(self).filter,
            final(self).last_expiretime == old(self).last_expiretime,
            r is Ok ==> {
                &&& object_end(old(self).input.bytes(), old(self).input.pos(), value_type) == Some(final(self).input.pos())
                &&& old(self).formatter.events().is_prefix_of(final(self).formatter.events())
                &&& forall|i: int| old(self).formatter.events().len() <= i < final(self).formatter.events().len()
                    ==> is_stream_event(#[trigger] final(self).formatter.events()[i])
            },
            final(self).formatter.infallible() == old(self).formatter.infallible(),
            old(self).formatter.events().is_prefix_of(final(self).formatter.events()),
            (old(self).formatter.infallible()
                && object_read_end(old(self).input.bytes(), old(self).input.pos(), value_type) is Some) ==> r is Ok,
            r is Ok ==> final(self).formatter.events() == old(self).formatter.events()
                + record_events(old(self).input.bytes(), old(self).input.pos(), value_type, key@, old(self).last_expiretime),
            r is Ok ==> object_read_end(old(self).input.bytes(), old(self).input.pos(), value_type) is Some,
    {
        let ghost data = old(self).input.bytes();
        let ghost p0 = old(self).input.pos();
        let ghost expiry = self.last_expiretime;
        if value_type == TYPE_HASH_ZIPMAP {
            proof {
                assert(object_read_end(data, p0, value_type) is Some <==> (match blob_at(data, p0) { Some(t) => zipmap_ok(t.1), None => false })) by {
                    reveal(object_read_end);
                }
                assert(object_end(data, p0, value_type) == blob_end(data, p0)) by {
                    reveal(object_end);
                }
                assert(match blob_at(data, p0) {
                    Some(t) => zipmap_ok(t.1) ==> record_events(data, p0, value_type, key@, expiry)
                        == hash_events(key@, (if t.1[0] <= 253 { t.1[0] as u32 } else { 0u32 }), expiry, EncodingType::Zipmap(t.1.len() as u64), zipmap_pairs_of(t.1)),
                    None => true,
                }) by {
                    reveal(record_events);
                }
            }
            self.read_hash_zipmap(key)
        } else if value_type == TYPE_LIST_ZIPLIST {
            proof {
                assert(object_read_end(data, p0, value_type) is Some <==> (match blob_at(data, p0) { Some(t) => ziplist_ok(t.1), None => false })) by {
                    reveal(object_read_end);
                }
                assert(object_end(data, p0, value_type) == blob_end(data, p0)) by {
                    reveal(object_end);
                }
                assert(match blob_at(data, p0) {
                    Some(t) => record_events(data, p0, value_type, key@, expiry)
                        == list_events(key@, ziplist_count(t.1) as u32, expiry, EncodingType::Ziplist(t.1.len() as u64), ziplist_strings(t.1)),
                    None => true,
                }) by {
                    reveal(record_events);
                }
            }
            self.read_list_ziplist(key)
        } else if value_type == TYPE_SET_INTSET {
            proof {
                assert(object_read_end(data, p0, value_type) is Some <==> (match blob_at(data, p0) { Some(t) => intset_ok(t.1), None => false })) by {
                    reveal(object_read_end);
                }
                assert(object_end(data, p0, value_type) == blob_end(data, p0)) by {
                    reveal(object_end);
                }
                assert(match blob_at(data, p0) {
                    Some(t) => record_events(data, p0, value_type, key@, expiry)
                        == set_events(key@, intset_count(t.1) as u32, expiry, EncodingType::Intset(t.1.len() as u64), intset_strings(t.1)),
                    None => true,
                }) by {
                    reveal(record_events);
                }
            }
            self.read_set_intset(key)
        } else if value_type == TYPE_ZSET_ZIPLIST {
            proof {
                assert(object_read_end(data, p0, value_type) is Some <==> (match blob_at(data, p0) { Some(t) => ziplist_ok(t.1) && ziplist_count(t.1) % 2 == 0, None => false })) by {
                    reveal(object_read_end);
                }
                assert(object_end(data, p0, value_type) == blob_end(data, p0)) by {
                    reveal(object_end);
                }
                assert(match blob_at(data, p0) {
                    Some(t) => record_events(data, p0, value_type, key@, expiry)
                        == zset_events(key@, (ziplist_count(t.1) / 2) as u32, expiry, EncodingType::Ziplist(t.1.len() as u64), scored_pairs_of(ziplist_strings(t.1))),
                    None => true,
                }) by {
                    reveal(record_events);
                }
            }
            self.read_sortedset_ziplist(key)
        } else if value_type == TYPE_HASH_ZIPLIST {
            proof {
                assert(object_read_end(data, p0, value_type) is Some <==> (match blob_at(data, p0) { Some(t) => ziplist_ok(t.1) && ziplist_count(t.1) % 2 == 0, None => false })) by {
                    reveal(object_read_end);
                }
                assert(object_end(data, p0, value_type) == blob_end(data, p0)) by {
                    reveal(object_end);
                }
                assert(match blob_at(data, p0) {
                    Some(t) => record_events(data, p0, value_type, key@, expiry)
                        == hash_events(key@, (ziplist_count(t.1) / 2) as u32, expiry, EncodingType::Ziplist(t.1.len() as u64), pairs_of(ziplist_strings(t.1))),
                    None => true,
                }) by {
                    reveal(record_events);
                }
            }
            self.read_hash_ziplist(key)
        } else if value_type == TYPE_LIST_QUICKLIST {
            proof {
                assert(object_read_end(data, p0, value_type) is Some <==> (match length_at(data, p0) { Some(lt) => quicklist_elems(data, lt.0, lt.1) is Some, None => false })) by {
                    reveal(object_read_end);
                }
                assert(object_end(data, p0, value_type) == (match length_at(data, p0) { Some(lt) => blobs_end(data, lt.0, lt.1), None => None })) by {
                    reveal(object_end);
                }
                assert(match length_at(data, p0) {
                    Some(lt) => match quicklist_elems(data, lt.0, lt.1) {
                        Some(qt) => record_events(data, p0, value_type, key@, expiry) == list_events(key@, 0, expiry, EncodingType::Quicklist, qt.1),
                        None => true,
                    },
                    None => true,
                }) by {
                    reveal(record_events);
                }
            }
            self.read_quicklist(key)
        } else {
            proof {
                assert(false);
            }
            Err(RdbError::Corrupt)
        }
    }

    /// Decode one value record of the given type tag and drive the sink
    /// through its event run. An unknown tag is `Corrupt`. Whatever the tag,
    /// on success the cursor lands exactly where the skip path would land,
    /// and with a sink that cannot fail, success is owed exactly on a
    /// well-formed payload.
    fn read_type(&mut self, key: &Vec<u8>, value_type: u8) -> (r: RdbOk)
        ensures
            final(self).input.bytes() == old(self).input.bytes(),
            final(self).filter == old(self).filter,
            final(self).last_expiretime == old(self).last_expiretime,
            r is Ok ==> {
                &&& object_end(old(self).input.bytes(), old(self).input.pos(), value_type) == Some(final(self).input.pos())
                &&& old(self).formatter.events().is_prefix_of(final(self).formatter.events())
                &&& forall|i: int| old(self).formatter.events().len() <= i < final(self).formatter.events().len()
                    ==> is_stream_event(#[trigger] final(self).formatter.events()[i])
            },
            final(self).formatter.infallible() == old(self).formatter.infallible(),
            old(self).formatter.events().is_prefix_of(final(self).formatter.events()),
            (old(self).formatter.infallible()
                && object_read_end(old(self).input.bytes(), old(self).input.pos(), value_type) is Some) ==> r is Ok,
            r is Ok ==> final(self).formatter.events() == old(self).formatter.events()
                + record_events(old(self).input.bytes(), old(self).input.pos(), value_type, key@, old(self).last_expiretime),
            r is Ok ==> object_read_end(old(self).input.bytes(), old(self).input.pos(), value_type) is Some,
            !known_tag(value_type) ==> (r == Err::<(), RdbError>(RdbError::Corrupt)
                && final(self).formatter.events() == old(self).formatter.events()),
    {
        let ghost data = old(self).input.bytes();
        let ghost p0 = old(self).input.pos();
        let ghost e0 = old(self).formatter.events();
        let ghost expiry = self.last_expiretime;
        if value_type == TYPE_STRING {
            proof {
                assert(object_read_end(data, p0, value_type) is Some <==> blob_at(data, p0) is Some) by {
                    reveal(object_read_end);
                }
                assert(object_end(data, p0, value_type) == blob_end(data, p0)) by {
                    reveal(object_end);
                }
                assert(match blob_at(data, p0) {
                    Some(t) => record_events(data, p0, value_type, key@, expiry) == seq![EventS::Scalar { key: key@, value: t.1, expiry }],
                    None => true,
                }) by {
                    reveal(record_events);
                }
            }
            let val = match read_blob(&mut self.input) {
                Ok(v) => v,
                Err(e) => return Err(e),
            };
            match self.formatter.set(key, &val, self.last_expiretime) {
                Ok(()) => (),
                Err(e) => return Err(e),
            }
            proof {
                lemma_blob_read_skip_agree(data, p0);
                let ne = self.formatter.events();
                assert(ne == e0 + seq![EventS::Scalar { key: key@, value: val@, expiry }]) by {
                    assert(ne =~= e0 + seq![EventS::Scalar { key: key@, value: val@, expiry }]);
                }
                lemma_append_stream(e0, seq![EventS::Scalar { key: key@, value: val@, expiry }], ne);
            }
            Ok(())
        } else if value_type == TYPE_LIST || value_type == TYPE_SET || value_type == TYPE_ZSET
            || value_type == TYPE_ZSET_2 || value_type == TYPE_HASH {
            self.read_type_counted(key, value_type)
        } else if value_type == TYPE_HASH_ZIPMAP || value_type == TYPE_LIST_ZIPLIST
            || value_type == TYPE_SET_INTSET || value_type == TYPE_ZSET_ZIPLIST
            || value_type == TYPE_HASH_ZIPLIST || value_type == TYPE_LIST_QUICKLIST {
            self.read_type_wrapped(key, value_type)
        } else {
            proof {
                assert(object_read_end(data, p0, value_type) is None) by {
                    reveal(object_read_end);
                }
                assert(object_end(data, p0, value_type) is None) by {
                    reveal(object_end);
                }
            }
            Err(RdbError::Corrupt)
        }
    }

    /// Handle one value record: consult the filter, decode or skip, and clear
    /// the pending expiration whatever happened. On success the cursor lands
    /// exactly where a pure skip would land.
    fn read_record(&mut self, value_type: u8, db: u32) -> (r: RdbOk)
        ensures
            final(self).input.bytes() == old(self).input.bytes(),
            final(self).filter == old(self).filter,
            final(self).last_expiretime is None,
            final(self).formatter.infallible() == old(self).formatter.infallible(),
            old(self).formatter.events().is_prefix_of(final(self).formatter.events()),
            match blob_at(old(self).input.bytes(), old(self).input.pos()) {
                Some(kt) => (old(self).formatter.infallible()
                    && object_read_end(old(self).input.bytes(), kt.0, value_type) is Some) ==> r is Ok,
                None => true,
            },
            (r is Ok && old(self).filter.db_spec(db)) ==> blob_at(old(self).input.bytes(), old(self).input.pos()) is Some,
            r is Ok ==> match blob_at(old(self).input.bytes(), old(self).input.pos()) {
                Some(kt) => (old(self).filter.db_spec(db) && old(self).filter.type_spec(value_type) && old(self).filter.key_spec(kt.1))
                    ==> object_read_end(old(self).input.bytes(), kt.0, value_type) is Some,
                None => true,
            },
            r is Ok ==> match blob_at(old(self).input.bytes(), old(self).input.pos()) {
                Some(kt) => final(self).formatter.events() == old(self).formatter.events()
                    + if old(self).filter.db_spec(db) && old(self).filter.type_spec(value_type) && old(self).filter.key_spec(kt.1) {
                        record_events(old(self).input.bytes(), kt.0, value_type, kt.1, old(self).last_expiretime)
                    } else {
                        Seq::empty()
                    },
                None => final(self).formatter.events() == old(self).formatter.events(),
            },
            r is Ok ==> {
                &&& match blob_end(old(self).input.bytes(), old(self).input.pos()) {
                    Some(kp) => match object_end(old(self).input.bytes(), kp, value_type) {
                        Some(p) => final(self).input.pos() == p,
                        None => false,
                    },
                    None => false,
                }
                &&& old(self).formatter.events().is_prefix_of(final(self).formatter.events())
                &&& forall|i: int| old(self).formatter.events().len() <= i < final(self).formatter.events().len()
                    ==> is_stream_event(#[trigger] final(self).formatter.events()[i])
            },
    {
        let ghost data = old(self).input.bytes();
        let ghost p0 = old(self).input.pos();
        if self.filter.matches_db(db) {
            match read_blob(&mut self.input) {
                Err(e) => {
                    self.last_expiretime = None;
                    Err(e)
                },
                Ok(key) => {
                    let wanted = self.filter.matches_type(value_type) && self.filter.matches_key(&key);
                    let r = if wanted {
                        self.read_type(&key, value_type)
                    } else {
                        skip_object(&mut self.input, value_type)
                    };
                    proof {
                        lemma_blob_read_skip_agree(data, p0);
                        match blob_at(data, p0) {
                            Some(kt) => lemma_object_read_skip_agree(data, kt.0, value_type),
                            None => (),
                        }
                        assert(self.formatter.events() + Seq::<EventS>::empty() =~= self.formatter.events());
                    }
                    self.last_expiretime = None;
                    r
                },
            }
        } else {
            let r = skip_key_and_object(&mut self.input, value_type);
            proof {
                lemma_blob_read_skip_agree(data, p0);
                match blob_at(data, p0) {
                    Some(kt) => lemma_object_read_skip_agree(data, kt.0, value_type),
                    None => (),
                }
                assert(self.formatter.events() + Seq::<EventS>::empty() =~= self.formatter.events());
            }
            self.last_expiretime = None;
            r
        }
    }

    /// Handle one control opcode that has already been consumed: database
    /// selection, the two expirations, the resize hint, or an auxiliary
    /// field. The opcode byte stands just before the cursor.
    #[verifier::rlimit(100)]
    fn control_op(&mut self, next_op: u8, last_database: &mut u32) -> (r: RdbOk)
        requires
            old(self).input.pos() >= 1,
            old(self).input.pos() <= old(self).input.bytes().len(),
            old(self).input.bytes()[old(self).input.pos() - 1] == next_op,
            next_op == OP_SELECTDB || next_op == OP_EXPIRETIME_MS || next_op == OP_EXPIRETIME
                || next_op == OP_RESIZEDB || next_op == OP_AUX,
        ensures
            final(self).input.bytes() == old(self).input.bytes(),
            final(self).filter == old(self).filter,
            r is Ok ==> {
                &&& frame_at(old(self).input.bytes(), old(self).input.pos() - 1, *old(last_database))
                    == frame_at(old(self).input.bytes(), final(self).input.pos(), *final(last_database))
                &&& frame_read_at(old(self).input.bytes(), old(self).input.pos() - 1, *old(last_database))
                    == frame_read_at(old(self).input.bytes(), final(self).input.pos(), *final(last_database))
                &&& old(self).input.pos() <= final(self).input.pos() <= old(self).input.bytes().len()
                &&& old(self).formatter.events().is_prefix_of(final(self).formatter.events())
                &&& forall|i: int| old(self).formatter.events().len() <= i < final(self).formatter.events().len()
                    ==> is_stream_event(#[trigger] final(self).formatter.events()[i])
            },
            final(self).formatter.infallible() == old(self).formatter.infallible(),
            old(self).formatter.events().is_prefix_of(final(self).formatter.events()),
            ({
                let data = old(self).input.bytes();
                let p = old(self).input.pos();
                let inf = old(self).formatter.infallible();
                &&& (next_op == OP_SELECTDB && inf && length_at(data, p) is Some) ==> r is Ok
                &&& (next_op == OP_EXPIRETIME_MS && inf && p + 8 <= data.len()) ==> r is Ok
                &&& (next_op == OP_EXPIRETIME && inf && p + 4 <= data.len()) ==> r is Ok
                &&& (next_op == OP_RESIZEDB && inf) ==> match length_at(data, p) {
                    Some(l1) => length_at(data, l1.0) is Some ==> r is Ok,
                    None => true,
                }
                &&& (next_op == OP_AUX && inf) ==> match blob_at(data, p) {
                    Some(b1) => blob_at(data, b1.0) is Some ==> r is Ok,
                    None => true,
                }
            }),
            r is Ok ==> ({
                let data = old(self).input.bytes();
                let p = old(self).input.pos();
                let oe = old(self).formatter.events();
                let ne = final(self).formatter.events();
                if next_op == OP_SELECTDB {
                    match length_at(data, p) {
                        Some(lt) => {
                            &&& *final(last_database) == lt.1 as u32
                            &&& final(self).input.pos() == lt.0
                            &&& final(self).last_expiretime == old(self).last_expiretime
                            &&& ne == if old(self).filter.db_spec(lt.1 as u32) {
                                oe.push(EventS::StartDatabase(lt.1 as u32))
                            } else {
                                oe
                            }
                        },
                        None => false,
                    }
                } else if next_op == OP_EXPIRETIME_MS {
                    &&& *final(last_database) == *old(last_database)
                    &&& final(self).input.pos() == p + 8
                    &&& final(self).last_expiretime == Some(u64_le(data.subrange(p, p + 8)) as u64)
                    &&& ne == oe
                } else if next_op == OP_EXPIRETIME {
                    &&& *final(last_database) == *old(last_database)
                    &&& final(self).input.pos() == p + 4
                    &&& final(self).last_expiretime == Some((u32_be(data[p], data[p + 1], data[p + 2], data[p + 3]) * 1000) as u64)
                    &&& ne == oe
                } else if next_op == OP_RESIZEDB {
                    match length_at(data, p) {
                        Some(l1) => match length_at(data, l1.0) {
                            Some(l2) => {
                                &&& *final(last_database) == *old(last_database)
                                &&& final(self).input.pos() == l2.0
                                &&& final(self).last_expiretime == old(self).last_expiretime
                                &&& ne == oe.push(EventS::ResizeDb { db_size: l1.1 as u32, expires_size: l2.1 as u32 })
                            },
                            None => false,
                        },
                        None => false,
                    }
                } else {
                    match blob_at(data, p) {
                        Some(kt) => match blob_at(data, kt.0) {
                            Some(vt) => {
                                &&& *final(last_database) == *old(last_database)
                                &&& final(self).input.pos() == vt.0
                                &&& final(self).last_expiretime == old(self).last_expiretime
                                &&& ne == oe.push(EventS::Aux { key: kt.1, value: vt.1 })
                            },
                            None => false,
                        },
                        None => false,
                    }
                }
            }),
    {
        let ghost data = old(self).input.bytes();
        let ghost bp = old(self).input.pos() - 1;
        let ghost e0 = old(self).formatter.events();
        if next_op == OP_SELECTDB {
            let ghost odb = *last_database;
            *last_database = match read_length(&mut self.input) {
                Ok(v) => v,
                Err(e) => return Err(e),
            };
            proof {
                lemma_length_at_bounds(data, bp + 1);
                assert(frame_at(data, bp, odb) == frame_at(data, self.input.pos(), *last_database)) by {
                    reveal(frame_at);
                }
                assert(frame_read_at(data, bp, odb) == frame_read_at(data, self.input.pos(), *last_database)) by {
                    reveal(frame_read_at);
                }
            }
            if self.filter.matches_db(*last_database) {
                match self.formatter.start_database(*last_database) {
                    Ok(()) => (),
                    Err(e) => return Err(e),
                }
                proof {
                    lemma_push_stream(e0, self.formatter.events(), EventS::StartDatabase(*last_database));
                }
            }
            Ok(())
        } else if next_op == OP_EXPIRETIME_MS {
            let expiretime_ms = match self.input.read_u64_le() {
                Ok(v) => v,
                Err(e) => return Err(e),
            };
            self.last_expiretime = Some(expiretime_ms);
            proof {
                assert(frame_at(data, bp, *last_database) == frame_at(data, self.input.pos(), *last_database)) by {
                    reveal(frame_at);
                }
                assert(frame_read_at(data, bp, *last_database) == frame_read_at(data, self.input.pos(), *last_database)) by {
                    reveal(frame_read_at);
                }
            }
            Ok(())
        } else if next_op == OP_EXPIRETIME {
            let expiretime = match self.input.read_u32_be() {
                Ok(v) => v,
                Err(e) => return Err(e),
            };
            self.last_expiretime = Some(expiretime as u64 * 1000);
            proof {
                assert(frame_at(data, bp, *last_database) == frame_at(data, self.input.pos(), *last_database)) by {
                    reveal(frame_at);
                }
                assert(frame_read_at(data, bp, *last_database) == frame_read_at(data, self.input.pos(), *last_database)) by {
                    reveal(frame_read_at);
                }
            }
            Ok(())
        } else if next_op == OP_RESIZEDB {
            let db_size = match read_length(&mut self.input) {
                Ok(v) => v,
                Err(e) => return Err(e),
            };
            let expires_size = match read_length(&mut self.input) {
                Ok(v) => v,
                Err(e) => return Err(e),
            };
            proof {
                lemma_length_at_bounds(data, bp + 1);
                lemma_length_at_bounds(data, length_at(data, bp + 1).unwrap().0);
                assert(frame_at(data, bp, *last_database) == frame_at(data, self.input.pos(), *last_database)) by {
                    reveal(frame_at);
                }
                assert(frame_read_at(data, bp, *last_database) == frame_read_at(data, self.input.pos(), *last_database)) by {
                    reveal(frame_read_at);
                }
            }
            match self.formatter.resizedb(db_size, expires_size) {
                Ok(()) => (),
                Err(e) => return Err(e),
            }
            proof {
                lemma_push_stream(e0, self.formatter.events(), EventS::ResizeDb { db_size, expires_size });
            }
            Ok(())
        } else {
            self.read_aux()
        }
    }

    /// Read one auxiliary field whose opcode stands just before the cursor,
    /// and hand it to the sink.
    #[verifier::rlimit(100)]
    fn read_aux(&mut self) -> (r: RdbOk)
        requires
            old(self).input.pos() >= 1,
            old(self).input.pos() <= old(self).input.bytes().len(),
            old(self).input.bytes()[old(self).input.pos() - 1] == OP_AUX,
        ensures
            final(self).input.bytes() == old(self).input.bytes(),
            final(self).filter == old(self).filter,
            final(self).last_expiretime == old(self).last_expiretime,
            final(self).formatter.infallible() == old(self).formatter.infallible(),
            old(self).formatter.events().is_prefix_of(final(self).formatter.events()),
            (old(self).formatter.infallible() && match blob_at(old(self).input.bytes(), old(self).input.pos()) {
                Some(b1) => blob_at(old(self).input.bytes(), b1.0) is Some,
                None => false,
            }) ==> r is Ok,
            r is Ok ==> ({
                let data = old(self).input.bytes();
                let p = old(self).input.pos();
                match blob_at(data, p) {
                    Some(kt) => match blob_at(data, kt.0) {
                        Some(vt) => {
                            &&& final(self).input.pos() == vt.0
                            &&& final(self).formatter.events() == old(self).formatter.events().push(EventS::Aux { key: kt.1, value: vt.1 })
                            &&& forall|db: u32| #[trigger] frame_at(data, p - 1, db) == frame_at(data, vt.0, db)
                            &&& forall|db: u32| #[trigger] frame_read_at(data, p - 1, db) == frame_read_at(data, vt.0, db)
                        },
                        None => false,
                    },
                    None => false,
                }
            }),
    {
        let ghost data = old(self).input.bytes();
        let ghost bp = old(self).input.pos() - 1;
        let ghost e0 = old(self).formatter.events();
        let auxkey = match read_blob(&mut self.input) {
            Ok(v) => v,
            Err(e) => return Err(e),
        };
        proof {
            lemma_blob_read_skip_agree(data, bp + 1);
            lemma_blob_end_bounds(data, bp + 1);
        }
        let ghost kp = self.input.pos();
        let auxval = match read_blob(&mut self.input) {
            Ok(v) => v,
            Err(e) => return Err(e),
        };
        proof {
            lemma_blob_read_skip_agree(data, kp);
            lemma_blob_end_bounds(data, kp);
            assert forall|db: u32| #[trigger] frame_at(data, bp, db) == frame_at(data, self.input.pos(), db) by {
                reveal(frame_at);
            }
            assert forall|db: u32| #[trigger] frame_read_at(data, bp, db) == frame_read_at(data, self.input.pos(), db) by {
                reveal(frame_read_at);
            }
        }
        match self.formatter.aux_field(&auxkey, &auxval) {
            Ok(()) => (),
            Err(e) => return Err(e),
        }
        proof {
            lemma_push_stream(e0, self.formatter.events(), EventS::Aux { key: auxkey@, value: auxval@ });
        }
        Ok(())
    }

    /// Close the stream after the EOF opcode: the end-of-database and
    /// end-of-stream events, then the trailing checksum bytes if any.
    fn finish_stream(&mut self, db: u32) -> (r: RdbOk)
        requires
            old(self).input.pos() <= old(self).input.bytes().len(),
        ensures
            final(self).input.bytes() == old(self).input.bytes(),
            final(self).filter == old(self).filter,
            final(self).formatter.infallible() == old(self).formatter.infallible(),
            old(self).formatter.events().is_prefix_of(final(self).formatter.events()),
            old(self).formatter.infallible() ==> r is Ok,
            r is Ok ==> {
                &&& final(self).input.pos() == final(self).input.bytes().len()
                &&& if old(self).input.pos() < old(self).input.bytes().len() {
                    final(self).formatter.events() == old(self).formatter.events()
                        + seq![EventS::EndDatabase(db), EventS::EndRdb,
                            EventS::Checksum(old(self).input.bytes().subrange(old(self).input.pos(), old(self).input.bytes().len() as int))]
                } else {
                    final(self).formatter.events() == old(self).formatter.events()
                        + seq![EventS::EndDatabase(db), EventS::EndRdb]
                }
            },
    {
        let ghost e0 = self.formatter.events();
        match self.formatter.end_database(db) {
            Ok(()) => (),
            Err(e) => return Err(e),
        }
        match self.formatter.end_rdb() {
            Ok(()) => (),
            Err(e) => return Err(e),
        }
        let checksum = self.input.read_to_end();
        if checksum.len() > 0 {
            match self.formatter.checksum(&checksum) {
                Ok(()) => (),
                Err(e) => return Err(e),
            }
            proof {
                assert(self.formatter.events() =~= e0 + seq![EventS::EndDatabase(db), EventS::EndRdb, EventS::Checksum(checksum@)]);
            }
        } else {
            proof {
                assert(self.formatter.events() =~= e0 + seq![EventS::EndDatabase(db), EventS::EndRdb]);
            }
        }
        Ok(())
    }

    /// Handle one already-consumed control opcode as a loop step.
    #[verifier::rlimit(100)]
    fn step_control(&mut self, next_op: u8, last_database: &mut u32) -> (r: Result<bool, RdbError>)
        requires
            old(self).input.pos() >= 1,
            old(self).input.pos() <= old(self).input.bytes().len(),
            old(self).input.bytes()[old(self).input.pos() - 1] == next_op,
            next_op == OP_SELECTDB || next_op == OP_EXPIRETIME_MS || next_op == OP_EXPIRETIME
                || next_op == OP_RESIZEDB || next_op == OP_AUX,
        ensures
            final(self).input.bytes() == old(self).input.bytes(),
            final(self).filter == old(self).filter,
            final(self).formatter.infallible() == old(self).formatter.infallible(),
            old(self).formatter.events().is_prefix_of(final(self).formatter.events()),
            (old(self).formatter.infallible()
                && frame_read_at(old(self).input.bytes(), old(self).input.pos() - 1, *old(last_database)) is Some) ==> r is Ok,
            ({
                let data = old(self).input.bytes();
                let bp = old(self).input.pos() - 1;
                let eb = old(self).formatter.events();
                let ne = final(self).formatter.events();
                let odb = *old(last_database);
                let exp0 = old(self).last_expiretime;
                match r {
                    Err(_) => true,
                    Ok(step_done) => if step_done {
                        &&& frame_at(data, bp, odb) == Some(((bp + 1) as int, odb))
                        &&& *final(last_database) == odb
                        &&& final(self).input.pos() == data.len()
                        &&& ne == eb + frame_events_of(data, bp, odb, exp0, old(self).filter)
                        &&& if bp + 1 < data.len() {
                            ne == eb + seq![EventS::EndDatabase(odb), EventS::EndRdb,
                                EventS::Checksum(data.subrange(bp + 1, data.len() as int))]
                        } else {
                            ne == eb + seq![EventS::EndDatabase(odb), EventS::EndRdb]
                        }
                    } else {
                        &&& bp < final(self).input.pos() <= data.len()
                        &&& frame_at(data, bp, odb) == frame_at(data, final(self).input.pos(), *final(last_database))
                        &&& (frame_read_at(data, bp, odb) is Some
                            ==> frame_read_at(data, bp, odb) == frame_read_at(data, final(self).input.pos(), *final(last_database)))
                        &&& frame_events_of(data, bp, odb, exp0, old(self).filter)
                            == ne.skip(eb.len() as int)
                                + frame_events_of(data, final(self).input.pos(), *final(last_database), final(self).last_expiretime, old(self).filter)
                        &&& eb.is_prefix_of(ne)
                        &&& forall|i: int| eb.len() <= i < ne.len() ==> is_stream_event(#[trigger] ne[i])
                    },
                }
            }),
            match r {
                Err(_) => true,
                Ok(step_done) => admits_all(old(self).filter) ==> (if step_done {
                frame_read_at(old(self).input.bytes(), old(self).input.pos() - 1, *old(last_database))
                    == Some((old(self).input.pos(), *old(last_database)))
            } else {
                frame_read_at(old(self).input.bytes(), final(self).input.pos(), *final(last_database)) is Some
                    ==> frame_read_at(old(self).input.bytes(), old(self).input.pos() - 1, *old(last_database)) is Some
                }),
            },
    {
        let ghost data = old(self).input.bytes();
        let ghost bp = old(self).input.pos() - 1;
        let ghost eb = old(self).formatter.events();
        let ghost exp0 = old(self).last_expiretime;
        let ghost odb = *last_database;
            let cr = self.control_op(next_op, last_database);
            match cr {
                Ok(()) => (),
                Err(e) => {
                    proof {
                        if self.formatter.infallible() && frame_read_at(data, bp, odb) is Some {
                            assert(false) by {
                                reveal(frame_read_at);
                            }
                        }
                    }
                    return Err(e);
                },
            }
            proof {
                let ne = self.formatter.events();
                let rest_old = frame_events_of(data, bp, odb, exp0, old(self).filter);
                let rest_new = frame_events_of(data, self.input.pos(), *last_database, self.last_expiretime, old(self).filter);
                let step = ne.skip(eb.len() as int);
                assert(ne =~= eb + ne.skip(eb.len() as int));
                assert(rest_old == step + rest_new) by {
                    reveal(frame_events);
                }
                assert(frame_read_at(data, self.input.pos(), *last_database) is Some
                    ==> frame_read_at(data, bp, odb) is Some) by {
                    reveal(frame_read_at);
                }
            }
            Ok(false)
    }

    /// Handle the already-consumed EOF opcode as a loop step.
    #[verifier::rlimit(100)]
    fn step_eof(&mut self, last_database: &mut u32) -> (r: Result<bool, RdbError>)
        requires
            old(self).input.pos() >= 1,
            old(self).input.pos() <= old(self).input.bytes().len(),
            old(self).input.bytes()[old(self).input.pos() - 1] == OP_EOF,
        ensures
            final(self).input.bytes() == old(self).input.bytes(),
            final(self).filter == old(self).filter,
            final(self).formatter.infallible() == old(self).formatter.infallible(),
            old(self).formatter.events().is_prefix_of(final(self).formatter.events()),
            (old(self).formatter.infallible()
                && frame_read_at(old(self).input.bytes(), old(self).input.pos() - 1, *old(last_database)) is Some) ==> r is Ok,
            ({
                let data = old(self).input.bytes();
                let bp = old(self).input.pos() - 1;
                let eb = old(self).formatter.events();
                let ne = final(self).formatter.events();
                let odb = *old(last_database);
                let exp0 = old(self).last_expiretime;
                match r {
                    Err(_) => true,
                    Ok(step_done) => if step_done {
                        &&& frame_at(data, bp, odb) == Some(((bp + 1) as int, odb))
                        &&& *final(last_database) == odb
                        &&& final(self).input.pos() == data.len()
                        &&& ne == eb + frame_events_of(data, bp, odb, exp0, old(self).filter)
                        &&& if bp + 1 < data.len() {
                            ne == eb + seq![EventS::EndDatabase(odb), EventS::EndRdb,
                                EventS::Checksum(data.subrange(bp + 1, data.len() as int))]
                        } else {
                            ne == eb + seq![EventS::EndDatabase(odb), EventS::EndRdb]
                        }
                    } else {
                        &&& bp < final(self).input.pos() <= data.len()
                        &&& frame_at(data, bp, odb) == frame_at(data, final(self).input.pos(), *final(last_database))
                        &&& (frame_read_at(data, bp, odb) is Some
                            ==> frame_read_at(data, bp, odb) == frame_read_at(data, final(self).input.pos(), *final(last_database)))
                        &&& frame_events_of(data, bp, odb, exp0, old(self).filter)
                            == ne.skip(eb.len() as int)
                                + frame_events_of(data, final(self).input.pos(), *final(last_database), final(self).last_expiretime, old(self).filter)
                        &&& eb.is_prefix_of(ne)
                        &&& forall|i: int| eb.len() <= i < ne.len() ==> is_stream_event(#[trigger] ne[i])
                    },
                }
            }),
            match r {
                Err(_) => true,
                Ok(step_done) => admits_all(old(self).filter) ==> (if step_done {
                frame_read_at(old(self).input.bytes(), old(self).input.pos() - 1, *old(last_database))
                    == Some((old(self).input.pos(), *old(last_database)))
            } else {
                frame_read_at(old(self).input.bytes(), final(self).input.pos(), *final(last_database)) is Some
                    ==> frame_read_at(old(self).input.bytes(), old(self).input.pos() - 1, *old(last_database)) is Some
                }),
            },
    {
        let ghost data = old(self).input.bytes();
        let ghost bp = old(self).input.pos() - 1;
        let ghost eb = old(self).formatter.events();
        let ghost exp0 = old(self).last_expiretime;
        let ghost odb = *last_database;
            proof {
                assert(frame_at(data, bp, odb) == Some(((bp + 1) as int, odb))) by {
                    reveal(frame_at);
                }
                assert(frame_read_at(data, bp, odb) == Some(((bp + 1) as int, odb))) by {
                    reveal(frame_read_at);
                }
            }
            match self.finish_stream(*last_database) {
                Ok(()) => (),
                Err(e) => return Err(e),
            }
            proof {
                let ne = self.formatter.events();
                assert(frame_events_of(data, bp, odb, exp0, old(self).filter) == ne.skip(eb.len() as int)) by {
                    reveal(frame_events);
                }
                assert(ne =~= eb + ne.skip(eb.len() as int));
            }
            Ok(true)
    }

    /// Handle one already-consumed value-type tag as a loop step.
    #[verifier::rlimit(100)]
    fn step_record(&mut self, next_op: u8, last_database: &mut u32) -> (r: Result<bool, RdbError>)
        requires
            old(self).input.pos() >= 1,
            old(self).input.pos() <= old(self).input.bytes().len(),
            old(self).input.bytes()[old(self).input.pos() - 1] == next_op,
            next_op != OP_SELECTDB && next_op != OP_EXPIRETIME_MS && next_op != OP_EXPIRETIME
                && next_op != OP_RESIZEDB && next_op != OP_AUX && next_op != OP_EOF,
        ensures
            final(self).input.bytes() == old(self).input.bytes(),
            final(self).filter == old(self).filter,
            final(self).formatter.infallible() == old(self).formatter.infallible(),
            old(self).formatter.events().is_prefix_of(final(self).formatter.events()),
            (old(self).formatter.infallible()
                && frame_read_at(old(self).input.bytes(), old(self).input.pos() - 1, *old(last_database)) is Some) ==> r is Ok,
            ({
                let data = old(self).input.bytes();
                let bp = old(self).input.pos() - 1;
                let eb = old(self).formatter.events();
                let ne = final(self).formatter.events();
                let odb = *old(last_database);
                let exp0 = old(self).last_expiretime;
                match r {
                    Err(_) => true,
                    Ok(step_done) => if step_done {
                        &&& frame_at(data, bp, odb) == Some(((bp + 1) as int, odb))
                        &&& *final(last_database) == odb
                        &&& final(self).input.pos() == data.len()
                        &&& ne == eb + frame_events_of(data, bp, odb, exp0, old(self).filter)
                        &&& if bp + 1 < data.len() {
                            ne == eb + seq![EventS::EndDatabase(odb), EventS::EndRdb,
                                EventS::Checksum(data.subrange(bp + 1, data.len() as int))]
                        } else {
                            ne == eb + seq![EventS::EndDatabase(odb), EventS::EndRdb]
                        }
                    } else {
                        &&& bp < final(self).input.pos() <= data.len()
                        &&& frame_at(data, bp, odb) == frame_at(data, final(self).input.pos(), *final(last_database))
                        &&& (frame_read_at(data, bp, odb) is Some
                            ==> frame_read_at(data, bp, odb) == frame_read_at(data, final(self).input.pos(), *final(last_database)))
                        &&& frame_events_of(data, bp, odb, exp0, old(self).filter)
                            == ne.skip(eb.len() as int)
                                + frame_events_of(data, final(self).input.pos(), *final(last_database), final(self).last_expiretime, old(self).filter)
                        &&& eb.is_prefix_of(ne)
                        &&& forall|i: int| eb.len() <= i < ne.len() ==> is_stream_event(#[trigger] ne[i])
                    },
                }
            }),
            match r {
                Err(_) => true,
                Ok(step_done) => admits_all(old(self).filter) ==> (if step_done {
                frame_read_at(old(self).input.bytes(), old(self).input.pos() - 1, *old(last_database))
                    == Some((old(self).input.pos(), *old(last_database)))
            } else {
                frame_read_at(old(self).input.bytes(), final(self).input.pos(), *final(last_database)) is Some
                    ==> frame_read_at(old(self).input.bytes(), old(self).input.pos() - 1, *old(last_database)) is Some
                }),
            },
    {
        let ghost data = old(self).input.bytes();
        let ghost bp = old(self).input.pos() - 1;
        let ghost eb = old(self).formatter.events();
        let ghost exp0 = old(self).last_expiretime;
        let ghost odb = *last_database;
            let r = self.read_record(next_op, *last_database);
            match r {
                Ok(()) => (),
                Err(e) => {
                    proof {
                        if self.formatter.infallible() && frame_read_at(data, bp, odb) is Some {
                            assert(false) by {
                                reveal(frame_read_at);
                            }
                        }
                    }
                    return Err(e);
                },
            }
            proof {
                lemma_blob_end_bounds(data, bp + 1);
                let kp = blob_end(data, bp + 1).unwrap();
                lemma_object_end_bounds(data, kp, next_op);
                assert(frame_at(data, bp, odb) == frame_at(data, self.input.pos(), odb)) by {
                    reveal(frame_at);
                }
                let ne = self.formatter.events();
                let rest_old = frame_events_of(data, bp, odb, exp0, old(self).filter);
                let rest_new = frame_events_of(data, self.input.pos(), odb, self.last_expiretime, old(self).filter);
                let step = ne.skip(eb.len() as int);
                assert(ne =~= eb + ne.skip(eb.len() as int));
                assert(rest_old == step + rest_new) by {
                    reveal(frame_events);
                    lemma_blob_read_skip_agree(data, bp + 1);
                }
                if frame_read_at(data, bp, odb) is Some {
                    lemma_blob_read_skip_agree(data, bp + 1);
                    assert(frame_read_at(data, bp, odb) == frame_read_at(data, self.input.pos(), odb)) by {
                        reveal(frame_read_at);
                        lemma_object_read_skip_agree(data, blob_at(data, bp + 1).unwrap().0, next_op);
                    }
                }
                if admits_all(old(self).filter) {
                    let kt = blob_at(data, bp + 1).unwrap();
                    lemma_object_read_skip_agree(data, kt.0, next_op);
                    assert(frame_read_at(data, self.input.pos(), odb) is Some
                        ==> frame_read_at(data, bp, odb) is Some) by {
                        reveal(frame_read_at);
                    }
                }
            }
            Ok(false)
    }

    /// One iteration of the record loop: consume one opcode and handle it.
    /// `Ok(true)` means the EOF opcode arrived and the stream was closed.
    fn parse_step(&mut self, last_database: &mut u32) -> (r: Result<bool, RdbError>)
        requires
            old(self).input.pos() <= old(self).input.bytes().len(),
        ensures
            final(self).input.bytes() == old(self).input.bytes(),
            final(self).filter == old(self).filter,
            final(self).formatter.infallible() == old(self).formatter.infallible(),
            old(self).formatter.events().is_prefix_of(final(self).formatter.events()),
            (old(self).formatter.infallible()
                && frame_read_at(old(self).input.bytes(), old(self).input.pos(), *old(last_database)) is Some) ==> r is Ok,
            ({
                let data = old(self).input.bytes();
                let bp = old(self).input.pos();
                let eb = old(self).formatter.events();
                let ne = final(self).formatter.events();
                let odb = *old(last_database);
                let exp0 = old(self).last_expiretime;
                match r {
                    Err(_) => true,
                    Ok(step_done) => if step_done {
                        &&& frame_at(data, bp, odb) == Some(((bp + 1) as int, odb))
                        &&& *final(last_database) == odb
                        &&& final(self).input.pos() == data.len()
                        &&& ne == eb + frame_events_of(data, bp, odb, exp0, old(self).filter)
                        &&& if bp + 1 < data.len() {
                            ne == eb + seq![EventS::EndDatabase(odb), EventS::EndRdb,
                                EventS::Checksum(data.subrange(bp + 1, data.len() as int))]
                        } else {
                            ne == eb + seq![EventS::EndDatabase(odb), EventS::EndRdb]
                        }
                    } else {
                        &&& bp < final(self).input.pos() <= data.len()
                        &&& frame_at(data, bp, odb) == frame_at(data, final(self).input.pos(), *final(last_database))
                        &&& (frame_read_at(data, bp, odb) is Some
                            ==> frame_read_at(data, bp, odb) == frame_read_at(data, final(self).input.pos(), *final(last_database)))
                        &&& frame_events_of(data, bp, odb, exp0, old(self).filter)
                            == ne.skip(eb.len() as int)
                                + frame_events_of(data, final(self).input.pos(), *final(last_database), final(self).last_expiretime, old(self).filter)
                        &&& eb.is_prefix_of(ne)
                        &&& forall|i: int| eb.len() <= i < ne.len() ==> is_stream_event(#[trigger] ne[i])
                    },
                }
            }),
            match r {
                Err(_) => true,
                Ok(step_done) => admits_all(old(self).filter) ==> (if step_done {
                frame_read_at(old(self).input.bytes(), old(self).input.pos(), *old(last_database))
                    == Some(((old(self).input.pos() + 1) as int, *old(last_database)))
            } else {
                frame_read_at(old(self).input.bytes(), final(self).input.pos(), *final(last_database)) is Some
                    ==> frame_read_at(old(self).input.bytes(), old(self).input.pos(), *old(last_database)) is Some
                }),
            },
    {
        let ghost data = old(self).input.bytes();
        let ghost bp = old(self).input.pos();
        let ghost odb = *last_database;
        let next_op = match self.input.read_u8() {
            Ok(b) => b,
            Err(e) => {
                proof {
                    assert(frame_read_at(data, bp, odb) is None) by {
                        reveal(frame_read_at);
                    }
                }
                return Err(e);
            },
        };

        if next_op == OP_SELECTDB || next_op == OP_EXPIRETIME_MS || next_op == OP_EXPIRETIME
            || next_op == OP_RESIZEDB || next_op == OP_AUX {
            self.step_control(next_op, last_database)
        } else if next_op == OP_EOF {
            self.step_eof(last_database)
        } else {
            self.step_record(next_op, last_database)
        }
    }

    /// Decode a whole snapshot: the magic tag, the version digits, then the
    /// record loop up to the EOF opcode and the trailing checksum bytes.
    ///
    /// On success the events handed to the sink are: `StartRdb` first, then
    /// only record-stream events, then `EndDatabase` with the database that
    /// the frame selects independently of any filter, then `EndRdb`, then the
    /// checksum bytes if any trail the terminator. A wrong magic tag or an
    /// unsupported version aborts before any event.
    #[verifier::loop_isolation(false)]
    #[verifier::rlimit(100)]
    pub fn parse(&mut self) -> (r: RdbOk)
        ensures
            final(self).input.bytes() == old(self).input.bytes(),
            final(self).filter == old(self).filter,
            r is Ok ==> ({
                let data = old(self).input.bytes();
                let p0 = old(self).input.pos();
                let oe = old(self).formatter.events();
                let ne = final(self).formatter.events();
                &&& magic_ok(data, p0)
                &&& version_of(data, p0 + 5) matches Some(v) && VERSION_MIN <= v <= VERSION_MAX
                &&& frame_at(data, p0 + 9, 0) matches Some(t) && {
                    &&& final(self).input.pos() == data.len()
                    &&& oe.is_prefix_of(ne)
                    &&& ne[oe.len() as int] is StartRdb
                    &&& ne == oe + seq![EventS::StartRdb] + frame_events_of(data, p0 + 9, 0, None, old(self).filter)
                    &&& if t.0 < data.len() {
                        &&& ne.len() >= oe.len() + 4
                        &&& ne.last() == EventS::Checksum(data.subrange(t.0, data.len() as int))
                        &&& ne[ne.len() - 2] is EndRdb
                        &&& ne[ne.len() - 3] == EventS::EndDatabase(t.1)
                        &&& forall|i: int| oe.len() < i < ne.len() - 3 ==> is_stream_event(#[trigger] ne[i])
                    } else {
                        &&& ne.len() >= oe.len() + 3
                        &&& ne.last() is EndRdb
                        &&& ne[ne.len() - 2] == EventS::EndDatabase(t.1)
                        &&& forall|i: int| oe.len() < i < ne.len() - 2 ==> is_stream_event(#[trigger] ne[i])
                    }
                }
            }),
            ({
                let data = old(self).input.bytes();
                let p0 = old(self).input.pos();
                (p0 + 5 <= data.len() && !magic_ok(data, p0)) ==> {
                    &&& r == Err::<(), RdbError>(RdbError::InvalidMagic)
                    &&& final(self).formatter.events() == old(self).formatter.events()
                }
            }),
            ({
                let data = old(self).input.bytes();
                let p0 = old(self).input.pos();
                match version_of(data, p0 + 5) {
                    Some(v) => (magic_ok(data, p0) && !(VERSION_MIN <= v <= VERSION_MAX)) ==> {
                        &&& r == Err::<(), RdbError>(RdbError::UnsupportedVersion(v as u32))
                        &&& final(self).formatter.events() == old(self).formatter.events()
                    },
                    None => true,
                }
            }),
            r is Err ==> old(self).formatter.events().is_prefix_of(final(self).formatter.events()),
            (r is Ok && admits_all(old(self).filter))
                ==> frame_read_at(old(self).input.bytes(), old(self).input.pos() + 9, 0) is Some,
            ({
                let data = old(self).input.bytes();
                let p0 = old(self).input.pos();
                (old(self).formatter.infallible() && magic_ok(data, p0)
                    && (match version_of(data, p0 + 5) {
                        Some(v) => VERSION_MIN <= v <= VERSION_MAX,
                        None => false,
                    })
                    && frame_read_at(data, p0 + 9, 0) is Some) ==> r is Ok
            }),
    {
        let ghost data = old(self).input.bytes();
        let ghost p0 = old(self).input.pos();
        let ghost oe = old(self).formatter.events();

        self.last_expiretime = None;
        proof {
            assert(self.formatter.events().subrange(0, oe.len() as int) =~= oe);
        }
        match verify_magic(&mut self.input) {
            Ok(()) => (),
            Err(e) => return Err(e),
        }
        match verify_version(&mut self.input) {
            Ok(()) => (),
            Err(e) => return Err(e),
        }

        match self.formatter.start_rdb() {
            Ok(()) => (),
            Err(e) => {
                proof {
                    assert(self.formatter.events().subrange(0, oe.len() as int) =~= oe);
                }
                return Err(e);
            },
        }
        proof {
            assert(self.formatter.events().skip(oe.len() + 1 as int) =~= Seq::<EventS>::empty());
            assert(Seq::<EventS>::empty() + frame_events_of(data, p0 + 9, 0, None, old(self).filter)
                =~= frame_events_of(data, p0 + 9, 0, None, old(self).filter));
        }

        let mut last_database: u32 = 0;
        let mut done: bool = false;
        while !done
            invariant
                self.input.bytes() == data,
                self.input.pos() <= data.len(),
                self.filter == old(self).filter,
                oe.is_prefix_of(self.formatter.events()),
                self.formatter.events().len() >= oe.len() + 1,
                self.formatter.events()[oe.len() as int] is StartRdb,
                self.formatter.infallible() == old(self).formatter.infallible(),
                !done ==> frame_at(data, self.input.pos(), last_database) == frame_at(data, p0 + 9, 0),
                !done ==> frame_events_of(data, p0 + 9, 0, None, old(self).filter)
                    == self.formatter.events().skip(oe.len() + 1 as int)
                        + frame_events_of(data, self.input.pos(), last_database, self.last_expiretime, old(self).filter),
                done ==> self.formatter.events()
                    == oe + seq![EventS::StartRdb] + frame_events_of(data, p0 + 9, 0, None, old(self).filter),
                !done ==> (frame_read_at(data, p0 + 9, 0) is Some
                    ==> frame_read_at(data, self.input.pos(), last_database) == frame_read_at(data, p0 + 9, 0)),
                !done ==> (admits_all(old(self).filter)
                    ==> (frame_read_at(data, self.input.pos(), last_database) is Some
                        ==> frame_read_at(data, p0 + 9, 0) is Some)),
                done ==> (admits_all(old(self).filter) ==> frame_read_at(data, p0 + 9, 0) is Some),
                !done ==> forall|i: int| oe.len() < i < self.formatter.events().len()
                    ==> is_stream_event(#[trigger] self.formatter.events()[i]),
                done ==> match frame_at(data, p0 + 9, 0) {
                    None => false,
                    Some(t) => {
                    let ne = self.formatter.events();
                    &&& self.input.pos() == data.len()
                    &&& if t.0 < data.len() {
                        &&& ne.len() >= oe.len() + 4
                        &&& ne.last() == EventS::Checksum(data.subrange(t.0, data.len() as int))
                        &&& ne[ne.len() - 2] is EndRdb
                        &&& ne[ne.len() - 3] == EventS::EndDatabase(t.1)
                        &&& forall|i: int| oe.len() < i < ne.len() - 3 ==> is_stream_event(#[trigger] ne[i])
                    } else {
                        &&& ne.len() >= oe.len() + 3
                        &&& ne.last() is EndRdb
                        &&& ne[ne.len() - 2] == EventS::EndDatabase(t.1)
                        &&& forall|i: int| oe.len() < i < ne.len() - 2 ==> is_stream_event(#[trigger] ne[i])
                    }
                    },
                },
            decreases data.len() - self.input.pos() + (if done { 0int } else { 1int }),
        {
            let ghost bp = self.input.pos();
            let ghost eb = self.formatter.events();
            let ghost exp0 = self.last_expiretime;
            let ghost odb = last_database;
            let st = self.parse_step(&mut last_database);
            match st {
                Ok(step_done) => {
                    if step_done {
                        proof {
                            let ne = self.formatter.events();
                            let t = frame_at(data, p0 + 9, 0).unwrap();
                            assert(t.0 == bp + 1 && t.1 == odb);
                            if bp + 1 < data.len() {
                                lemma_close_with_checksum(oe, eb, ne, odb, data.subrange(bp + 1, data.len() as int));
                            } else {
                                lemma_close_plain(oe, eb, ne, odb);
                            }
                            let total = frame_events_of(data, p0 + 9, 0, None, old(self).filter);
                            let rest_old = frame_events_of(data, bp, odb, exp0, old(self).filter);
                            let step = ne.skip(eb.len() as int);
                            assert(ne =~= eb + ne.skip(eb.len() as int));
                            assert(step =~= rest_old);
                            assert(ne =~= eb + step);
                            assert(step + Seq::<EventS>::empty() =~= step);
                            lemma_stream_extend(oe, eb, ne, step, total, rest_old, Seq::empty());
                            assert(ne =~= oe + seq![EventS::StartRdb] + ne.skip(oe.len() + 1 as int));
                            assert(ne.skip(oe.len() + 1 as int) + Seq::<EventS>::empty() =~= ne.skip(oe.len() + 1 as int));
                        }
                        done = true;
                    } else {
                        proof {
                            lemma_stream_step(oe, eb, self.formatter.events());
                            let ne = self.formatter.events();
                            let total = frame_events_of(data, p0 + 9, 0, None, old(self).filter);
                            let rest_old = frame_events_of(data, bp, odb, exp0, old(self).filter);
                            let rest_new = frame_events_of(data, self.input.pos(), last_database, self.last_expiretime, old(self).filter);
                            let step = ne.skip(eb.len() as int);
                            assert(ne =~= eb + ne.skip(eb.len() as int));
                            lemma_stream_extend(oe, eb, ne, step, total, rest_old, rest_new);
                        }
                    }
                },
                Err(e) => {
                    proof {
                        if self.formatter.infallible() && frame_read_at(data, p0 + 9, 0) is Some {
                            assert(frame_read_at(data, bp, odb) is Some);
                            assert(false);
                        }
                    }
                    return Err(e);
                },
            }
        }
        Ok(())
    }
}

/// Pair consecutive entries into fields with their values.
#[verifier::loop_isolation(false)]
fn pair_up(elems: &Vec<Vec<u8>>) -> (r: Vec<(Vec<u8>, Vec<u8>)>)
    ensures
        pair_views(r@) == pairs_of(views_of(elems@)),
{
    let half = elems.len() / 2;
    let mut pairs: Vec<(Vec<u8>, Vec<u8>)> = Vec::new();
    let mut j: usize = 0;
    while j < half
        invariant
            half == elems@.len() / 2,
            j <= half,
            pairs@.len() == j,
            pair_views(pairs@) == pairs_of(views_of(elems@)).take(j as int),
        decreases half - j,
    {
        let f = elems[2 * j].clone();
        let v = elems[2 * j + 1].clone();
        pairs.push((f, v));
        j = j + 1;
        proof {
            assert(pair_views(pairs@) =~= pairs_of(views_of(elems@)).take(j as int));
        }
    }
    proof {
        assert(pairs_of(views_of(elems@)).take(half as int) =~= pairs_of(views_of(elems@)));
    }
    pairs
}

/// Pair consecutive entries into members with the textual scores that follow
/// them on the wire.
#[verifier::loop_isolation(false)]
fn score_up(elems: &Vec<Vec<u8>>) -> (r: Vec<(Score, Vec<u8>)>)
    ensures
        score_views(r@) == scored_pairs_of(views_of(elems@)),
{
    let half = elems.len() / 2;
    let mut entries: Vec<(Score, Vec<u8>)> = Vec::new();
    let mut j: usize = 0;
    while j < half
        invariant
            half == elems@.len() / 2,
            j <= half,
            entries@.len() == j,
            score_views(entries@) == scored_pairs_of(views_of(elems@)).take(j as int),
        decreases half - j,
    {
        let v = elems[2 * j].clone();
        let s = Score::Ascii(elems[2 * j + 1].clone());
        entries.push((s, v));
        j = j + 1;
        proof {
            assert(score_views(entries@) =~= scored_pairs_of(views_of(elems@)).take(j as int));
        }
    }
    proof {
        assert(scored_pairs_of(views_of(elems@)).take(half as int) =~= scored_pairs_of(views_of(elems@)));
    }
    entries
}

} // verus!
