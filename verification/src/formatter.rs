//! The event sink a parse drives, and a sink that records into a vector.

use vstd::prelude::*;
use crate::error::{RdbError, RdbOk};
use crate::events::{Event, EventS, EncodingType, Score};

verus! {

/// The events a log of concrete events stands for.
pub open spec fn events_of(log: Seq<Event>) -> Seq<EventS> {
    log.map_values(|e: Event| e@)
}

/// An event sink. The parser hands every implementation the same events in
/// the same order; `events` is the sink's abstract view of what it has been
/// handed so far. Each callback may fail, which aborts the parse; on success
/// it acknowledges exactly the one event it was handed.
pub trait Formatter: Sized {
    /// The events handed to this sink so far, abstractly. A sink that keeps
    /// no view of them, such as one that prints and forgets, may leave the
    /// default, of which nothing useful can be proved.
    open spec fn events(&self) -> Seq<EventS> {
        Seq::empty()
    }

    /// True of a sink whose callbacks never fail, such as one that only
    /// records. Success of a whole parse is owed only over such a sink; the
    /// default promises nothing.
    open spec fn infallible(&self) -> bool {
        false
    }

    /// The stream opened.
    fn start_rdb(&mut self) -> (r: RdbOk)
        ensures
            r is Ok ==> final(self).events() == old(self).events().push(EventS::StartRdb),
            old(self).infallible() ==> r is Ok,
            final(self).infallible() == old(self).infallible(),
            r is Err ==> final(self).events() == old(self).events(),
    ;

    /// The stream closed.
    fn end_rdb(&mut self) -> (r: RdbOk)
        ensures
            r is Ok ==> final(self).events() == old(self).events().push(EventS::EndRdb),
            old(self).infallible() ==> r is Ok,
            final(self).infallible() == old(self).infallible(),
            r is Err ==> final(self).events() == old(self).events(),
    ;

    /// A database was selected and admitted by the filter.
    fn start_database(&mut self, db: u32) -> (r: RdbOk)
        ensures
            r is Ok ==> final(self).events() == old(self).events().push(EventS::StartDatabase(db)),
            old(self).infallible() ==> r is Ok,
            final(self).infallible() == old(self).infallible(),
            r is Err ==> final(self).events() == old(self).events(),
    ;

    /// The database selected when the terminator arrived.
    fn end_database(&mut self, db: u32) -> (r: RdbOk)
        ensures
            r is Ok ==> final(self).events() == old(self).events().push(EventS::EndDatabase(db)),
            old(self).infallible() ==> r is Ok,
            final(self).infallible() == old(self).infallible(),
            r is Err ==> final(self).events() == old(self).events(),
    ;

    /// The bytes trailing the terminator.
    fn checksum(&mut self, bytes: &Vec<u8>) -> (r: RdbOk)
        ensures
            r is Ok ==> final(self).events() == old(self).events().push(EventS::Checksum(bytes@)),
            old(self).infallible() ==> r is Ok,
            final(self).infallible() == old(self).infallible(),
            r is Err ==> final(self).events() == old(self).events(),
    ;

    /// A hash-table resize hint.
    fn resizedb(&mut self, db_size: u32, expires_size: u32) -> (r: RdbOk)
        ensures
            r is Ok ==> final(self).events() == old(self).events().push(EventS::ResizeDb { db_size, expires_size }),
            old(self).infallible() ==> r is Ok,
            final(self).infallible() == old(self).infallible(),
            r is Err ==> final(self).events() == old(self).events(),
    ;

    /// An auxiliary key-value field.
    fn aux_field(&mut self, key: &Vec<u8>, value: &Vec<u8>) -> (r: RdbOk)
        ensures
            r is Ok ==> final(self).events() == old(self).events().push(EventS::Aux { key: key@, value: value@ }),
            old(self).infallible() ==> r is Ok,
            final(self).infallible() == old(self).infallible(),
            r is Err ==> final(self).events() == old(self).events(),
    ;

    /// A scalar record.
    fn set(&mut self, key: &Vec<u8>, value: &Vec<u8>, expiry: Option<u64>) -> (r: RdbOk)
        ensures
            r is Ok ==> final(self).events() == old(self).events().push(EventS::Scalar { key: key@, value: value@, expiry }),
            old(self).infallible() ==> r is Ok,
            final(self).infallible() == old(self).infallible(),
            r is Err ==> final(self).events() == old(self).events(),
    ;

    /// A list record opened.
    fn start_list(&mut self, key: &Vec<u8>, count: u32, expiry: Option<u64>, enc: EncodingType) -> (r: RdbOk)
        ensures
            r is Ok ==> final(self).events() == old(self).events().push(EventS::StartList { key: key@, count, expiry, enc }),
            old(self).infallible() ==> r is Ok,
            final(self).infallible() == old(self).infallible(),
            r is Err ==> final(self).events() == old(self).events(),
    ;

    /// One list element.
    fn list_element(&mut self, key: &Vec<u8>, value: &Vec<u8>) -> (r: RdbOk)
        ensures
            r is Ok ==> final(self).events() == old(self).events().push(EventS::ListElement { key: key@, value: value@ }),
            old(self).infallible() ==> r is Ok,
            final(self).infallible() == old(self).infallible(),
            r is Err ==> final(self).events() == old(self).events(),
    ;

    /// A list record closed.
    fn end_list(&mut self, key: &Vec<u8>) -> (r: RdbOk)
        ensures
            r is Ok ==> final(self).events() == old(self).events().push(EventS::EndList { key: key@ }),
            old(self).infallible() ==> r is Ok,
            final(self).infallible() == old(self).infallible(),
            r is Err ==> final(self).events() == old(self).events(),
    ;

    /// A set record opened.
    fn start_set(&mut self, key: &Vec<u8>, count: u32, expiry: Option<u64>, enc: EncodingType) -> (r: RdbOk)
        ensures
            r is Ok ==> final(self).events() == old(self).events().push(EventS::StartSet { key: key@, count, expiry, enc }),
            old(self).infallible() ==> r is Ok,
            final(self).infallible() == old(self).infallible(),
            r is Err ==> final(self).events() == old(self).events(),
    ;

    /// One set element.
    fn set_element(&mut self, key: &Vec<u8>, value: &Vec<u8>) -> (r: RdbOk)
        ensures
            r is Ok ==> final(self).events() == old(self).events().push(EventS::SetElement { key: key@, value: value@ }),
            old(self).infallible() ==> r is Ok,
            final(self).infallible() == old(self).infallible(),
            r is Err ==> final(self).events() == old(self).events(),
    ;

    /// A set record closed.
    fn end_set(&mut self, key: &Vec<u8>) -> (r: RdbOk)
        ensures
            r is Ok ==> final(self).events() == old(self).events().push(EventS::EndSet { key: key@ }),
            old(self).infallible() ==> r is Ok,
            final(self).infallible() == old(self).infallible(),
            r is Err ==> final(self).events() == old(self).events(),
    ;

    /// A hash record opened.
    fn start_hash(&mut self, key: &Vec<u8>, count: u32, expiry: Option<u64>, enc: EncodingType) -> (r: RdbOk)
        ensures
            r is Ok ==> final(self).events() == old(self).events().push(EventS::StartHash { key: key@, count, expiry, enc }),
            old(self).infallible() ==> r is Ok,
            final(self).infallible() == old(self).infallible(),
            r is Err ==> final(self).events() == old(self).events(),
    ;

    /// One hash field with its value.
    fn hash_element(&mut self, key: &Vec<u8>, field: &Vec<u8>, value: &Vec<u8>) -> (r: RdbOk)
        ensures
            r is Ok ==> final(self).events() == old(self).events().push(EventS::HashElement { key: key@, field: field@, value: value@ }),
            old(self).infallible() ==> r is Ok,
            final(self).infallible() == old(self).infallible(),
            r is Err ==> final(self).events() == old(self).events(),
    ;

    /// A hash record closed.
    fn end_hash(&mut self, key: &Vec<u8>) -> (r: RdbOk)
        ensures
            r is Ok ==> final(self).events() == old(self).events().push(EventS::EndHash { key: key@ }),
            old(self).infallible() ==> r is Ok,
            final(self).infallible() == old(self).infallible(),
            r is Err ==> final(self).events() == old(self).events(),
    ;

    /// A sorted-set record opened.
    fn start_sorted_set(&mut self, key: &Vec<u8>, count: u32, expiry: Option<u64>, enc: EncodingType) -> (r: RdbOk)
        ensures
            r is Ok ==> final(self).events() == old(self).events().push(EventS::StartSortedSet { key: key@, count, expiry, enc }),
            old(self).infallible() ==> r is Ok,
            final(self).infallible() == old(self).infallible(),
            r is Err ==> final(self).events() == old(self).events(),
    ;

    /// One sorted-set member with its score.
    fn sorted_set_element(&mut self, key: &Vec<u8>, score: Score, value: &Vec<u8>) -> (r: RdbOk)
        ensures
            r is Ok ==> final(self).events() == old(self).events().push(EventS::SortedSetElement { key: key@, score: score@, value: value@ }),
            old(self).infallible() ==> r is Ok,
            final(self).infallible() == old(self).infallible(),
            r is Err ==> final(self).events() == old(self).events(),
    ;

    /// A sorted-set record closed.
    fn end_sorted_set(&mut self, key: &Vec<u8>) -> (r: RdbOk)
        ensures
            r is Ok ==> final(self).events() == old(self).events().push(EventS::EndSortedSet { key: key@ }),
            old(self).infallible() ==> r is Ok,
            final(self).infallible() == old(self).infallible(),
            r is Err ==> final(self).events() == old(self).events(),
    ;
}

/// A sink that records every event into a vector and never fails.
pub struct VecFormatter {
    /// The events handed to this sink, in order.
    pub log: Vec<Event>,
}

impl VecFormatter {
    /// An empty log.
    pub fn new() -> (r: VecFormatter)
        ensures
            r.events() == Seq::<EventS>::empty(),
    {
        let r = VecFormatter { log: Vec::new() };
        proof {
            assert(r.events() =~= Seq::<EventS>::empty());
        }
        r
    }
}

/// After pushing one concrete event, a log stands for one more event.
proof fn lemma_events_push(log: Seq<Event>, e: Event)
    ensures
        events_of(log.push(e)) == events_of(log).push(e@),
{
    assert(events_of(log.push(e)) =~= events_of(log).push(e@));
}

impl Formatter for VecFormatter {
    open spec fn events(&self) -> Seq<EventS> {
        events_of(self.log@)
    }

    open spec fn infallible(&self) -> bool {
        true
    }

    fn start_rdb(&mut self) -> (r: RdbOk) {
        let ghost l = self.log@;
        let e = Event::StartRdb;
        proof { lemma_events_push(l, e); }
        self.log.push(e);
        Ok(())
    }

    fn end_rdb(&mut self) -> (r: RdbOk) {
        let ghost l = self.log@;
        let e = Event::EndRdb;
        proof { lemma_events_push(l, e); }
        self.log.push(e);
        Ok(())
    }

    fn start_database(&mut self, db: u32) -> (r: RdbOk) {
        let ghost l = self.log@;
        let e = Event::StartDatabase(db);
        proof { lemma_events_push(l, e); }
        self.log.push(e);
        Ok(())
    }

    fn end_database(&mut self, db: u32) -> (r: RdbOk) {
        let ghost l = self.log@;
        let e = Event::EndDatabase(db);
        proof { lemma_events_push(l, e); }
        self.log.push(e);
        Ok(())
    }

    fn checksum(&mut self, bytes: &Vec<u8>) -> (r: RdbOk) {
        let ghost l = self.log@;
        let e = Event::Checksum(bytes.clone());
        proof { lemma_events_push(l, e); }
        self.log.push(e);
        Ok(())
    }

    fn resizedb(&mut self, db_size: u32, expires_size: u32) -> (r: RdbOk) {
        let ghost l = self.log@;
        let e = Event::ResizeDb { db_size, expires_size };
        proof { lemma_events_push(l, e); }
        self.log.push(e);
        Ok(())
    }

    fn aux_field(&mut self, key: &Vec<u8>, value: &Vec<u8>) -> (r: RdbOk) {
        let ghost l = self.log@;
        let e = Event::Aux { key: key.clone(), value: value.clone() };
        proof { lemma_events_push(l, e); }
        self.log.push(e);
        Ok(())
    }

    fn set(&mut self, key: &Vec<u8>, value: &Vec<u8>, expiry: Option<u64>) -> (r: RdbOk) {
        let ghost l = self.log@;
        let e = Event::Scalar { key: key.clone(), value: value.clone(), expiry };
        proof { lemma_events_push(l, e); }
        self.log.push(e);
        Ok(())
    }

    fn start_list(&mut self, key: &Vec<u8>, count: u32, expiry: Option<u64>, enc: EncodingType) -> (r: RdbOk) {
        let ghost l = self.log@;
        let e = Event::StartList { key: key.clone(), count, expiry, enc };
        proof { lemma_events_push(l, e); }
        self.log.push(e);
        Ok(())
    }

    fn list_element(&mut self, key: &Vec<u8>, value: &Vec<u8>) -> (r: RdbOk) {
        let ghost l = self.log@;
        let e = Event::ListElement { key: key.clone(), value: value.clone() };
        proof { lemma_events_push(l, e); }
        self.log.push(e);
        Ok(())
    }

    fn end_list(&mut self, key: &Vec<u8>) -> (r: RdbOk) {
        let ghost l = self.log@;
        let e = Event::EndList { key: key.clone() };
        proof { lemma_events_push(l, e); }
        self.log.push(e);
        Ok(())
    }

    fn start_set(&mut self, key: &Vec<u8>, count: u32, expiry: Option<u64>, enc: EncodingType) -> (r: RdbOk) {
        let ghost l = self.log@;
        let e = Event::StartSet { key: key.clone(), count, expiry, enc };
        proof { lemma_events_push(l, e); }
        self.log.push(e);
        Ok(())
    }

    fn set_element(&mut self, key: &Vec<u8>, value: &Vec<u8>) -> (r: RdbOk) {
        let ghost l = self.log@;
        let e = Event::SetElement { key: key.clone(), value: value.clone() };
        proof { lemma_events_push(l, e); }
        self.log.push(e);
        Ok(())
    }

    fn end_set(&mut self, key: &Vec<u8>) -> (r: RdbOk) {
        let ghost l = self.log@;
        let e = Event::EndSet { key: key.clone() };
        proof { lemma_events_push(l, e); }
        self.log.push(e);
        Ok(())
    }

    fn start_hash(&mut self, key: &Vec<u8>, count: u32, expiry: Option<u64>, enc: EncodingType) -> (r: RdbOk) {
        let ghost l = self.log@;
        let e = Event::StartHash { key: key.clone(), count, expiry, enc };
        proof { lemma_events_push(l, e); }
        self.log.push(e);
        Ok(())
    }

    fn hash_element(&mut self, key: &Vec<u8>, field: &Vec<u8>, value: &Vec<u8>) -> (r: RdbOk) {
        let ghost l = self.log@;
        let e = Event::HashElement { key: key.clone(), field: field.clone(), value: value.clone() };
        proof { lemma_events_push(l, e); }
        self.log.push(e);
        Ok(())
    }

    fn end_hash(&mut self, key: &Vec<u8>) -> (r: RdbOk) {
        let ghost l = self.log@;
        let e = Event::EndHash { key: key.clone() };
        proof { lemma_events_push(l, e); }
        self.log.push(e);
        Ok(())
    }

    fn start_sorted_set(&mut self, key: &Vec<u8>, count: u32, expiry: Option<u64>, enc: EncodingType) -> (r: RdbOk) {
        let ghost l = self.log@;
        let e = Event::StartSortedSet { key: key.clone(), count, expiry, enc };
        proof { lemma_events_push(l, e); }
        self.log.push(e);
        Ok(())
    }

    fn sorted_set_element(&mut self, key: &Vec<u8>, score: Score, value: &Vec<u8>) -> (r: RdbOk) {
        let ghost l = self.log@;
        let e = Event::SortedSetElement { key: key.clone(), score, value: value.clone() };
        proof { lemma_events_push(l, e); }
        self.log.push(e);
        Ok(())
    }

    fn end_sorted_set(&mut self, key: &Vec<u8>) -> (r: RdbOk) {
        let ghost l = self.log@;
        let e = Event::EndSortedSet { key: key.clone() };
        proof { lemma_events_push(l, e); }
        self.log.push(e);
        Ok(())
    }
}

} // verus!
