//! Helpers that drive the sink through one container's event run: a start,
//! one element event per element, an end.

use vstd::prelude::*;
use crate::error::{RdbError, RdbOk};
use crate::events::{
    EventS, EncodingType, Score,
    list_events, set_events, hash_events, zset_events,
    views_of, pair_views, score_views, is_stream_event,
};
use crate::formatter::Formatter;
use crate::model::ScoreS;

verus! {

/// A sequence is a prefix of itself followed by anything.
pub proof fn lemma_prefix_append(a: Seq<EventS>, b: Seq<EventS>)
    ensures
        a.is_prefix_of(a + b),
{
    assert((a + b).subrange(0, a.len() as int) =~= a);
}

/// Every event of a list run may stand inside the record stream.
pub proof fn lemma_list_events_stream(key: Seq<u8>, count: u32, expiry: Option<u64>, enc: EncodingType, elems: Seq<Seq<u8>>)
    ensures
        forall|i: int| 0 <= i < list_events(key, count, expiry, enc, elems).len()
            ==> is_stream_event(#[trigger] list_events(key, count, expiry, enc, elems)[i]),
{
    let s = list_events(key, count, expiry, enc, elems);
    assert forall|i: int| 0 <= i < s.len() implies is_stream_event(s[i]) by {
        if i != 0 && i != s.len() - 1 {
            assert(s[i] == elems.map_values(|v: Seq<u8>| EventS::ListElement { key, value: v })[i - 1]);
        }
    }
}

/// Every event of a set run may stand inside the record stream.
pub proof fn lemma_set_events_stream(key: Seq<u8>, count: u32, expiry: Option<u64>, enc: EncodingType, elems: Seq<Seq<u8>>)
    ensures
        forall|i: int| 0 <= i < set_events(key, count, expiry, enc, elems).len()
            ==> is_stream_event(#[trigger] set_events(key, count, expiry, enc, elems)[i]),
{
    let s = set_events(key, count, expiry, enc, elems);
    assert forall|i: int| 0 <= i < s.len() implies is_stream_event(s[i]) by {
        if i != 0 && i != s.len() - 1 {
            assert(s[i] == elems.map_values(|v: Seq<u8>| EventS::SetElement { key, value: v })[i - 1]);
        }
    }
}

/// Every event of a hash run may stand inside the record stream.
pub proof fn lemma_hash_events_stream(key: Seq<u8>, count: u32, expiry: Option<u64>, enc: EncodingType, pairs: Seq<(Seq<u8>, Seq<u8>)>)
    ensures
        forall|i: int| 0 <= i < hash_events(key, count, expiry, enc, pairs).len()
            ==> is_stream_event(#[trigger] hash_events(key, count, expiry, enc, pairs)[i]),
{
    let s = hash_events(key, count, expiry, enc, pairs);
    assert forall|i: int| 0 <= i < s.len() implies is_stream_event(s[i]) by {
        if i != 0 && i != s.len() - 1 {
            assert(s[i] == pairs.map_values(|p: (Seq<u8>, Seq<u8>)| EventS::HashElement { key, field: p.0, value: p.1 })[i - 1]);
        }
    }
}

/// Every event of a sorted-set run may stand inside the record stream.
pub proof fn lemma_zset_events_stream(key: Seq<u8>, count: u32, expiry: Option<u64>, enc: EncodingType, entries: Seq<(ScoreS, Seq<u8>)>)
    ensures
        forall|i: int| 0 <= i < zset_events(key, count, expiry, enc, entries).len()
            ==> is_stream_event(#[trigger] zset_events(key, count, expiry, enc, entries)[i]),
{
    let s = zset_events(key, count, expiry, enc, entries);
    assert forall|i: int| 0 <= i < s.len() implies is_stream_event(s[i]) by {
        if i != 0 && i != s.len() - 1 {
            assert(s[i] == entries.map_values(|p: (ScoreS, Seq<u8>)| EventS::SortedSetElement { key, score: p.0, value: p.1 })[i - 1]);
        }
    }
}

/// Drive the sink through one list record.
#[verifier::loop_isolation(false)]
pub fn emit_list<F: Formatter>(f: &mut F, key: &Vec<u8>, count: u32, expiry: Option<u64>, enc: EncodingType, elems: &Vec<Vec<u8>>) -> (r: RdbOk)
    ensures
        r is Ok ==> final(f).events() == old(f).events() + list_events(key@, count, expiry, enc, views_of(elems@)),
        old(f).infallible() ==> r is Ok,
        final(f).infallible() == old(f).infallible(),
        old(f).events().is_prefix_of(final(f).events()),
{
    let ghost e0 = f.events();
    match f.start_list(key, count, expiry, enc) {
        Ok(()) => (),
        Err(e) => {
            proof {
                assert(f.events().subrange(0, old(f).events().len() as int) =~= old(f).events());
            }
            return Err(e);
        },
    }
    let mut i: usize = 0;
    while i < elems.len()
        invariant
            i <= elems@.len(),
            f.infallible() == old(f).infallible(),
            f.events() == e0 + seq![EventS::StartList { key: key@, count, expiry, enc }]
                + views_of(elems@).take(i as int).map_values(|v: Seq<u8>| EventS::ListElement { key: key@, value: v }),
        decreases elems@.len() - i,
    {
        match f.list_element(key, &elems[i]) {
            Ok(()) => (),
            Err(e) => {
                proof {
                    assert(f.events().subrange(0, old(f).events().len() as int) =~= old(f).events());
                }
                return Err(e);
            },
        }
        i = i + 1;
        proof {
            assert(f.events() =~= e0 + seq![EventS::StartList { key: key@, count, expiry, enc }]
                + views_of(elems@).take(i as int).map_values(|v: Seq<u8>| EventS::ListElement { key: key@, value: v }));
        }
    }
    match f.end_list(key) {
        Ok(()) => (),
        Err(e) => {
            proof {
                assert(f.events().subrange(0, old(f).events().len() as int) =~= old(f).events());
            }
            return Err(e);
        },
    }
    proof {
        assert(views_of(elems@).take(elems@.len() as int) =~= views_of(elems@));
        assert(f.events() =~= e0 + list_events(key@, count, expiry, enc, views_of(elems@)));
    }
    Ok(())
}

/// Drive the sink through one set record.
#[verifier::loop_isolation(false)]
pub fn emit_set<F: Formatter>(f: &mut F, key: &Vec<u8>, count: u32, expiry: Option<u64>, enc: EncodingType, elems: &Vec<Vec<u8>>) -> (r: RdbOk)
    ensures
        r is Ok ==> final(f).events() == old(f).events() + set_events(key@, count, expiry, enc, views_of(elems@)),
        old(f).infallible() ==> r is Ok,
        final(f).infallible() == old(f).infallible(),
        old(f).events().is_prefix_of(final(f).events()),
{
    let ghost e0 = f.events();
    match f.start_set(key, count, expiry, enc) {
        Ok(()) => (),
        Err(e) => {
            proof {
                assert(f.events().subrange(0, old(f).events().len() as int) =~= old(f).events());
            }
            return Err(e);
        },
    }
    let mut i: usize = 0;
    while i < elems.len()
        invariant
            i <= elems@.len(),
            f.infallible() == old(f).infallible(),
            f.events() == e0 + seq![EventS::StartSet { key: key@, count, expiry, enc }]
                + views_of(elems@).take(i as int).map_values(|v: Seq<u8>| EventS::SetElement { key: key@, value: v }),
        decreases elems@.len() - i,
    {
        match f.set_element(key, &elems[i]) {
            Ok(()) => (),
            Err(e) => {
                proof {
                    assert(f.events().subrange(0, old(f).events().len() as int) =~= old(f).events());
                }
                return Err(e);
            },
        }
        i = i + 1;
        proof {
            assert(f.events() =~= e0 + seq![EventS::StartSet { key: key@, count, expiry, enc }]
                + views_of(elems@).take(i as int).map_values(|v: Seq<u8>| EventS::SetElement { key: key@, value: v }));
        }
    }
    match f.end_set(key) {
        Ok(()) => (),
        Err(e) => {
            proof {
                assert(f.events().subrange(0, old(f).events().len() as int) =~= old(f).events());
            }
            return Err(e);
        },
    }
    proof {
        assert(views_of(elems@).take(elems@.len() as int) =~= views_of(elems@));
        assert(f.events() =~= e0 + set_events(key@, count, expiry, enc, views_of(elems@)));
    }
    Ok(())
}

/// Drive the sink through one hash record.
#[verifier::loop_isolation(false)]
pub fn emit_hash<F: Formatter>(f: &mut F, key: &Vec<u8>, count: u32, expiry: Option<u64>, enc: EncodingType, pairs: &Vec<(Vec<u8>, Vec<u8>)>) -> (r: RdbOk)
    ensures
        r is Ok ==> final(f).events() == old(f).events() + hash_events(key@, count, expiry, enc, pair_views(pairs@)),
        old(f).infallible() ==> r is Ok,
        final(f).infallible() == old(f).infallible(),
        old(f).events().is_prefix_of(final(f).events()),
{
    let ghost e0 = f.events();
    match f.start_hash(key, count, expiry, enc) {
        Ok(()) => (),
        Err(e) => {
            proof {
                assert(f.events().subrange(0, old(f).events().len() as int) =~= old(f).events());
            }
            return Err(e);
        },
    }
    let mut i: usize = 0;
    while i < pairs.len()
        invariant
            i <= pairs@.len(),
            f.infallible() == old(f).infallible(),
            f.events() == e0 + seq![EventS::StartHash { key: key@, count, expiry, enc }]
                + pair_views(pairs@).take(i as int).map_values(|p: (Seq<u8>, Seq<u8>)| EventS::HashElement { key: key@, field: p.0, value: p.1 }),
        decreases pairs@.len() - i,
    {
        let p = &pairs[i];
        match f.hash_element(key, &p.0, &p.1) {
            Ok(()) => (),
            Err(e) => {
                proof {
                    assert(f.events().subrange(0, old(f).events().len() as int) =~= old(f).events());
                }
                return Err(e);
            },
        }
        i = i + 1;
        proof {
            assert(f.events() =~= e0 + seq![EventS::StartHash { key: key@, count, expiry, enc }]
                + pair_views(pairs@).take(i as int).map_values(|p: (Seq<u8>, Seq<u8>)| EventS::HashElement { key: key@, field: p.0, value: p.1 }));
        }
    }
    match f.end_hash(key) {
        Ok(()) => (),
        Err(e) => {
            proof {
                assert(f.events().subrange(0, old(f).events().len() as int) =~= old(f).events());
            }
            return Err(e);
        },
    }
    proof {
        assert(pair_views(pairs@).take(pairs@.len() as int) =~= pair_views(pairs@));
        assert(f.events() =~= e0 + hash_events(key@, count, expiry, enc, pair_views(pairs@)));
    }
    Ok(())
}

/// Drive the sink through one sorted-set record.
#[verifier::loop_isolation(false)]
pub fn emit_zset<F: Formatter>(f: &mut F, key: &Vec<u8>, count: u32, expiry: Option<u64>, enc: EncodingType, entries: &Vec<(Score, Vec<u8>)>) -> (r: RdbOk)
    ensures
        r is Ok ==> final(f).events() == old(f).events() + zset_events(key@, count, expiry, enc, score_views(entries@)),
        old(f).infallible() ==> r is Ok,
        final(f).infallible() == old(f).infallible(),
        old(f).events().is_prefix_of(final(f).events()),
{
    let ghost e0 = f.events();
    match f.start_sorted_set(key, count, expiry, enc) {
        Ok(()) => (),
        Err(e) => {
            proof {
                assert(f.events().subrange(0, old(f).events().len() as int) =~= old(f).events());
            }
            return Err(e);
        },
    }
    let mut i: usize = 0;
    while i < entries.len()
        invariant
            i <= entries@.len(),
            f.infallible() == old(f).infallible(),
            f.events() == e0 + seq![EventS::StartSortedSet { key: key@, count, expiry, enc }]
                + score_views(entries@).take(i as int).map_values(|p: (ScoreS, Seq<u8>)| EventS::SortedSetElement { key: key@, score: p.0, value: p.1 }),
        decreases entries@.len() - i,
    {
        let p = &entries[i];
        let s = p.0.clone();
        match f.sorted_set_element(key, s, &p.1) {
            Ok(()) => (),
            Err(e) => {
                proof {
                    assert(f.events().subrange(0, old(f).events().len() as int) =~= old(f).events());
                }
                return Err(e);
            },
        }
        i = i + 1;
        proof {
            assert(f.events() =~= e0 + seq![EventS::StartSortedSet { key: key@, count, expiry, enc }]
                + score_views(entries@).take(i as int).map_values(|p: (ScoreS, Seq<u8>)| EventS::SortedSetElement { key: key@, score: p.0, value: p.1 }));
        }
    }
    match f.end_sorted_set(key) {
        Ok(()) => (),
        Err(e) => {
            proof {
                assert(f.events().subrange(0, old(f).events().len() as int) =~= old(f).events());
            }
            return Err(e);
        },
    }
    proof {
        assert(score_views(entries@).take(entries@.len() as int) =~= score_views(entries@));
        assert(f.events() =~= e0 + zset_events(key@, count, expiry, enc, score_views(entries@)));
    }
    Ok(())
}

} // verus!
