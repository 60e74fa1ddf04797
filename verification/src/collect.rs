//! Collectors for the plain container payloads: they decode a counted run of
//! fields off the input without touching the event sink.

use vstd::prelude::*;
use crate::error::{RdbError, RdbResult};
use crate::model::{blobs_at, blob_pairs_at, zset_entries_at, zset2_entries_at, score_read_at, score_corrupt, is_decimal_score, score_scan, score_step, ScoreS};
use crate::reader::ByteReader;
use crate::primitives::read_blob;
use crate::events::{Score, views_of, pair_views, score_views};

verus! {

/// Read `n` consecutive blobs.
#[verifier::loop_isolation(false)]
#[verifier::rlimit(50)]
pub fn read_n_blobs(input: &mut ByteReader, n: u32) -> (r: RdbResult<Vec<Vec<u8>>>)
    ensures
        final(input).bytes() == old(input).bytes(),
        match blobs_at(old(input).bytes(), old(input).pos(), n as nat) {
            Some(t) => {
                &&& r matches Ok(vs) && views_of(vs@) == t.1 && vs@.len() == n
                &&& final(input).pos() == t.0
            },
            None => r is Err,
        },
{
    let ghost data = old(input).bytes();
    let ghost p0 = old(input).pos();
    let mut acc: Vec<Vec<u8>> = Vec::new();
    let mut i: u32 = 0;
    while i < n
        invariant
            input.bytes() == data,
            i <= n,
            acc@.len() == i,
            match blobs_at(data, input.pos(), (n - i) as nat) {
                Some(t) => blobs_at(data, p0, n as nat) == Some((t.0, views_of(acc@) + t.1)),
                None => blobs_at(data, p0, n as nat) is None,
            },
        decreases n - i,
    {
        let ghost cur = input.pos();
        let v = match read_blob(input) {
            Ok(v) => v,
            Err(e) => {
                proof {
                    assert(blobs_at(data, cur, (n - i) as nat) is None);
                }
                return Err(e);
            },
        };
        proof {
            let t = crate::model::blob_at(data, cur).unwrap();
            match blobs_at(data, input.pos(), (n - i - 1) as nat) {
                Some(t2) => {
                    assert(blobs_at(data, cur, (n - i) as nat) == Some((t2.0, seq![t.1] + t2.1)));
                    assert(views_of(acc@.push(v)) =~= views_of(acc@).push(v@));
                    assert(views_of(acc@) + (seq![t.1] + t2.1) =~= views_of(acc@.push(v)) + t2.1);
                },
                None => {
                    assert(blobs_at(data, cur, (n - i) as nat) is None);
                },
            }
        }
        acc.push(v);
        i = i + 1;
    }
    proof {
        assert(blobs_at(data, input.pos(), 0) == Some((input.pos(), Seq::<Seq<u8>>::empty())));
        assert(views_of(acc@) + Seq::<Seq<u8>>::empty() =~= views_of(acc@));
    }
    Ok(acc)
}

/// Read `n` consecutive field-value blob pairs.
#[verifier::loop_isolation(false)]
#[verifier::rlimit(50)]
pub fn read_n_pairs(input: &mut ByteReader, n: u32) -> (r: RdbResult<Vec<(Vec<u8>, Vec<u8>)>>)
    ensures
        final(input).bytes() == old(input).bytes(),
        match blob_pairs_at(old(input).bytes(), old(input).pos(), n as nat) {
            Some(t) => {
                &&& r matches Ok(vs) && pair_views(vs@) == t.1 && vs@.len() == n
                &&& final(input).pos() == t.0
            },
            None => r is Err,
        },
{
    let ghost data = old(input).bytes();
    let ghost p0 = old(input).pos();
    let mut acc: Vec<(Vec<u8>, Vec<u8>)> = Vec::new();
    let mut i: u32 = 0;
    while i < n
        invariant
            input.bytes() == data,
            i <= n,
            acc@.len() == i,
            match blob_pairs_at(data, input.pos(), (n - i) as nat) {
                Some(t) => blob_pairs_at(data, p0, n as nat) == Some((t.0, pair_views(acc@) + t.1)),
                None => blob_pairs_at(data, p0, n as nat) is None,
            },
        decreases n - i,
    {
        let ghost cur = input.pos();
        let f = match read_blob(input) {
            Ok(v) => v,
            Err(e) => {
                proof {
                    assert(blob_pairs_at(data, cur, (n - i) as nat) is None);
                }
                return Err(e);
            },
        };
        let ghost mid = input.pos();
        let v = match read_blob(input) {
            Ok(v) => v,
            Err(e) => {
                proof {
                    assert(blob_pairs_at(data, cur, (n - i) as nat) is None);
                }
                return Err(e);
            },
        };
        proof {
            let tf = crate::model::blob_at(data, cur).unwrap();
            let tv = crate::model::blob_at(data, mid).unwrap();
            match blob_pairs_at(data, input.pos(), (n - i - 1) as nat) {
                Some(t2) => {
                    assert(blob_pairs_at(data, cur, (n - i) as nat) == Some((t2.0, seq![(tf.1, tv.1)] + t2.1)));
                    assert(pair_views(acc@.push((f, v))) =~= pair_views(acc@).push((f@, v@)));
                    assert(pair_views(acc@) + (seq![(tf.1, tv.1)] + t2.1) =~= pair_views(acc@.push((f, v))) + t2.1);
                },
                None => {
                    assert(blob_pairs_at(data, cur, (n - i) as nat) is None);
                },
            }
        }
        acc.push((f, v));
        i = i + 1;
    }
    proof {
        assert(blob_pairs_at(data, input.pos(), 0) == Some((input.pos(), Seq::<(Seq<u8>, Seq<u8>)>::empty())));
        assert(pair_views(acc@) + Seq::<(Seq<u8>, Seq<u8>)>::empty() =~= pair_views(acc@));
    }
    Ok(acc)
}

/// Decide whether the bytes are a decimal rendering, by running the
/// score-text scanner over them.
fn score_text_is_decimal(s: &Vec<u8>) -> (r: bool)
    ensures
        r == is_decimal_score(s@),
{
    let mut st: i32 = 0;
    let mut i: usize = 0;
    while i < s.len()
        invariant
            i <= s@.len(),
            st as int == score_scan(s@, i as int),
        decreases s@.len() - i,
    {
        let b = s[i];
        let digit = 48 <= b && b <= 57;
        st = if st == 0 {
            if b == 43 || b == 45 { 1 } else if digit { 2 } else { -1 }
        } else if st == 1 {
            if digit { 2 } else { -1 }
        } else if st == 2 {
            if digit { 2 } else if b == 46 { 3 } else if b == 101 || b == 69 { 5 } else { -1 }
        } else if st == 3 {
            if digit { 4 } else { -1 }
        } else if st == 4 {
            if digit { 4 } else if b == 101 || b == 69 { 5 } else { -1 }
        } else if st == 5 {
            if b == 43 || b == 45 { 6 } else if digit { 7 } else { -1 }
        } else if st == 6 {
            if digit { 7 } else { -1 }
        } else if st == 7 {
            if digit { 7 } else { -1 }
        } else {
            -1
        };
        i = i + 1;
        proof {
            assert(st as int == score_step(score_scan(s@, i - 1), s@[i - 1]));
        }
    }
    st == 2 || st == 4 || st == 7
}

/// Read one ASCII score field: a one-byte length where 253, 254 and 255 are
/// the special not-a-number and infinity codes. A textual score whose bytes
/// are not a decimal rendering is `Corrupt`.
pub fn read_score(input: &mut ByteReader) -> (r: RdbResult<Score>)
    ensures
        final(input).bytes() == old(input).bytes(),
        match score_read_at(old(input).bytes(), old(input).pos()) {
            Some(t) => r matches Ok(s) && s@ == t.1 && final(input).pos() == t.0,
            None => {
                &&& score_corrupt(old(input).bytes(), old(input).pos()) ==> r == Err::<Score, RdbError>(RdbError::Corrupt)
                &&& !score_corrupt(old(input).bytes(), old(input).pos()) ==> r == Err::<Score, RdbError>(RdbError::ShortRead)
            },
        },
{
    let b = match input.read_u8() {
        Ok(b) => b,
        Err(e) => return Err(e),
    };
    if b == 253 {
        Ok(Score::NotANumber)
    } else if b == 254 {
        Ok(Score::PositiveInfinity)
    } else if b == 255 {
        Ok(Score::NegativeInfinity)
    } else {
        let v = match input.read_exact(b as usize) {
            Ok(v) => v,
            Err(e) => return Err(e),
        };
        if score_text_is_decimal(&v) {
            Ok(Score::Ascii(v))
        } else {
            Err(RdbError::Corrupt)
        }
    }
}

/// Read `n` sorted-set entries, each a member blob followed by an ASCII score.
#[verifier::loop_isolation(false)]
#[verifier::rlimit(50)]
pub fn read_zset_entries(input: &mut ByteReader, n: u32) -> (r: RdbResult<Vec<(Score, Vec<u8>)>>)
    ensures
        final(input).bytes() == old(input).bytes(),
        match zset_entries_at(old(input).bytes(), old(input).pos(), n as nat) {
            Some(t) => {
                &&& r matches Ok(vs) && score_views(vs@) == t.1 && vs@.len() == n
                &&& final(input).pos() == t.0
            },
            None => r is Err,
        },
{
    let ghost data = old(input).bytes();
    let ghost p0 = old(input).pos();
    let mut acc: Vec<(Score, Vec<u8>)> = Vec::new();
    let mut i: u32 = 0;
    while i < n
        invariant
            input.bytes() == data,
            i <= n,
            acc@.len() == i,
            match zset_entries_at(data, input.pos(), (n - i) as nat) {
                Some(t) => zset_entries_at(data, p0, n as nat) == Some((t.0, score_views(acc@) + t.1)),
                None => zset_entries_at(data, p0, n as nat) is None,
            },
        decreases n - i,
    {
        let ghost cur = input.pos();
        let v = match read_blob(input) {
            Ok(v) => v,
            Err(e) => {
                proof {
                    assert(zset_entries_at(data, cur, (n - i) as nat) is None);
                }
                return Err(e);
            },
        };
        let ghost mid = input.pos();
        let s = match read_score(input) {
            Ok(s) => s,
            Err(e) => {
                proof {
                    assert(zset_entries_at(data, cur, (n - i) as nat) is None);
                }
                return Err(e);
            },
        };
        proof {
            let tv = crate::model::blob_at(data, cur).unwrap();
            let ts = score_read_at(data, mid).unwrap();
            match zset_entries_at(data, input.pos(), (n - i - 1) as nat) {
                Some(t2) => {
                    assert(zset_entries_at(data, cur, (n - i) as nat) == Some((t2.0, seq![(ts.1, tv.1)] + t2.1)));
                    assert(score_views(acc@.push((s, v))) =~= score_views(acc@).push((s@, v@)));
                    assert(score_views(acc@) + (seq![(ts.1, tv.1)] + t2.1) =~= score_views(acc@.push((s, v))) + t2.1);
                },
                None => {
                    assert(zset_entries_at(data, cur, (n - i) as nat) is None);
                },
            }
        }
        acc.push((s, v));
        i = i + 1;
    }
    proof {
        assert(zset_entries_at(data, input.pos(), 0) == Some((input.pos(), Seq::<(ScoreS, Seq<u8>)>::empty())));
        assert(score_views(acc@) + Seq::<(ScoreS, Seq<u8>)>::empty() =~= score_views(acc@));
    }
    Ok(acc)
}

/// Read `n` sorted-set entries, each a member blob followed by an 8-byte
/// little-endian binary score.
#[verifier::loop_isolation(false)]
#[verifier::rlimit(50)]
pub fn read_zset2_entries(input: &mut ByteReader, n: u32) -> (r: RdbResult<Vec<(Score, Vec<u8>)>>)
    ensures
        final(input).bytes() == old(input).bytes(),
        match zset2_entries_at(old(input).bytes(), old(input).pos(), n as nat) {
            Some(t) => {
                &&& r matches Ok(vs) && score_views(vs@) == t.1 && vs@.len() == n
                &&& final(input).pos() == t.0
            },
            None => r is Err,
        },
{
    let ghost data = old(input).bytes();
    let ghost p0 = old(input).pos();
    let mut acc: Vec<(Score, Vec<u8>)> = Vec::new();
    let mut i: u32 = 0;
    while i < n
        invariant
            input.bytes() == data,
            i <= n,
            acc@.len() == i,
            match zset2_entries_at(data, input.pos(), (n - i) as nat) {
                Some(t) => zset2_entries_at(data, p0, n as nat) == Some((t.0, score_views(acc@) + t.1)),
                None => zset2_entries_at(data, p0, n as nat) is None,
            },
        decreases n - i,
    {
        let ghost cur = input.pos();
        let v = match read_blob(input) {
            Ok(v) => v,
            Err(e) => {
                proof {
                    assert(zset2_entries_at(data, cur, (n - i) as nat) is None);
                }
                return Err(e);
            },
        };
        let ghost mid = input.pos();
        let u = match input.read_u64_le() {
            Ok(u) => u,
            Err(e) => {
                proof {
                    assert(zset2_entries_at(data, cur, (n - i) as nat) is None);
                }
                return Err(e);
            },
        };
        let s = Score::Wire(u);
        proof {
            let tv = crate::model::blob_at(data, cur).unwrap();
            let ghost ss = ScoreS::Wire(crate::model::u64_le(data.subrange(mid, mid + 8)) as u64);
            assert(s@ == ss);
            match zset2_entries_at(data, input.pos(), (n - i - 1) as nat) {
                Some(t2) => {
                    assert(zset2_entries_at(data, cur, (n - i) as nat) == Some((t2.0, seq![(ss, tv.1)] + t2.1)));
                    assert(score_views(acc@.push((s, v))) =~= score_views(acc@).push((s@, v@)));
                    assert(score_views(acc@) + (seq![(ss, tv.1)] + t2.1) =~= score_views(acc@.push((s, v))) + t2.1);
                },
                None => {
                    assert(zset2_entries_at(data, cur, (n - i) as nat) is None);
                },
            }
        }
        acc.push((s, v));
        i = i + 1;
    }
    proof {
        assert(zset2_entries_at(data, input.pos(), 0) == Some((input.pos(), Seq::<(ScoreS, Seq<u8>)>::empty())));
        assert(score_views(acc@) + Seq::<(ScoreS, Seq<u8>)>::empty() =~= score_views(acc@));
    }
    Ok(acc)
}

} // verus!
