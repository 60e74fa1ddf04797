//! Laws of the wire model: wherever the read view of a field is defined, the
//! skip view is defined too and lands on the same position. Together with the
//! contracts of the readers and skippers, this is what makes skipping a
//! record cursor-equivalent to decoding it.

use vstd::prelude::*;
use crate::model::{
    length_at, blob_at, blob_end, blobs_at, blobs_end, blob_pairs_at,
    zset_entries_at, zset_entries_end, zset2_entries_at, zset2_entries_end,
    quicklist_elems, score_at, score_read_at, object_end, object_read_end,
    TYPE_STRING, TYPE_LIST, TYPE_SET, TYPE_ZSET, TYPE_HASH, TYPE_ZSET_2,
    TYPE_HASH_ZIPMAP, TYPE_LIST_ZIPLIST, TYPE_SET_INTSET, TYPE_ZSET_ZIPLIST,
    TYPE_HASH_ZIPLIST, TYPE_LIST_QUICKLIST,
};

verus! {

/// A length field ends after its own bytes, inside the buffer.
pub proof fn lemma_length_at_bounds(data: Seq<u8>, pos: int)
    ensures
        length_at(data, pos) matches Some(t) ==> pos < t.0 <= data.len(),
{
}

/// A blob ends after its first byte, inside the buffer.
pub proof fn lemma_blob_end_bounds(data: Seq<u8>, pos: int)
    ensures
        blob_end(data, pos) matches Some(p) ==> pos < p <= data.len(),
{
    lemma_length_at_bounds(data, pos);
}

/// Reading a blob consumes exactly the bytes that skipping it advances past.
pub proof fn lemma_blob_read_skip_agree(data: Seq<u8>, pos: int)
    ensures
        blob_at(data, pos) matches Some(t) ==> blob_end(data, pos) == Some(t.0),
{
}

/// A run of blobs only moves the cursor forward, inside the buffer.
pub proof fn lemma_blobs_end_bounds(data: Seq<u8>, pos: int, n: nat)
    requires
        0 <= pos <= data.len(),
    ensures
        blobs_end(data, pos, n) matches Some(p) ==> pos <= p <= data.len(),
    decreases n,
{
    if n > 0 {
        match blob_end(data, pos) {
            Some(p) => {
                lemma_blob_end_bounds(data, pos);
                lemma_blobs_end_bounds(data, p, (n - 1) as nat);
            },
            None => {},
        }
    }
}

/// Reading a run of blobs consumes exactly what skipping the run advances past.
pub proof fn lemma_blobs_read_skip_agree(data: Seq<u8>, pos: int, n: nat)
    ensures
        blobs_at(data, pos, n) matches Some(t) ==> blobs_end(data, pos, n) == Some(t.0),
    decreases n,
{
    if n > 0 {
        match blob_at(data, pos) {
            Some((p, _)) => {
                lemma_blob_read_skip_agree(data, pos);
                lemma_blobs_read_skip_agree(data, p, (n - 1) as nat);
            },
            None => {},
        }
    }
}

/// Reading `n` field-value pairs consumes exactly what skipping `2n` blobs
/// advances past.
#[verifier::rlimit(50)]
pub proof fn lemma_pairs_read_skip_agree(data: Seq<u8>, pos: int, n: nat)
    ensures
        blob_pairs_at(data, pos, n) matches Some(t) ==> blobs_end(data, pos, 2 * n) == Some(t.0),
    decreases n,
{
    if n > 0 {
        match blob_at(data, pos) {
            Some((p1, _)) => {
                lemma_blob_read_skip_agree(data, pos);
                match blob_at(data, p1) {
                    Some((p2, _)) => {
                        lemma_blob_read_skip_agree(data, p1);
                        lemma_pairs_read_skip_agree(data, p2, (n - 1) as nat);
                        assert(blobs_end(data, pos, 2 * n) == blobs_end(data, p1, (2 * n - 1) as nat));
                        assert(blobs_end(data, p1, (2 * n - 1) as nat) == blobs_end(data, p2, (2 * (n - 1)) as nat));
                    },
                    None => {},
                }
            },
            None => {},
        }
    }
}

/// An ASCII score field stays inside the buffer.
pub proof fn lemma_score_at_bounds(data: Seq<u8>, pos: int)
    ensures
        score_at(data, pos) matches Some(t) ==> pos < t.0 <= data.len(),
{
}

/// Reading sorted-set entries with ASCII scores consumes exactly what the
/// skip view advances past.
pub proof fn lemma_zset_read_skip_agree(data: Seq<u8>, pos: int, n: nat)
    ensures
        zset_entries_at(data, pos, n) matches Some(t) ==> zset_entries_end(data, pos, n) == Some(t.0),
    decreases n,
{
    if n > 0 {
        match blob_at(data, pos) {
            Some((p1, _)) => {
                lemma_blob_read_skip_agree(data, pos);
                match score_read_at(data, p1) {
                    Some((p2, _)) => {
                        lemma_zset_read_skip_agree(data, p2, (n - 1) as nat);
                    },
                    None => {},
                }
            },
            None => {},
        }
    }
}

/// The sorted-set skip view with ASCII scores stays inside the buffer.
pub proof fn lemma_zset_end_bounds(data: Seq<u8>, pos: int, n: nat)
    requires
        0 <= pos <= data.len(),
    ensures
        zset_entries_end(data, pos, n) matches Some(p) ==> pos <= p <= data.len(),
    decreases n,
{
    if n > 0 {
        match blob_end(data, pos) {
            Some(p1) => {
                lemma_blob_end_bounds(data, pos);
                match score_at(data, p1) {
                    Some((p2, _)) => {
                        lemma_score_at_bounds(data, p1);
                        lemma_zset_end_bounds(data, p2, (n - 1) as nat);
                    },
                    None => {},
                }
            },
            None => {},
        }
    }
}

/// Reading sorted-set entries with binary scores consumes exactly what the
/// skip view advances past.
pub proof fn lemma_zset2_read_skip_agree(data: Seq<u8>, pos: int, n: nat)
    ensures
        zset2_entries_at(data, pos, n) matches Some(t) ==> zset2_entries_end(data, pos, n) == Some(t.0),
    decreases n,
{
    if n > 0 {
        match blob_at(data, pos) {
            Some((p1, _)) => {
                lemma_blob_read_skip_agree(data, pos);
                if p1 + 8 <= data.len() {
                    lemma_zset2_read_skip_agree(data, p1 + 8, (n - 1) as nat);
                }
            },
            None => {},
        }
    }
}

/// The sorted-set skip view with binary scores stays inside the buffer.
pub proof fn lemma_zset2_end_bounds(data: Seq<u8>, pos: int, n: nat)
    requires
        0 <= pos <= data.len(),
    ensures
        zset2_entries_end(data, pos, n) matches Some(p) ==> pos <= p <= data.len(),
    decreases n,
{
    if n > 0 {
        match blob_end(data, pos) {
            Some(p1) => {
                lemma_blob_end_bounds(data, pos);
                if p1 + 8 <= data.len() {
                    lemma_zset2_end_bounds(data, p1 + 8, (n - 1) as nat);
                }
            },
            None => {},
        }
    }
}

/// Decoding a quicklist consumes exactly what skipping its ziplist blobs
/// advances past.
pub proof fn lemma_quicklist_read_skip_agree(data: Seq<u8>, pos: int, n: nat)
    ensures
        quicklist_elems(data, pos, n) matches Some(t) ==> blobs_end(data, pos, n) == Some(t.0),
    decreases n,
{
    if n > 0 {
        match blob_at(data, pos) {
            Some((p, _)) => {
                lemma_blob_read_skip_agree(data, pos);
                lemma_quicklist_read_skip_agree(data, p, (n - 1) as nat);
            },
            None => {},
        }
    }
}

/// Skipping a whole value payload is cursor-equivalent to decoding it:
/// wherever the read view of a payload is defined, the skip view is defined
/// too and lands on the same position, whatever the type tag.
#[verifier::rlimit(50)]
pub proof fn lemma_object_read_skip_agree(data: Seq<u8>, pos: int, tag: u8)
    ensures
        object_read_end(data, pos, tag) matches Some(e) ==> object_end(data, pos, tag) == Some(e),
{
    reveal(object_read_end);
    reveal(object_end);
    lemma_blob_read_skip_agree(data, pos);
    match length_at(data, pos) {
        Some((p, n, _)) => {
            lemma_blobs_read_skip_agree(data, p, n);
            lemma_quicklist_read_skip_agree(data, p, n);
            lemma_zset_read_skip_agree(data, p, n);
            lemma_pairs_read_skip_agree(data, p, n);
            lemma_zset2_read_skip_agree(data, p, n);
        },
        None => {},
    }
}

/// A whole value payload only moves the cursor forward, inside the buffer.
pub proof fn lemma_object_end_bounds(data: Seq<u8>, pos: int, tag: u8)
    requires
        0 <= pos <= data.len(),
    ensures
        object_end(data, pos, tag) matches Some(p) ==> pos < p <= data.len(),
{
    reveal(object_end);
    lemma_blob_end_bounds(data, pos);
    lemma_length_at_bounds(data, pos);
    if tag == TYPE_LIST || tag == TYPE_SET || tag == TYPE_LIST_QUICKLIST {
        match length_at(data, pos) {
            Some((p, n, _)) => lemma_blobs_end_bounds(data, p, n),
            None => {},
        }
    } else if tag == TYPE_ZSET {
        match length_at(data, pos) {
            Some((p, n, _)) => lemma_zset_end_bounds(data, p, n),
            None => {},
        }
    } else if tag == TYPE_HASH {
        match length_at(data, pos) {
            Some((p, n, _)) => lemma_blobs_end_bounds(data, p, 2 * n),
            None => {},
        }
    } else if tag == TYPE_ZSET_2 {
        match length_at(data, pos) {
            Some((p, n, _)) => lemma_zset2_end_bounds(data, p, n),
            None => {},
        }
    }
}

} // verus!
