//! The mathematical model of the RDB wire format.
//!
//! Every spec function here maps a byte sequence and a cursor position to the
//! position just past a field (and, for the read path, to the decoded value).
//! `None` means the bytes do not hold a well-formed field at that position.
//! The executable readers and the skip path are both proved against these
//! functions, which is what makes skipping cursor-equivalent to reading.

use vstd::prelude::*;
use crate::lzf_ext::lzf_decoded;

verus! {

// ---------------------------------------------------------------------------
// Wire constants
// ---------------------------------------------------------------------------

/// Opcode: auxiliary field.
pub const OP_AUX: u8 = 250;
/// Opcode: hash-table resize hint.
pub const OP_RESIZEDB: u8 = 251;
/// Opcode: expiration in milliseconds.
pub const OP_EXPIRETIME_MS: u8 = 252;
/// Opcode: expiration in seconds.
pub const OP_EXPIRETIME: u8 = 253;
/// Opcode: database selector.
pub const OP_SELECTDB: u8 = 254;
/// Opcode: end of stream.
pub const OP_EOF: u8 = 255;

/// Value-type tag: plain string.
pub const TYPE_STRING: u8 = 0;
/// Value-type tag: linked list.
pub const TYPE_LIST: u8 = 1;
/// Value-type tag: set.
pub const TYPE_SET: u8 = 2;
/// Value-type tag: sorted set with ASCII scores.
pub const TYPE_ZSET: u8 = 3;
/// Value-type tag: hash table.
pub const TYPE_HASH: u8 = 4;
/// Value-type tag: sorted set with binary 8-byte scores.
pub const TYPE_ZSET_2: u8 = 5;
/// Value-type tag: hash stored as a zipmap.
pub const TYPE_HASH_ZIPMAP: u8 = 9;
/// Value-type tag: list stored as a ziplist.
pub const TYPE_LIST_ZIPLIST: u8 = 10;
/// Value-type tag: set stored as an intset.
pub const TYPE_SET_INTSET: u8 = 11;
/// Value-type tag: sorted set stored as a ziplist.
pub const TYPE_ZSET_ZIPLIST: u8 = 12;
/// Value-type tag: hash stored as a ziplist.
pub const TYPE_HASH_ZIPLIST: u8 = 13;
/// Value-type tag: list stored as a quicklist (a sequence of ziplists).
pub const TYPE_LIST_QUICKLIST: u8 = 14;

/// Lowest supported format version.
pub const VERSION_MIN: u32 = 2;
/// Highest supported format version.
pub const VERSION_MAX: u32 = 9;

/// The five magic bytes that open a snapshot: ASCII `REDIS`.
pub open spec fn magic_bytes() -> Seq<u8> {
    seq![82u8, 69u8, 68u8, 73u8, 83u8]
}

// ---------------------------------------------------------------------------
// Fixed-width integers
// ---------------------------------------------------------------------------

/// Two bytes, little endian.
pub open spec fn u16_le(b0: u8, b1: u8) -> nat {
    (b0 + 256 * b1) as nat
}

/// Four bytes, little endian.
pub open spec fn u32_le(b0: u8, b1: u8, b2: u8, b3: u8) -> nat {
    (b0 + 256 * b1 + 65536 * b2 + 16777216 * b3) as nat
}

/// Four bytes, big endian.
pub open spec fn u32_be(b0: u8, b1: u8, b2: u8, b3: u8) -> nat {
    u32_le(b3, b2, b1, b0)
}

/// Eight bytes, little endian; `s` is the eight-byte field.
pub open spec fn u64_le(s: Seq<u8>) -> nat {
    (s[0] + 256 * s[1] + 65536 * s[2] + 16777216 * s[3]
        + 4294967296 * s[4] + 1099511627776 * s[5]
        + 281474976710656 * s[6] + 72057594037927936 * s[7]) as nat
}

/// One byte as a signed value.
pub open spec fn i8_of(b: u8) -> int {
    if b >= 128 { b - 256 } else { b as int }
}

/// A 16-bit unsigned value reinterpreted as signed.
pub open spec fn i16_of(u: nat) -> int {
    if u >= 32768 { u - 65536 } else { u as int }
}

/// A 24-bit unsigned value sign-extended from bit 23.
pub open spec fn i24_of(u: nat) -> int {
    if u >= 8388608 { u - 16777216 } else { u as int }
}

/// A 32-bit unsigned value reinterpreted as signed.
pub open spec fn i32_of(u: nat) -> int {
    if u >= 2147483648 { u - 4294967296 } else { u as int }
}

/// A 64-bit unsigned value reinterpreted as signed.
pub open spec fn i64_of(u: nat) -> int {
    if u >= 9223372036854775808 { u - 18446744073709551616 } else { u as int }
}

// ---------------------------------------------------------------------------
// Decimal rendering
// ---------------------------------------------------------------------------

/// The decimal digits of `n`, most significant first.
pub open spec fn dec_digits(n: nat) -> Seq<u8>
    decreases n,
{
    if n < 10 {
        seq![(48 + n) as u8]
    } else {
        dec_digits(n / 10).push((48 + n % 10) as u8)
    }
}

/// The ASCII decimal rendering of `v`, with a leading minus sign if negative.
pub open spec fn decimal_of(v: int) -> Seq<u8> {
    if v < 0 {
        seq![45u8] + dec_digits((-v) as nat)
    } else {
        dec_digits(v as nat)
    }
}

// ---------------------------------------------------------------------------
// Length fields
// ---------------------------------------------------------------------------

/// A length field at `pos`: the position past it, its value, and whether the
/// value is an encoding code rather than a byte count.
pub open spec fn length_at(data: Seq<u8>, pos: int) -> Option<(int, nat, bool)> {
    if 0 <= pos < data.len() {
        let b = data[pos];
        let tag = b / 64;
        let low = (b % 64) as nat;
        if tag == 3 {
            Some((pos + 1, low, true))
        } else if tag == 0 {
            Some((pos + 1, low, false))
        } else if tag == 1 {
            if pos + 2 <= data.len() {
                Some((pos + 2, (256 * low + data[pos + 1]) as nat, false))
            } else {
                None
            }
        } else {
            if pos + 5 <= data.len() {
                Some((pos + 5, u32_be(data[pos + 1], data[pos + 2], data[pos + 3], data[pos + 4]), false))
            } else {
                None
            }
        }
    } else {
        None
    }
}

/// Blob encoding code: 8-bit integer.
pub const ENC_INT8: u32 = 0;
/// Blob encoding code: 16-bit integer.
pub const ENC_INT16: u32 = 1;
/// Blob encoding code: 32-bit integer.
pub const ENC_INT32: u32 = 2;
/// Blob encoding code: LZF-compressed bytes.
pub const ENC_LZF: u32 = 3;

// ---------------------------------------------------------------------------
// Blobs: the skip view (position only) and the read view (position and value)
// ---------------------------------------------------------------------------

/// The position past the blob at `pos`, without decompressing anything.
/// This is what the skip path advances by.
pub open spec fn blob_end(data: Seq<u8>, pos: int) -> Option<int> {
    match length_at(data, pos) {
        None => None,
        Some((p, len, enc)) => {
            if !enc {
                if p + len <= data.len() { Some(p + len) } else { None }
            } else if len == 0 {
                if p + 1 <= data.len() { Some(p + 1) } else { None }
            } else if len == 1 {
                if p + 2 <= data.len() { Some(p + 2) } else { None }
            } else if len == 2 {
                if p + 4 <= data.len() { Some(p + 4) } else { None }
            } else if len == 3 {
                match length_at(data, p) {
                    None => None,
                    Some((p2, clen, _)) => match length_at(data, p2) {
                        None => None,
                        Some((p3, _rlen, _)) => {
                            if p3 + clen <= data.len() { Some(p3 + clen) } else { None }
                        },
                    },
                }
            } else {
                None
            }
        },
    }
}

/// The blob at `pos` as the read path sees it: the position past it and the
/// decoded bytes (verbatim, a decimal rendering of a packed integer, or the
/// LZF-decompressed payload, which must have exactly its declared length).
pub open spec fn blob_at(data: Seq<u8>, pos: int) -> Option<(int, Seq<u8>)> {
    match length_at(data, pos) {
        None => None,
        Some((p, len, enc)) => {
            if !enc {
                if p + len <= data.len() {
                    Some((p + len, data.subrange(p, p + len)))
                } else {
                    None
                }
            } else if len == 0 {
                if p + 1 <= data.len() {
                    Some((p + 1, decimal_of(i8_of(data[p]))))
                } else {
                    None
                }
            } else if len == 1 {
                if p + 2 <= data.len() {
                    Some((p + 2, decimal_of(i16_of(u16_le(data[p], data[p + 1])))))
                } else {
                    None
                }
            } else if len == 2 {
                if p + 4 <= data.len() {
                    Some((p + 4, decimal_of(i32_of(u32_le(data[p], data[p + 1], data[p + 2], data[p + 3])))))
                } else {
                    None
                }
            } else if len == 3 {
                match length_at(data, p) {
                    None => None,
                    Some((p2, clen, _)) => match length_at(data, p2) {
                        None => None,
                        Some((p3, rlen, _)) => {
                            if p3 + clen <= data.len() {
                                match lzf_decoded(data.subrange(p3, p3 + clen)) {
                                    Some(d) => if d.len() == rlen { Some((p3 + clen, d)) } else { None },
                                    None => None,
                                }
                            } else {
                                None
                            }
                        },
                    },
                }
            } else {
                None
            }
        },
    }
}

/// True when the blob at `pos` is structurally readable but rotten: an unknown
/// encoding code, or an LZF payload that does not decompress to its declared
/// length. The read path answers `Corrupt` exactly here.
pub open spec fn blob_corrupt(data: Seq<u8>, pos: int) -> bool {
    match length_at(data, pos) {
        None => false,
        Some((p, len, enc)) => {
            enc && if len == 3 {
                match length_at(data, p) {
                    None => false,
                    Some((p2, clen, _)) => match length_at(data, p2) {
                        None => false,
                        Some((p3, rlen, _)) => {
                            p3 + clen <= data.len() && match lzf_decoded(data.subrange(p3, p3 + clen)) {
                                Some(d) => d.len() != rlen,
                                None => true,
                            }
                        },
                    },
                }
            } else {
                len > 3
            }
        },
    }
}

/// `n` consecutive blobs, skip view.
pub open spec fn blobs_end(data: Seq<u8>, pos: int, n: nat) -> Option<int>
    decreases n,
{
    if n == 0 {
        Some(pos)
    } else {
        match blob_end(data, pos) {
            None => None,
            Some(p) => blobs_end(data, p, (n - 1) as nat),
        }
    }
}

/// `n` consecutive blobs, read view.
pub open spec fn blobs_at(data: Seq<u8>, pos: int, n: nat) -> Option<(int, Seq<Seq<u8>>)>
    decreases n,
{
    if n == 0 {
        Some((pos, Seq::empty()))
    } else {
        match blob_at(data, pos) {
            None => None,
            Some((p, v)) => match blobs_at(data, p, (n - 1) as nat) {
                None => None,
                Some((e, rest)) => Some((e, seq![v] + rest)),
            },
        }
    }
}

/// `n` consecutive blob pairs, read view (hash fields and values).
pub open spec fn blob_pairs_at(data: Seq<u8>, pos: int, n: nat) -> Option<(int, Seq<(Seq<u8>, Seq<u8>)>)>
    decreases n,
{
    if n == 0 {
        Some((pos, Seq::empty()))
    } else {
        match blob_at(data, pos) {
            None => None,
            Some((p1, f)) => match blob_at(data, p1) {
                None => None,
                Some((p2, v)) => match blob_pairs_at(data, p2, (n - 1) as nat) {
                    None => None,
                    Some((e, rest)) => Some((e, seq![(f, v)] + rest)),
                },
            },
        }
    }
}

// ---------------------------------------------------------------------------
// Sorted-set entries
// ---------------------------------------------------------------------------

/// A sorted-set score as it stands on the wire.
pub enum ScoreS {
    /// Score length code 253: not a number.
    NotANumber,
    /// Score length code 254: positive infinity.
    PositiveInfinity,
    /// Score length code 255: negative infinity.
    NegativeInfinity,
    /// A run of ASCII bytes holding a decimal rendering.
    Ascii(Seq<u8>),
    /// The bit pattern of an 8-byte little-endian binary score.
    Wire(u64),
}

/// One step of the decimal-text scanner. The states: 0 at the start, 1
/// after a leading sign, 2 inside the integer digits, 3 just after the
/// point, 4 inside the fraction digits, 5 just after the exponent mark, 6
/// after the exponent's sign, 7 inside the exponent digits; any other byte
/// drops to the rejecting state.
pub open spec fn score_step(st: int, b: u8) -> int {
    let digit = 48 <= b <= 57;
    if st == 0 {
        if b == 43 || b == 45 { 1 } else if digit { 2 } else { -1 }
    } else if st == 1 {
        if digit { 2 } else { -1 }
    } else if st == 2 {
        if digit { 2 } else if b == 46 { 3 } else if b == 101 || b == 69 { 5 } else { -1 }
    } else if st == 3 {
        if digit { 4 } else { -1 }
    } else if st == 4 {
        if digit { 4 } else if b == 101 || b == 69 { 5 } else { -1 }
    } else if st == 5 {
        if b == 43 || b == 45 { 6 } else if digit { 7 } else { -1 }
    } else if st == 6 {
        if digit { 7 } else { -1 }
    } else if st == 7 {
        if digit { 7 } else { -1 }
    } else {
        -1
    }
}

/// The scanner state after the first `i` bytes of `s`.
pub open spec fn score_scan(s: Seq<u8>, i: int) -> int
    decreases i,
{
    if i <= 0 {
        0
    } else {
        score_step(score_scan(s, i - 1), s[i - 1])
    }
}

/// True when the bytes are a decimal rendering: an optional sign, integer
/// digits, an optional fraction, an optional exponent — the textual score
/// shape a snapshot writer produces.
pub open spec fn is_decimal_score(s: Seq<u8>) -> bool {
    let st = score_scan(s, s.len() as int);
    st == 2 || st == 4 || st == 7
}

/// The ASCII score field at `pos`: a one-byte length, where 253, 254 and 255
/// are special codes, and any other value counts raw bytes.
pub open spec fn score_at(data: Seq<u8>, pos: int) -> Option<(int, ScoreS)> {
    if 0 <= pos < data.len() {
        let b = data[pos];
        if b == 253 {
            Some((pos + 1, ScoreS::NotANumber))
        } else if b == 254 {
            Some((pos + 1, ScoreS::PositiveInfinity))
        } else if b == 255 {
            Some((pos + 1, ScoreS::NegativeInfinity))
        } else {
            if pos + 1 + b <= data.len() {
                Some((pos + 1 + b, ScoreS::Ascii(data.subrange(pos + 1, pos + 1 + b))))
            } else {
                None
            }
        }
    } else {
        None
    }
}

/// The ASCII score field as the read path accepts it: a textual score whose
/// bytes are not a decimal rendering is rejected.
pub open spec fn score_read_at(data: Seq<u8>, pos: int) -> Option<(int, ScoreS)> {
    match score_at(data, pos) {
        None => None,
        Some((p, sc)) => match sc {
            ScoreS::Ascii(b) => if is_decimal_score(b) { Some((p, ScoreS::Ascii(b))) } else { None },
            _ => Some((p, sc)),
        },
    }
}

/// True when the score field is present but its bytes are not a decimal
/// rendering: the read path answers `Corrupt` exactly here.
pub open spec fn score_corrupt(data: Seq<u8>, pos: int) -> bool {
    match score_at(data, pos) {
        None => false,
        Some((p, sc)) => match sc {
            ScoreS::Ascii(b) => !is_decimal_score(b),
            _ => false,
        },
    }
}

/// `n` sorted-set entries with ASCII scores, read view.
pub open spec fn zset_entries_at(data: Seq<u8>, pos: int, n: nat) -> Option<(int, Seq<(ScoreS, Seq<u8>)>)>
    decreases n,
{
    if n == 0 {
        Some((pos, Seq::empty()))
    } else {
        match blob_at(data, pos) {
            None => None,
            Some((p1, v)) => match score_read_at(data, p1) {
                None => None,
                Some((p2, s)) => match zset_entries_at(data, p2, (n - 1) as nat) {
                    None => None,
                    Some((e, rest)) => Some((e, seq![(s, v)] + rest)),
                },
            },
        }
    }
}

/// `n` sorted-set entries with ASCII scores, skip view.
pub open spec fn zset_entries_end(data: Seq<u8>, pos: int, n: nat) -> Option<int>
    decreases n,
{
    if n == 0 {
        Some(pos)
    } else {
        match blob_end(data, pos) {
            None => None,
            Some(p1) => match score_at(data, p1) {
                None => None,
                Some((p2, _)) => zset_entries_end(data, p2, (n - 1) as nat),
            },
        }
    }
}

/// `n` sorted-set entries with binary scores, read view.
pub open spec fn zset2_entries_at(data: Seq<u8>, pos: int, n: nat) -> Option<(int, Seq<(ScoreS, Seq<u8>)>)>
    decreases n,
{
    if n == 0 {
        Some((pos, Seq::empty()))
    } else {
        match blob_at(data, pos) {
            None => None,
            Some((p1, v)) => {
                if p1 + 8 <= data.len() {
                    let s = ScoreS::Wire(u64_le(data.subrange(p1, p1 + 8)) as u64);
                    match zset2_entries_at(data, p1 + 8, (n - 1) as nat) {
                        None => None,
                        Some((e, rest)) => Some((e, seq![(s, v)] + rest)),
                    }
                } else {
                    None
                }
            },
        }
    }
}

/// `n` sorted-set entries with binary scores, skip view.
pub open spec fn zset2_entries_end(data: Seq<u8>, pos: int, n: nat) -> Option<int>
    decreases n,
{
    if n == 0 {
        Some(pos)
    } else {
        match blob_end(data, pos) {
            None => None,
            Some(p1) => {
                if p1 + 8 <= data.len() {
                    zset2_entries_end(data, p1 + 8, (n - 1) as nat)
                } else {
                    None
                }
            },
        }
    }
}

// ---------------------------------------------------------------------------
// Ziplist entries
// ---------------------------------------------------------------------------

/// A decoded ziplist entry: raw bytes or a packed signed integer.
pub enum ZlVal {
    /// A byte-string entry.
    Str(Seq<u8>),
    /// An integer entry.
    Num(int),
}

/// The string form of a ziplist entry: integers are rendered in decimal.
pub open spec fn zl_string(v: ZlVal) -> Seq<u8> {
    match v {
        ZlVal::Str(s) => s,
        ZlVal::Num(n) => decimal_of(n),
    }
}

/// The ziplist entry at `pos`: the position past it and its value.
pub open spec fn zl_entry_at(data: Seq<u8>, pos: int) -> Option<(int, ZlVal)> {
    if !(0 <= pos < data.len()) {
        None
    } else {
        let p1 = if data[pos] == 254 { pos + 5 } else { pos + 1 };
        if !(p1 < data.len()) {
            None
        } else {
            let flag = data[p1];
            let tag = flag / 64;
            if tag == 0 {
                let len = flag % 64;
                if p1 + 1 + len <= data.len() {
                    Some((p1 + 1 + len, ZlVal::Str(data.subrange(p1 + 1, p1 + 1 + len))))
                } else {
                    None
                }
            } else if tag == 1 {
                if p1 + 2 <= data.len() {
                    let len = 256 * (flag % 64) + data[p1 + 1];
                    if p1 + 2 + len <= data.len() {
                        Some((p1 + 2 + len, ZlVal::Str(data.subrange(p1 + 2, p1 + 2 + len))))
                    } else {
                        None
                    }
                } else {
                    None
                }
            } else if tag == 2 {
                if p1 + 5 <= data.len() {
                    let len = u32_be(data[p1 + 1], data[p1 + 2], data[p1 + 3], data[p1 + 4]);
                    if p1 + 5 + len <= data.len() {
                        Some((p1 + 5 + len, ZlVal::Str(data.subrange(p1 + 5, p1 + 5 + len))))
                    } else {
                        None
                    }
                } else {
                    None
                }
            } else {
                let nib = (flag / 16) % 16;
                if nib == 12 {
                    if p1 + 3 <= data.len() {
                        Some((p1 + 3, ZlVal::Num(i16_of(u16_le(data[p1 + 1], data[p1 + 2])))))
                    } else {
                        None
                    }
                } else if nib == 13 {
                    if p1 + 5 <= data.len() {
                        Some((p1 + 5, ZlVal::Num(i32_of(u32_le(data[p1 + 1], data[p1 + 2], data[p1 + 3], data[p1 + 4])))))
                    } else {
                        None
                    }
                } else if nib == 14 {
                    if p1 + 9 <= data.len() {
                        Some((p1 + 9, ZlVal::Num(i64_of(u64_le(data.subrange(p1 + 1, p1 + 9))))))
                    } else {
                        None
                    }
                } else {
                    let low = flag % 16;
                    if low == 0 {
                        if p1 + 4 <= data.len() {
                            let u = (data[p1 + 1] + 256 * data[p1 + 2] + 65536 * data[p1 + 3]) as nat;
                            Some((p1 + 4, ZlVal::Num(i24_of(u))))
                        } else {
                            None
                        }
                    } else if low == 14 {
                        if p1 + 2 <= data.len() {
                            Some((p1 + 2, ZlVal::Num(i8_of(data[p1 + 1]))))
                        } else {
                            None
                        }
                    } else {
                        Some((p1 + 1, ZlVal::Num(low - 1)))
                    }
                }
            }
        }
    }
}

/// The position past `n` consecutive ziplist entries.
pub open spec fn zl_entries_end(data: Seq<u8>, pos: int, n: nat) -> Option<int>
    decreases n,
{
    if n == 0 {
        Some(pos)
    } else {
        match zl_entry_at(data, pos) {
            None => None,
            Some((p, _)) => zl_entries_end(data, p, (n - 1) as nat),
        }
    }
}

/// The string forms of `n` consecutive ziplist entries.
pub open spec fn zl_entry_strings(data: Seq<u8>, pos: int, n: nat) -> Seq<Seq<u8>>
    decreases n,
{
    if n == 0 {
        Seq::empty()
    } else {
        match zl_entry_at(data, pos) {
            None => Seq::empty(),
            Some((p, v)) => seq![zl_string(v)] + zl_entry_strings(data, p, (n - 1) as nat),
        }
    }
}

/// A whole ziplist body: ten bytes of metadata, the declared number of
/// entries, then the 0xFF terminator. Yields the declared count and the
/// entries in string form.
pub open spec fn ziplist_ok(b: Seq<u8>) -> bool {
    &&& b.len() >= 10
    &&& match zl_entries_end(b, 10, u16_le(b[8], b[9])) {
        None => false,
        Some(t) => t < b.len() && b[t] == 255,
    }
}

/// The declared entry count of a ziplist body.
pub open spec fn ziplist_count(b: Seq<u8>) -> nat {
    u16_le(b[8], b[9])
}

/// The entries of a ziplist body, in string form.
pub open spec fn ziplist_strings(b: Seq<u8>) -> Seq<Seq<u8>> {
    zl_entry_strings(b, 10, ziplist_count(b))
}

/// True when the entries of a ziplist body parse but the byte after them is
/// not the 0xFF terminator: the reader answers `Corrupt` exactly here.
pub open spec fn ziplist_bad_terminator(b: Seq<u8>) -> bool {
    &&& b.len() >= 10
    &&& match zl_entries_end(b, 10, u16_le(b[8], b[9])) {
        None => false,
        Some(t) => t < b.len() && b[t] != 255,
    }
}

/// A quicklist payload: `n` consecutive blobs, each a well-formed ziplist;
/// the elements are the concatenation of the ziplists' entries.
pub open spec fn quicklist_elems(data: Seq<u8>, pos: int, n: nat) -> Option<(int, Seq<Seq<u8>>)>
    decreases n,
{
    if n == 0 {
        Some((pos, Seq::empty()))
    } else {
        match blob_at(data, pos) {
            None => None,
            Some((p, b)) => {
                if ziplist_ok(b) {
                    match quicklist_elems(data, p, (n - 1) as nat) {
                        None => None,
                        Some((e, rest)) => Some((e, ziplist_strings(b) + rest)),
                    }
                } else {
                    None
                }
            },
        }
    }
}

// ---------------------------------------------------------------------------
// Zipmap
// ---------------------------------------------------------------------------

/// A zipmap field: a one-byte length (253 switches to a four-byte length;
/// 254 and 255 are invalid), then the bytes.
pub open spec fn zm_field_at(b: Seq<u8>, pos: int) -> Option<(int, Seq<u8>)> {
    if !(0 <= pos < b.len()) {
        None
    } else {
        let l0 = b[pos];
        if l0 == 254 || l0 == 255 {
            None
        } else if l0 == 253 {
            if pos + 5 <= b.len() {
                let l = u32_le(b[pos + 1], b[pos + 2], b[pos + 3], b[pos + 4]);
                if pos + 5 + l <= b.len() {
                    Some((pos + 5 + l, b.subrange(pos + 5, pos + 5 + l)))
                } else {
                    None
                }
            } else {
                None
            }
        } else {
            if pos + 1 + l0 <= b.len() {
                Some((pos + 1 + l0, b.subrange(pos + 1, pos + 1 + l0)))
            } else {
                None
            }
        }
    }
}

/// A zipmap value: as a field, but with one free-space byte between the
/// leading length byte and everything that follows it.
pub open spec fn zm_value_at(b: Seq<u8>, pos: int) -> Option<(int, Seq<u8>)> {
    if !(pos + 2 <= b.len() && pos >= 0) {
        None
    } else {
        let l0 = b[pos];
        if l0 == 254 || l0 == 255 {
            None
        } else if l0 == 253 {
            if pos + 6 <= b.len() {
                let l = u32_le(b[pos + 2], b[pos + 3], b[pos + 4], b[pos + 5]);
                if pos + 6 + l <= b.len() {
                    Some((pos + 6 + l, b.subrange(pos + 6, pos + 6 + l)))
                } else {
                    None
                }
            } else {
                None
            }
        } else {
            if pos + 2 + l0 <= b.len() {
                Some((pos + 2 + l0, b.subrange(pos + 2, pos + 2 + l0)))
            } else {
                None
            }
        }
    }
}

/// The zipmap pair run starting at `pos`. `remaining` is the declared pair
/// count, or a negative value when the count byte said the count is unknown
/// and the run ends only at the 0xFF terminator. Yields the position past the
/// terminator and the pairs.
pub open spec fn zm_pairs(b: Seq<u8>, pos: int, remaining: int) -> Option<(int, Seq<(Seq<u8>, Seq<u8>)>)>
    decreases b.len() - pos,
{
    if !(0 <= pos < b.len()) {
        None
    } else if b[pos] == 255 {
        Some((pos + 1, Seq::empty()))
    } else {
        match zm_field_at(b, pos) {
            None => None,
            Some((fp, field)) => match zm_value_at(b, fp) {
                None => None,
                Some((vp, val)) => {
                    let rem2 = if remaining > 0 { remaining - 1 } else { remaining };
                    if rem2 == 0 {
                        if vp < b.len() && b[vp] == 255 {
                            Some((vp + 1, seq![(field, val)]))
                        } else {
                            None
                        }
                    } else {
                        if pos < vp <= b.len() {
                            match zm_pairs(b, vp, rem2) {
                                None => None,
                                Some((e, rest)) => Some((e, seq![(field, val)] + rest)),
                            }
                        } else {
                            None
                        }
                    }
                },
            },
        }
    }
}

/// True when a counted zipmap run parses through its pairs but the byte after
/// the last pair is not the 0xFF terminator.
pub open spec fn zm_bad_terminator(b: Seq<u8>, pos: int, remaining: int) -> bool
    decreases b.len() - pos,
{
    if !(0 <= pos < b.len()) {
        false
    } else if b[pos] == 255 {
        false
    } else {
        match zm_field_at(b, pos) {
            None => false,
            Some((fp, field)) => match zm_value_at(b, fp) {
                None => false,
                Some((vp, val)) => {
                    let rem2 = if remaining > 0 { remaining - 1 } else { remaining };
                    if rem2 == 0 {
                        vp < b.len() && b[vp] != 255
                    } else {
                        if pos < vp <= b.len() {
                            zm_bad_terminator(b, vp, rem2)
                        } else {
                            false
                        }
                    }
                },
            },
        }
    }
}

/// The declared pair count of a zipmap body: the first byte, where 254 and
/// 255 mean the count is unknown.
pub open spec fn zipmap_declared(b: Seq<u8>) -> int {
    if b[0] <= 253 { b[0] as int } else { -1 }
}

/// A whole zipmap body: the count byte, then the pair run.
pub open spec fn zipmap_ok(b: Seq<u8>) -> bool {
    b.len() >= 1 && zm_pairs(b, 1, zipmap_declared(b)) is Some
}

/// The pairs of a zipmap body.
pub open spec fn zipmap_pairs_of(b: Seq<u8>) -> Seq<(Seq<u8>, Seq<u8>)> {
    zm_pairs(b, 1, zipmap_declared(b)).unwrap().1
}

// ---------------------------------------------------------------------------
// Intset
// ---------------------------------------------------------------------------

/// The signed value of element `i` of an intset body with element width `w`.
pub open spec fn intset_val(b: Seq<u8>, w: nat, i: int) -> int {
    let p = 8 + w * i;
    if w == 2 {
        i16_of(u16_le(b[p], b[p + 1]))
    } else if w == 4 {
        i32_of(u32_le(b[p], b[p + 1], b[p + 2], b[p + 3]))
    } else {
        i64_of(u64_le(b.subrange(p, p + 8)))
    }
}

/// A whole intset body: element width (2, 4 or 8), element count, then the
/// packed little-endian elements.
pub open spec fn intset_ok(b: Seq<u8>) -> bool {
    &&& b.len() >= 8
    &&& {
        let w = u32_le(b[0], b[1], b[2], b[3]);
        let n = u32_le(b[4], b[5], b[6], b[7]);
        (w == 2 || w == 4 || w == 8) && 8 + w * n <= b.len()
    }
}

/// The declared element count of an intset body.
pub open spec fn intset_count(b: Seq<u8>) -> nat {
    u32_le(b[4], b[5], b[6], b[7])
}

/// The elements of an intset body, rendered in decimal.
pub open spec fn intset_strings(b: Seq<u8>) -> Seq<Seq<u8>> {
    let w = u32_le(b[0], b[1], b[2], b[3]);
    Seq::new(intset_count(b), |i: int| decimal_of(intset_val(b, w, i)))
}

// ---------------------------------------------------------------------------
// Whole value payloads (skip view) and the outer frame
// ---------------------------------------------------------------------------

/// True of the twelve value-type tags the decoder knows.
pub open spec fn known_tag(tag: u8) -> bool {
    tag == TYPE_STRING || tag == TYPE_LIST || tag == TYPE_SET || tag == TYPE_ZSET
        || tag == TYPE_HASH || tag == TYPE_ZSET_2 || tag == TYPE_HASH_ZIPMAP
        || tag == TYPE_LIST_ZIPLIST || tag == TYPE_SET_INTSET || tag == TYPE_ZSET_ZIPLIST
        || tag == TYPE_HASH_ZIPLIST || tag == TYPE_LIST_QUICKLIST
}

/// The position past the value payload with tag `tag` at `pos`, skip view.
/// `None` for an unknown tag or for bytes that do not parse.
#[verifier::opaque]
pub open spec fn object_end(data: Seq<u8>, pos: int, tag: u8) -> Option<int> {
    if tag == TYPE_STRING || tag == TYPE_HASH_ZIPMAP || tag == TYPE_LIST_ZIPLIST
        || tag == TYPE_SET_INTSET || tag == TYPE_ZSET_ZIPLIST || tag == TYPE_HASH_ZIPLIST {
        blob_end(data, pos)
    } else if tag == TYPE_LIST || tag == TYPE_SET || tag == TYPE_LIST_QUICKLIST {
        match length_at(data, pos) {
            None => None,
            Some((p, n, _)) => blobs_end(data, p, n),
        }
    } else if tag == TYPE_ZSET {
        match length_at(data, pos) {
            None => None,
            Some((p, n, _)) => zset_entries_end(data, p, n),
        }
    } else if tag == TYPE_HASH {
        match length_at(data, pos) {
            None => None,
            Some((p, n, _)) => blobs_end(data, p, 2 * n),
        }
    } else if tag == TYPE_ZSET_2 {
        match length_at(data, pos) {
            None => None,
            Some((p, n, _)) => zset2_entries_end(data, p, n),
        }
    } else {
        None
    }
}

/// The position past the value payload with tag `tag` at `pos`, read view:
/// where the decoding reader stops, including everything it decodes along
/// the way.
#[verifier::opaque]
pub open spec fn object_read_end(data: Seq<u8>, pos: int, tag: u8) -> Option<int> {
    if tag == TYPE_STRING {
        match blob_at(data, pos) {
            None => None,
            Some((p, _)) => Some(p),
        }
    } else if tag == TYPE_LIST_ZIPLIST {
        match blob_at(data, pos) {
            None => None,
            Some((p, b)) => if ziplist_ok(b) { Some(p) } else { None },
        }
    } else if tag == TYPE_ZSET_ZIPLIST || tag == TYPE_HASH_ZIPLIST {
        match blob_at(data, pos) {
            None => None,
            Some((p, b)) => if ziplist_ok(b) && ziplist_count(b) % 2 == 0 { Some(p) } else { None },
        }
    } else if tag == TYPE_HASH_ZIPMAP {
        match blob_at(data, pos) {
            None => None,
            Some((p, b)) => if zipmap_ok(b) { Some(p) } else { None },
        }
    } else if tag == TYPE_SET_INTSET {
        match blob_at(data, pos) {
            None => None,
            Some((p, b)) => if intset_ok(b) { Some(p) } else { None },
        }
    } else if tag == TYPE_LIST || tag == TYPE_SET {
        match length_at(data, pos) {
            None => None,
            Some((p, n, _)) => match blobs_at(data, p, n) {
                None => None,
                Some((e, _)) => Some(e),
            },
        }
    } else if tag == TYPE_LIST_QUICKLIST {
        match length_at(data, pos) {
            None => None,
            Some((p, n, _)) => match quicklist_elems(data, p, n) {
                None => None,
                Some((e, _)) => Some(e),
            },
        }
    } else if tag == TYPE_ZSET {
        match length_at(data, pos) {
            None => None,
            Some((p, n, _)) => match zset_entries_at(data, p, n) {
                None => None,
                Some((e, _)) => Some(e),
            },
        }
    } else if tag == TYPE_HASH {
        match length_at(data, pos) {
            None => None,
            Some((p, n, _)) => match blob_pairs_at(data, p, n) {
                None => None,
                Some((e, _)) => Some(e),
            },
        }
    } else if tag == TYPE_ZSET_2 {
        match length_at(data, pos) {
            None => None,
            Some((p, n, _)) => match zset2_entries_at(data, p, n) {
                None => None,
                Some((e, _)) => Some(e),
            },
        }
    } else {
        None
    }
}

/// The outer record loop from `pos` with current database `db`: the position
/// just past the EOF opcode and the database id selected when EOF arrives.
/// This function never looks at a filter, which is exactly why a filtering
/// parse and a skipping parse land on the same positions.
#[verifier::opaque]
pub open spec fn frame_at(data: Seq<u8>, pos: int, db: u32) -> Option<(int, u32)>
    decreases data.len() - pos,
{
    if !(0 <= pos < data.len()) {
        None
    } else {
        let op = data[pos];
        if op == OP_EOF {
            Some((pos + 1, db))
        } else if op == OP_SELECTDB {
            match length_at(data, pos + 1) {
                None => None,
                Some((p, n, _)) => {
                    if pos < p <= data.len() {
                        frame_at(data, p, n as u32)
                    } else {
                        None
                    }
                },
            }
        } else if op == OP_EXPIRETIME_MS {
            if pos + 9 <= data.len() {
                frame_at(data, pos + 9, db)
            } else {
                None
            }
        } else if op == OP_EXPIRETIME {
            if pos + 5 <= data.len() {
                frame_at(data, pos + 5, db)
            } else {
                None
            }
        } else if op == OP_RESIZEDB {
            match length_at(data, pos + 1) {
                None => None,
                Some((p1, _, _)) => match length_at(data, p1) {
                    None => None,
                    Some((p2, _, _)) => {
                        if pos < p2 <= data.len() {
                            frame_at(data, p2, db)
                        } else {
                            None
                        }
                    },
                },
            }
        } else if op == OP_AUX {
            match blob_end(data, pos + 1) {
                None => None,
                Some(p1) => match blob_end(data, p1) {
                    None => None,
                    Some(p2) => {
                        if pos < p2 <= data.len() {
                            frame_at(data, p2, db)
                        } else {
                            None
                        }
                    },
                },
            }
        } else {
            match blob_end(data, pos + 1) {
                None => None,
                Some(kp) => match object_end(data, kp, op) {
                    None => None,
                    Some(p) => {
                        if pos < p <= data.len() {
                            frame_at(data, p, db)
                        } else {
                            None
                        }
                    },
                },
            }
        }
    }
}

/// The outer record loop in the read view: where a parse that decodes every
/// record stops, and the database selected when EOF arrives. Success of a
/// whole parse over a sink that cannot fail is owed exactly where this is
/// defined.
#[verifier::opaque]
pub open spec fn frame_read_at(data: Seq<u8>, pos: int, db: u32) -> Option<(int, u32)>
    decreases data.len() - pos,
{
    if !(0 <= pos < data.len()) {
        None
    } else {
        let op = data[pos];
        if op == OP_EOF {
            Some((pos + 1, db))
        } else if op == OP_SELECTDB {
            match length_at(data, pos + 1) {
                None => None,
                Some((p, n, _)) => {
                    if pos < p <= data.len() {
                        frame_read_at(data, p, n as u32)
                    } else {
                        None
                    }
                },
            }
        } else if op == OP_EXPIRETIME_MS {
            if pos + 9 <= data.len() {
                frame_read_at(data, pos + 9, db)
            } else {
                None
            }
        } else if op == OP_EXPIRETIME {
            if pos + 5 <= data.len() {
                frame_read_at(data, pos + 5, db)
            } else {
                None
            }
        } else if op == OP_RESIZEDB {
            match length_at(data, pos + 1) {
                None => None,
                Some((p1, _, _)) => match length_at(data, p1) {
                    None => None,
                    Some((p2, _, _)) => {
                        if pos < p2 <= data.len() {
                            frame_read_at(data, p2, db)
                        } else {
                            None
                        }
                    },
                },
            }
        } else if op == OP_AUX {
            match blob_at(data, pos + 1) {
                None => None,
                Some((p1, _)) => match blob_at(data, p1) {
                    None => None,
                    Some((p2, _)) => {
                        if pos < p2 <= data.len() {
                            frame_read_at(data, p2, db)
                        } else {
                            None
                        }
                    },
                },
            }
        } else {
            match blob_at(data, pos + 1) {
                None => None,
                Some((kp, _)) => match object_read_end(data, kp, op) {
                    None => None,
                    Some(p) => {
                        if pos < p <= data.len() {
                            frame_read_at(data, p, db)
                        } else {
                            None
                        }
                    },
                },
            }
        }
    }
}

/// The four version digits at `pos`, or `None` if one is not an ASCII digit.
pub open spec fn version_of(data: Seq<u8>, pos: int) -> Option<nat> {
    if pos + 4 <= data.len() && pos >= 0
        && (forall|i: int| pos <= i < pos + 4 ==> 48 <= #[trigger] data[i] <= 57) {
        Some(((data[pos] - 48) * 1000 + (data[pos + 1] - 48) * 100
            + (data[pos + 2] - 48) * 10 + (data[pos + 3] - 48)) as nat)
    } else {
        None
    }
}

/// True when the five bytes at `pos` are the magic tag.
pub open spec fn magic_ok(data: Seq<u8>, pos: int) -> bool {
    pos >= 0 && pos + 5 <= data.len() && data.subrange(pos, pos + 5) == magic_bytes()
}

} // verus!
