//! The ziplist sub-format: a compact byte-packed sequence used by small
//! lists, hashes and sorted sets.

use vstd::prelude::*;
use crate::error::{RdbError, RdbResult};
use crate::model::{
    zl_entry_at, zl_entries_end, zl_entry_strings, zl_string, ZlVal,
    ziplist_ok, ziplist_count, ziplist_strings, ziplist_bad_terminator,
    i8_of, i16_of, i24_of, i32_of, i64_of, u16_le, u32_le,
};
use crate::reader::ByteReader;
use crate::decimal::i64_decimal;
use crate::events::views_of;

verus! {

/// One decoded ziplist entry: raw bytes or a packed signed integer.
#[derive(Clone, Debug, PartialEq)]
pub enum ZiplistEntry {
    /// A byte-string entry.
    String(Vec<u8>),
    /// An integer entry.
    Number(i64),
}

impl View for ZiplistEntry {
    type V = ZlVal;

    open spec fn view(&self) -> ZlVal {
        match self {
            ZiplistEntry::String(v) => ZlVal::Str(v@),
            ZiplistEntry::Number(n) => ZlVal::Num(*n as int),
        }
    }
}

/// Decode one ziplist entry: the back-pointer, the flag byte, and either an
/// inline length-prefixed string or a packed integer.
#[verifier::rlimit(30)]
pub fn read_ziplist_entry(input: &mut ByteReader) -> (r: RdbResult<ZiplistEntry>)
    ensures
        final(input).bytes() == old(input).bytes(),
        match zl_entry_at(old(input).bytes(), old(input).pos()) {
            Some(t) => r matches Ok(v) && v@ == t.1 && final(input).pos() == t.0,
            None => r == Err::<ZiplistEntry, RdbError>(RdbError::ShortRead),
        },
{
    let prev = match input.read_u8() {
        Ok(b) => b,
        Err(e) => return Err(e),
    };
    if prev == 254 {
        match input.skip(4) {
            Ok(()) => (),
            Err(e) => return Err(e),
        }
    }

    let flag = match input.read_u8() {
        Ok(b) => b,
        Err(e) => return Err(e),
    };
    let tag = flag / 64;

    if tag == 0 {
        let len = (flag % 64) as usize;
        let v = match input.read_exact(len) {
            Ok(v) => v,
            Err(e) => return Err(e),
        };
        Ok(ZiplistEntry::String(v))
    } else if tag == 1 {
        let b2 = match input.read_u8() {
            Ok(b) => b,
            Err(e) => return Err(e),
        };
        let len = 256 * (flag % 64) as usize + b2 as usize;
        let v = match input.read_exact(len) {
            Ok(v) => v,
            Err(e) => return Err(e),
        };
        Ok(ZiplistEntry::String(v))
    } else if tag == 2 {
        let len = match input.read_u32_be() {
            Ok(v) => v,
            Err(e) => return Err(e),
        };
        let v = match input.read_exact(len as usize) {
            Ok(v) => v,
            Err(e) => return Err(e),
        };
        Ok(ZiplistEntry::String(v))
    } else {
        let nib = (flag / 16) % 16;
        if nib == 12 {
            let u = match input.read_u16_le() {
                Ok(u) => u,
                Err(e) => return Err(e),
            };
            let v: i64 = if u >= 32768 { u as i64 - 65536 } else { u as i64 };
            assert(v as int == i16_of(u as nat));
            Ok(ZiplistEntry::Number(v))
        } else if nib == 13 {
            let u = match input.read_u32_le() {
                Ok(u) => u,
                Err(e) => return Err(e),
            };
            let v: i64 = if u >= 2147483648 { u as i64 - 4294967296 } else { u as i64 };
            assert(v as int == i32_of(u as nat));
            Ok(ZiplistEntry::Number(v))
        } else if nib == 14 {
            let u = match input.read_u64_le() {
                Ok(u) => u,
                Err(e) => return Err(e),
            };
            let v: i64 = if u >= 9223372036854775808 {
                if u == 9223372036854775808 {
                    i64::MIN
                } else {
                    let m = (18446744073709551615 - u) + 1;
                    -(m as i64)
                }
            } else {
                u as i64
            };
            assert(v as int == i64_of(u as nat));
            Ok(ZiplistEntry::Number(v))
        } else {
            assert(nib == 15);
            let low = flag % 16;
            if low == 0 {
                let bs = match input.read_exact(3) {
                    Ok(v) => v,
                    Err(e) => return Err(e),
                };
                let u: u32 = bs[0] as u32 + 256 * bs[1] as u32 + 65536 * bs[2] as u32;
                let v: i64 = if u >= 8388608 { u as i64 - 16777216 } else { u as i64 };
                assert(v as int == i24_of(u as nat));
                Ok(ZiplistEntry::Number(v))
            } else if low == 14 {
                let b = match input.read_u8() {
                    Ok(b) => b,
                    Err(e) => return Err(e),
                };
                let v: i64 = if b >= 128 { b as i64 - 256 } else { b as i64 };
                assert(v as int == i8_of(b));
                Ok(ZiplistEntry::Number(v))
            } else {
                Ok(ZiplistEntry::Number(low as i64 - 1))
            }
        }
    }
}

/// Decode one ziplist entry in string form: integers are rendered in decimal.
pub fn read_ziplist_entry_string(input: &mut ByteReader) -> (r: RdbResult<Vec<u8>>)
    ensures
        final(input).bytes() == old(input).bytes(),
        match zl_entry_at(old(input).bytes(), old(input).pos()) {
            Some(t) => r matches Ok(v) && v@ == zl_string(t.1) && final(input).pos() == t.0,
            None => r == Err::<Vec<u8>, RdbError>(RdbError::ShortRead),
        },
{
    let entry = match read_ziplist_entry(input) {
        Ok(v) => v,
        Err(e) => return Err(e),
    };
    match entry {
        ZiplistEntry::String(v) => Ok(v),
        ZiplistEntry::Number(n) => Ok(i64_decimal(n)),
    }
}

/// Decode a whole ziplist payload: ten bytes of metadata, the declared number
/// of entries in string form, then the mandatory 0xFF terminator. A payload
/// whose entries parse but whose trailing byte is not 0xFF is `Corrupt`.
#[verifier::loop_isolation(false)]
#[verifier::rlimit(50)]
pub fn parse_ziplist(b: Vec<u8>) -> (r: RdbResult<(u16, Vec<Vec<u8>>)>)
    ensures
        ziplist_ok(b@) ==> (r matches Ok(t) && {
            &&& t.0 as nat == ziplist_count(b@)
            &&& views_of(t.1@) == ziplist_strings(b@)
            &&& t.1@.len() == t.0
        }),
        !ziplist_ok(b@) ==> r is Err,
        ziplist_bad_terminator(b@) ==> r == Err::<(u16, Vec<Vec<u8>>), RdbError>(RdbError::Corrupt),
{
    let ghost bv = b@;
    let mut rd = ByteReader::new(b);
    let _zlbytes = match rd.read_u32_le() {
        Ok(v) => v,
        Err(e) => return Err(e),
    };
    let _zltail = match rd.read_u32_le() {
        Ok(v) => v,
        Err(e) => return Err(e),
    };
    let zllen = match rd.read_u16_le() {
        Ok(v) => v,
        Err(e) => return Err(e),
    };
    assert(zllen as nat == u16_le(bv[8], bv[9]));

    let mut elems: Vec<Vec<u8>> = Vec::new();
    let mut i: u16 = 0;
    while i < zllen
        invariant
            rd.bytes() == bv,
            i <= zllen,
            elems@.len() == i,
            match zl_entries_end(bv, rd.pos(), (zllen - i) as nat) {
                Some(t) => {
                    &&& zl_entries_end(bv, 10, zllen as nat) == Some(t)
                    &&& zl_entry_strings(bv, 10, zllen as nat) == views_of(elems@) + zl_entry_strings(bv, rd.pos(), (zllen - i) as nat)
                },
                None => zl_entries_end(bv, 10, zllen as nat) is None,
            },
        decreases zllen - i,
    {
        let ghost cur = rd.pos();
        let s = match read_ziplist_entry_string(&mut rd) {
            Ok(v) => v,
            Err(e) => {
                proof {
                    assert(zl_entries_end(bv, cur, (zllen - i) as nat) is None);
                }
                return Err(e);
            },
        };
        proof {
            let t = zl_entry_at(bv, cur).unwrap();
            assert(zl_entry_strings(bv, cur, (zllen - i) as nat) == seq![zl_string(t.1)] + zl_entry_strings(bv, rd.pos(), (zllen - i - 1) as nat));
            assert(views_of(elems@.push(s)) =~= views_of(elems@).push(s@));
            assert(views_of(elems@) + (seq![zl_string(t.1)] + zl_entry_strings(bv, rd.pos(), (zllen - i - 1) as nat))
                =~= views_of(elems@.push(s)) + zl_entry_strings(bv, rd.pos(), (zllen - i - 1) as nat));
        }
        elems.push(s);
        i = i + 1;
    }
    proof {
        assert(zl_entries_end(bv, rd.pos(), 0) == Some(rd.pos()));
        assert(zl_entry_strings(bv, rd.pos(), 0) == Seq::<Seq<u8>>::empty());
        assert(views_of(elems@) + Seq::<Seq<u8>>::empty() =~= views_of(elems@));
    }

    let last_byte = match rd.read_u8() {
        Ok(v) => v,
        Err(e) => return Err(e),
    };
    if last_byte != 255 {
        return Err(RdbError::Corrupt);
    }

    Ok((zllen, elems))
}

} // verus!
