//! The shared wire primitives: length fields, blobs, magic and version.

use vstd::prelude::*;
use crate::error::{RdbError, RdbResult, RdbOk};
use crate::model::{
    length_at, blob_at, blob_end, blob_corrupt, magic_ok, magic_bytes, version_of,
    i8_of, i16_of, i32_of, u16_le, u32_le,
    ENC_INT8, ENC_INT16, ENC_INT32, ENC_LZF, VERSION_MIN, VERSION_MAX,
};
use crate::reader::ByteReader;
use crate::decimal::i64_decimal;
use crate::lzf_ext::lzf_decompress;

verus! {

/// Read a length field: one byte whose top two bits select the layout, where
/// `11` marks an encoding code rather than a byte count.
pub fn read_length_with_encoding(input: &mut ByteReader) -> (r: RdbResult<(u32, bool)>)
    ensures
        final(input).bytes() == old(input).bytes(),
        match length_at(old(input).bytes(), old(input).pos()) {
            Some(t) => {
                &&& r matches Ok(x) && x.0 as nat == t.1 && x.1 == t.2
                &&& final(input).pos() == t.0
            },
            None => r == Err::<(u32, bool), RdbError>(RdbError::ShortRead),
        },
{
    let enc_type = match input.read_u8() {
        Ok(b) => b,
        Err(e) => return Err(e),
    };
    let tag = enc_type / 64;
    let low = enc_type % 64;
    if tag == 3 {
        Ok((low as u32, true))
    } else if tag == 0 {
        Ok((low as u32, false))
    } else if tag == 1 {
        let next_byte = match input.read_u8() {
            Ok(b) => b,
            Err(e) => return Err(e),
        };
        Ok((256 * low as u32 + next_byte as u32, false))
    } else {
        let v = match input.read_u32_be() {
            Ok(v) => v,
            Err(e) => return Err(e),
        };
        Ok((v, false))
    }
}

/// Read a length field, dropping the encoding flag.
pub fn read_length(input: &mut ByteReader) -> (r: RdbResult<u32>)
    ensures
        final(input).bytes() == old(input).bytes(),
        match length_at(old(input).bytes(), old(input).pos()) {
            Some(t) => r matches Ok(v) && v as nat == t.1 && final(input).pos() == t.0,
            None => r == Err::<u32, RdbError>(RdbError::ShortRead),
        },
{
    let (length, _) = match read_length_with_encoding(input) {
        Ok(t) => t,
        Err(e) => return Err(e),
    };
    Ok(length)
}

/// Check the five magic bytes that open a snapshot.
pub fn verify_magic(input: &mut ByteReader) -> (r: RdbOk)
    ensures
        final(input).bytes() == old(input).bytes(),
        magic_ok(old(input).bytes(), old(input).pos()) ==> {
            &&& r == Ok::<(), RdbError>(())
            &&& final(input).pos() == old(input).pos() + 5
        },
        old(input).pos() + 5 <= old(input).bytes().len() && !magic_ok(old(input).bytes(), old(input).pos())
            ==> (r == Err::<(), RdbError>(RdbError::InvalidMagic) && final(input).pos() == old(input).pos() + 5),
        !(old(input).pos() >= 0 && old(input).pos() + 5 <= old(input).bytes().len())
            ==> (r == Err::<(), RdbError>(RdbError::ShortRead) && final(input).pos() == old(input).pos()),
{
    let m = match input.read_exact(5) {
        Ok(v) => v,
        Err(e) => return Err(e),
    };
    if m[0] == 82 && m[1] == 69 && m[2] == 68 && m[3] == 73 && m[4] == 83 {
        proof {
            assert(m@ =~= magic_bytes());
        }
        Ok(())
    } else {
        proof {
            assert(m@ != magic_bytes());
        }
        Err(RdbError::InvalidMagic)
    }
}

/// Check the four ASCII version digits against the supported range.
pub fn verify_version(input: &mut ByteReader) -> (r: RdbOk)
    ensures
        final(input).bytes() == old(input).bytes(),
        match version_of(old(input).bytes(), old(input).pos()) {
            Some(v) => {
                &&& (VERSION_MIN <= v <= VERSION_MAX) ==> (r == Ok::<(), RdbError>(()) && final(input).pos() == old(input).pos() + 4)
                &&& !(VERSION_MIN <= v <= VERSION_MAX) ==> (r == Err::<(), RdbError>(RdbError::UnsupportedVersion(v as u32)) && final(input).pos() == old(input).pos() + 4)
            },
            None => {
                &&& (old(input).pos() >= 0 && old(input).pos() + 4 <= old(input).bytes().len()) ==> (r == Err::<(), RdbError>(RdbError::Corrupt) && final(input).pos() == old(input).pos() + 4)
                &&& !(old(input).pos() >= 0 && old(input).pos() + 4 <= old(input).bytes().len()) ==> (r == Err::<(), RdbError>(RdbError::ShortRead) && final(input).pos() == old(input).pos())
            },
        },
{
    let d = match input.read_exact(4) {
        Ok(v) => v,
        Err(e) => return Err(e),
    };
    let ghost data = old(input).bytes();
    let ghost p = old(input).pos();
    if 48 <= d[0] && d[0] <= 57 && 48 <= d[1] && d[1] <= 57
        && 48 <= d[2] && d[2] <= 57 && 48 <= d[3] && d[3] <= 57 {
        let version: u32 = (d[0] - 48) as u32 * 1000 + (d[1] - 48) as u32 * 100
            + (d[2] - 48) as u32 * 10 + (d[3] - 48) as u32;
        proof {
            assert(forall|i: int| p <= i < p + 4 ==> 48 <= #[trigger] data[i] <= 57) by {
                assert(data[p] == d@[0]);
                assert(data[p + 1] == d@[1]);
                assert(data[p + 2] == d@[2]);
                assert(data[p + 3] == d@[3]);
            }
            assert(version_of(data, p) == Some((version as nat)));
        }
        if VERSION_MIN <= version && version <= VERSION_MAX {
            Ok(())
        } else {
            Err(RdbError::UnsupportedVersion(version))
        }
    } else {
        proof {
            assert(data[p] == d@[0]);
            assert(data[p + 1] == d@[1]);
            assert(data[p + 2] == d@[2]);
            assert(data[p + 3] == d@[3]);
            assert(version_of(data, p) is None);
        }
        Err(RdbError::Corrupt)
    }
}

/// Read a blob: a verbatim run of bytes, the decimal rendering of a packed
/// integer, or an LZF payload decompressed to its declared length.
pub fn read_blob(input: &mut ByteReader) -> (r: RdbResult<Vec<u8>>)
    ensures
        final(input).bytes() == old(input).bytes(),
        match blob_at(old(input).bytes(), old(input).pos()) {
            Some(t) => r matches Ok(v) && v@ == t.1 && final(input).pos() == t.0,
            None => {
                &&& blob_corrupt(old(input).bytes(), old(input).pos()) ==> r == Err::<Vec<u8>, RdbError>(RdbError::Corrupt)
                &&& !blob_corrupt(old(input).bytes(), old(input).pos()) ==> r == Err::<Vec<u8>, RdbError>(RdbError::ShortRead)
            },
        },
{
    let (length, is_encoded) = match read_length_with_encoding(input) {
        Ok(t) => t,
        Err(e) => return Err(e),
    };

    if is_encoded {
        if length == ENC_INT8 {
            let b = match input.read_u8() {
                Ok(b) => b,
                Err(e) => return Err(e),
            };
            let v: i64 = if b >= 128 { b as i64 - 256 } else { b as i64 };
            assert(v == i8_of(b));
            Ok(i64_decimal(v))
        } else if length == ENC_INT16 {
            let u = match input.read_u16_le() {
                Ok(u) => u,
                Err(e) => return Err(e),
            };
            let v: i64 = if u >= 32768 { u as i64 - 65536 } else { u as i64 };
            Ok(i64_decimal(v))
        } else if length == ENC_INT32 {
            let u = match input.read_u32_le() {
                Ok(u) => u,
                Err(e) => return Err(e),
            };
            let v: i64 = if u >= 2147483648 { u as i64 - 4294967296 } else { u as i64 };
            Ok(i64_decimal(v))
        } else if length == ENC_LZF {
            let compressed_length = match read_length(input) {
                Ok(v) => v,
                Err(e) => return Err(e),
            };
            let real_length = match read_length(input) {
                Ok(v) => v,
                Err(e) => return Err(e),
            };
            let data = match input.read_exact(compressed_length as usize) {
                Ok(v) => v,
                Err(e) => return Err(e),
            };
            match lzf_decompress(&data, real_length as usize) {
                Ok(v) => {
                    if v.len() == real_length as usize {
                        Ok(v)
                    } else {
                        Err(RdbError::Corrupt)
                    }
                },
                Err(_) => Err(RdbError::Corrupt),
            }
        } else {
            Err(RdbError::Corrupt)
        }
    } else {
        let v = match input.read_exact(length as usize) {
            Ok(v) => v,
            Err(e) => return Err(e),
        };
        Ok(v)
    }
}

/// Advance the cursor past one blob without decoding it. For an LZF payload
/// this skips the compressed bytes; it agrees with `read_blob` on how far the
/// cursor moves whenever both succeed.
pub fn skip_blob(input: &mut ByteReader) -> (r: RdbOk)
    ensures
        final(input).bytes() == old(input).bytes(),
        match blob_end(old(input).bytes(), old(input).pos()) {
            Some(p) => r == Ok::<(), RdbError>(()) && final(input).pos() == p,
            None => r is Err,
        },
        match length_at(old(input).bytes(), old(input).pos()) {
            Some(t) => (t.2 && t.1 > 3) ==> r == Err::<(), RdbError>(RdbError::Corrupt),
            None => true,
        },
{
    let (length, is_encoded) = match read_length_with_encoding(input) {
        Ok(t) => t,
        Err(e) => return Err(e),
    };

    let skip_bytes: u32 = if is_encoded {
        if length == ENC_INT8 {
            1
        } else if length == ENC_INT16 {
            2
        } else if length == ENC_INT32 {
            4
        } else if length == ENC_LZF {
            let compressed_length = match read_length(input) {
                Ok(v) => v,
                Err(e) => return Err(e),
            };
            let _real_length = match read_length(input) {
                Ok(v) => v,
                Err(e) => return Err(e),
            };
            compressed_length
        } else {
            return Err(RdbError::Corrupt);
        }
    } else {
        length
    };

    input.skip(skip_bytes as usize)
}

} // verus!
