//! The zipmap sub-format: an older compact hash encoding with a pair-wise
//! layout and a one-byte free-space count before each value.

use vstd::prelude::*;
use crate::error::{RdbError, RdbResult};
use crate::model::{zm_field_at, zm_value_at, zm_pairs, zm_bad_terminator, zipmap_ok, zipmap_declared, zipmap_pairs_of};
use crate::reader::ByteReader;
use crate::events::pair_views;

verus! {

/// Decode one zipmap field: a one-byte length, where 253 switches to a
/// four-byte little-endian length and 254 or 255 are `Corrupt`.
fn read_zipmap_field(input: &mut ByteReader) -> (r: RdbResult<Vec<u8>>)
    ensures
        final(input).bytes() == old(input).bytes(),
        match zm_field_at(old(input).bytes(), old(input).pos()) {
            Some(t) => r matches Ok(v) && v@ == t.1 && final(input).pos() == t.0,
            None => {
                let data = old(input).bytes();
                let p = old(input).pos();
                &&& (0 <= p < data.len() && (data[p] == 254 || data[p] == 255)) ==> r == Err::<Vec<u8>, RdbError>(RdbError::Corrupt)
                &&& !(0 <= p < data.len() && (data[p] == 254 || data[p] == 255)) ==> r == Err::<Vec<u8>, RdbError>(RdbError::ShortRead)
            },
        },
{
    let l0 = match input.read_u8() {
        Ok(b) => b,
        Err(e) => return Err(e),
    };
    if l0 == 254 || l0 == 255 {
        return Err(RdbError::Corrupt);
    }
    let len: u32 = if l0 == 253 {
        match input.read_u32_le() {
            Ok(v) => v,
            Err(e) => return Err(e),
        }
    } else {
        l0 as u32
    };
    match input.read_exact(len as usize) {
        Ok(v) => Ok(v),
        Err(e) => Err(e),
    }
}

/// Decode one zipmap value: as a field, but with one free-space byte after
/// the leading length byte, read and discarded.
fn read_zipmap_value(input: &mut ByteReader) -> (r: RdbResult<Vec<u8>>)
    ensures
        final(input).bytes() == old(input).bytes(),
        match zm_value_at(old(input).bytes(), old(input).pos()) {
            Some(t) => r matches Ok(v) && v@ == t.1 && final(input).pos() == t.0,
            None => {
                let data = old(input).bytes();
                let p = old(input).pos();
                &&& (p >= 0 && p + 2 <= data.len() && (data[p] == 254 || data[p] == 255)) ==> r == Err::<Vec<u8>, RdbError>(RdbError::Corrupt)
                &&& !(p >= 0 && p + 2 <= data.len() && (data[p] == 254 || data[p] == 255)) ==> r == Err::<Vec<u8>, RdbError>(RdbError::ShortRead)
            },
        },
{
    let l0 = match input.read_u8() {
        Ok(b) => b,
        Err(e) => return Err(e),
    };
    let _free = match input.read_u8() {
        Ok(b) => b,
        Err(e) => return Err(e),
    };
    if l0 == 254 || l0 == 255 {
        return Err(RdbError::Corrupt);
    }
    let len: u32 = if l0 == 253 {
        match input.read_u32_le() {
            Ok(v) => v,
            Err(e) => return Err(e),
        }
    } else {
        l0 as u32
    };
    match input.read_exact(len as usize) {
        Ok(v) => Ok(v),
        Err(e) => Err(e),
    }
}

/// Decode a whole zipmap payload: the optimistic count byte, then field-value
/// pairs up to the 0xFF terminator. A counted run whose byte after the last
/// pair is not 0xFF is `Corrupt`.
#[verifier::loop_isolation(false)]
#[verifier::rlimit(100)]
pub fn parse_zipmap(b: Vec<u8>) -> (r: RdbResult<(u8, Vec<(Vec<u8>, Vec<u8>)>)>)
    ensures
        zipmap_ok(b@) ==> (r matches Ok(t) && {
            &&& t.0 == b@[0]
            &&& pair_views(t.1@) == zipmap_pairs_of(b@)
        }),
        !zipmap_ok(b@) ==> r is Err,
        (b@.len() >= 1 && zm_bad_terminator(b@, 1, zipmap_declared(b@))) ==> r == Err::<(u8, Vec<(Vec<u8>, Vec<u8>)>), RdbError>(RdbError::Corrupt),
{
    let ghost bv = b@;
    let mut rd = ByteReader::new(b);
    let zmlen = match rd.read_u8() {
        Ok(v) => v,
        Err(e) => return Err(e),
    };
    let ghost d0: int = zipmap_declared(bv);
    let mut remaining: i64 = if zmlen <= 253 { zmlen as i64 } else { -1 };
    assert(remaining as int == d0);

    let mut acc: Vec<(Vec<u8>, Vec<u8>)> = Vec::new();
    let mut done: bool = false;
    while !done
        invariant
            rd.bytes() == bv,
            rd.pos() <= bv.len(),
            !done ==> match zm_pairs(bv, rd.pos(), remaining as int) {
                Some(t) => zm_pairs(bv, 1, d0) == Some((t.0, pair_views(acc@) + t.1)),
                None => zm_pairs(bv, 1, d0) is None,
            },
            !done ==> zm_bad_terminator(bv, 1, d0) == zm_bad_terminator(bv, rd.pos(), remaining as int),
            done ==> zm_pairs(bv, 1, d0) == Some((rd.pos(), pair_views(acc@))),
            done ==> !zm_bad_terminator(bv, 1, d0),
        decreases bv.len() - rd.pos() + (if done { 0int } else { 1int }),
    {
        let ghost cur = rd.pos();
        let next_byte = match rd.read_u8() {
            Ok(v) => v,
            Err(e) => {
                proof {
                    assert(zm_pairs(bv, cur, remaining as int) is None);
                }
                return Err(e);
            },
        };
        if next_byte == 255 {
            proof {
                assert(zm_pairs(bv, cur, remaining as int) == Some((cur + 1, Seq::<(Seq<u8>, Seq<u8>)>::empty())));
                assert(pair_views(acc@) + Seq::<(Seq<u8>, Seq<u8>)>::empty() =~= pair_views(acc@));
                assert(!zm_bad_terminator(bv, cur, remaining as int));
            }
            done = true;
        } else {
            // The field length byte was just consumed to test for the
            // terminator; hand the cursor back before decoding the field.
            let rd2 = rd;
            rd = ByteReader { data: rd2.data, pos: rd2.pos - 1 };
            let field = match read_zipmap_field(&mut rd) {
                Ok(v) => v,
                Err(e) => {
                    proof {
                        assert(zm_field_at(bv, cur) is None);
                        assert(zm_pairs(bv, cur, remaining as int) is None);
                        assert(!zm_bad_terminator(bv, cur, remaining as int));
                    }
                    return Err(e);
                },
            };
            let ghost fp = rd.pos();
            let value = match read_zipmap_value(&mut rd) {
                Ok(v) => v,
                Err(e) => {
                    proof {
                        assert(zm_value_at(bv, fp) is None);
                        assert(zm_pairs(bv, cur, remaining as int) is None);
                        assert(!zm_bad_terminator(bv, cur, remaining as int));
                    }
                    return Err(e);
                },
            };
            let ghost vp = rd.pos();
            let ghost rem0: int = remaining as int;
            if remaining > 0 {
                remaining = remaining - 1;
            }
            proof {
                assert(remaining as int == (if rem0 > 0 { rem0 - 1 } else { rem0 }));
            }
            if remaining == 0 {
                let last_byte = match rd.read_u8() {
                    Ok(v) => v,
                    Err(e) => {
                        proof {
                            assert(zm_pairs(bv, cur, rem0) is None);
                            assert(!zm_bad_terminator(bv, cur, rem0));
                        }
                        return Err(e);
                    },
                };
                if last_byte != 255 {
                    proof {
                        assert(zm_pairs(bv, cur, rem0) is None);
                        assert(zm_bad_terminator(bv, cur, rem0));
                    }
                    return Err(RdbError::Corrupt);
                }
                proof {
                    assert(zm_pairs(bv, cur, rem0) == Some((rd.pos(), seq![(field@, value@)])));
                    assert(!zm_bad_terminator(bv, cur, rem0));
                    assert(pair_views(acc@.push((field, value))) =~= pair_views(acc@).push((field@, value@)));
                    assert(pair_views(acc@) + seq![(field@, value@)] =~= pair_views(acc@.push((field, value))));
                }
                acc.push((field, value));
                done = true;
            } else {
                proof {
                    let rem2: int = remaining as int;
                    match zm_pairs(bv, vp, rem2) {
                        Some(t2) => {
                            assert(zm_pairs(bv, cur, rem0) == Some((t2.0, seq![(field@, value@)] + t2.1)));
                            assert(pair_views(acc@.push((field, value))) =~= pair_views(acc@).push((field@, value@)));
                            assert(pair_views(acc@) + (seq![(field@, value@)] + t2.1)
                                =~= pair_views(acc@.push((field, value))) + t2.1);
                        },
                        None => {
                            assert(zm_pairs(bv, cur, rem0) is None);
                        },
                    }
                }
                acc.push((field, value));
            }
        }
    }
    Ok((zmlen, acc))
}

} // verus!
