//! The intset sub-format: a packed array of fixed-width signed integers.

use vstd::prelude::*;
use crate::error::{RdbError, RdbResult};
use crate::model::{intset_ok, intset_count, intset_strings, intset_val, decimal_of, i16_of, i32_of, i64_of, u32_le};
use crate::reader::ByteReader;
use crate::decimal::i64_decimal;
use crate::events::views_of;

verus! {

/// Decode a whole intset payload: an element width of 2, 4 or 8 bytes (any
/// other width is `Corrupt`), an element count, then the packed little-endian
/// elements, each rendered in decimal.
#[verifier::loop_isolation(false)]
#[verifier::rlimit(100)]
pub fn parse_intset(b: Vec<u8>) -> (r: RdbResult<(u32, Vec<Vec<u8>>)>)
    ensures
        intset_ok(b@) ==> (r matches Ok(t) && {
            &&& t.0 as nat == intset_count(b@)
            &&& views_of(t.1@) == intset_strings(b@)
            &&& t.1@.len() == t.0
        }),
        !intset_ok(b@) ==> r is Err,
        (b@.len() >= 8 && {
            let w = u32_le(b@[0], b@[1], b@[2], b@[3]);
            !(w == 2 || w == 4 || w == 8)
        }) ==> r == Err::<(u32, Vec<Vec<u8>>), RdbError>(RdbError::Corrupt),
{
    let ghost bv = b@;
    let mut rd = ByteReader::new(b);
    let byte_size = match rd.read_u32_le() {
        Ok(v) => v,
        Err(e) => return Err(e),
    };
    let count = match rd.read_u32_le() {
        Ok(v) => v,
        Err(e) => return Err(e),
    };
    if !(byte_size == 2 || byte_size == 4 || byte_size == 8) {
        return Err(RdbError::Corrupt);
    }

    let ghost w = byte_size as nat;
    let mut acc: Vec<Vec<u8>> = Vec::new();
    let mut i: u32 = 0;
    while i < count
        invariant
            rd.bytes() == bv,
            byte_size == 2 || byte_size == 4 || byte_size == 8,
            w == byte_size as nat,
            i <= count,
            acc@.len() == i,
            rd.pos() == 8 + w * i,
            rd.pos() <= bv.len(),
            forall|j: int| 0 <= j < i ==> #[trigger] acc@[j]@ == decimal_of(intset_val(bv, w, j)),
        decreases count - i,
    {
        let ghost cur = rd.pos();
        let v: i64 = if byte_size == 2 {
            let u = match rd.read_u16_le() {
                Ok(u) => u,
                Err(e) => {
                    proof {
                        assert(8 + w * (i + 1) == 8 + w * i + w) by (nonlinear_arith);
                        assert(8 + w * (i + 1) <= 8 + w * count) by (nonlinear_arith)
                            requires i + 1 <= count, w >= 0;
                        assert(!intset_ok(bv));
                    }
                    return Err(e);
                },
            };
            let v: i64 = if u >= 32768 { u as i64 - 65536 } else { u as i64 };
            assert(v as int == i16_of(u as nat));
            v
        } else if byte_size == 4 {
            let u = match rd.read_u32_le() {
                Ok(u) => u,
                Err(e) => {
                    proof {
                        assert(8 + w * (i + 1) == 8 + w * i + w) by (nonlinear_arith);
                        assert(8 + w * (i + 1) <= 8 + w * count) by (nonlinear_arith)
                            requires i + 1 <= count, w >= 0;
                        assert(!intset_ok(bv));
                    }
                    return Err(e);
                },
            };
            let v: i64 = if u >= 2147483648 { u as i64 - 4294967296 } else { u as i64 };
            assert(v as int == i32_of(u as nat));
            v
        } else {
            let u = match rd.read_u64_le() {
                Ok(u) => u,
                Err(e) => {
                    proof {
                        assert(8 + w * (i + 1) == 8 + w * i + w) by (nonlinear_arith);
                        assert(8 + w * (i + 1) <= 8 + w * count) by (nonlinear_arith)
                            requires i + 1 <= count, w >= 0;
                        assert(!intset_ok(bv));
                    }
                    return Err(e);
                },
            };
            let v: i64 = if u >= 9223372036854775808 {
                if u == 9223372036854775808 {
                    i64::MIN
                } else {
                    let m = (18446744073709551615 - u) + 1;
                    -(m as i64)
                }
            } else {
                u as i64
            };
            assert(v as int == i64_of(u as nat));
            v
        };
        proof {
            assert(v as int == intset_val(bv, w, i as int));
            assert(8 + w * (i + 1) == 8 + w * i + w) by (nonlinear_arith);
        }
        let s = i64_decimal(v);
        acc.push(s);
        i = i + 1;
    }
    proof {
        assert(8 + w * count <= bv.len()) by {
            assert(rd.pos() <= bv.len());
        }
        assert(intset_ok(bv));
        assert(views_of(acc@) =~= intset_strings(bv));
    }
    Ok((count, acc))
}

} // verus!
