//! Rendering packed integers as ASCII decimal byte strings.

use vstd::prelude::*;
use crate::model::{dec_digits, decimal_of};

verus! {

/// Append the decimal digits of `n`, most significant first.
fn push_digits(n: u64, out: &mut Vec<u8>)
    ensures
        final(out)@ == old(out)@ + dec_digits(n as nat),
    decreases n,
{
    if n < 10 {
        out.push(48 + n as u8);
        proof {
            assert(out@ =~= old(out)@ + dec_digits(n as nat));
        }
    } else {
        let ghost mid = out@ + dec_digits((n / 10) as nat);
        push_digits(n / 10, out);
        out.push(48 + (n % 10) as u8);
        proof {
            assert(out@ =~= old(out)@ + dec_digits(n as nat));
        }
    }
}

/// The decimal rendering of an unsigned value.
pub fn u64_decimal(n: u64) -> (r: Vec<u8>)
    ensures
        r@ == decimal_of(n as int),
{
    let mut out: Vec<u8> = Vec::new();
    push_digits(n, &mut out);
    proof {
        assert(out@ =~= decimal_of(n as int));
    }
    out
}

/// The decimal rendering of a signed value, minus sign included.
pub fn i64_decimal(v: i64) -> (r: Vec<u8>)
    ensures
        r@ == decimal_of(v as int),
{
    if v >= 0 {
        u64_decimal(v as u64)
    } else {
        let mag: u64 = ((-(v + 1)) as u64) + 1;
        assert(mag == -(v as int));
        let mut out: Vec<u8> = Vec::new();
        out.push(45);
        push_digits(mag, &mut out);
        proof {
            assert(out@ =~= decimal_of(v as int));
        }
        out
    }
}

} // verus!
