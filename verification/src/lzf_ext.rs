//! The one outside call of the decoder: LZF decompression.

use vstd::prelude::*;
use crate::error::RdbError;

verus! {

/// The bytes that an LZF payload decompresses to, or `None` when the payload
/// is not well-formed LZF. What the bytes are is known only to the
/// decompressor; contracts downstream speak of this name.
pub uninterp spec fn lzf_decoded(data: Seq<u8>) -> Option<Seq<u8>>;

/// Relies on lzf::decompress. Its output is written from the compressed bytes
/// alone; the capacity argument is only a bound that the output must fit in,
/// so the call succeeds exactly when the payload is well-formed and its
/// decompressed form fits.
#[verifier::external_body]
pub fn lzf_decompress(data: &Vec<u8>, cap: usize) -> (r: Result<Vec<u8>, RdbError>)
    ensures
        r matches Ok(v) ==> lzf_decoded(data@) == Some(v@) && v@.len() <= cap,
        r is Err ==> !(lzf_decoded(data@) matches Some(d) && d.len() <= cap),
{
    match lzf::decompress(data.as_slice(), cap) {
        Ok(v) => Ok(v),
        Err(_) => Err(RdbError::Corrupt),
    }
}

} // verus!
