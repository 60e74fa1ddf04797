//! A forward-only cursor over a byte buffer.

use vstd::prelude::*;
use crate::error::{RdbError, RdbResult};
use crate::model::{u16_le, u32_le, u32_be, u64_le};

verus! {

/// The input of the decoder: the snapshot bytes and a cursor that only moves
/// forward. Every read states exactly which bytes it hands out and how far it
/// advances; a read past the end answers `ShortRead` and moves nothing.
pub struct ByteReader {
    /// The underlying buffer.
    pub data: Vec<u8>,
    /// The cursor, in bytes from the start of the buffer.
    pub pos: usize,
}

impl ByteReader {
    /// The whole underlying buffer.
    pub open spec fn bytes(&self) -> Seq<u8> {
        self.data@
    }

    /// The cursor position.
    pub open spec fn pos(&self) -> int {
        self.pos as int
    }

    /// Wrap a buffer, cursor at the start.
    pub fn new(data: Vec<u8>) -> (r: ByteReader)
        ensures
            r.bytes() == data@,
            r.pos() == 0,
    {
        ByteReader { data, pos: 0 }
    }

    /// One byte.
    pub fn read_u8(&mut self) -> (r: RdbResult<u8>)
        ensures
            final(self).bytes() == old(self).bytes(),
            old(self).pos() < old(self).bytes().len() ==> {
                &&& r == Ok::<u8, RdbError>(old(self).bytes()[old(self).pos()])
                &&& final(self).pos() == old(self).pos() + 1
            },
            !(old(self).pos() < old(self).bytes().len()) ==> {
                &&& r == Err::<u8, RdbError>(RdbError::ShortRead)
                &&& final(self).pos() == old(self).pos()
            },
    {
        if self.pos < self.data.len() {
            let b = self.data[self.pos];
            self.pos = self.pos + 1;
            Ok(b)
        } else {
            Err(RdbError::ShortRead)
        }
    }

    /// Exactly `n` bytes.
    pub fn read_exact(&mut self, n: usize) -> (r: RdbResult<Vec<u8>>)
        ensures
            final(self).bytes() == old(self).bytes(),
            old(self).pos() + n <= old(self).bytes().len() ==> {
                &&& r matches Ok(v) && v@ == old(self).bytes().subrange(old(self).pos(), old(self).pos() + n)
                &&& final(self).pos() == old(self).pos() + n
            },
            !(old(self).pos() + n <= old(self).bytes().len()) ==> {
                &&& r == Err::<Vec<u8>, RdbError>(RdbError::ShortRead)
                &&& final(self).pos() == old(self).pos()
            },
    {
        if n <= self.data.len() && self.pos <= self.data.len() - n {
            let len = self.data.len();
            let mut v: Vec<u8> = Vec::new();
            let mut i: usize = 0;
            while i < n
                invariant
                    len == self.data@.len(),
                    self.pos + n <= len,
                    i <= n,
                    v@ == self.data@.subrange(self.pos as int, self.pos + i),
                decreases n - i,
            {
                v.push(self.data[self.pos + i]);
                i = i + 1;
                proof {
                    assert(v@ =~= self.data@.subrange(self.pos as int, self.pos + i));
                }
            }
            self.pos = self.pos + n;
            Ok(v)
        } else {
            Err(RdbError::ShortRead)
        }
    }

    /// Advance the cursor by `n` bytes without handing them out.
    pub fn skip(&mut self, n: usize) -> (r: RdbResult<()>)
        ensures
            final(self).bytes() == old(self).bytes(),
            old(self).pos() + n <= old(self).bytes().len() ==> {
                &&& r == Ok::<(), RdbError>(())
                &&& final(self).pos() == old(self).pos() + n
            },
            !(old(self).pos() + n <= old(self).bytes().len()) ==> {
                &&& r == Err::<(), RdbError>(RdbError::ShortRead)
                &&& final(self).pos() == old(self).pos()
            },
    {
        if n <= self.data.len() && self.pos <= self.data.len() - n {
            self.pos = self.pos + n;
            Ok(())
        } else {
            Err(RdbError::ShortRead)
        }
    }

    /// Everything from the cursor to the end of the buffer.
    pub fn read_to_end(&mut self) -> (r: Vec<u8>)
        ensures
            final(self).bytes() == old(self).bytes(),
            old(self).pos() <= old(self).bytes().len() ==> {
                &&& r@ == old(self).bytes().subrange(old(self).pos(), old(self).bytes().len() as int)
                &&& final(self).pos() == final(self).bytes().len()
            },
            !(old(self).pos() <= old(self).bytes().len()) ==> r@ == Seq::<u8>::empty() && final(self).pos() == old(self).pos(),
    {
        if self.pos <= self.data.len() {
            let n = self.data.len() - self.pos;
            match self.read_exact(n) {
                Ok(v) => v,
                Err(_) => {
                    proof {
                        assert(false);
                    }
                    Vec::new()
                },
            }
        } else {
            Vec::new()
        }
    }

    /// Two bytes as a little-endian unsigned integer.
    pub fn read_u16_le(&mut self) -> (r: RdbResult<u16>)
        ensures
            final(self).bytes() == old(self).bytes(),
            old(self).pos() + 2 <= old(self).bytes().len() ==> {
                &&& r matches Ok(v) && v == u16_le(old(self).bytes()[old(self).pos()], old(self).bytes()[old(self).pos() + 1])
                &&& final(self).pos() == old(self).pos() + 2
            },
            !(old(self).pos() + 2 <= old(self).bytes().len()) ==> r == Err::<u16, RdbError>(RdbError::ShortRead) && final(self).pos() == old(self).pos(),
    {
        if 2 <= self.data.len() && self.pos <= self.data.len() - 2 {
            let b0 = self.data[self.pos];
            let b1 = self.data[self.pos + 1];
            self.pos = self.pos + 2;
            Ok(b0 as u16 + 256 * b1 as u16)
        } else {
            Err(RdbError::ShortRead)
        }
    }

    /// Four bytes as a little-endian unsigned integer.
    pub fn read_u32_le(&mut self) -> (r: RdbResult<u32>)
        ensures
            final(self).bytes() == old(self).bytes(),
            old(self).pos() + 4 <= old(self).bytes().len() ==> {
                &&& r matches Ok(v) && v == u32_le(
                    old(self).bytes()[old(self).pos()],
                    old(self).bytes()[old(self).pos() + 1],
                    old(self).bytes()[old(self).pos() + 2],
                    old(self).bytes()[old(self).pos() + 3],
                )
                &&& final(self).pos() == old(self).pos() + 4
            },
            !(old(self).pos() + 4 <= old(self).bytes().len()) ==> r == Err::<u32, RdbError>(RdbError::ShortRead) && final(self).pos() == old(self).pos(),
    {
        if 4 <= self.data.len() && self.pos <= self.data.len() - 4 {
            let b0 = self.data[self.pos];
            let b1 = self.data[self.pos + 1];
            let b2 = self.data[self.pos + 2];
            let b3 = self.data[self.pos + 3];
            self.pos = self.pos + 4;
            Ok(b0 as u32 + 256 * b1 as u32 + 65536 * b2 as u32 + 16777216 * b3 as u32)
        } else {
            Err(RdbError::ShortRead)
        }
    }

    /// Four bytes as a big-endian unsigned integer.
    pub fn read_u32_be(&mut self) -> (r: RdbResult<u32>)
        ensures
            final(self).bytes() == old(self).bytes(),
            old(self).pos() + 4 <= old(self).bytes().len() ==> {
                &&& r matches Ok(v) && v == u32_be(
                    old(self).bytes()[old(self).pos()],
                    old(self).bytes()[old(self).pos() + 1],
                    old(self).bytes()[old(self).pos() + 2],
                    old(self).bytes()[old(self).pos() + 3],
                )
                &&& final(self).pos() == old(self).pos() + 4
            },
            !(old(self).pos() + 4 <= old(self).bytes().len()) ==> r == Err::<u32, RdbError>(RdbError::ShortRead) && final(self).pos() == old(self).pos(),
    {
        if 4 <= self.data.len() && self.pos <= self.data.len() - 4 {
            let b0 = self.data[self.pos];
            let b1 = self.data[self.pos + 1];
            let b2 = self.data[self.pos + 2];
            let b3 = self.data[self.pos + 3];
            self.pos = self.pos + 4;
            Ok(b3 as u32 + 256 * b2 as u32 + 65536 * b1 as u32 + 16777216 * b0 as u32)
        } else {
            Err(RdbError::ShortRead)
        }
    }

    /// Eight bytes as a little-endian unsigned integer.
    pub fn read_u64_le(&mut self) -> (r: RdbResult<u64>)
        ensures
            final(self).bytes() == old(self).bytes(),
            old(self).pos() + 8 <= old(self).bytes().len() ==> {
                &&& r matches Ok(v) && v == u64_le(old(self).bytes().subrange(old(self).pos(), old(self).pos() + 8))
                &&& final(self).pos() == old(self).pos() + 8
            },
            !(old(self).pos() + 8 <= old(self).bytes().len()) ==> r == Err::<u64, RdbError>(RdbError::ShortRead) && final(self).pos() == old(self).pos(),
    {
        if 8 <= self.data.len() && self.pos <= self.data.len() - 8 {
            let p = self.pos;
            let v = self.data[p] as u64
                + 256 * self.data[p + 1] as u64
                + 65536 * self.data[p + 2] as u64
                + 16777216 * self.data[p + 3] as u64
                + 4294967296 * self.data[p + 4] as u64
                + 1099511627776 * self.data[p + 5] as u64
                + 281474976710656 * self.data[p + 6] as u64
                + 72057594037927936 * self.data[p + 7] as u64;
            self.pos = self.pos + 8;
            proof {
                let s = old(self).bytes().subrange(old(self).pos(), old(self).pos() + 8);
                assert(s[0] == self.data@[p as int]);
                assert(s[1] == self.data@[p + 1]);
                assert(s[2] == self.data@[p + 2]);
                assert(s[3] == self.data@[p + 3]);
                assert(s[4] == self.data@[p + 4]);
                assert(s[5] == self.data@[p + 5]);
                assert(s[6] == self.data@[p + 6]);
                assert(s[7] == self.data@[p + 7]);
            }
            Ok(v)
        } else {
            Err(RdbError::ShortRead)
        }
    }
}

} // verus!
