//! A bounds-checked sequential reader over a byte slice.
//!
//! All multi-byte reads are little-endian. A read of `n` bytes when fewer
//! than `n` remain fails with [`Error::Read`] carrying the position at which
//! the read was attempted, and leaves the cursor unchanged.

use vstd::prelude::*;

use crate::Error;

verus! {

/// The little-endian 16-bit value stored at `s[i..i+2]`.
pub open spec fn le16_at(s: Seq<u8>, i: int) -> int {
    s[i] + 0x100 * s[i + 1]
}

/// The little-endian 32-bit value stored at `s[i..i+4]`.
pub open spec fn le32_at(s: Seq<u8>, i: int) -> int {
    s[i] + 0x100 * s[i + 1] + 0x10000 * s[i + 2] + 0x1000000 * s[i + 3]
}

/// An immutable byte slice plus a monotonically increasing position.
pub struct Reader<'a> {
    pub data: &'a [u8],
    pub pos: usize,
}

impl<'a> Reader<'a> {
    /// The bytes this cursor reads from.
    pub open spec fn data_seq(&self) -> Seq<u8> {
        self.data@
    }

    /// The current position, as a mathematical integer.
    pub open spec fn position(&self) -> int {
        self.pos as int
    }

    /// The position never exceeds the input length.
    pub open spec fn wf(&self) -> bool {
        self.pos <= self.data@.len()
    }

    pub fn new(data: &'a [u8]) -> (r: Reader<'a>)
        ensures
            r.wf(),
            r.data_seq() == data@,
            r.position() == 0,
    {
        Reader { data, pos: 0 }
    }

    pub fn pos(&self) -> (r: usize)
        ensures
            r == self.position(),
    {
        self.pos
    }

    pub fn len(&self) -> (r: usize)
        requires
            self.wf(),
        ensures
            r == self.data_seq().len(),
    {
        self.data.len()
    }

    pub fn is_empty(&self) -> (r: bool)
        requires
            self.wf(),
        ensures
            r == (self.position() == self.data_seq().len()),
    {
        self.pos == self.data.len()
    }

    /// The bytes from the current position to the end of the input.
    pub fn remaining(&self) -> (r: &'a [u8])
        requires
            self.wf(),
        ensures
            r@ == self.data_seq().skip(self.position()),
    {
        let r = vstd::slice::slice_subrange(self.data, self.pos, self.data.len());
        proof {
            assert(r@ =~= self.data_seq().skip(self.position()));
        }
        r
    }

    /// Reads one byte.
    pub fn u8(&mut self) -> (r: Result<u8, Error>)
        requires
            old(self).wf(),
        ensures
            final(self).wf(),
            final(self).data_seq() == old(self).data_seq(),
            if old(self).position() + 1 <= old(self).data_seq().len() {
                r == Ok::<u8, Error>(old(self).data_seq()[old(self).position()])
                    && final(self).position() == old(self).position() + 1
            } else {
                r == Err::<u8, Error>(Error::Read { pos: old(self).pos })
                    && *final(self) == *old(self)
            },
    {
        if self.pos < self.data.len() {
            let b = self.data[self.pos];
            self.pos = self.pos + 1;
            Ok(b)
        } else {
            Err(Error::Read { pos: self.pos })
        }
    }

    /// Reads a little-endian 16-bit integer.
    pub fn u16(&mut self) -> (r: Result<u16, Error>)
        requires
            old(self).wf(),
        ensures
            final(self).wf(),
            final(self).data_seq() == old(self).data_seq(),
            if old(self).position() + 2 <= old(self).data_seq().len() {
                r == Ok::<u16, Error>(le16_at(old(self).data_seq(), old(self).position()) as u16)
                    && le16_at(old(self).data_seq(), old(self).position()) <= 0xFFFF
                    && final(self).position() == old(self).position() + 2
            } else {
                r == Err::<u16, Error>(Error::Read { pos: old(self).pos })
                    && *final(self) == *old(self)
            },
    {
        if self.data.len() - self.pos >= 2 {
            let a = self.data[self.pos] as u16;
            let b = self.data[self.pos + 1] as u16;
            self.pos = self.pos + 2;
            Ok(a + 0x100 * b)
        } else {
            Err(Error::Read { pos: self.pos })
        }
    }

    /// Reads a little-endian 32-bit integer.
    pub fn u32(&mut self) -> (r: Result<u32, Error>)
        requires
            old(self).wf(),
        ensures
            final(self).wf(),
            final(self).data_seq() == old(self).data_seq(),
            if old(self).position() + 4 <= old(self).data_seq().len() {
                r == Ok::<u32, Error>(le32_at(old(self).data_seq(), old(self).position()) as u32)
                    && le32_at(old(self).data_seq(), old(self).position()) <= 0xFFFF_FFFF
                    && final(self).position() == old(self).position() + 4
            } else {
                r == Err::<u32, Error>(Error::Read { pos: old(self).pos })
                    && *final(self) == *old(self)
            },
    {
        if self.data.len() - self.pos >= 4 {
            let a = self.data[self.pos] as u32;
            let b = self.data[self.pos + 1] as u32;
            let c = self.data[self.pos + 2] as u32;
            let d = self.data[self.pos + 3] as u32;
            self.pos = self.pos + 4;
            Ok(a + 0x100 * b + 0x10000 * c + 0x1000000 * d)
        } else {
            Err(Error::Read { pos: self.pos })
        }
    }

    /// Advances by `n` bytes and returns them.
    pub fn slice(&mut self, n: usize) -> (r: Result<&'a [u8], Error>)
        requires
            old(self).wf(),
        ensures
            final(self).wf(),
            final(self).data_seq() == old(self).data_seq(),
            if old(self).position() + n <= old(self).data_seq().len() {
                r matches Ok(s)
                    && s@ == old(self).data_seq().subrange(
                        old(self).position(),
                        old(self).position() + n,
                    )
                    && final(self).position() == old(self).position() + n
            } else {
                r == Err::<&'a [u8], Error>(Error::Read { pos: old(self).pos })
                    && *final(self) == *old(self)
            },
    {
        if n <= self.data.len() - self.pos {
            let s = vstd::slice::slice_subrange(self.data, self.pos, self.pos + n);
            self.pos = self.pos + n;
            Ok(s)
        } else {
            Err(Error::Read { pos: self.pos })
        }
    }

    /// Peeks a little-endian 32-bit value; advances only when it equals
    /// `expected`, and reports whether it did. Fewer than four remaining
    /// bytes count as a mismatch.
    pub fn check_u32(&mut self, expected: u32) -> (r: bool)
        requires
            old(self).wf(),
        ensures
            final(self).wf(),
            final(self).data_seq() == old(self).data_seq(),
            r == (old(self).position() + 4 <= old(self).data_seq().len()
                && le32_at(old(self).data_seq(), old(self).position()) == expected),
            if r {
                final(self).position() == old(self).position() + 4
            } else {
                *final(self) == *old(self)
            },
    {
        if self.data.len() - self.pos >= 4 {
            let a = self.data[self.pos] as u32;
            let b = self.data[self.pos + 1] as u32;
            let c = self.data[self.pos + 2] as u32;
            let d = self.data[self.pos + 3] as u32;
            let v = a + 0x100 * b + 0x10000 * c + 0x1000000 * d;
            if v == expected {
                self.pos = self.pos + 4;
                return true;
            }
        }
        false
    }
}

} // verus!
