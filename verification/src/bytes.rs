//! Byte-level cursor over a borrowed slice, used by the byte-oriented framing
//! layer (header and frame records).

use vstd::prelude::*;

verus! {

use crate::parse::{Needed, ParseError};

/// Little-endian value of a byte sequence.
pub open spec fn le_bytes_val(s: Seq<u8>) -> nat
    decreases s.len(),
{
    if s.len() == 0 {
        0
    } else {
        s[0] as nat + 0x100 * le_bytes_val(s.skip(1))
    }
}

/// Byte-level cursor over a borrowed slice.
pub struct Reader<'a> {
    bytes: &'a [u8],
    pos: usize,
}

impl<'a> Reader<'a> {
    /// Bytes consumed so far.
    pub closed spec fn spec_pos(self) -> int {
        self.pos as int
    }

    /// The whole underlying slice.
    pub closed spec fn spec_data(self) -> Seq<u8> {
        self.bytes@
    }

    /// The bytes still readable.
    pub open spec fn remaining(self) -> Seq<u8> {
        self.spec_data().skip(self.spec_pos())
    }

    pub open spec fn wf(self) -> bool {
        0 <= self.spec_pos() <= self.spec_data().len()
    }

    pub fn new(bytes: &'a [u8]) -> (r: Self)
        ensures
            r.wf(),
            r.spec_data() == bytes@,
            r.spec_pos() == 0,
    {
        Reader { bytes, pos: 0 }
    }

    /// Count of bytes still readable.
    pub fn remaining_len(&self) -> (r: usize)
        requires
            self.wf(),
        ensures
            r == self.remaining().len(),
    {
        self.bytes.len() - self.pos
    }

    /// Take the next `len` bytes as a borrowed slice.
    pub fn bytes(&mut self, len: usize) -> (r: Result<&'a [u8], ParseError>)
        requires
            old(self).wf(),
        ensures
            final(self).wf(),
            final(self).spec_data() == old(self).spec_data(),
            match r {
                Ok(out) => {
                    &&& len <= old(self).remaining().len()
                    &&& out@ == old(self).remaining().take(len as int)
                    &&& final(self).spec_pos() == old(self).spec_pos() + len
                },
                Err(e) => {
                    &&& *final(self) == *old(self)
                    &&& len > old(self).remaining().len()
                    &&& e == (ParseError::Needed(
                        Needed::Bytes {
                            requested: len,
                            available: old(self).remaining().len() as usize,
                        },
                    ))
                },
            },
    {
        let avail = self.bytes.len() - self.pos;
        if len > avail {
            return Err(ParseError::Needed(Needed::Bytes { requested: len, available: avail }));
        }
        let out = vstd::slice::slice_subrange(self.bytes, self.pos, self.pos + len);
        proof {
            assert(out@ =~= old(self).remaining().take(len as int));
        }
        self.pos = self.pos + len;
        Ok(out)
    }

    /// Take the next byte.
    pub fn u8(&mut self) -> (r: Result<u8, ParseError>)
        requires
            old(self).wf(),
        ensures
            final(self).wf(),
            final(self).spec_data() == old(self).spec_data(),
            match r {
                Ok(v) => {
                    &&& old(self).remaining().len() >= 1
                    &&& v == old(self).remaining()[0]
                    &&& final(self).spec_pos() == old(self).spec_pos() + 1
                },
                Err(e) => {
                    &&& *final(self) == *old(self)
                    &&& old(self).remaining().len() == 0
                    &&& e == (ParseError::Needed(Needed::Bytes { requested: 1, available: 0 }))
                },
            },
    {
        let avail = self.bytes.len() - self.pos;
        if avail == 0 {
            return Err(ParseError::Needed(Needed::Bytes { requested: 1, available: 0 }));
        }
        let v = self.bytes[self.pos];
        self.pos = self.pos + 1;
        Ok(v)
    }

    /// Take a little-endian 24-bit value stored in three bytes.
    pub fn u24(&mut self) -> (r: Result<u32, ParseError>)
        requires
            old(self).wf(),
        ensures
            final(self).wf(),
            final(self).spec_data() == old(self).spec_data(),
            match r {
                Ok(v) => {
                    &&& old(self).remaining().len() >= 3
                    &&& v as nat == le_bytes_val(old(self).remaining().take(3))
                    &&& final(self).spec_pos() == old(self).spec_pos() + 3
                },
                Err(e) => {
                    &&& *final(self) == *old(self)
                    &&& old(self).remaining().len() < 3
                    &&& e == (ParseError::Needed(
                        Needed::Bytes {
                            requested: 3,
                            available: old(self).remaining().len() as usize,
                        },
                    ))
                },
            },
    {
        let ghost s = self.remaining();
        let avail = self.bytes.len() - self.pos;
        if avail < 3 {
            return Err(ParseError::Needed(Needed::Bytes { requested: 3, available: avail }));
        }
        let b0 = self.bytes[self.pos];
        let b1 = self.bytes[self.pos + 1];
        let b2 = self.bytes[self.pos + 2];
        self.pos = self.pos + 3;
        let v = (b0 as u32) | ((b1 as u32) << 8u32) | ((b2 as u32) << 16u32);
        proof {
            Self::lemma_le_4(s.take(3));
            assert((b0 as u32) | ((b1 as u32) << 8u32) | ((b2 as u32) << 16u32) == (b0 as u32)
                + 0x100 * (b1 as u32) + 0x10000 * (b2 as u32)) by (bit_vector);
        }
        Ok(v)
    }

    /// Take a little-endian 32-bit value.
    pub fn u32(&mut self) -> (r: Result<u32, ParseError>)
        requires
            old(self).wf(),
        ensures
            final(self).wf(),
            final(self).spec_data() == old(self).spec_data(),
            match r {
                Ok(v) => {
                    &&& old(self).remaining().len() >= 4
                    &&& v as nat == le_bytes_val(old(self).remaining().take(4))
                    &&& final(self).spec_pos() == old(self).spec_pos() + 4
                },
                Err(e) => {
                    &&& *final(self) == *old(self)
                    &&& old(self).remaining().len() < 4
                    &&& e == (ParseError::Needed(
                        Needed::Bytes {
                            requested: 4,
                            available: old(self).remaining().len() as usize,
                        },
                    ))
                },
            },
    {
        let ghost s = self.remaining();
        let avail = self.bytes.len() - self.pos;
        if avail < 4 {
            return Err(ParseError::Needed(Needed::Bytes { requested: 4, available: avail }));
        }
        let b0 = self.bytes[self.pos];
        let b1 = self.bytes[self.pos + 1];
        let b2 = self.bytes[self.pos + 2];
        let b3 = self.bytes[self.pos + 3];
        self.pos = self.pos + 4;
        let v = (b0 as u32) | ((b1 as u32) << 8u32) | ((b2 as u32) << 16u32) | ((b3 as u32)
            << 24u32);
        proof {
            Self::lemma_le_4(s.take(4));
            assert((b0 as u32) | ((b1 as u32) << 8u32) | ((b2 as u32) << 16u32) | ((b3 as u32)
                << 24u32) == (b0 as u32) + 0x100 * (b1 as u32) + 0x10000 * (b2 as u32) + 0x1000000
                * (b3 as u32)) by (bit_vector);
        }
        Ok(v)
    }

    /// Take a little-endian 32-bit value reinterpreted as signed.
    pub fn i32(&mut self) -> (r: Result<i32, ParseError>)
        requires
            old(self).wf(),
        ensures
            final(self).wf(),
            final(self).spec_data() == old(self).spec_data(),
            match r {
                Ok(v) => {
                    &&& old(self).remaining().len() >= 4
                    &&& v == (le_bytes_val(old(self).remaining().take(4)) as u32) as i32
                    &&& final(self).spec_pos() == old(self).spec_pos() + 4
                },
                Err(_) => {
                    &&& *final(self) == *old(self)
                    &&& old(self).remaining().len() < 4
                },
            },
    {
        match self.u32() {
            Ok(v) => Ok(v as i32),
            Err(e) => Err(e),
        }
    }

    /// The little-endian value of up to four bytes, spelled out.
    proof fn lemma_le_4(s: Seq<u8>)
        requires
            1 <= s.len() <= 4,
        ensures
            le_bytes_val(s) == s[0] as nat + if s.len() >= 2 {
                0x100 * s[1] as nat
            } else {
                0
            } + if s.len() >= 3 {
                0x10000 * s[2] as nat
            } else {
                0
            } + if s.len() >= 4 {
                0x1000000 * s[3] as nat
            } else {
                0
            },
    {
        reveal_with_fuel(le_bytes_val, 5);
        if s.len() == 1 {
            assert(s.skip(1) =~= Seq::<u8>::empty());
        } else if s.len() == 2 {
            assert(s.skip(1).skip(1) =~= Seq::<u8>::empty());
            assert(s.skip(1)[0] == s[1]);
        } else if s.len() == 3 {
            assert(s.skip(1).skip(1).skip(1) =~= Seq::<u8>::empty());
            assert(s.skip(1)[0] == s[1] && s.skip(1).skip(1)[0] == s[2]);
        } else {
            assert(s.skip(1).skip(1).skip(1).skip(1) =~= Seq::<u8>::empty());
            assert(s.skip(1)[0] == s[1] && s.skip(1).skip(1)[0] == s[2] && s.skip(1).skip(1).skip(
                1,
            )[0] == s[3]);
        }
    }
}

} // verus!
