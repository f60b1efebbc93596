//! Bit-level reader over a byte slice, and the owned `Bits` blob that carries
//! nested payloads between parsing layers.
//!
//! The reader keeps a 32-bit shift register pre-filled from the slice in
//! little-endian order; reads consume the register from its low end. Its
//! behaviour is specified against [`crate::bitseq::stream_bits`]: the view
//! [`BitReader::remaining`] is the sequence of bits still readable, and every
//! read consumes an exact prefix of it.

use vstd::prelude::*;

verus! {

use vstd::arithmetic::power2::{pow2, lemma_pow2_adds, lemma_pow2_pos, lemma2_to64};
use vstd::arithmetic::div_mod::lemma_fundamental_div_mod_converse;
use vstd::bits::{
    lemma_u32_shl_is_mul,
    lemma_u32_shr_is_div,
    lemma_u32_low_bits_mask_is_mod,
    low_bits_mask,
};
use crate::bitseq::{
    stream_bits,
    bits_val,
    group8,
    lemma_bits_val_bound,
    lemma_bits_val_split,
    lemma_bits_val_single,
    lemma_stream_bits_skip,
    lemma_stream_group8,
};

/// Layout of a Source "common var": a two-bit selector chooses a follow-up
/// field of 4, 8, 12 or 32 bits.
pub open spec fn var_width(sel: nat) -> int {
    if sel == 0 {
        4
    } else if sel == 1 {
        8
    } else if sel == 2 {
        12
    } else {
        32
    }
}

/// Decode of a "common var" from the front of a bit stream: the value and the
/// count of bits consumed, or nothing when the stream is too short.
pub open spec fn var_decode(s: Seq<bool>) -> Option<(nat, int)> {
    if s.len() < 2 {
        None
    } else {
        let w = var_width(bits_val(s.take(2)));
        if s.len() < 2 + w {
            None
        } else {
            Some((bits_val(s.subrange(2, 2 + w)), 2 + w))
        }
    }
}

/// Decode of a variable-length u32 (seven data bits per byte, high bit
/// continues, at most five bytes) starting at group `idx`: the value
/// contribution from here on and the count of bytes consumed.
pub open spec fn var_u32_rec(s: Seq<bool>, idx: int) -> Option<(u32, int)>
    decreases 5 - idx,
{
    if idx >= 5 {
        Some((0, 0))
    } else if s.len() < 8 {
        None
    } else {
        let b = bits_val(s.take(8)) as u8;
        let part = ((b & 0x7f) as u32) << ((7 * idx) as u32);
        if b < 128 {
            Some((part, 1))
        } else {
            match var_u32_rec(s.skip(8), idx + 1) {
                Some(r) => Some((part | r.0, r.1 + 1)),
                None => None,
            }
        }
    }
}

/// Decode of a variable-length u32 from the front of a bit stream.
pub open spec fn var_u32_decode(s: Seq<bool>) -> Option<(u32, int)> {
    var_u32_rec(s, 0)
}

/// Count of bytes before the null terminator of a C string at the front of a
/// bit stream, or nothing when no terminator arrives.
pub open spec fn cstr_len(s: Seq<bool>) -> Option<int>
    decreases s.len(),
{
    if s.len() < 8 {
        None
    } else if bits_val(s.take(8)) == 0 {
        Some(0)
    } else {
        match cstr_len(s.skip(8)) {
            Some(k) => Some(k + 1),
            None => None,
        }
    }
}

/// A C string of `k` bytes occupies `8 * (k + 1)` bits of the stream.
pub proof fn lemma_cstr_len_bound(s: Seq<bool>)
    ensures
        cstr_len(s) matches Some(k) ==> 0 <= k && 8 * (k + 1) <= s.len(),
    decreases s.len(),
{
    if s.len() >= 8 && bits_val(s.take(8)) != 0 {
        lemma_cstr_len_bound(s.skip(8));
    }
}

/// The bytes of a C string at the front of a bit stream (empty when no
/// terminator arrives).
pub open spec fn cstr_bytes(s: Seq<bool>) -> Seq<u8> {
    Seq::new(
        match cstr_len(s) {
            Some(k) => k as nat,
            None => 0,
        },
        |i: int| group8(s, i),
    )
}

/// A presence-flagged field: one bit, then `w` more bits when it is set.
pub open spec fn flagged_decode(s: Seq<bool>, w: int) -> Option<(Option<u32>, int)> {
    if s.len() < 1 {
        None
    } else if !s[0] {
        Some((None::<u32>, 1int))
    } else if s.len() < 1 + w {
        None
    } else {
        Some((Some(bits_val(s.subrange(1, 1 + w)) as u32), 1 + w))
    }
}

/// A decoded Source coordinate: sign, integer part, and a fractional
/// numerator in units of 1/32.
#[derive(Debug, Clone, Copy, PartialEq, Eq, Structural)]
pub struct Coord {
    pub negative: bool,
    /// Integer magnitude; zero, or `1..=16384` when present on the wire.
    pub integer: u16,
    /// Fractional numerator in units of 1/32, `0..=31`.
    pub fraction: u8,
}

impl Coord {
    /// The coordinate's value in units of 1/32.
    pub open spec fn numer_32nds(self) -> int {
        let m = 32 * self.integer + self.fraction;
        if self.negative {
            -m
        } else {
            m as int
        }
    }

    /// The coordinate's value in units of 1/32, as a machine integer.
    pub fn value_32nds(&self) -> (r: i32)
        ensures
            r == self.numer_32nds(),
    {
        let m = self.integer as i32 * 32 + self.fraction as i32;
        if self.negative {
            -m
        } else {
            m
        }
    }
}

/// Decode of a Source coordinate from the front of a bit stream: the value
/// and the count of bits consumed. Two presence flags; when either is set, a
/// sign bit, then a 14-bit integer part (wire value plus one) and/or a 5-bit
/// fractional numerator.
pub open spec fn coord_decode(s: Seq<bool>) -> Option<(Coord, int)> {
    if s.len() < 2 {
        None
    } else {
        let integral = s[0];
        let fractional = s[1];
        if !integral && !fractional {
            Some((Coord { negative: false, integer: 0, fraction: 0 }, 2))
        } else {
            let n = 3 + (if integral {
                14int
            } else {
                0int
            }) + (if fractional {
                5int
            } else {
                0int
            });
            if s.len() < n {
                None
            } else {
                let foff = if integral {
                    17int
                } else {
                    3int
                };
                Some(
                    (
                        Coord {
                            negative: s[2],
                            integer: if integral {
                                (bits_val(s.subrange(3, 17)) + 1) as u16
                            } else {
                                0u16
                            },
                            fraction: if fractional {
                                bits_val(s.subrange(foff, foff + 5)) as u8
                            } else {
                                0u8
                            },
                        },
                        n,
                    ),
                )
            }
        }
    }
}

/// Decode of a compact vector: three presence flags, then a coordinate for
/// each set flag; absent components are zero.
pub open spec fn vec3_decode(s: Seq<bool>) -> Option<((Coord, Coord, Coord), int)> {
    let zero = Coord { negative: false, integer: 0, fraction: 0 };
    if s.len() < 3 {
        None
    } else {
        let cx = if s[0] {
            coord_decode(s.skip(3))
        } else {
            Some((zero, 0))
        };
        match cx {
            None => None,
            Some((x, nx)) => {
                let cy = if s[1] {
                    coord_decode(s.skip(3 + nx))
                } else {
                    Some((zero, 0))
                };
                match cy {
                    None => None,
                    Some((y, ny)) => {
                        let cz = if s[2] {
                            coord_decode(s.skip(3 + nx + ny))
                        } else {
                            Some((zero, 0))
                        };
                        match cz {
                            None => None,
                            Some((z, nz)) => Some(((x, y, z), 3 + nx + ny + nz)),
                        }
                    },
                }
            },
        }
    }
}

/// Error produced when fewer bits are available than an operation needs.
#[derive(Debug, Clone, Copy, PartialEq, Eq, Structural)]
pub struct InsufficientBits {
    pub requested: usize,
    pub available: usize,
}

/// Error produced while reading a null-terminated string from a bit stream.
#[derive(Debug, Clone, PartialEq, Eq, Structural)]
pub enum ReadStringError {
    InsufficientBits(InsufficientBits),
    Utf8,
}

/// Bit-level reader over a borrowed byte slice.
pub struct BitReader<'i> {
    input: &'i [u8],
    /// Bytes already moved from the slice into the register.
    pos: usize,
    /// Shift register; its low `available` bits are the next bits to read.
    bits: u32,
    /// Bits left in the register. Kept above zero while input remains.
    available: u8,
}

impl<'i> BitReader<'i> {
    /// Bits handed out so far.
    pub closed spec fn consumed_bits(self) -> int {
        8 * self.pos - self.available
    }

    /// The bits still readable, in reading order.
    pub closed spec fn remaining(self) -> Seq<bool> {
        stream_bits(self.input@).skip(self.consumed_bits())
    }

    /// Bits servable from the register alone.
    pub closed spec fn spec_available(self) -> u8 {
        self.available
    }

    /// Internal consistency, except that the register may be drained while
    /// input remains (the state between a read and the following refill).
    pub closed spec fn wf_core(self) -> bool {
        &&& self.pos <= self.input@.len()
        &&& 8 * self.input@.len() + 8 <= usize::MAX
        &&& self.available <= 32
        &&& self.available as int <= 8 * self.pos
        &&& self.bits as nat == bits_val(self.remaining().take(self.available as int))
    }

    /// Internal consistency: the register is empty only when the slice is
    /// exhausted.
    pub closed spec fn wf(self) -> bool {
        &&& self.wf_core()
        &&& (self.available == 0 ==> self.pos == self.input@.len())
    }

    pub fn new(input: &'i [u8]) -> (r: Self)
        requires
            8 * input@.len() + 8 <= usize::MAX,
        ensures
            r.wf(),
            r.remaining() == stream_bits(input@),
            r.spec_available() as int == if 8 * input@.len() >= 32 {
                32int
            } else {
                8 * input@.len() as int
            },
    {
        let mut reader = BitReader { input, pos: 0, bits: 0, available: 0 };
        proof {
            assert(reader.remaining() =~= stream_bits(input@));
            assert(reader.remaining().take(0) =~= Seq::<bool>::empty());
        }
        reader.fetch();
        proof {
            assert(reader.remaining() =~= stream_bits(input@));
        }
        reader
    }

    /// Bytes of the slice not yet moved into the register.
    pub fn unread_bytes(&self) -> (r: usize)
        requires
            self.wf(),
        ensures
            8 * r == self.remaining().len() - self.spec_available(),
    {
        self.input.len() - self.pos
    }

    /// Whether at least `needed` more bits can be read.
    pub fn has_remaining(&self, needed: usize) -> (r: bool)
        requires
            self.wf(),
        ensures
            r == (needed <= self.remaining().len()),
    {
        needed <= self.remaining_bits()
    }

    /// Whether at least `needed` more whole bytes can be read.
    pub fn has_remaining_bytes(&self, needed: usize) -> (r: bool)
        requires
            self.wf(),
        ensures
            r == (8 * needed <= self.remaining().len()),
    {
        let unread = self.input.len() - self.pos;
        let r = unread + (self.available / 8) as usize >= needed;
        proof {
            let a = self.available as int;
            assert(8 * (unread + a / 8) == 8 * unread + 8 * (a / 8));
            assert(8 * unread + a == self.remaining().len());
            if r {
                assert(8 * needed <= 8 * (unread + a / 8));
                assert(8 * (a / 8) <= a);
            } else {
                assert(unread + a / 8 + 1 <= needed);
                assert(8 * unread + a < 8 * (unread + a / 8 + 1));
            }
        }
        r
    }

    /// Count of bits still readable.
    pub fn remaining_bits(&self) -> (r: usize)
        requires
            self.wf(),
        ensures
            r == self.remaining().len(),
    {
        (self.input.len() - self.pos) * 8 + self.available as usize
    }

    /// Count of whole bytes still readable.
    pub fn remaining_bytes(&self) -> (r: usize)
        requires
            self.wf(),
        ensures
            r == self.remaining().len() / 8,
    {
        let unread = self.input.len() - self.pos;
        let r = unread + (self.available / 8) as usize;
        proof {
            let a = self.available as int;
            assert(self.remaining().len() == 8 * unread + a);
            assert((8 * unread + a) / 8 == unread + a / 8) by {
                vstd::arithmetic::div_mod::lemma_fundamental_div_mod(a, 8);
                vstd::arithmetic::div_mod::lemma_div_multiples_vanish_fancy(
                    unread + a / 8,
                    a % 8,
                    8,
                );
            }
        }
        r
    }

    /// Bits that can be served without touching the slice.
    pub fn available_now(&self) -> (r: u8)
        ensures
            r == self.spec_available(),
    {
        self.available
    }

    /// Refill the drained register with up to four bytes, little-endian.
    fn fetch(&mut self)
        requires
            old(self).wf_core(),
            old(self).available == 0,
        ensures
            final(self).wf(),
            final(self).input@ == old(self).input@,
            final(self).remaining() == old(self).remaining(),
            final(self).available as int == if old(self).remaining().len() >= 32 {
                32int
            } else {
                old(self).remaining().len() as int
            },
    {
        proof {
            lemma_stream_bits_skip(self.input@, self.pos as int);
            assert(old(self).remaining() =~= stream_bits(self.input@.skip(self.pos as int)));
        }
        let ghost sk = self.input@.skip(self.pos as int);
        let unread = self.input.len() - self.pos;
        if unread == 0 {
            proof {
                assert(final(self).remaining() =~= old(self).remaining());
            }
            return ;
        }
        let b0 = self.input[self.pos];
        proof {
            lemma_stream_group8(sk, 0);
        }
        if unread == 1 {
            self.bits = b0 as u32;
            self.available = 8;
            self.pos = self.pos + 1;
            proof {
                Self::lemma_after_fetch(*old(self), *self, 1);
            }
        } else if unread == 2 {
            let b1 = self.input[self.pos + 1];
            self.bits = (b0 as u32) | ((b1 as u32) << 8u32);
            self.available = 16;
            self.pos = self.pos + 2;
            proof {
                assert((b0 as u32) | ((b1 as u32) << 8u32) == (b0 as u32) + 0x100 * (
                b1 as u32)) by (bit_vector);
                lemma_stream_group8(sk, 1);
                Self::lemma_after_fetch(*old(self), *self, 2);
            }
        } else if unread == 3 {
            let b1 = self.input[self.pos + 1];
            let b2 = self.input[self.pos + 2];
            self.bits = (b0 as u32) | ((b1 as u32) << 8u32) | ((b2 as u32) << 16u32);
            self.available = 24;
            self.pos = self.pos + 3;
            proof {
                assert((b0 as u32) | ((b1 as u32) << 8u32) | ((b2 as u32) << 16u32) == (
                b0 as u32) + 0x100 * (b1 as u32) + 0x10000 * (b2 as u32)) by (bit_vector);
                lemma_stream_group8(sk, 1);
                lemma_stream_group8(sk, 2);
                Self::lemma_after_fetch(*old(self), *self, 3);
            }
        } else {
            let b1 = self.input[self.pos + 1];
            let b2 = self.input[self.pos + 2];
            let b3 = self.input[self.pos + 3];
            self.bits = (b0 as u32) | ((b1 as u32) << 8u32) | ((b2 as u32) << 16u32) | ((b3
                as u32) << 24u32);
            self.available = 32;
            self.pos = self.pos + 4;
            proof {
                assert((b0 as u32) | ((b1 as u32) << 8u32) | ((b2 as u32) << 16u32) | ((b3
                    as u32) << 24u32) == (b0 as u32) + 0x100 * (b1 as u32) + 0x10000 * (
                b2 as u32) + 0x1000000 * (b3 as u32)) by (bit_vector);
                lemma_stream_group8(sk, 1);
                lemma_stream_group8(sk, 2);
                lemma_stream_group8(sk, 3);
                Self::lemma_after_fetch(*old(self), *self, 4);
            }
        }
    }

    /// Read one bit.
    pub fn read_bit(&mut self) -> (r: Result<bool, InsufficientBits>)
        requires
            old(self).wf(),
        ensures
            final(self).wf(),
            match r {
                Ok(b) => {
                    &&& old(self).remaining().len() >= 1
                    &&& b == old(self).remaining()[0]
                    &&& final(self).remaining() == old(self).remaining().skip(1)
                },
                Err(e) => {
                    &&& *final(self) == *old(self)
                    &&& old(self).remaining().len() == 0
                    &&& e == (InsufficientBits { requested: 1, available: 0 })
                },
            },
    {
        let ghost s = self.remaining();
        match self.read_bits(1) {
            Ok(v) => {
                proof {
                    lemma_bits_val_single(s.take(1));
                    assert(s.take(1)[0] == s[0]);
                }
                Ok(v == 1)
            },
            Err(e) => Err(e),
        }
    }

    /// Take `count` bits out of the register; `count` must not exceed what the
    /// register holds.
    fn read_bits_direct(&mut self, count: u8) -> (r: u32)
        requires
            old(self).wf(),
            0 < count <= old(self).available,
        ensures
            final(self).wf(),
            r as nat == bits_val(old(self).remaining().take(count as int)),
            final(self).remaining() == old(self).remaining().skip(count as int),
            final(self).available as int == if count < old(self).available {
                old(self).available - count
            } else if old(self).remaining().len() - count >= 32 {
                32int
            } else {
                old(self).remaining().len() - count
            },
    {
        let ghost s = self.remaining();
        let ghost a = self.available as int;
        proof {
            lemma_bits_val_split(s.take(a), count as int);
            assert(s.take(a).take(count as int) =~= s.take(count as int));
            assert(s.take(a).skip(count as int) =~= s.subrange(count as int, a));
            lemma_bits_val_bound(s.take(count as int));
            lemma_bits_val_bound(s.take(a));
            lemma_pow2_pos(count as nat);
        }
        let value = if count == 32 {
            let value = self.bits;
            self.bits = 0;
            self.available = 0;
            proof {
                assert(s.take(a) =~= s.take(count as int));
                assert(self.remaining().take(0) =~= Seq::<bool>::empty());
            }
            value
        } else {
            proof {
                vstd::bits::lemma_u32_pow2_no_overflow(count as nat);
                lemma_u32_shl_is_mul(1u32, count as u32);
                lemma_pow2_pos(count as nat);
            }
            let mask = (1u32 << count) - 1;
            let value = self.bits & mask;
            proof {
                let b = self.bits;
                let low = bits_val(s.take(count as int));
                let hi = bits_val(s.subrange(count as int, a));
                assert(mask == low_bits_mask(count as nat));
                lemma_u32_low_bits_mask_is_mod(b, count as nat);
                vstd::arithmetic::mul::lemma_mul_is_commutative(
                    pow2(count as nat) as int,
                    hi as int,
                );
                lemma_fundamental_div_mod_converse(
                    b as int,
                    pow2(count as nat) as int,
                    hi as int,
                    low as int,
                );
                vstd::arithmetic::div_mod::lemma_small_mod(low, pow2(count as nat));
                assert(value as nat == low);
                lemma_u32_shr_is_div(b, count as u32);
                assert(b >> (count as u32) == hi);
            }
            self.bits = self.bits >> (count as u32);
            self.available = self.available - count;
            proof {
                assert(self.remaining() =~= s.skip(count as int));
                assert(self.remaining().take(self.available as int) =~= s.subrange(
                    count as int,
                    a,
                ));
            }
            value
        };
        if self.available == 0 {
            self.fetch();
        }
        value
    }

    /// Read `count` bits (at most 32) as an unsigned value, least significant
    /// bit first.
    #[verifier::rlimit(60)]
    pub fn read_bits(&mut self, count: u8) -> (r: Result<u32, InsufficientBits>)
        requires
            old(self).wf(),
            count <= 32,
        ensures
            final(self).wf(),
            match r {
                Ok(v) => {
                    &&& count as int <= old(self).remaining().len()
                    &&& v as nat == bits_val(old(self).remaining().take(count as int))
                    &&& final(self).remaining() == old(self).remaining().skip(count as int)
                },
                Err(e) => {
                    &&& *final(self) == *old(self)
                    &&& count as int > old(self).remaining().len()
                    &&& e == (InsufficientBits {
                        requested: count as usize,
                        available: old(self).remaining().len() as usize,
                    })
                },
            },
    {
        let ghost s = self.remaining();
        if count == 0 {
            proof {
                assert(s.take(0) =~= Seq::<bool>::empty());
                assert(s.skip(0) =~= s);
            }
            return Ok(0);
        }
        if count <= self.available {
            Ok(self.read_bits_direct(count))
        } else {
            let taken = self.available;
            let needed = count - taken;
            let unread = self.input.len() - self.pos;
            if unread < 4 && (unread as u8) * 8 < needed {
                let avail = taken as usize + unread * 8;
                return Err(InsufficientBits { requested: count as usize, available: avail });
            }
            proof {
                if self.available == 0 {
                    // The register is empty only at the end of the slice.
                    assert(unread == 0);
                    assert(false);
                }
            }
            let low = self.read_bits_direct(taken);
            proof {
                assert(needed as int <= self.remaining().len());
                assert(needed <= 32);
            }
            let high = self.read_bits_direct(needed);
            proof {
                let lowv = bits_val(s.take(taken as int));
                let highv = bits_val(s.skip(taken as int).take(needed as int));
                lemma_bits_val_split(s.take(count as int), taken as int);
                assert(s.take(count as int).take(taken as int) =~= s.take(taken as int));
                assert(s.take(count as int).skip(taken as int) =~= s.skip(taken as int).take(
                    needed as int,
                ));
                lemma_bits_val_bound(s.take(taken as int));
                lemma_bits_val_bound(s.skip(taken as int).take(needed as int));
                lemma_bits_val_bound(s.take(count as int));
                lemma_pow2_adds(taken as nat, needed as nat);
                vstd::bits::lemma_u32_pow2_no_overflow(taken as nat);
                assert(highv * pow2(taken as nat) < pow2(needed as nat) * pow2(taken as nat))
                    by {
                    lemma_pow2_pos(taken as nat);
                    vstd::arithmetic::mul::lemma_mul_strict_inequality(
                        highv as int,
                        pow2(needed as nat) as int,
                        pow2(taken as nat) as int,
                    );
                }
                vstd::arithmetic::mul::lemma_mul_is_commutative(
                    pow2(needed as nat) as int,
                    pow2(taken as nat) as int,
                );
                lemma2_to64();
                if count < 32 {
                    vstd::arithmetic::power2::lemma_pow2_strictly_increases(
                        count as nat,
                        32,
                    );
                }
                assert(pow2(count as nat) <= 0x1_0000_0000);
                assert(high as nat * pow2(taken as nat) < pow2(count as nat));
                lemma_u32_shl_is_mul(high, taken as u32);
                let t32 = taken as u32;
                let l = low;
                let h = high << t32;
                assert((1u32 << t32) == pow2(taken as nat)) by {
                    lemma_u32_shl_is_mul(1u32, t32);
                }
                assert(h % (1u32 << t32) == 0) by {
                    vstd::arithmetic::div_mod::lemma_mod_multiples_basic(
                        high as int,
                        pow2(taken as nat) as int,
                    );
                }
                assert(l | h == l + h) by (bit_vector)
                    requires
                        t32 < 32,
                        l < (1u32 << t32),
                        h % (1u32 << t32) == 0,
                ;
                assert(l + h == bits_val(s.take(count as int))) by {
                    vstd::arithmetic::mul::lemma_mul_is_commutative(
                        pow2(taken as nat) as int,
                        highv as int,
                    );
                }
                assert((l | h) as nat == bits_val(s.take(count as int)));
                assert(self.remaining() =~= s.skip(count as int));
            }
            Ok(low | (high << (taken as u32)))
        }
    }

    /// Read eight bits as a byte.
    pub fn read_u8(&mut self) -> (r: Result<u8, InsufficientBits>)
        requires
            old(self).wf(),
        ensures
            final(self).wf(),
            match r {
                Ok(v) => {
                    &&& old(self).remaining().len() >= 8
                    &&& v as nat == bits_val(old(self).remaining().take(8))
                    &&& final(self).remaining() == old(self).remaining().skip(8)
                },
                Err(e) => {
                    &&& *final(self) == *old(self)
                    &&& old(self).remaining().len() < 8
                    &&& e == (InsufficientBits {
                        requested: 8,
                        available: old(self).remaining().len() as usize,
                    })
                },
            },
    {
        proof {
            lemma_bits_val_bound(self.remaining().take(8));
            lemma2_to64();
        }
        match self.read_bits(8) {
            Ok(v) => Ok(v as u8),
            Err(e) => Err(e),
        }
    }

    /// Read sixteen bits as a little-endian unsigned value.
    pub fn read_u16(&mut self) -> (r: Result<u16, InsufficientBits>)
        requires
            old(self).wf(),
        ensures
            final(self).wf(),
            match r {
                Ok(v) => {
                    &&& old(self).remaining().len() >= 16
                    &&& v as nat == bits_val(old(self).remaining().take(16))
                    &&& final(self).remaining() == old(self).remaining().skip(16)
                },
                Err(e) => {
                    &&& *final(self) == *old(self)
                    &&& old(self).remaining().len() < 16
                    &&& e == (InsufficientBits {
                        requested: 16,
                        available: old(self).remaining().len() as usize,
                    })
                },
            },
    {
        proof {
            lemma_bits_val_bound(self.remaining().take(16));
            lemma2_to64();
        }
        match self.read_bits(16) {
            Ok(v) => Ok(v as u16),
            Err(e) => Err(e),
        }
    }

    /// Read thirty-two bits as a little-endian unsigned value.
    pub fn read_u32(&mut self) -> (r: Result<u32, InsufficientBits>)
        requires
            old(self).wf(),
        ensures
            final(self).wf(),
            match r {
                Ok(v) => {
                    &&& old(self).remaining().len() >= 32
                    &&& v as nat == bits_val(old(self).remaining().take(32))
                    &&& final(self).remaining() == old(self).remaining().skip(32)
                },
                Err(e) => {
                    &&& *final(self) == *old(self)
                    &&& old(self).remaining().len() < 32
                    &&& e == (InsufficientBits {
                        requested: 32,
                        available: old(self).remaining().len() as usize,
                    })
                },
            },
    {
        self.read_bits(32)
    }

    /// Read a byte reinterpreted as signed.
    pub fn read_i8(&mut self) -> (r: Result<i8, InsufficientBits>)
        requires
            old(self).wf(),
        ensures
            final(self).wf(),
            match r {
                Ok(v) => {
                    &&& old(self).remaining().len() >= 8
                    &&& v == (bits_val(old(self).remaining().take(8)) as u8) as i8
                    &&& final(self).remaining() == old(self).remaining().skip(8)
                },
                Err(e) => {
                    &&& *final(self) == *old(self)
                    &&& old(self).remaining().len() < 8
                },
            },
    {
        match self.read_u8() {
            Ok(v) => Ok(v as i8),
            Err(e) => Err(e),
        }
    }

    /// Read sixteen bits reinterpreted as signed.
    pub fn read_i16(&mut self) -> (r: Result<i16, InsufficientBits>)
        requires
            old(self).wf(),
        ensures
            final(self).wf(),
            match r {
                Ok(v) => {
                    &&& old(self).remaining().len() >= 16
                    &&& v == (bits_val(old(self).remaining().take(16)) as u16) as i16
                    &&& final(self).remaining() == old(self).remaining().skip(16)
                },
                Err(e) => {
                    &&& *final(self) == *old(self)
                    &&& old(self).remaining().len() < 16
                },
            },
    {
        match self.read_u16() {
            Ok(v) => Ok(v as i16),
            Err(e) => Err(e),
        }
    }

    /// Read thirty-two bits reinterpreted as signed.
    pub fn read_i32(&mut self) -> (r: Result<i32, InsufficientBits>)
        requires
            old(self).wf(),
        ensures
            final(self).wf(),
            match r {
                Ok(v) => {
                    &&& old(self).remaining().len() >= 32
                    &&& v == (bits_val(old(self).remaining().take(32)) as u32) as i32
                    &&& final(self).remaining() == old(self).remaining().skip(32)
                },
                Err(e) => {
                    &&& *final(self) == *old(self)
                    &&& old(self).remaining().len() < 32
                },
            },
    {
        match self.read_u32() {
            Ok(v) => Ok(v as i32),
            Err(e) => Err(e),
        }
    }

    /// Read `len` whole bytes, appending them to `data`.
    pub fn read_u8_array_into(&mut self, data: &mut Vec<u8>, len: usize) -> (r: Result<
        (),
        InsufficientBits,
    >)
        requires
            old(self).wf(),
        ensures
            final(self).wf(),
            match r {
                Ok(()) => {
                    &&& 8 * len <= old(self).remaining().len()
                    &&& final(data)@ == old(data)@ + Seq::new(
                        len as nat,
                        |j: int| group8(old(self).remaining(), j),
                    )
                    &&& final(self).remaining() == old(self).remaining().skip(8 * len)
                },
                Err(e) => {
                    &&& *final(self) == *old(self)
                    &&& *final(data) == *old(data)
                    &&& 8 * len > old(self).remaining().len()
                    &&& e == (InsufficientBits {
                        requested: len,
                        available: (old(self).remaining().len() / 8) as usize,
                    })
                },
            },
    {
        if !self.has_remaining_bytes(len) {
            let avail = self.remaining_bytes();
            return Err(InsufficientBits { requested: len, available: avail });
        }
        let ghost s = self.remaining();
        let mut i: usize = 0;
        while i < len
            invariant
                self.wf(),
                i <= len,
                8 * len <= s.len(),
                self.remaining() == s.skip(8 * i),
                data@ == old(data)@ + Seq::new(i as nat, |j: int| group8(s, j)),
            decreases len - i,
        {
            let b = match self.read_u8() {
                Ok(b) => b,
                Err(e) => {
                    proof {
                        assert(s.skip(8 * i).len() == s.len() - 8 * i >= 8);
                        assert(false);
                    }
                    return Err(e);
                },
            };
            proof {
                assert(s.skip(8 * i).take(8) =~= s.subrange(8 * i, 8 * i + 8));
                assert(s.skip(8 * i).skip(8) =~= s.skip(8 * (i + 1)));
            }
            data.push(b);
            i = i + 1;
            proof {
                assert(data@ =~= old(data)@ + Seq::new(i as nat, |j: int| group8(s, j)));
            }
        }
        proof {
            assert(data@ =~= old(data)@ + Seq::new(len as nat, |j: int| group8(s, j)));
        }
        Ok(())
    }

    /// Read `len` whole bytes into a fresh vector.
    pub fn read_u8_array(&mut self, len: usize) -> (r: Result<Vec<u8>, InsufficientBits>)
        requires
            old(self).wf(),
        ensures
            final(self).wf(),
            match r {
                Ok(v) => {
                    &&& 8 * len <= old(self).remaining().len()
                    &&& v@ == Seq::new(len as nat, |j: int| group8(old(self).remaining(), j))
                    &&& final(self).remaining() == old(self).remaining().skip(8 * len)
                },
                Err(e) => {
                    &&& *final(self) == *old(self)
                    &&& 8 * len > old(self).remaining().len()
                    &&& e == (InsufficientBits {
                        requested: len,
                        available: (old(self).remaining().len() / 8) as usize,
                    })
                },
            },
    {
        let mut data: Vec<u8> = Vec::new();
        self.read_u8_array_into(&mut data, len)?;
        Ok(data)
    }

    /// Read a presence flag and, when set, a field of `width` bits.
    pub fn read_flagged(&mut self, width: u8) -> (r: Result<Option<u32>, InsufficientBits>)
        requires
            old(self).wf(),
            0 < width <= 32,
        ensures
            final(self).wf(),
            match r {
                Ok(v) => {
                    &&& flagged_decode(old(self).remaining(), width as int) matches Some(d)
                    &&& v == flagged_decode(old(self).remaining(), width as int)->Some_0.0
                    &&& final(self).remaining() == old(self).remaining().skip(
                        flagged_decode(old(self).remaining(), width as int)->Some_0.1,
                    )
                },
                Err(_) => flagged_decode(old(self).remaining(), width as int) is None,
            },
    {
        let ghost s = self.remaining();
        if self.read_bit()? {
            let v = self.read_bits(width)?;
            proof {
                assert(s.skip(1).take(width as int) =~= s.subrange(1, 1 + width as int));
                assert(s.skip(1).skip(width as int) =~= s.skip(1 + width as int));
            }
            Ok(Some(v))
        } else {
            Ok(None)
        }
    }

    /// Read a Source "common var": a two-bit selector choosing a 4, 8, 12 or
    /// 32 bit field.
    pub fn read_var(&mut self) -> (r: Result<u32, InsufficientBits>)
        requires
            old(self).wf(),
        ensures
            final(self).wf(),
            match r {
                Ok(v) => {
                    &&& var_decode(old(self).remaining()) matches Some(d)
                    &&& v as nat == var_decode(old(self).remaining())->Some_0.0
                    &&& final(self).remaining() == old(self).remaining().skip(
                        var_decode(old(self).remaining())->Some_0.1,
                    )
                },
                Err(_) => var_decode(old(self).remaining()) is None,
            },
    {
        let ghost s = self.remaining();
        let sel = self.read_bits(2)?;
        proof {
            lemma_bits_val_bound(s.take(2));
            lemma2_to64();
        }
        let width: u8 = if sel == 0 {
            4
        } else if sel == 1 {
            8
        } else if sel == 2 {
            12
        } else {
            32
        };
        let r = self.read_bits(width);
        match r {
            Ok(v) => {
                proof {
                    assert(s.skip(2).take(width as int) =~= s.subrange(2, 2 + width as int));
                }
                Ok(v)
            },
            Err(e) => Err(e),
        }
    }

    /// Read a variable-length u32: seven data bits per byte, high bit
    /// continues, capped at five bytes.
    pub fn read_var_u32(&mut self) -> (r: Result<u32, InsufficientBits>)
        requires
            old(self).wf(),
        ensures
            final(self).wf(),
            match r {
                Ok(v) => {
                    &&& var_u32_decode(old(self).remaining()) matches Some(d)
                    &&& v == var_u32_decode(old(self).remaining())->Some_0.0
                    &&& 0 <= 8 * var_u32_decode(old(self).remaining())->Some_0.1 <= old(
                        self,
                    ).remaining().len()
                    &&& final(self).remaining() == old(self).remaining().skip(
                        8 * var_u32_decode(old(self).remaining())->Some_0.1,
                    )
                },
                Err(_) => var_u32_decode(old(self).remaining()) is None,
            },
    {
        self.read_var_u32_from(0)
    }

    /// One step of the variable-length u32 read, at byte `idx` of at most
    /// five.
    fn read_var_u32_from(&mut self, idx: u8) -> (r: Result<u32, InsufficientBits>)
        requires
            old(self).wf(),
            idx <= 5,
        ensures
            final(self).wf(),
            match r {
                Ok(v) => {
                    &&& var_u32_rec(old(self).remaining(), idx as int) matches Some(d)
                    &&& v == var_u32_rec(old(self).remaining(), idx as int)->Some_0.0
                    &&& 0 <= 8 * var_u32_rec(old(self).remaining(), idx as int)->Some_0.1 <= old(
                        self,
                    ).remaining().len()
                    &&& final(self).remaining() == old(self).remaining().skip(
                        8 * var_u32_rec(old(self).remaining(), idx as int)->Some_0.1,
                    )
                },
                Err(_) => var_u32_rec(old(self).remaining(), idx as int) is None,
            },
        decreases 5 - idx,
    {
        let ghost s = self.remaining();
        if idx == 5 {
            proof {
                assert(s.skip(0) =~= s);
            }
            return Ok(0);
        }
        let byte = self.read_u8()?;
        let part = ((byte & 0x7f) as u32) << ((7 * idx) as u32);
        if byte < 128 {
            Ok(part)
        } else {
            let rest = self.read_var_u32_from(idx + 1)?;
            proof {
                assert(s.skip(8).skip(8 * var_u32_rec(s.skip(8), idx as int + 1)->Some_0.1) =~= s
                    .skip(8 + 8 * var_u32_rec(s.skip(8), idx as int + 1)->Some_0.1));
            }
            Ok(part | rest)
        }
    }

    /// Read bytes up to a null terminator and decode them as UTF-8. The
    /// terminator is consumed and not part of the result.
    pub fn read_string(&mut self) -> (r: Result<String, ReadStringError>)
        requires
            old(self).wf(),
        ensures
            final(self).wf(),
            ({
                let s = old(self).remaining();
                match r {
                    Ok(st) => match cstr_len(s) {
                        Some(k) => {
                            &&& vstd::utf8::valid_utf8(cstr_bytes(s))
                            &&& st@ == vstd::utf8::decode_utf8(cstr_bytes(s))
                            &&& final(self).remaining() == s.skip(8 * (k + 1))
                        },
                        None => false,
                    },
                    Err(ReadStringError::Utf8) => match cstr_len(s) {
                        Some(k) => {
                            &&& !vstd::utf8::valid_utf8(cstr_bytes(s))
                            &&& final(self).remaining() == s.skip(8 * (k + 1))
                        },
                        None => false,
                    },
                    Err(ReadStringError::InsufficientBits(_)) => cstr_len(s) is None,
                }
            }),
    {
        let ghost s0 = self.remaining();
        let mut data: Vec<u8> = Vec::new();
        proof {
            assert(s0.skip(0) =~= s0);
        }
        loop
            invariant_except_break
                self.wf(),
                s0 == old(self).remaining(),
                self.remaining() == s0.skip(8 * data@.len() as int),
                8 * data@.len() <= s0.len(),
                data@ == Seq::new(data@.len(), |j: int| group8(s0, j)),
                forall|j: int| 0 <= j < data@.len() ==> group8(s0, j) != 0,
                cstr_len(s0) == match cstr_len(s0.skip(8 * data@.len() as int)) {
                    Some(k) => Some(k + data@.len()),
                    None => None::<int>,
                },
            ensures
                self.wf(),
                cstr_len(s0) == Some(data@.len() as int),
                data@ == cstr_bytes(s0),
                self.remaining() == s0.skip(8 * (data@.len() + 1) as int),
            decreases self.remaining().len(),
        {
            let ghost i = data@.len() as int;
            let ghost cur = self.remaining();
            let byte = match self.read_u8() {
                Ok(b) => b,
                Err(e) => {
                    proof {
                        assert(cstr_len(cur) is None);
                        assert(cur == s0.skip(8 * i));
                        assert(cstr_len(s0) is None);
                    }
                    return Err(ReadStringError::InsufficientBits(e));
                },
            };
            proof {
                assert(cur.take(8) =~= cur.subrange(0, 8));
                assert(group8(cur, 0) == byte);
                assert(group8(s0, i) == byte) by {
                    assert(cur.subrange(0, 8) =~= s0.subrange(8 * i, 8 * i + 8));
                }
            }
            if byte == 0 {
                proof {
                    assert(cstr_len(cur) == Some(0int));
                    assert(data@ =~= cstr_bytes(s0));
                    assert(self.remaining() =~= s0.skip(8 * (data@.len() + 1) as int));
                }
                break ;
            }
            proof {
                assert(cur.skip(8) =~= s0.skip(8 * (i + 1)));
            }
            data.push(byte);
            proof {
                assert(data@ =~= Seq::new(data@.len(), |j: int| group8(s0, j)));
            }
        }
        let ghost bytes = data@;
        proof {
            assert(bytes == cstr_bytes(s0));
        }
        match string_from_utf8(data) {
            Some(st) => Ok(st),
            None => Err(ReadStringError::Utf8),
        }
    }

    /// Read a compact coordinate.
    #[verifier::rlimit(100)]
    pub fn read_coord(&mut self) -> (r: Result<Coord, InsufficientBits>)
        requires
            old(self).wf(),
        ensures
            final(self).wf(),
            match r {
                Ok(c) => {
                    &&& coord_decode(old(self).remaining()) matches Some(d)
                    &&& c == coord_decode(old(self).remaining())->Some_0.0
                    &&& final(self).remaining() == old(self).remaining().skip(
                        coord_decode(old(self).remaining())->Some_0.1,
                    )
                    &&& c.integer <= 16384
                    &&& c.fraction <= 31
                },
                Err(_) => coord_decode(old(self).remaining()) is None,
            },
    {
        let ghost s = self.remaining();
        let integral = self.read_bit()?;
        let fractional = self.read_bit()?;
        proof {
            assert(s.skip(1)[0] == s[1]);
        }
        if integral || fractional {
            let sign = self.read_bit()?;
            proof {
                assert(s.skip(1).skip(1) =~= s.skip(2));
                assert(s.skip(2)[0] == s[2]);
                assert(s.skip(2).skip(1) =~= s.skip(3));
            }
            let integer: u16 = if integral {
                let v = self.read_bits(14)?;
                proof {
                    lemma_bits_val_bound(s.skip(3).take(14));
                    lemma2_to64();
                    assert(s.skip(3).take(14) =~= s.subrange(3, 17));
                    assert(s.skip(3).skip(14) =~= s.skip(17));
                }
                (v as u16) + 1
            } else {
                0
            };
            let fraction: u8 = if fractional {
                let ghost foff = if integral {
                    17int
                } else {
                    3int
                };
                let v = self.read_bits(5)?;
                proof {
                    lemma_bits_val_bound(s.skip(foff).take(5));
                    lemma2_to64();
                    assert(s.skip(foff).take(5) =~= s.subrange(foff, foff + 5));
                    assert(s.skip(foff).skip(5) =~= s.skip(foff + 5));
                }
                v as u8
            } else {
                0
            };
            Ok(Coord { negative: sign, integer, fraction })
        } else {
            proof {
                assert(s.skip(1).skip(1) =~= s.skip(2));
            }
            Ok(Coord { negative: false, integer: 0, fraction: 0 })
        }
    }

    /// Read a compact vector of three coordinates.
    #[verifier::rlimit(100)]
    #[verifier::spinoff_prover]
    pub fn read_vec3(&mut self) -> (r: Result<(Coord, Coord, Coord), InsufficientBits>)
        requires
            old(self).wf(),
        ensures
            final(self).wf(),
            match r {
                Ok(v) => {
                    &&& vec3_decode(old(self).remaining()) matches Some(d)
                    &&& v == vec3_decode(old(self).remaining())->Some_0.0
                    &&& final(self).remaining() == old(self).remaining().skip(
                        vec3_decode(old(self).remaining())->Some_0.1,
                    )
                },
                Err(_) => vec3_decode(old(self).remaining()) is None,
            },
    {
        let ghost s = self.remaining();
        let x = self.read_bit()?;
        let y = self.read_bit()?;
        let z = self.read_bit()?;
        proof {
            assert(s.skip(1)[0] == s[1]);
            assert(s.skip(1).skip(1) =~= s.skip(2));
            assert(s.skip(2)[0] == s[2]);
            assert(s.skip(2).skip(1) =~= s.skip(3));
        }
        let zero = Coord { negative: false, integer: 0, fraction: 0 };
        let cx = if x {
            self.read_coord()?
        } else {
            zero
        };
        let ghost nx = if s[0] {
            coord_decode(s.skip(3))->Some_0.1
        } else {
            0int
        };
        proof {
            assert(self.remaining() =~= s.skip(3 + nx)) by {
                if s[0] {
                    assert(s.skip(3).skip(nx) =~= s.skip(3 + nx));
                }
            }
        }
        let cy = if y {
            self.read_coord()?
        } else {
            zero
        };
        let ghost ny = if s[1] {
            coord_decode(s.skip(3 + nx))->Some_0.1
        } else {
            0int
        };
        proof {
            assert(self.remaining() =~= s.skip(3 + nx + ny)) by {
                if s[1] {
                    assert(s.skip(3 + nx).skip(ny) =~= s.skip(3 + nx + ny));
                }
            }
        }
        let cz = if z {
            self.read_coord()?
        } else {
            zero
        };
        let ghost nz = if s[2] {
            coord_decode(s.skip(3 + nx + ny))->Some_0.1
        } else {
            0int
        };
        proof {
            assert(self.remaining() =~= s.skip(3 + nx + ny + nz)) by {
                if s[2] {
                    assert(s.skip(3 + nx + ny).skip(nz) =~= s.skip(3 + nx + ny + nz));
                }
            }
        }
        Ok((cx, cy, cz))
    }

    /// Give up the reader, returning the unread suffix of the slice and the
    /// count of bits still in the register.
    pub fn end(self) -> (r: (&'i [u8], u8))
        requires
            self.wf(),
        ensures
            8 * r.0@.len() == self.remaining().len() - self.spec_available(),
            r.1 == self.spec_available(),
    {
        let rest = vstd::slice::slice_subrange(self.input, self.pos, self.input.len());
        (rest, self.available)
    }

    /// Extending a bit prefix by one byte adds that byte's value at the
    /// matching power of two.
    proof fn lemma_byte_step(s: Seq<bool>, j: int)
        requires
            1 <= j <= 3,
            8 * (j + 1) <= s.len(),
        ensures
            bits_val(s.take(8 * (j + 1))) == bits_val(s.take(8 * j)) + pow2((8 * j) as nat)
                * group8(s, j) as nat,
    {
        lemma_bits_val_split(s.take(8 * (j + 1)), 8 * j);
        assert(s.take(8 * (j + 1)).take(8 * j) =~= s.take(8 * j));
        assert(s.take(8 * (j + 1)).skip(8 * j) =~= s.subrange(8 * j, 8 * j + 8));
        lemma_bits_val_bound(s.subrange(8 * j, 8 * j + 8));
        lemma2_to64();
    }

    /// After a refill of `k` bytes the register holds the little-endian value
    /// of the first `k` unread bytes.
    proof fn lemma_after_fetch(pre: Self, post: Self, k: int)
        requires
            pre.wf_core(),
            pre.available == 0,
            1 <= k <= 4,
            pre.pos + k <= pre.input@.len(),
            k == 4 || pre.pos + k == pre.input@.len(),
            post.input@ == pre.input@,
            post.pos == pre.pos + k,
            post.available == 8 * k,
            post.bits as nat == {
                let sk = pre.input@.skip(pre.pos as int);
                group8(stream_bits(sk), 0) as nat + if k >= 2 {
                    0x100 * group8(stream_bits(sk), 1) as nat
                } else {
                    0
                } + if k >= 3 {
                    0x10000 * group8(stream_bits(sk), 2) as nat
                } else {
                    0
                } + if k >= 4 {
                    0x1000000 * group8(stream_bits(sk), 3) as nat
                } else {
                    0
                }
            },
        ensures
            post.wf(),
            post.remaining() == pre.remaining(),
            post.available as int == if pre.remaining().len() >= 32 {
                32int
            } else {
                pre.remaining().len() as int
            },
    {
        let sk = pre.input@.skip(pre.pos as int);
        let s = stream_bits(sk);
        lemma_stream_bits_skip(pre.input@, pre.pos as int);
        assert(pre.remaining() =~= s);
        assert(post.remaining() =~= s);
        lemma2_to64();
        assert(pow2(8) == 0x100 && pow2(16) == 0x10000 && pow2(24) == 0x1000000);
        // The register value equals the value of the first 8k bits of s.
        lemma_bits_val_split(s.take(8), 0);
        assert(s.take(8).skip(0) =~= s.subrange(0, 8));
        assert(s.take(8).take(0) =~= Seq::<bool>::empty());
        lemma_bits_val_bound(s.subrange(0, 8));
        assert(bits_val(s.take(8 * 1int)) == group8(s, 0) as nat);
        if k >= 2 {
            Self::lemma_byte_step(s, 1);
        }
        if k >= 3 {
            Self::lemma_byte_step(s, 2);
        }
        if k >= 4 {
            Self::lemma_byte_step(s, 3);
        }
        assert(post.bits as nat == bits_val(s.take(8 * k)));
        assert(post.remaining().take(post.available as int) =~= s.take(8 * k));
    }
}

/// An owned, bit-length-tagged byte buffer. It carries a nested payload from
/// one parsing layer to the next while preserving a sub-byte trailing width:
/// when `trailing_bits` is nonzero the last byte holds that many payload bits
/// in its low positions.
#[derive(Debug, Clone)]
pub struct Bits {
    data: Vec<u8>,
    trailing_bits: u8,
}

impl View for Bits {
    type V = Seq<bool>;

    /// The payload bits.
    closed spec fn view(&self) -> Seq<bool> {
        stream_bits(self.data@).take(self.spec_payload_len())
    }
}

impl Bits {
    /// The stored bytes.
    pub closed spec fn spec_raw(self) -> Seq<u8> {
        self.data@
    }

    /// The sub-byte trailing width.
    pub closed spec fn spec_trailing_bits(self) -> u8 {
        self.trailing_bits
    }

    /// Count of payload bits.
    pub open spec fn spec_payload_len(self) -> int {
        if self.spec_trailing_bits() == 0 {
            8 * self.spec_raw().len() as int
        } else {
            8 * (self.spec_raw().len() - 1) + self.spec_trailing_bits()
        }
    }

    pub closed spec fn wf(self) -> bool {
        &&& self.trailing_bits < 8
        &&& 8 * self.data@.len() + 8 <= usize::MAX
        &&& (self.trailing_bits != 0 ==> self.data@.len() > 0 && (self.data@.last()
            >> self.trailing_bits) == 0)
    }

    /// Wrap whole bytes as a fully byte-aligned payload.
    pub fn from_bytes(data: Vec<u8>) -> (r: Self)
        requires
            8 * data@.len() + 8 <= usize::MAX,
        ensures
            r.wf(),
            r@ == stream_bits(data@),
            r.spec_raw() == data@,
            r.spec_trailing_bits() == 0,
    {
        let r = Bits { data, trailing_bits: 0 };
        proof {
            assert(r@ =~= stream_bits(r.data@));
        }
        r
    }

    /// Copy the next `count` bits out of a reader into an owned buffer.
    #[verifier::rlimit(100)]
    pub fn copy_into(bits: &mut BitReader, count: usize) -> (r: Result<Self, InsufficientBits>)
        requires
            old(bits).wf(),
        ensures
            final(bits).wf(),
            match r {
                Ok(b) => {
                    &&& count <= old(bits).remaining().len()
                    &&& b.wf()
                    &&& b@ == old(bits).remaining().take(count as int)
                    &&& b.spec_payload_len() == count
                    &&& final(bits).remaining() == old(bits).remaining().skip(count as int)
                },
                Err(e) => {
                    &&& *final(bits) == *old(bits)
                    &&& count > old(bits).remaining().len()
                    &&& e == (InsufficientBits {
                        requested: count,
                        available: old(bits).remaining().len() as usize,
                    })
                },
            },
    {
        if !bits.has_remaining(count) {
            let avail = bits.remaining_bits();
            return Err(InsufficientBits { requested: count, available: avail });
        }
        let ghost s = bits.remaining();
        let trailing = (count % 8) as u8;
        let whole = count / 8;
        let mut data: Vec<u8> = Vec::new();
        match bits.read_u8_array_into(&mut data, whole) {
            Ok(()) => (),
            Err(_) => {
                proof {
                    assert(false);
                }
                return Err(InsufficientBits { requested: count, available: 0 });
            },
        }
        if trailing != 0 {
            let v = match bits.read_bits(trailing) {
                Ok(v) => v,
                Err(_) => {
                    proof {
                        assert(s.skip(8 * whole).len() == s.len() - 8 * whole >= trailing);
                        assert(false);
                    }
                    return Err(InsufficientBits { requested: count, available: 0 });
                },
            };
            proof {
                lemma_bits_val_bound(s.skip(8 * whole).take(trailing as int));
                vstd::arithmetic::power2::lemma_pow2_strictly_increases(
                    trailing as nat,
                    8,
                );
                lemma2_to64();
            }
            data.push(v as u8);
        }
        let r = Bits { data, trailing_bits: trailing };
        proof {
            let d = r.data@;
            assert(8 * whole + trailing == count);
            assert(r.spec_payload_len() == count);
            // Well-formedness of the trailing byte: its bits above the
            // trailing width are clear.
            if trailing != 0 {
                let v = bits_val(s.skip(8 * whole).take(trailing as int)) as u8;
                assert(d.last() == v);
                assert(v >> trailing == 0) by {
                    vstd::bits::lemma_u8_shr_is_div(v, trailing);
                    vstd::bits::lemma_u8_shl_is_mul(1u8, trailing);
                    lemma_pow2_pos(trailing as nat);
                    vstd::arithmetic::div_mod::lemma_basic_div(
                        v as int,
                        pow2(trailing as nat) as int,
                    );
                }
            }
            // Each payload bit of the stored bytes is the matching source bit.
            assert forall|i: int| 0 <= i < count implies stream_bits(d)[i] == s[i] by {
                let j = i / 8;
                let t = i % 8;
                assert(stream_bits(d)[i] == ((d[j] >> (t as u8)) & 1u8 == 1u8));
                if j < whole {
                    assert(d[j] == group8(s, j));
                    crate::bitseq::lemma_val_byte_bits(s.subrange(8 * j, 8 * j + 8), t);
                    assert(s.subrange(8 * j, 8 * j + 8)[t] == s[i]);
                } else {
                    assert(j == whole && t < trailing);
                    let part = s.skip(8 * whole).take(trailing as int);
                    lemma_bits_val_bound(part);
                    vstd::arithmetic::power2::lemma_pow2_strictly_increases(
                        trailing as nat,
                        8,
                    );
                    lemma2_to64();
                    assert(d[j] == bits_val(part) as u8);
                    crate::bitseq::lemma_val_byte_bits_partial(part, t);
                    assert(part[t] == s[i]);
                }
            }
            assert(r@ =~= s.take(count as int));
        }
        Ok(r)
    }

    /// A fresh reader over the payload. Bits past the payload length, if any,
    /// read as zero.
    pub fn reader<'s>(&'s self) -> (r: BitReader<'s>)
        requires
            self.wf(),
        ensures
            r.wf(),
            r.remaining().len() == 8 * self.spec_raw().len(),
            r.remaining().take(self.spec_payload_len()) == self@,
            forall|i: int|
                self.spec_payload_len() <= i < r.remaining().len() ==> !r.remaining()[i],
    {
        let r = BitReader::new(self.data.as_slice());
        proof {
            assert(r.remaining().take(self.spec_payload_len()) =~= self@);
            let d = self.data@;
            if self.trailing_bits != 0 {
                let j = d.len() - 1;
                let b = d.last();
                assert forall|i: int|
                    self.spec_payload_len() <= i < r.remaining().len() implies !r.remaining()[i]
                    by {
                    assert(i / 8 == j && i % 8 >= self.trailing_bits);
                    let t = (i % 8) as u8;
                    let tr = self.trailing_bits;
                    assert((b >> t) & 1u8 != 1u8) by (bit_vector)
                        requires
                            b >> tr == 0,
                            tr <= t,
                            t < 8,
                    ;
                }
            }
        }
        r
    }

    /// The payload length in the original's counting: eight bits for each
    /// stored byte, plus the trailing width.
    pub fn bits_len(&self) -> (r: usize)
        requires
            self.wf(),
        ensures
            r == 8 * self.spec_raw().len() + self.spec_trailing_bits(),
    {
        self.data.len() * 8 + self.trailing_bits as usize
    }

    /// The stored bytes.
    pub fn raw_bytes(&self) -> (r: &[u8])
        ensures
            r@ == self.spec_raw(),
    {
        self.data.as_slice()
    }
}

/// A decoded variable-length u32 occupies at most the whole stream.
pub proof fn lemma_var_u32_len_bound(s: Seq<bool>, idx: int)
    ensures
        var_u32_rec(s, idx) matches Some(d) ==> 0 <= d.1 && 8 * d.1 <= s.len(),
    decreases 5 - idx,
{
    if idx < 5 && s.len() >= 8 {
        let b = bits_val(s.take(8)) as u8;
        if b >= 128 {
            lemma_var_u32_len_bound(s.skip(8), idx + 1);
        }
    }
}

/// A decoded coordinate occupies at least two bits and at most the whole
/// stream.
pub proof fn lemma_coord_len_bound(s: Seq<bool>)
    ensures
        coord_decode(s) matches Some(d) ==> 2 <= d.1 <= s.len(),
{
}

/// A decoded vector occupies at least three bits and at most the whole
/// stream.
pub proof fn lemma_vec3_len_bound(s: Seq<bool>)
    ensures
        vec3_decode(s) matches Some(d) ==> 3 <= d.1 <= s.len(),
{
    if s.len() >= 3 {
        if s[0] {
            lemma_coord_len_bound(s.skip(3));
        }
        if vec3_decode(s) is Some {
            let nx = if s[0] {
                coord_decode(s.skip(3))->Some_0.1
            } else {
                0int
            };
            if s[1] {
                lemma_coord_len_bound(s.skip(3 + nx));
            }
            let ny = if s[1] {
                coord_decode(s.skip(3 + nx))->Some_0.1
            } else {
                0int
            };
            if s[2] {
                lemma_coord_len_bound(s.skip(3 + nx + ny));
            }
        }
    }
}

/// The variable-length encoding of a value: seven data bits per byte, low
/// bits first, with the high bit marking a continuation.
pub open spec fn var_u32_encode(v: u32) -> Seq<u8>
    decreases v,
{
    if v < 128 {
        seq![v as u8]
    } else {
        seq![(v % 128 + 128) as u8] + var_u32_encode(v / 128)
    }
}

/// Round trip: decoding the variable-length encoding of any value yields the
/// value back and consumes exactly the encoded bytes.
pub proof fn lemma_var_u32_round_trip(v: u32)
    ensures
        var_u32_decode(stream_bits(var_u32_encode(v))) == Some(
            (v, var_u32_encode(v).len() as int),
        ),
{
    lemma2_to64();
    vstd::arithmetic::power2::lemma2_to64_rest();
    vstd::arithmetic::mul::lemma_mul_basics(v as int);
    assert((v as nat) * pow2(0) == v as nat) by {
        assert(pow2(0) == 1);
        vstd::arithmetic::mul::lemma_mul_basics(v as int);
    }
    lemma_var_u32_round_trip_rec(v, 0);
    assert(v << 0u32 == v) by (bit_vector);
}

/// Decoding the encoding of `v` from byte `idx` of the larger value yields
/// `v` shifted into its position.
proof fn lemma_var_u32_round_trip_rec(v: u32, idx: u8)
    requires
        idx <= 4,
        (v as nat) * pow2((7 * idx) as nat) < pow2(35),
    ensures
        var_u32_rec(stream_bits(var_u32_encode(v)), idx as int) matches Some(d) && d.0 == (v << ((
        7 * idx) as u32)) && d.1 == var_u32_encode(v).len(),
    decreases 4 - idx,
{
    let e = var_u32_encode(v);
    let s = stream_bits(e);
    crate::bitseq::lemma_stream_group8(e, 0);
    assert(s.take(8) =~= s.subrange(0, 8));
    lemma_bits_val_bound(s.subrange(0, 8));
    lemma2_to64();
    assert(bits_val(s.take(8)) == e[0]);
    crate::bitseq::lemma_stream_bits_skip(e, 1);
    let t = (7 * idx) as u32;
    if v < 128 {
        let b0 = v as u8;
        assert((b0 & 0x7f) == v) by (bit_vector)
            requires
                b0 == v && v < 128,
        ;
        assert(((b0 & 0x7f) as u32) << t == v << t);
    } else {
        let b0 = (v % 128 + 128) as u8;
        assert(b0 >= 128) by (bit_vector)
            requires
                b0 as int == v as int % 128 + 128,
        ;
        let rest = v / 128;
        assert(rest < v);
        assert(rest as nat * 128 <= v as nat) by {
            vstd::arithmetic::div_mod::lemma_fundamental_div_mod(v as int, 128);
        }
        assert(pow2((7 * (idx + 1)) as nat) == 128 * pow2((7 * idx) as nat)) by {
            vstd::arithmetic::power2::lemma_pow2_adds(7, (7 * idx) as nat);
            lemma2_to64();
        }
        assert((rest as nat) * pow2((7 * (idx + 1)) as nat) < pow2(35)) by (nonlinear_arith)
            requires
                rest as nat * 128 <= v as nat,
                (v as nat) * pow2((7 * idx) as nat) < pow2(35),
                pow2((7 * (idx + 1)) as nat) == 128 * pow2((7 * idx) as nat),
        ;
        assert(idx < 4) by {
            if idx == 4 {
                lemma2_to64();
                vstd::arithmetic::power2::lemma_pow2_adds(28, 7);
                assert(pow2(28) * 128 == pow2(35));
                vstd::arithmetic::mul::lemma_mul_inequality(
                    128,
                    v as int,
                    pow2(28) as int,
                );
                vstd::arithmetic::mul::lemma_mul_is_commutative(128, pow2(28) as int);
                vstd::arithmetic::mul::lemma_mul_is_commutative(v as int, pow2(28) as int);
            }
        }
        lemma_var_u32_round_trip_rec(rest, (idx + 1) as u8);
        assert(s.skip(8) =~= stream_bits(var_u32_encode(rest)));
        let r0 = rest << ((7 * (idx + 1)) as u32);
        assert((((b0 & 0x7f) as u32) << t) | r0 == v << t) by (bit_vector)
            requires
                b0 as int == v as int % 128 + 128,
                r0 == (v / 128) << ((t + 7) as u32),
                t <= 28,
        ;
    }
}

/// The magnitude of a decoded coordinate with any integer part, in units of
/// 1/32: zero, or between one unit above thirty-one and the largest
/// fourteen-bit integer plus a full fraction. Coordinates whose wire image
/// sets only the fractional flag fall below one and are excluded.
pub proof fn lemma_coord_magnitude(s: Seq<bool>)
    requires
        coord_decode(s) matches Some(d),
        coord_decode(s)->Some_0.0.integer != 0 || coord_decode(s)->Some_0.0.fraction == 0,
    ensures
        ({
            let n = coord_decode(s)->Some_0.0.numer_32nds();
            n == 0 || (32 <= n <= 16384 * 32 + 31) || (-(16384 * 32 + 31) <= n <= -32)
        }),
{
    let c = coord_decode(s)->Some_0.0;
    if s[0] {
        lemma_bits_val_bound(s.subrange(3, 17));
        lemma2_to64();
    }
    if s.len() >= 2 && (s[0] || s[1]) {
        if s[1] {
            let foff = if s[0] {
                17int
            } else {
                3int
            };
            lemma_bits_val_bound(s.subrange(foff, foff + 5));
            lemma2_to64();
        }
    }
}

/// A payload padded with cleared bits up to a whole byte.
pub open spec fn pad_to_byte(v: Seq<bool>) -> Seq<bool> {
    v + Seq::new(((8 - v.len() % 8) % 8) as nat, |i: int| false)
}

/// A fresh reader over a blob reads the payload and then cleared padding.
pub proof fn lemma_reader_of_blob(b: &Bits, r: &BitReader)
    requires
        b.wf(),
        r.remaining().len() == 8 * b.spec_raw().len(),
        r.remaining().take(b.spec_payload_len()) == b@,
        forall|i: int| b.spec_payload_len() <= i < r.remaining().len() ==> !r.remaining()[i],
    ensures
        r.remaining() == pad_to_byte(b@),
{
    assert(b@.len() == b.spec_payload_len());
    assert forall|i: int| 0 <= i < b.spec_payload_len() implies r.remaining()[i] == b@[i] by {
        assert(r.remaining().take(b.spec_payload_len())[i] == r.remaining()[i]);
    }
    assert(r.remaining() =~= pad_to_byte(b@));
}

/// Relies on String::from_utf8: it succeeds exactly on valid UTF-8, and the
/// returned string's characters decode the given bytes.
#[verifier::external_body]
pub(crate) fn string_from_utf8(v: Vec<u8>) -> (r: Option<String>)
    ensures
        r is Some <==> vstd::utf8::valid_utf8(v@),
        r matches Some(s) ==> s@ == vstd::utf8::decode_utf8(v@),
{
    String::from_utf8(v).ok()
}

} // verus!
