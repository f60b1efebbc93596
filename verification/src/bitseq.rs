//! Mathematical model of little-endian bit streams.
//!
//! A demo payload is read as a stream of bits: bit `i` of the stream is bit
//! `i % 8` (least significant first) of byte `i / 8`. Multi-bit fields are
//! read least-significant-bit first, so the value of a field is the value of
//! its bit sequence with index 0 as the lowest bit.

use vstd::prelude::*;

verus! {

use vstd::arithmetic::power2::{pow2, lemma_pow2_adds, lemma_pow2_pos, lemma2_to64};
use vstd::arithmetic::div_mod::lemma_fundamental_div_mod_converse;

/// Bit `i` of a little-endian byte stream.
pub open spec fn stream_bit(bytes: Seq<u8>, i: int) -> bool {
    (bytes[i / 8] >> ((i % 8) as u8)) & 1u8 == 1u8
}

/// All bits of a byte stream, in reading order.
pub open spec fn stream_bits(bytes: Seq<u8>) -> Seq<bool> {
    Seq::new(bytes.len() * 8, |i: int| stream_bit(bytes, i))
}

/// The value of a bit sequence, index 0 being the least significant bit.
pub open spec fn bits_val(s: Seq<bool>) -> nat
    decreases s.len(),
{
    if s.len() == 0 {
        0
    } else {
        bits_val(s.drop_last()) + if s.last() {
            pow2((s.len() - 1) as nat)
        } else {
            0
        }
    }
}

/// Byte `i` of a bit sequence: the value of its bits `8*i .. 8*i + 8`.
pub open spec fn group8(s: Seq<bool>, i: int) -> u8 {
    bits_val(s.subrange(8 * i, 8 * i + 8)) as u8
}

/// A bit sequence's value is below two to its length.
pub proof fn lemma_bits_val_bound(s: Seq<bool>)
    ensures
        bits_val(s) < pow2(s.len()),
    decreases s.len(),
{
    lemma2_to64();
    if s.len() > 0 {
        lemma_bits_val_bound(s.drop_last());
        lemma_pow2_adds((s.len() - 1) as nat, 1);
    }
}

/// Splitting a bit sequence at `n` splits its value: the first `n` bits are
/// the low part, the rest is scaled by two to the `n`.
pub proof fn lemma_bits_val_split(s: Seq<bool>, n: int)
    requires
        0 <= n <= s.len(),
    ensures
        bits_val(s) == bits_val(s.take(n)) + pow2(n as nat) * bits_val(s.skip(n)),
    decreases s.len(),
{
    reveal_with_fuel(bits_val, 2);
    if n == s.len() {
        assert(s.take(n) =~= s);
        assert(s.skip(n) =~= Seq::<bool>::empty());
        assert(bits_val(Seq::<bool>::empty()) == 0);
    } else {
        let d = s.drop_last();
        lemma_bits_val_split(d, n);
        assert(d.take(n) =~= s.take(n));
        assert(d.skip(n) =~= s.skip(n).drop_last());
        let tail = s.skip(n);
        assert(tail.last() == s.last());
        assert(tail.len() == s.len() - n);
        let lastv: nat = if s.last() {
            pow2((s.len() - n - 1) as nat)
        } else {
            0
        };
        assert(bits_val(tail) == bits_val(tail.drop_last()) + lastv);
        if s.last() {
            lemma_pow2_adds(n as nat, (s.len() - n - 1) as nat);
        }
        vstd::arithmetic::mul::lemma_mul_is_distributive_add(
            pow2(n as nat) as int,
            bits_val(tail.drop_last()) as int,
            lastv as int,
        );
    }
}

/// The value of a single bit.
pub proof fn lemma_bits_val_single(s: Seq<bool>)
    requires
        s.len() == 1,
    ensures
        bits_val(s) == if s[0] {
            1nat
        } else {
            0nat
        },
{
    reveal_with_fuel(bits_val, 2);
    lemma2_to64();
    assert(s.drop_last() =~= Seq::<bool>::empty());
    assert(bits_val(Seq::<bool>::empty()) == 0);
}

/// The first eight bits of a byte's own bit stream give back the byte.
pub proof fn lemma_byte_bits_val(b: u8, s: Seq<bool>)
    requires
        s.len() == 8,
        forall|i: int| 0 <= i < 8 ==> s[i] == ((b >> (i as u8)) & 1u8 == 1u8),
    ensures
        bits_val(s) == b,
{
    lemma_byte_bits_val_low(b, s, 8);
    lemma2_to64();
    assert(s.take(8) =~= s);
    vstd::arithmetic::div_mod::lemma_small_mod(b as nat, 256);
}

proof fn lemma_byte_bits_val_low(b: u8, s: Seq<bool>, n: int)
    requires
        0 <= n <= 8 <= s.len(),
        forall|i: int| 0 <= i < 8 ==> s[i] == ((b >> (i as u8)) & 1u8 == 1u8),
    ensures
        bits_val(s.take(n)) == b as nat % pow2(n as nat),
    decreases n,
{
    lemma2_to64();
    if n == 0 {
        assert(s.take(0) =~= Seq::<bool>::empty());
    } else {
        lemma_byte_bits_val_low(b, s, n - 1);
        assert(s.take(n).drop_last() =~= s.take(n - 1));
        assert(s.take(n).last() == s[n - 1]);
        let m = (n - 1) as nat;
        let bitv: nat = if s[n - 1] {
            1
        } else {
            0
        };
        assert(bits_val(s.take(n)) == b as nat % pow2(m) + bitv * pow2(m)) by {
            lemma_pow2_pos(m);
        }
        let nm = (n - 1) as u8;
        assert((b >> nm) & 1u8 == (b / (1u8 << nm)) % 2) by (bit_vector)
            requires
                nm < 8,
        ;
        assert((1u8 << nm) == pow2(nm as nat)) by {
            vstd::bits::lemma_u8_shl_is_mul(1u8, nm);
            lemma_pow2_bounds();
        }
        assert(bitv == (b as nat / pow2(m)) % 2);
        assert(b as nat % pow2((m + 1) as nat) == b as nat % pow2(m) + ((b as nat / pow2(m)) % 2)
            * pow2(m)) by {
            lemma_pow2_pos(m);
            lemma_pow2_adds(m, 1);
            vstd::arithmetic::div_mod::lemma_mod_breakdown(b as int, pow2(m) as int, 2);
        }
    }
}

/// Two to any power up to seven fits in a byte.
proof fn lemma_pow2_bounds()
    ensures
        forall|n: nat| n < 8 ==> #[trigger] pow2(n) <= 128,
{
    lemma2_to64();
    assert forall|n: nat| n < 8 implies #[trigger] pow2(n) <= 128 by {
        if n >= 8 {
        } else {
            assert(pow2(0) == 1 && pow2(1) == 2 && pow2(2) == 4 && pow2(3) == 8 && pow2(4) == 16
                && pow2(5) == 32 && pow2(6) == 64 && pow2(7) == 128) by {
                lemma2_to64();
            }
        }
    }
}

/// Bit `i` of the byte holding the value of an eight-bit sequence is bit `i`
/// of that sequence.
pub proof fn lemma_val_byte_bits(s: Seq<bool>, i: int)
    requires
        s.len() == 8,
        0 <= i < 8,
    ensures
        ((bits_val(s) as u8) >> (i as u8)) & 1u8 == 1u8 <==> s[i],
{
    lemma_bits_val_bound(s);
    lemma2_to64();
    let b = bits_val(s) as u8;
    // b / 2^i mod 2 is bit i of s: split at i, then split the tail at 1.
    lemma_bits_val_split(s, i);
    let tail = s.skip(i);
    lemma_bits_val_split(tail, 1);
    lemma_bits_val_single(tail.take(1));
    assert(tail.take(1)[0] == s[i]);
    let low = bits_val(s.take(i));
    let bitv: nat = if s[i] {
        1
    } else {
        0
    };
    let rest = bits_val(tail.skip(1));
    assert(b as nat == low + pow2(i as nat) * (bitv + 2 * rest));
    lemma_bits_val_bound(s.take(i));
    lemma_pow2_pos(i as nat);
    assert(b as nat / pow2(i as nat) == bitv + 2 * rest) by {
        vstd::arithmetic::mul::lemma_mul_is_commutative(
            pow2(i as nat) as int,
            (bitv + 2 * rest) as int,
        );
        lemma_fundamental_div_mod_converse(
            b as int,
            pow2(i as nat) as int,
            (bitv + 2 * rest) as int,
            low as int,
        );
    }
    let iu = i as u8;
    assert((b >> iu) & 1u8 == (b / (1u8 << iu)) % 2) by (bit_vector)
        requires
            iu < 8,
    ;
    assert((1u8 << iu) == pow2(iu as nat)) by {
        vstd::bits::lemma_u8_shl_is_mul(1u8, iu);
        lemma_pow2_bounds();
    }
}

/// A sequence of cleared bits has value zero.
pub proof fn lemma_bits_val_zero(s: Seq<bool>)
    requires
        forall|i: int| 0 <= i < s.len() ==> !s[i],
    ensures
        bits_val(s) == 0,
    decreases s.len(),
{
    if s.len() > 0 {
        lemma_bits_val_zero(s.drop_last());
    }
}

/// Bit `i` of the byte holding the value of a short bit sequence is bit `i`
/// of that sequence.
pub proof fn lemma_val_byte_bits_partial(s: Seq<bool>, i: int)
    requires
        s.len() <= 8,
        0 <= i < s.len(),
    ensures
        ((bits_val(s) as u8) >> (i as u8)) & 1u8 == 1u8 <==> s[i],
{
    let p = s + Seq::new((8 - s.len()) as nat, |j: int| false);
    lemma_bits_val_split(p, s.len() as int);
    assert(p.take(s.len() as int) =~= s);
    lemma_bits_val_zero(p.skip(s.len() as int));
    assert(bits_val(p) == bits_val(s));
    lemma_val_byte_bits(p, i);
}

/// The index width for a capacity: the smallest `w` with `2^w >= n`.
pub open spec fn ceil_log2(n: nat) -> nat
    decreases n,
{
    if n <= 1 {
        0
    } else {
        1 + ceil_log2(((n + 1) / 2) as nat)
    }
}

/// The index width is at least wide enough, and one bit narrower is too
/// narrow.
pub proof fn lemma_ceil_log2(n: nat)
    ensures
        pow2(ceil_log2(n)) >= n,
        ceil_log2(n) > 0 ==> pow2((ceil_log2(n) - 1) as nat) < n,
    decreases n,
{
    lemma2_to64();
    if n > 1 {
        let m = ((n + 1) / 2) as nat;
        lemma_ceil_log2(m);
        lemma_pow2_adds(ceil_log2(m), 1);
        if ceil_log2(m) > 0 {
            lemma_pow2_adds((ceil_log2(m) - 1) as nat, 1);
        }
    }
}

/// Any width that is at least wide enough, and whose narrowing is too
/// narrow, is the index width.
pub proof fn lemma_ceil_log2_unique(n: nat, w: nat)
    requires
        pow2(w) >= n,
        w > 0 ==> pow2((w - 1) as nat) < n,
    ensures
        w == ceil_log2(n),
{
    lemma_ceil_log2(n);
    let c = ceil_log2(n);
    if w < c {
        vstd::arithmetic::power2::lemma_pow2_strictly_increases(w, c);
        if c > 0 && w <= c - 1 {
            if w < c - 1 {
                vstd::arithmetic::power2::lemma_pow2_strictly_increases(w, (c - 1) as nat);
            }
        }
    } else if w > c {
        if w - 1 > c {
            vstd::arithmetic::power2::lemma_pow2_strictly_increases(c, (w - 1) as nat);
        }
    }
}

/// The bits of a byte stream starting at byte `k` are the bits of the stream
/// without its first `k` bytes.
pub proof fn lemma_stream_bits_skip(bytes: Seq<u8>, k: int)
    requires
        0 <= k <= bytes.len(),
    ensures
        stream_bits(bytes).skip(8 * k) =~= stream_bits(bytes.skip(k)),
{
    assert forall|i: int| 0 <= i < (bytes.len() - k) * 8 implies stream_bits(bytes).skip(8 * k)[i]
        == stream_bits(bytes.skip(k))[i] by {
        assert((8 * k + i) / 8 == k + i / 8);
        assert((8 * k + i) % 8 == i % 8);
    }
}

/// Byte `i` of a byte stream's bits is the byte itself.
pub proof fn lemma_stream_group8(bytes: Seq<u8>, i: int)
    requires
        0 <= i < bytes.len(),
    ensures
        group8(stream_bits(bytes), i) == bytes[i],
{
    let s = stream_bits(bytes).subrange(8 * i, 8 * i + 8);
    assert forall|j: int| 0 <= j < 8 implies s[j] == ((bytes[i] >> (j as u8)) & 1u8 == 1u8) by {
        assert((8 * i + j) / 8 == i);
        assert((8 * i + j) % 8 == j);
    }
    lemma_byte_bits_val(bytes[i], s);
}

} // verus!
