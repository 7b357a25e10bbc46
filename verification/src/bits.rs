//! Facts about single bits of machine words, proved with the bit-vector solver.
//! Every bit set in this crate (cards, seats, flags) is reasoned about through these.
use vstd::prelude::*;
use vstd::std_specs::bits::{axiom_u64_trailing_zeros, u64_trailing_zeros};

verus! {

/// Bit `i` of the 64-bit word `b` is set.
pub open spec fn bit64(b: u64, i: u64) -> bool {
    (b >> i) & 1u64 == 1u64
}

/// Bit `i` of the 32-bit word `b` is set.
pub open spec fn bit32(b: u32, i: u32) -> bool {
    (b >> i) & 1u32 == 1u32
}

/// Bit `i` of the 16-bit word `b` is set.
pub open spec fn bit16(b: u16, i: u16) -> bool {
    (b >> i) & 1u16 == 1u16
}

/// Bit `i` of the 8-bit word `b` is set.
pub open spec fn bit8(b: u8, i: u8) -> bool {
    (b >> i) & 1u8 == 1u8
}

pub proof fn lemma_bit64_or(a: u64, b: u64, i: u64)
    by (bit_vector)
    requires
        i < 64,
    ensures
        bit64(a | b, i) == (bit64(a, i) || bit64(b, i)),
{
}

pub proof fn lemma_bit64_and(a: u64, b: u64, i: u64)
    by (bit_vector)
    requires
        i < 64,
    ensures
        bit64(a & b, i) == (bit64(a, i) && bit64(b, i)),
{
}

pub proof fn lemma_bit64_and_not(a: u64, b: u64, i: u64)
    by (bit_vector)
    requires
        i < 64,
    ensures
        bit64(a & !b, i) == (bit64(a, i) && !bit64(b, i)),
{
}

pub proof fn lemma_bit64_xor(a: u64, b: u64, i: u64)
    by (bit_vector)
    requires
        i < 64,
    ensures
        bit64(a ^ b, i) == (bit64(a, i) != bit64(b, i)),
{
}

pub proof fn lemma_bit64_single(j: u64, i: u64)
    by (bit_vector)
    requires
        i < 64,
        j < 64,
    ensures
        bit64(1u64 << j, i) == (i == j),
{
}

pub proof fn lemma_bit64_zero(i: u64)
    by (bit_vector)
    ensures
        !bit64(0u64, i),
{
}

/// `a` absorbs `b` under union exactly when `b` has no bit outside `a`.
pub proof fn lemma_bit64_absorbs(a: u64, b: u64)
    by (bit_vector)
    ensures
        (a == (a | b)) == (b & !a == 0u64),
{
}

/// Bits `0..=j` set: the mask `2 * (1 << j) - 1`.
pub proof fn lemma_bit64_up_to(j: u64, i: u64)
    by (bit_vector)
    requires
        j < 63,
        i < 64,
    ensures
        bit64((2 * (1u64 << j) - 1) as u64, i) == (i <= j),
        !bit64(!((2 * (1u64 << j) - 1) as u64), i) == (i <= j),
{
}

pub proof fn lemma_bit64_shl_bounds(j: u64)
    by (bit_vector)
    requires
        j <= 60,
    ensures
        1u64 <= (1u64 << j),
        (1u64 << j) <= 0x1000_0000_0000_0000u64,
{
}

/// Bits `0..j` set: the mask `(1 << j) - 1`.
pub proof fn lemma_bit64_below(j: u64, i: u64)
    by (bit_vector)
    requires
        j < 64,
        i < 64,
    ensures
        bit64(((1u64 << j) - 1) as u64, i) == (i < j),
{
}

/// The thirteen bits of one suit, starting at bit `16 * s`.
pub proof fn lemma_bit64_suit_mask(s: u64, i: u64)
    by (bit_vector)
    requires
        s < 4,
        i < 64,
    ensures
        bit64(0x1fffu64 << (16 * s) as u64, i) == ((16 * s) as u64 <= i && i < 16 * s + 13),
{
}

/// The bits that stand for cards: the low thirteen of every sixteen.
pub proof fn lemma_bit64_all_cards(i: u64)
    by (bit_vector)
    requires
        i < 64,
    ensures
        bit64(0x1fff_1fff_1fff_1fffu64, i) == (i % 16 < 13),
{
}

/// Two words that agree on every bit are equal.
pub proof fn lemma_bit64_ext(a: u64, b: u64)
    requires
        forall|i: u64| i < 64 ==> #[trigger] bit64(a, i) == bit64(b, i),
    ensures
        a == b,
{
    if a != b {
        let x = a ^ b;
        assert(x != 0u64) by (bit_vector)
            requires
                a != b,
                x == a ^ b,
        ;
        let t = lemma_bit64_nonzero(x);
        lemma_bit64_xor(a, b, t);
        assert(bit64(a, t) == bit64(b, t));
    }
}

/// A nonzero word has a set bit; the lowest one is returned.
pub proof fn lemma_bit64_nonzero(x: u64) -> (t: u64)
    requires
        x != 0,
    ensures
        t < 64,
        bit64(x, t),
        t == u64_trailing_zeros(x),
{
    axiom_u64_trailing_zeros(x);
    u64_trailing_zeros(x) as u64
}

pub proof fn lemma_bit8_or(a: u8, b: u8, i: u8)
    by (bit_vector)
    requires
        i < 8,
    ensures
        bit8(a | b, i) == (bit8(a, i) || bit8(b, i)),
{
}

pub proof fn lemma_bit8_single(j: u8, i: u8)
    by (bit_vector)
    requires
        i < 8,
        j < 8,
    ensures
        bit8(1u8 << j, i) == (i == j),
{
}

pub proof fn lemma_bit8_zero(i: u8)
    by (bit_vector)
    ensures
        !bit8(0u8, i),
{
}

/// The received flags (high four bits) and done flags (low four bits) of a byte.
pub proof fn lemma_bit8_nibbles(x: u8)
    by (bit_vector)
    ensures
        (x & 0xf0u8 == 0xf0u8) == (bit8(x, 4) && bit8(x, 5) && bit8(x, 6) && bit8(x, 7)),
        (x & 0x0fu8 == 0x0fu8) == (bit8(x, 0) && bit8(x, 1) && bit8(x, 2) && bit8(x, 3)),
{
}

pub proof fn lemma_bit16_or(a: u16, b: u16, i: u16)
    by (bit_vector)
    requires
        i < 16,
    ensures
        bit16(a | b, i) == (bit16(a, i) || bit16(b, i)),
{
}

pub proof fn lemma_bit16_single(j: u16, i: u16)
    by (bit_vector)
    requires
        i < 16,
        j < 16,
    ensures
        bit16(1u16 << j, i) == (i == j),
{
}

pub proof fn lemma_bit16_zero(i: u16)
    by (bit_vector)
    ensures
        !bit16(0u16, i),
{
}

/// The nibble of `x` that starts at bit `4 * n`.
pub proof fn lemma_bit16_nibble(x: u16, n: u16, a: u16)
    by (bit_vector)
    requires
        n < 4,
        a < 4,
    ensures
        ((x >> (4 * n) as u16) & 0xfu16 != 0u16) == (bit16(x, (4 * n) as u16) || bit16(
            x,
            (4 * n + 1) as u16,
        ) || bit16(x, (4 * n + 2) as u16) || bit16(x, (4 * n + 3) as u16)),
        ((x >> (4 * n) as u16) & 0xfu16 == 0xfu16) == (bit16(x, (4 * n) as u16) && bit16(
            x,
            (4 * n + 1) as u16,
        ) && bit16(x, (4 * n + 2) as u16) && bit16(x, (4 * n + 3) as u16)),
        (((x >> (4 * n) as u16) | (1u16 << a)) & 0xfu16 == 0xfu16) == ((bit16(x, (4 * n) as u16)
            || a == 0) && (bit16(x, (4 * n + 1) as u16) || a == 1) && (bit16(x, (4 * n + 2) as u16)
            || a == 2) && (bit16(x, (4 * n + 3) as u16) || a == 3)),
{
}

/// Clearing the nibble that starts at bit `4 * n`.
pub proof fn lemma_bit16_clear_nibble(x: u16, n: u16, i: u16)
    by (bit_vector)
    requires
        n < 4,
        i < 16,
    ensures
        bit16(x & !(0xfu16 << (4 * n) as u16), i) == (bit16(x, i) && !((4 * n) as u16 <= i && i
            < (4 * n + 4) as u16)),
        bit16(x & (0xfu16 << (4 * n) as u16), i) == (bit16(x, i) && ((4 * n) as u16 <= i && i
            < (4 * n + 4) as u16)),
{
}

/// One bit of the same place in every nibble: the place `k` of `0x1111 << k`.
pub proof fn lemma_bit16_column(x: u16, k: u16)
    by (bit_vector)
    requires
        k < 4,
    ensures
        (x & (0x1111u16 << k) != 0u16) == (bit16(x, k) || bit16(x, (4 + k) as u16) || bit16(
            x,
            (8 + k) as u16,
        ) || bit16(x, (12 + k) as u16)),
{
}

pub proof fn lemma_bit8_test(x: u8, j: u8)
    by (bit_vector)
    requires
        j < 8,
    ensures
        (x & (1u8 << j) != 0u8) == bit8(x, j),
{
}

pub proof fn lemma_bit16_test(x: u16, j: u16)
    by (bit_vector)
    requires
        j < 16,
    ensures
        (x & (1u16 << j) != 0u16) == bit16(x, j),
{
}

} // verus!
