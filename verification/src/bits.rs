//! The rule of the Game of Life on a packed neighbourhood.

use crate::life::rule;
use vstd::prelude::*;

verus! {

/// Bit `i` of `m`.
pub open spec fn bit(m: u16, i: u16) -> nat {
    ((m >> i) & 1) as nat
}

/// The number of ones in the binary representation of `x`.
pub open spec fn ones(x: u16) -> nat
    decreases x,
{
    if x == 0 {
        0
    } else {
        (x % 2) as nat + ones(x / 2)
    }
}

/// `u16::count_ones`: the number of ones in the binary representation.
pub assume_specification[ u16::count_ones ](x: u16) -> (r: u32)
    ensures
        r == ones(x),
;

/// The next state of the cell at bit 5 of a packed neighbourhood. The
/// neighbourhood holds three rows of a grid four cells wide, so that the
/// eight neighbours of bit 5 are the bits 0, 1, 2, 4, 6, 8, 9 and 10.
pub open spec fn next_state(m: u16) -> usize {
    let n = bit(m, 0) + bit(m, 1) + bit(m, 2) + bit(m, 4) + bit(m, 6) + bit(m, 8) + bit(m, 9) + bit(
        m,
        10,
    );
    if rule(bit(m, 5) != 0, n) {
        1
    } else {
        0
    }
}

/// Peeling the lowest bit off a number.
proof fn lemma_ones_step(c: nat, rest: nat)
    requires
        c <= 1,
        c + 2 * rest <= u16::MAX,
    ensures
        ones((c + 2 * rest) as u16) == c + ones(rest as u16),
{
    let x = (c + 2 * rest) as u16;
    if x != 0 {
        assert(x % 2 == c);
        assert(x / 2 == rest);
    }
}

/// The ones of a neighbourhood masked down to the eight neighbours are the
/// live neighbours.
pub proof fn lemma_ones_masked(m: u16)
    ensures
        ones(m & 0b111_0101_0111) == bit(m, 0) + bit(m, 1) + bit(m, 2) + bit(m, 4) + bit(m, 6)
            + bit(m, 8) + bit(m, 9) + bit(m, 10),
{
    let k = m & 0b111_0101_0111;
    let b0 = (m >> 0u16) & 1;
    let b1 = (m >> 1u16) & 1;
    let b2 = (m >> 2u16) & 1;
    let b4 = (m >> 4u16) & 1;
    let b6 = (m >> 6u16) & 1;
    let b8 = (m >> 8u16) & 1;
    let b9 = (m >> 9u16) & 1;
    let b10 = (m >> 10u16) & 1;
    assert(b0 <= 1 && b1 <= 1 && b2 <= 1 && b4 <= 1 && b6 <= 1 && b8 <= 1 && b9 <= 1 && b10 <= 1
        && k == b0 + 2 * b1 + 4 * b2 + 16 * b4 + 64 * b6 + 256 * b8 + 512 * b9 + 1024 * b10)
        by (bit_vector)
        requires
            k == m & 0b111_0101_0111,
            b0 == (m >> 0u16) & 1,
            b1 == (m >> 1u16) & 1,
            b2 == (m >> 2u16) & 1,
            b4 == (m >> 4u16) & 1,
            b6 == (m >> 6u16) & 1,
            b8 == (m >> 8u16) & 1,
            b9 == (m >> 9u16) & 1,
            b10 == (m >> 10u16) & 1,
    ;
    let r10: nat = b10 as nat;
    let r9: nat = (b9 + 2 * r10) as nat;
    let r8: nat = (b8 + 2 * r9) as nat;
    let r7: nat = 2 * r8;
    let r6: nat = (b6 + 2 * r7) as nat;
    let r5: nat = 2 * r6;
    let r4: nat = (b4 + 2 * r5) as nat;
    let r3: nat = 2 * r4;
    let r2: nat = (b2 + 2 * r3) as nat;
    let r1: nat = (b1 + 2 * r2) as nat;
    let r0: nat = (b0 + 2 * r1) as nat;
    assert(r0 == k);
    lemma_ones_step(b10 as nat, 0);
    lemma_ones_step(b9 as nat, r10);
    lemma_ones_step(b8 as nat, r9);
    lemma_ones_step(0, r8);
    lemma_ones_step(b6 as nat, r7);
    lemma_ones_step(0, r6);
    lemma_ones_step(b4 as nat, r5);
    lemma_ones_step(0, r4);
    lemma_ones_step(b2 as nat, r3);
    lemma_ones_step(b1 as nat, r2);
    lemma_ones_step(b0 as nat, r1);
}

/// A neighbourhood without a live cell has no live bit.
pub proof fn lemma_next_state_zero()
    ensures
        next_state(0) == 0,
{
    assert(forall|i: u16| #[trigger] ((0u16 >> i) & 1) == 0) by (bit_vector);
}

/// Shifting a sixteen-bit word that uses at most fifteen bits up by one
/// doubles it.
pub proof fn lemma_shift_doubles(b: u16)
    requires
        b < 0x8000,
    ensures
        (b << 1) == 2 * b,
{
    assert((b << 1u16) == 2 * b) by (bit_vector)
        requires
            b < 0x8000,
    ;
}

/// The bits of a word given as the sum of sixteen binary digits.
pub proof fn lemma_unpack(
    b: u16,
    c0: u16,
    c1: u16,
    c2: u16,
    c3: u16,
    c4: u16,
    c5: u16,
    c6: u16,
    c7: u16,
    c8: u16,
    c9: u16,
    c10: u16,
    c11: u16,
    c12: u16,
    c13: u16,
    c14: u16,
    c15: u16,
)
    by (bit_vector)
    requires
        c0 <= 1 && c1 <= 1 && c2 <= 1 && c3 <= 1 && c4 <= 1 && c5 <= 1 && c6 <= 1 && c7 <= 1,
        c8 <= 1 && c9 <= 1 && c10 <= 1 && c11 <= 1 && c12 <= 1 && c13 <= 1 && c14 <= 1 && c15 <= 1,
        b == 32768 * c0 + 16384 * c1 + 8192 * c2 + 4096 * c3 + 2048 * c4 + 1024 * c5 + 512 * c6
            + 256 * c7 + 128 * c8 + 64 * c9 + 32 * c10 + 16 * c11 + 8 * c12 + 4 * c13 + 2 * c14
            + c15,
    ensures
        (b >> 15u16) & 1 == c0,
        (b >> 14u16) & 1 == c1,
        (b >> 13u16) & 1 == c2,
        (b >> 12u16) & 1 == c3,
        (b >> 11u16) & 1 == c4,
        (b >> 10u16) & 1 == c5,
        (b >> 9u16) & 1 == c6,
        (b >> 8u16) & 1 == c7,
        (b >> 7u16) & 1 == c8,
        (b >> 6u16) & 1 == c9,
        (b >> 5u16) & 1 == c10,
        (b >> 4u16) & 1 == c11,
        (b >> 3u16) & 1 == c12,
        (b >> 2u16) & 1 == c13,
        (b >> 1u16) & 1 == c14,
        (b >> 0u16) & 1 == c15,
{
}

/// A bit of a shifted word is the bit that many places up.
pub proof fn lemma_bit_of_shift(b: u16, s: u16, i: u16)
    requires
        s <= 5,
        i <= 10,
    ensures
        bit(b >> s, i) == bit(b, (s + i) as u16),
{
    let j = (s + i) as u16;
    assert(((b >> s) >> i) & 1 == (b >> j) & 1) by (bit_vector)
        requires
            s <= 5,
            i <= 10,
            j == s + i,
    ;
}

/// Shifting by no places changes nothing.
pub proof fn lemma_shift_zero(b: u16)
    ensures
        b >> 0u16 == b,
{
    assert(b >> 0u16 == b) by (bit_vector);
}

} // verus!
