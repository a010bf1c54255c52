//! Powers of two: the side of a square of a given level.

use vstd::arithmetic::power::pow;
use vstd::arithmetic::power2::{lemma2_to64, pow2};
use vstd::prelude::*;

verus! {

/// The side of a square of the given level: `2^level`.
pub open spec fn side(level: nat) -> nat
    decreases level,
{
    if level == 0 {
        1
    } else {
        2 * side((level - 1) as nat)
    }
}

/// `usize::pow`: `base` raised to `exp`, where the power fits in a `usize`.
pub assume_specification[ usize::pow ](base: usize, exp: u32) -> (r: usize)
    requires
        pow(base as int, exp as nat) <= usize::MAX,
    ensures
        r == pow(base as int, exp as nat),
;

/// `i32::pow`: `base` raised to `exp`, where the power fits in an `i32`.
pub assume_specification[ i32::pow ](base: i32, exp: u32) -> (r: i32)
    requires
        i32::MIN <= pow(base as int, exp as nat) <= i32::MAX,
    ensures
        r == pow(base as int, exp as nat),
;

/// `side` is the power of two of vstd.
pub proof fn lemma_side_is_pow(level: nat)
    ensures
        side(level) == pow(2, level),
    decreases level,
{
    reveal(pow);
    if level > 0 {
        lemma_side_is_pow((level - 1) as nat);
    }
}

/// `side` is positive and grows with the level.
pub proof fn lemma_side_monotonic(a: nat, b: nat)
    requires
        a <= b,
    ensures
        1 <= side(a) <= side(b),
    decreases b,
{
    if b > 0 {
        if a < b {
            lemma_side_monotonic(a, (b - 1) as nat);
        } else {
            lemma_side_monotonic((a - 1) as nat, (b - 1) as nat);
        }
    }
}

/// A level whose side fits in a `usize` is below the number of bits of one,
/// and so fits in a `u32`.
pub proof fn lemma_side_bounds_level(level: nat)
    requires
        side(level) <= usize::MAX,
    ensures
        level < 64,
    decreases level,
{
    if level >= 64 {
        lemma_side_monotonic(64, level);
        lemma_side_is_pow(64);
        lemma2_to64();
        assert(side(64) == pow2(64));
    }
}

/// Half the side of a square of level `level >= 1`, computed without
/// overflow.
pub fn half_side(level: usize) -> (d: usize)
    requires
        level >= 1,
        side(level as nat) <= usize::MAX,
    ensures
        d == side((level - 1) as nat),
{
    proof {
        lemma_side_bounds_level(level as nat);
        lemma_side_is_pow((level - 1) as nat);
    }
    2usize.pow(level as u32 - 1)
}

} // verus!
