//! Hamming distance between two symbols.

use vstd::prelude::*;

verus! {

/// Number of one bits in `x`.
pub open spec fn ones(x: u8) -> nat
    decreases x,
{
    if x == 0 {
        0
    } else {
        (x % 2) as nat + ones(x / 2)
    }
}

/// Hamming distance: the number of bit positions at which `a` and `b` differ.
pub open spec fn distance(a: u8, b: u8) -> nat {
    ones(a ^ b)
}

/// `u8::count_ones` of std: the number of ones in the binary representation
/// of its argument.
pub assume_specification[ u8::count_ones ](x: u8) -> (r: u32)
    ensures
        r == ones(x),
;

/// No symbol has more than eight one bits.
pub proof fn lemma_ones_bound(x: u8)
    ensures
        ones(x) <= 8,
{
    reveal_with_fuel(ones, 9);
}

/// Only zero has no one bit.
pub proof fn lemma_ones_zero(x: u8)
    ensures
        ones(x) == 0 <==> x == 0,
{
    reveal_with_fuel(ones, 9);
}

/// No two symbols differ in more than the eight bits that a symbol has.
pub proof fn lemma_distance_bound(a: u8, b: u8)
    ensures
        distance(a, b) <= 8,
{
    lemma_ones_bound(a ^ b);
}

/// Every symbol is at distance zero from itself.
pub proof fn lemma_distance_self(a: u8)
    ensures
        distance(a, a) == 0,
{
    assert(a ^ a == 0) by (bit_vector);
}

/// The distance does not depend on the order of the two symbols.
pub proof fn lemma_distance_symmetric(a: u8, b: u8)
    ensures
        distance(a, b) == distance(b, a),
{
    assert(a ^ b == b ^ a) by (bit_vector);
}

/// Two symbols are at distance zero exactly when they are equal.
pub proof fn lemma_distance_zero(a: u8, b: u8)
    ensures
        distance(a, b) == 0 <==> a == b,
{
    lemma_ones_zero(a ^ b);
    assert(a ^ b == 0 <==> a == b) by (bit_vector);
}

/// Hamming distance between `x` and `y`.
pub fn hd(x: u8, y: u8) -> (d: u32)
    ensures
        d == distance(x, y),
        d <= 8,
{
    proof {
        lemma_distance_bound(x, y);
    }
    (x ^ y).count_ones()
}

} // verus!
