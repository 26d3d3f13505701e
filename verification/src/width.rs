//! Number of bits that a symbol takes.

use crate::distance::{distance, ones};
use vstd::prelude::*;

verus! {

/// Number of bits needed to write `x` in binary: zero for zero, else the
/// position of the highest one bit, counted from one.
pub open spec fn width(x: u8) -> nat
    decreases x,
{
    if x == 0 {
        0
    } else {
        1 + width(x / 2)
    }
}

/// The largest width among the symbols of `s`; zero if there is none.
pub open spec fn widest(s: Seq<u8>) -> nat
    decreases s.len(),
{
    if s.len() == 0 {
        0
    } else if widest(s.drop_last()) >= width(s.last()) {
        widest(s.drop_last())
    } else {
        width(s.last())
    }
}

/// No symbol is wider than eight bits.
pub proof fn lemma_width_bound(x: u8)
    ensures
        width(x) <= 8,
{
    reveal_with_fuel(width, 9);
}

/// A symbol has at most as many one bits as its width.
pub proof fn lemma_ones_within_width(x: u8)
    ensures
        ones(x) <= width(x),
    decreases x,
{
    if x != 0 {
        lemma_ones_within_width(x / 2);
    }
}

/// A symbol of width at most `w` is below the `w`-th power of two, and
/// conversely.
proof fn lemma_width_range(x: u8, w: nat)
    ensures
        w == 0 ==> (width(x) <= w <==> x < 1),
        w == 1 ==> (width(x) <= w <==> x < 2),
        w == 2 ==> (width(x) <= w <==> x < 4),
        w == 3 ==> (width(x) <= w <==> x < 8),
        w == 4 ==> (width(x) <= w <==> x < 16),
        w == 5 ==> (width(x) <= w <==> x < 32),
        w == 6 ==> (width(x) <= w <==> x < 64),
        w == 7 ==> (width(x) <= w <==> x < 128),
        w >= 8 ==> width(x) <= w,
{
    reveal_with_fuel(width, 9);
}

/// The exclusive or of two symbols is no wider than the wider of the two.
pub proof fn lemma_xor_width(a: u8, b: u8, w: nat)
    requires
        width(a) <= w,
        width(b) <= w,
    ensures
        width(a ^ b) <= w,
{
    lemma_width_range(a, w);
    lemma_width_range(b, w);
    lemma_width_range(a ^ b, w);
    assert(a < 1 && b < 1 ==> a ^ b < 1) by (bit_vector);
    assert(a < 2 && b < 2 ==> a ^ b < 2) by (bit_vector);
    assert(a < 4 && b < 4 ==> a ^ b < 4) by (bit_vector);
    assert(a < 8 && b < 8 ==> a ^ b < 8) by (bit_vector);
    assert(a < 16 && b < 16 ==> a ^ b < 16) by (bit_vector);
    assert(a < 32 && b < 32 ==> a ^ b < 32) by (bit_vector);
    assert(a < 64 && b < 64 ==> a ^ b < 64) by (bit_vector);
    assert(a < 128 && b < 128 ==> a ^ b < 128) by (bit_vector);
}

/// Two symbols of width at most `w` differ in at most `w` bit positions.
pub proof fn lemma_distance_within_width(a: u8, b: u8, w: nat)
    requires
        width(a) <= w,
        width(b) <= w,
    ensures
        distance(a, b) <= w,
{
    lemma_xor_width(a, b, w);
    lemma_ones_within_width(a ^ b);
}

/// No symbol of `s` is wider than `widest(s)`.
pub proof fn lemma_widest_covers(s: Seq<u8>, i: int)
    requires
        0 <= i < s.len(),
    ensures
        width(s[i]) <= widest(s),
    decreases s.len(),
{
    if i < s.len() - 1 {
        lemma_widest_covers(s.drop_last(), i);
    }
}

/// Number of bits needed to write `x` in binary.
pub fn bit_width(x: u8) -> (w: u8)
    ensures
        w == width(x),
        w <= 8,
{
    let zeros: u32 = x.leading_zeros();
    proof {
        lemma_width_bound(x);
        lemma_leading_zeros(x);
    }
    (8 - zeros) as u8
}

/// The leading zeros of a symbol are the bits above its width.
proof fn lemma_leading_zeros(x: u8)
    ensures
        x.leading_zeros() + width(x) == 8,
{
    let z = x.leading_zeros();
    vstd::std_specs::bits::axiom_u8_leading_zeros(x);
    reveal_with_fuel(width, 9);
    assert(z == 0 ==> (x >> 7u8) & 1u8 != 0u8 ==> x >= 128) by (bit_vector);
    assert(z == 1 ==> (x >> 6u8) & 1u8 != 0u8 && x >> 7u8 == 0 ==> 64 <= x < 128) by (bit_vector);
    assert(z == 2 ==> (x >> 5u8) & 1u8 != 0u8 && x >> 6u8 == 0 ==> 32 <= x < 64) by (bit_vector);
    assert(z == 3 ==> (x >> 4u8) & 1u8 != 0u8 && x >> 5u8 == 0 ==> 16 <= x < 32) by (bit_vector);
    assert(z == 4 ==> (x >> 3u8) & 1u8 != 0u8 && x >> 4u8 == 0 ==> 8 <= x < 16) by (bit_vector);
    assert(z == 5 ==> (x >> 2u8) & 1u8 != 0u8 && x >> 3u8 == 0 ==> 4 <= x < 8) by (bit_vector);
    assert(z == 6 ==> (x >> 1u8) & 1u8 != 0u8 && x >> 2u8 == 0 ==> 2 <= x < 4) by (bit_vector);
    assert(z == 7 ==> (x >> 0u8) & 1u8 != 0u8 && x >> 1u8 == 0 ==> 1 <= x < 2) by (bit_vector);
}

} // verus!
