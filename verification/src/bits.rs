//! The number of binary digits of an integer, and when a product fits in 128 bits.

use vstd::arithmetic::power2::*;
use vstd::prelude::*;

verus! {

/// The number of binary digits of `x`: zero for zero, and one more than for half of `x`
/// otherwise.
pub open spec fn bit_length(x: u128) -> nat
    decreases x,
{
    if x == 0 {
        0
    } else {
        1 + bit_length(x / 2)
    }
}

/// `u128::leading_zeros` counts the zero bits above the highest bit that is set, so it and
/// the number of binary digits add up to 128.
pub assume_specification[ u128::leading_zeros ](x: u128) -> (r: u32)
    ensures
        r == 128 - bit_length(x),
;

/// An integer is below the power of two of its number of digits.
pub proof fn lemma_below_power_of_digits(x: u128)
    ensures
        x < pow2(bit_length(x)),
    decreases x,
{
    if x == 0 {
        lemma2_to64();
    } else {
        lemma_below_power_of_digits(x / 2);
        lemma_pow2_unfold(bit_length(x));
    }
}

/// Two to the power 128 is one more than the largest `u128`.
pub proof fn lemma_pow2_128()
    ensures
        pow2(128) == u128::MAX + 1,
{
    lemma2_to64();
    lemma_pow2_adds(64, 64);
    assert(0x1_0000_0000_0000_0000int * 0x1_0000_0000_0000_0000int == u128::MAX + 1)
        by (nonlinear_arith);
}

/// Two integers whose digits number at most 128 together have a product of at most 128
/// digits.
pub proof fn lemma_product_fits(x: u128, y: u128)
    requires
        bit_length(x) + bit_length(y) <= 128,
    ensures
        x * y <= u128::MAX,
{
    let a = bit_length(x);
    let b = bit_length(y);
    lemma_below_power_of_digits(x);
    lemma_below_power_of_digits(y);
    lemma_pow2_adds(a, b);
    lemma_pow2_128();
    if a + b < 128 {
        lemma_pow2_strictly_increases(a + b, 128);
    }
    let pa = pow2(a) as int;
    let pb = pow2(b) as int;
    assert(x * y < pa * pb) by (nonlinear_arith)
        requires
            0 <= x < pa,
            0 <= y < pb,
    ;
}

} // verus!
