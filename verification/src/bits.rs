//! Facts about single bits of fixed-width masks.

use vstd::prelude::*;

verus! {

/// Whether bit `i` of `mask` is set.
pub open spec fn bit128(mask: u128, i: u8) -> bool {
    mask & (1u128 << i) != 0
}

/// Whether bit `i` of `mask` is set.
pub open spec fn bit16(mask: u16, i: u8) -> bool {
    mask & (1u16 << i) != 0
}

/// No bit of zero is set.
pub proof fn lemma_bit128_zero(i: u8)
    requires
        i < 128,
    ensures
        !bit128(0, i),
{
    assert(0u128 & (1u128 << i) == 0) by (bit_vector)
        requires
            i < 128,
    ;
}

/// Setting bit `i` sets that bit and leaves every other bit as it was.
pub proof fn lemma_bit128_set(mask: u128, i: u8, j: u8)
    requires
        i < 128,
        j < 128,
    ensures
        bit128(mask | (1u128 << i), j) == (j == i || bit128(mask, j)),
{
    assert(((mask | (1u128 << i)) & (1u128 << j) != 0) == (j == i || mask & (1u128 << j) != 0))
        by (bit_vector)
        requires
            i < 128,
            j < 128,
    ;
}

/// Clearing bit `i` clears that bit and leaves every other bit as it was.
pub proof fn lemma_bit128_clear(mask: u128, i: u8, j: u8)
    requires
        i < 128,
        j < 128,
    ensures
        bit128(mask & !(1u128 << i), j) == (j != i && bit128(mask, j)),
{
    assert(((mask & !(1u128 << i)) & (1u128 << j) != 0) == (j != i && mask & (1u128 << j) != 0))
        by (bit_vector)
        requires
            i < 128,
            j < 128,
    ;
}

/// No bit of zero is set.
pub proof fn lemma_bit16_zero(i: u8)
    requires
        i < 16,
    ensures
        !bit16(0, i),
{
    assert(0u16 & (1u16 << i) == 0) by (bit_vector)
        requires
            i < 16,
    ;
}

/// Setting bit `i` sets that bit and leaves every other bit as it was.
pub proof fn lemma_bit16_set(mask: u16, i: u8, j: u8)
    requires
        i < 16,
        j < 16,
    ensures
        bit16(mask | (1u16 << i), j) == (j == i || bit16(mask, j)),
{
    assert(((mask | (1u16 << i)) & (1u16 << j) != 0) == (j == i || mask & (1u16 << j) != 0))
        by (bit_vector)
        requires
            i < 16,
            j < 16,
    ;
}

} // verus!
