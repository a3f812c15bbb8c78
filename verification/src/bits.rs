//! Facts about shifting and masking 64-bit chunks, proved by bit blasting.

use vstd::prelude::*;

use crate::tickmap::bit_of;

verus! {

/// The lowest bit of a shifted chunk is the bit at the shift.
pub proof fn lemma_shift_low_bit(v: u64, b: u8)
    requires
        b < 64,
    ensures
        (v >> b) % 2 == bit_of(v, b),
        bit_of(v, b) <= 1,
{
    assert((v >> b) % 2 == (v >> b) & 1 && (v >> b) & 1 <= 1) by (bit_vector)
        requires
            b < 64,
    ;
}

/// Shifting one more place.
pub proof fn lemma_shift_step(v: u64, b: u8)
    requires
        b < 63,
    ensures
        (v >> b) >> 1u64 == v >> ((b + 1) as u8),
{
    assert((v >> b) >> 1u64 == v >> ((b + 1) as u8)) by (bit_vector)
        requires
            b < 63,
    ;
}

/// A non-zero shifted chunk whose lowest bit is clear has a set bit further up.
pub proof fn lemma_shift_nonzero_even(v: u64, b: u8)
    requires
        b < 64,
        v >> b != 0,
        (v >> b) % 2 == 0,
    ensures
        b < 63,
{
    assert(b < 63) by (bit_vector)
        requires
            b < 64,
            v >> b != 0,
            (v >> b) % 2 == 0,
    ;
}

/// Halving a non-zero even shifted chunk leaves it non-zero.
pub proof fn lemma_shift_half_nonzero(v: u64, b: u8)
    requires
        b < 64,
        v >> b != 0,
        (v >> b) % 2 == 0,
    ensures
        (v >> b) >> 1u64 != 0,
{
    assert((v >> b) >> 1u64 != 0) by (bit_vector)
        requires
            b < 64,
            v >> b != 0,
            (v >> b) % 2 == 0,
    ;
}

/// When a shifted chunk is zero, every bit from the shift upwards is clear.
pub proof fn lemma_shift_zero(v: u64, b: u8, p: u8)
    requires
        b <= p < 64,
        v >> b == 0,
    ensures
        bit_of(v, p) == 0,
{
    assert((v >> p) & 1 == 0) by (bit_vector)
        requires
            b <= p < 64,
            v >> b == 0,
    ;
}

/// A chunk has a set bit at or below `b` exactly when masking it with the
/// `b + 1` lowest bits leaves something.
pub proof fn lemma_low_bits(v: u64, b: u8)
    requires
        b < 64,
    ensures
        ((1u128 << b) << 1u128) > 0,
        ((v as u128) & ((((1u128 << b) << 1u128) - 1) as u128) != 0) == (exists|p: u8|
            p <= b && #[trigger] bit_of(v, p) == 1),
    decreases b,
{
    assert(((1u128 << b) << 1u128) > 0) by (bit_vector)
        requires
            b < 64,
    ;
    if (v >> b) & 1 == 1 {
        assert((v as u128) & ((((1u128 << b) << 1u128) - 1) as u128) != 0) by (bit_vector)
            requires
                b < 64,
                (v >> b) & 1 == 1,
        ;
        assert(bit_of(v, b) == 1);
    } else if b == 0 {
        assert((v as u128) & ((((1u128 << b) << 1u128) - 1) as u128) == 0) by (bit_vector)
            requires
                b == 0,
                (v >> b) & 1 != 1,
        ;
        assert forall|p: u8| p <= b implies #[trigger] bit_of(v, p) != 1 by {}
    } else {
        let c = (b - 1) as u8;
        assert((v as u128) & ((((1u128 << b) << 1u128) - 1) as u128) == (v as u128) & ((((1u128 << c) << 1u128) - 1) as u128)) by (bit_vector)
            requires
                0 < b < 64,
                c == b - 1,
                (v >> b) & 1 != 1,
        ;
        lemma_low_bits(v, c);
        if exists|p: u8| p <= b && #[trigger] bit_of(v, p) == 1 {
            let p = choose|p: u8| p <= b && #[trigger] bit_of(v, p) == 1;
            assert(p <= c);
        }
    }
}

/// Flipping one bit toggles it and keeps every other bit.
pub proof fn lemma_flip_bits(v: u64, b: u8)
    requires
        b < 64,
    ensures
        bit_of(v ^ (1u64 << b), b) == 1 - bit_of(v, b),
        bit_of(v, b) <= 1,
        forall|p: u8| p < 64 && p != b ==> #[trigger] bit_of(v ^ (1u64 << b), p) == bit_of(v, p),
{
    assert(((v ^ (1u64 << b)) >> b) & 1 == 1 - ((v >> b) & 1) && (v >> b) & 1 <= 1)
        by (bit_vector)
        requires
            b < 64,
    ;
    assert forall|p: u8| p < 64 && p != b implies #[trigger] bit_of(v ^ (1u64 << b), p) == bit_of(v, p) by {
        assert(((v ^ (1u64 << b)) >> p) & 1 == (v >> p) & 1) by (bit_vector)
            requires
                b < 64,
                p < 64,
                p != b,
        ;
    }
}

/// Testing a bit with a one-bit mask.
pub proof fn lemma_mask_bit(v: u64, b: u8)
    requires
        b < 64,
    ensures
        ((v as u128) & (1u128 << b) == 0) == (bit_of(v, b) == 0),
        bit_of(v, b) <= 1,
{
    assert((((v as u128) & (1u128 << b) == 0) == ((v >> b) & 1 == 0)) && (v >> b) & 1 <= 1)
        by (bit_vector)
        requires
            b < 64,
    ;
}

/// Moving a one-bit mask down one place.
pub proof fn lemma_mask_step(b: u8)
    requires
        0 < b < 64,
    ensures
        (1u128 << b) >> 1u128 == 1u128 << ((b - 1) as u8),
{
    assert((1u128 << b) >> 1u128 == 1u128 << ((b - 1) as u8)) by (bit_vector)
        requires
            0 < b < 64,
    ;
}

} // verus!
