//! The square root of the price at a tick: `1.0001^(tick / 2)` with 24
//! decimal places, built from one factor per bit of the tick.

use vstd::prelude::*;

use crate::error::ContractError;
use crate::tickmap::MAX_TICK;
use crate::types::SqrtPrice;

verus! {

/// One, with 12 decimal places.
pub const FIXED_ONE: u128 = 1_000_000_000_000;

/// The factor `1.0001^(2^k / 2)` with 12 decimal places, for bit `k` of a tick.
pub open spec fn sqrt_price_factor(k: nat) -> nat {
    if k == 0 {
        1000049998750
    } else if k == 1 {
        1000100000000
    } else if k == 2 {
        1000200010000
    } else if k == 3 {
        1000400060004
    } else if k == 4 {
        1000800280056
    } else if k == 5 {
        1001601200560
    } else if k == 6 {
        1003204964963
    } else if k == 7 {
        1006420201726
    } else if k == 8 {
        1012881622442
    } else if k == 9 {
        1025929181080
    } else if k == 10 {
        1052530684591
    } else if k == 11 {
        1107820842005
    } else if k == 12 {
        1227267017980
    } else if k == 13 {
        1506184333421
    } else if k == 14 {
        2268591246242
    } else if k == 15 {
        5146506242525
    } else if k == 16 {
        26486526504348
    } else {
        701536086265529
    }
}

/// The mask of bit `k`.
pub open spec fn bit_mask(k: nat) -> u32 {
    if k == 0 {
        0x1
    } else if k == 1 {
        0x2
    } else if k == 2 {
        0x4
    } else if k == 3 {
        0x8
    } else if k == 4 {
        0x10
    } else if k == 5 {
        0x20
    } else if k == 6 {
        0x40
    } else if k == 7 {
        0x80
    } else if k == 8 {
        0x100
    } else if k == 9 {
        0x200
    } else if k == 10 {
        0x400
    } else if k == 11 {
        0x800
    } else if k == 12 {
        0x1000
    } else if k == 13 {
        0x2000
    } else if k == 14 {
        0x4000
    } else if k == 15 {
        0x8000
    } else if k == 16 {
        0x1_0000
    } else {
        0x2_0000
    }
}

/// The product, with 12 decimal places and rounded down after each step, of the
/// factors of the bits below `k` that are set in `t`.
pub open spec fn fixed_sqrt_price(t: u32, k: nat) -> nat
    decreases k,
{
    if k == 0 {
        FIXED_ONE as nat
    } else {
        let prev = fixed_sqrt_price(t, (k - 1) as nat);
        if t & bit_mask((k - 1) as nat) != 0 {
            prev * sqrt_price_factor((k - 1) as nat) / (FIXED_ONE as nat)
        } else {
            prev
        }
    }
}

/// The square root of the price at `tick`, with 24 decimal places.
pub open spec fn sqrt_price_at(tick: int) -> nat {
    let p = fixed_sqrt_price(vstd::math::abs(tick) as u32, 18);
    if tick >= 0 {
        p * 1_000_000_000_000
    } else {
        ((FIXED_ONE * FIXED_ONE) as nat / p) * 1_000_000_000_000
    }
}

/// A bound on the product after the bits below `k`: the product with every bit set.
spec fn factor_bound(k: nat) -> nat {
    if k == 0 {
        1000000000000
    } else if k == 1 {
        1000049998750
    } else if k == 2 {
        1000150003749
    } else if k == 3 {
        1000350043751
    } else if k == 4 {
        1000750243793
    } else if k == 5 {
        1001551124254
    } else if k == 6 {
        1003154808475
    } else if k == 7 {
        1006369884488
    } else if k == 8 {
        1012830982157
    } else if k == 9 {
        1025877888466
    } else if k == 10 {
        1052478062002
    } else if k == 11 {
        1107765455115
    } else if k == 12 {
        1227205659229
    } else if k == 13 {
        1506109029850
    } else if k == 14 {
        2268477825183
    } else if k == 15 {
        5146248936504
    } else if k == 16 {
        26485202277305
    } else if k == 17 {
        701501012090856
    } else {
        492128274533526656
    }
}

fn factor(k: usize) -> (r: u128)
    requires
        k < 18,
    ensures
        r == sqrt_price_factor(k as nat),
{
    match k {
        0 => 1000049998750,
        1 => 1000100000000,
        2 => 1000200010000,
        3 => 1000400060004,
        4 => 1000800280056,
        5 => 1001601200560,
        6 => 1003204964963,
        7 => 1006420201726,
        8 => 1012881622442,
        9 => 1025929181080,
        10 => 1052530684591,
        11 => 1107820842005,
        12 => 1227267017980,
        13 => 1506184333421,
        14 => 2268591246242,
        15 => 5146506242525,
        16 => 26486526504348,
        _ => 701536086265529,
    }
}

fn mask(k: usize) -> (r: u32)
    requires
        k < 18,
    ensures
        r == bit_mask(k as nat),
{
    match k {
        0 => 0x1,
        1 => 0x2,
        2 => 0x4,
        3 => 0x8,
        4 => 0x10,
        5 => 0x20,
        6 => 0x40,
        7 => 0x80,
        8 => 0x100,
        9 => 0x200,
        10 => 0x400,
        11 => 0x800,
        12 => 0x1000,
        13 => 0x2000,
        14 => 0x4000,
        15 => 0x8000,
        16 => 0x1_0000,
        _ => 0x2_0000,
    }
}

proof fn lemma_bound_step(prev: nat, k: nat)
    requires
        k < 18,
        prev <= factor_bound(k),
    ensures
        prev * sqrt_price_factor(k) / (FIXED_ONE as nat) <= factor_bound(k + 1),
        prev <= factor_bound(k + 1),
        prev * sqrt_price_factor(k) <= factor_bound(k) * sqrt_price_factor(k),
{
    let f = sqrt_price_factor(k);
    assert(factor_bound(k) * f / (FIXED_ONE as nat) == factor_bound(k + 1));
    assert(f >= FIXED_ONE);
    assert(prev * f <= factor_bound(k) * f) by (nonlinear_arith)
        requires
            prev <= factor_bound(k),
    ;
    vstd::arithmetic::div_mod::lemma_div_is_ordered(
        (prev * f) as int,
        (factor_bound(k) * f) as int,
        FIXED_ONE as int,
    );
    assert(factor_bound(k) <= factor_bound(k + 1));
}

/// Computes the square root of the price at a tick; fails for a tick beyond
/// `MAX_TICK` in absolute value.
pub fn calculate_sqrt_price(tick_index: i32) -> (r: Result<SqrtPrice, ContractError>)
    requires
        tick_index > i32::MIN,
    ensures
        vstd::math::abs(tick_index as int) > MAX_TICK ==> r == Err::<SqrtPrice, ContractError>(
            ContractError::TickOverBounds,
        ),
        vstd::math::abs(tick_index as int) <= MAX_TICK ==> r == Ok::<SqrtPrice, ContractError>(
            SqrtPrice(sqrt_price_at(tick_index as int) as u128),
        ) && r.unwrap().0 == sqrt_price_at(tick_index as int),
{
    let tick: i32 = if tick_index < 0 {
        -tick_index
    } else {
        tick_index
    };
    if tick > MAX_TICK {
        return Err(ContractError::TickOverBounds);
    }
    let t: u32 = tick as u32;
    let mut sqrt_price: u128 = FIXED_ONE;
    let mut k: usize = 0;
    while k < 18
        invariant
            k <= 18,
            sqrt_price == fixed_sqrt_price(t, k as nat),
            sqrt_price <= factor_bound(k as nat),
        decreases 18 - k,
    {
        proof {
            lemma_bound_step(sqrt_price as nat, k as nat);
        }
        if t & mask(k) != 0 {
            sqrt_price = sqrt_price * factor(k) / FIXED_ONE;
        }
        k = k + 1;
    }
    assert(sqrt_price >= FIXED_ONE) by {
        lemma_fixed_sqrt_price_at_least_one(t, 18);
    }
    proof {
        lemma_sqrt_price_bounded(tick_index as int);
    }
    if tick_index >= 0 {
        Ok(SqrtPrice(sqrt_price * 1_000_000_000_000))
    } else {
        let inverse = FIXED_ONE * FIXED_ONE / sqrt_price;
        assert(inverse <= FIXED_ONE) by {
            vstd::arithmetic::div_mod::lemma_div_is_ordered_by_denominator(
                (FIXED_ONE * FIXED_ONE) as int,
                FIXED_ONE as int,
                sqrt_price as int,
            );
        }
        Ok(SqrtPrice(inverse * 1_000_000_000_000))
    }
}

proof fn lemma_fixed_sqrt_price_bounded(t: u32, k: nat)
    requires
        k <= 18,
    ensures
        fixed_sqrt_price(t, k) <= factor_bound(k),
    decreases k,
{
    if k > 0 {
        lemma_fixed_sqrt_price_bounded(t, (k - 1) as nat);
        lemma_bound_step(fixed_sqrt_price(t, (k - 1) as nat), (k - 1) as nat);
    }
}

/// The square root of the price at a tick in range stays well inside `u128`.
pub proof fn lemma_sqrt_price_bounded(tick: int)
    requires
        vstd::math::abs(tick) <= MAX_TICK,
    ensures
        0 < sqrt_price_at(tick) <= 1_000_000_000_000_000_000_000_000_000_000,
{
    let t = vstd::math::abs(tick) as u32;
    lemma_fixed_sqrt_price_bounded(t, 18);
    lemma_fixed_sqrt_price_at_least_one(t, 18);
    let p = fixed_sqrt_price(t, 18);
    if tick < 0 {
        vstd::arithmetic::div_mod::lemma_div_is_ordered_by_denominator(
            (FIXED_ONE * FIXED_ONE) as int,
            FIXED_ONE as int,
            p as int,
        );
        assert((FIXED_ONE * FIXED_ONE) as nat / p >= 1) by {
            vstd::arithmetic::div_mod::lemma_div_is_ordered(
                p as int,
                (FIXED_ONE * FIXED_ONE) as int,
                p as int,
            );
            vstd::arithmetic::div_mod::lemma_div_by_self(p as int);
        }
    }
}

proof fn lemma_fixed_sqrt_price_at_least_one(t: u32, k: nat)
    requires
        k <= 18,
    ensures
        fixed_sqrt_price(t, k) >= FIXED_ONE,
    decreases k,
{
    if k > 0 {
        lemma_fixed_sqrt_price_at_least_one(t, (k - 1) as nat);
        let prev = fixed_sqrt_price(t, (k - 1) as nat);
        let f = sqrt_price_factor((k - 1) as nat);
        assert(f >= FIXED_ONE);
        assert(prev * f >= prev * FIXED_ONE) by (nonlinear_arith)
            requires
                f >= FIXED_ONE,
        ;
        vstd::arithmetic::div_mod::lemma_div_is_ordered(
            (prev * FIXED_ONE) as int,
            (prev * f) as int,
            FIXED_ONE as int,
        );
        vstd::arithmetic::div_mod::lemma_div_by_multiple(prev as int, FIXED_ONE as int);
    }
}

} // verus!
