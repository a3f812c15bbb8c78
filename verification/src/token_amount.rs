//! Turning a 256-bit amount scaled like a square root of a price (24 decimal
//! places) back into a token amount, rounding down or up.

use vstd::prelude::*;

use crate::error::ContractError;
use crate::types::TokenAmount;

verus! {

/// A 256-bit unsigned integer, as its high and low 128-bit halves.
#[derive(Clone, Copy, Debug, PartialEq, Eq, Structural)]
pub struct U256 {
    pub hi: u128,
    pub lo: u128,
}

/// `2^128`.
pub open spec fn two_pow_128() -> nat {
    u128::MAX as nat + 1
}

/// The value of a pair of halves.
pub open spec fn u256_value(hi: u128, lo: u128) -> nat {
    (hi as nat) * two_pow_128() + (lo as nat)
}

impl U256 {
    /// The value of this integer.
    pub open spec fn value(self) -> nat {
        u256_value(self.hi, self.lo)
    }
}

/// One, scaled like a square root of a price: `10^24`.
pub const SQRT_PRICE_ONE: u128 = 1_000_000_000_000_000_000_000_000;

/// Just below one, scaled like a square root of a price: `10^24 - 1`.
pub const SQRT_PRICE_ALMOST_ONE: u128 = 999_999_999_999_999_999_999_999;

/// Divides a 256-bit integer by `divisor` with `cosmwasm_std::Uint256::checked_div`,
/// rounding down; no result for a zero divisor.
#[verifier::external_body]
fn uint256_checked_div(hi: u128, lo: u128, divisor: u128) -> (r: Option<(u128, u128)>)
    ensures
        divisor == 0 ==> r is None,
        divisor != 0 ==> r is Some,
        r matches Some(q) ==> u256_value(q.0, q.1) == u256_value(hi, lo) / (divisor as nat),
{
    let mut b = [0u8; 32];
    b[..16].copy_from_slice(&hi.to_be_bytes());
    b[16..].copy_from_slice(&lo.to_be_bytes());
    let d = cosmwasm_std::Uint256::from(divisor);
    match cosmwasm_std::Uint256::from_be_bytes(b).checked_div(d) {
        Ok(q) => {
            let o = q.to_be_bytes();
            let qh = u128::from_be_bytes(o[..16].try_into().unwrap());
            let ql = u128::from_be_bytes(o[16..].try_into().unwrap());
            Some((qh, ql))
        },
        Err(_) => None,
    }
}

/// Adds a 128-bit integer to a 256-bit one with `cosmwasm_std::Uint256::checked_add`;
/// no result when the sum does not fit in 256 bits.
#[verifier::external_body]
fn uint256_checked_add(hi: u128, lo: u128, addend: u128) -> (r: Option<(u128, u128)>)
    ensures
        u256_value(hi, lo) + addend < two_pow_128() * two_pow_128() ==> r is Some,
        r matches Some(s) ==> u256_value(s.0, s.1) == u256_value(hi, lo) + addend,
        u256_value(hi, lo) + addend >= two_pow_128() * two_pow_128() ==> r is None,
{
    let mut b = [0u8; 32];
    b[..16].copy_from_slice(&hi.to_be_bytes());
    b[16..].copy_from_slice(&lo.to_be_bytes());
    let a = cosmwasm_std::Uint256::from(addend);
    match cosmwasm_std::Uint256::from_be_bytes(b).checked_add(a) {
        Ok(s) => {
            let o = s.to_be_bytes();
            let sh = u128::from_be_bytes(o[..16].try_into().unwrap());
            let sl = u128::from_be_bytes(o[16..].try_into().unwrap());
            Some((sh, sl))
        },
        Err(_) => None,
    }
}

/// A 256-bit value that fits in 128 bits has a zero high half.
proof fn lemma_fits_iff_hi_zero(hi: u128, lo: u128)
    ensures
        (u256_value(hi, lo) <= u128::MAX) == (hi == 0),
{
    if hi > 0 {
        assert(hi * two_pow_128() >= two_pow_128()) by (nonlinear_arith)
            requires
                hi >= 1,
        ;
    }
}

/// The amount that a scaled value stands for, rounded down, when it fits in
/// 128 bits.
pub open spec fn amount_down(value: nat) -> Option<u128> {
    if value / (SQRT_PRICE_ONE as nat) <= u128::MAX {
        Some((value / (SQRT_PRICE_ONE as nat)) as u128)
    } else {
        None
    }
}

impl TokenAmount {
    /// The token amount of a value scaled like a square root of a price,
    /// rounded down; fails when it does not fit.
    pub fn from_big_sqrt_price(value: U256) -> (r: Result<TokenAmount, ContractError>)
        ensures
            amount_down(value.value()) matches Some(a) ==> r == Ok::<TokenAmount, ContractError>(
                TokenAmount(a),
            ),
            amount_down(value.value()) is None ==> r == Err::<TokenAmount, ContractError>(
                ContractError::Cast,
            ),
    {
        let (qh, ql) = match uint256_checked_div(value.hi, value.lo, SQRT_PRICE_ONE) {
            Some(q) => q,
            None => {
                return Err(ContractError::Div);
            },
        };
        proof {
            lemma_fits_iff_hi_zero(qh, ql);
        }
        if qh != 0 {
            return Err(ContractError::Cast);
        }
        Ok(TokenAmount(ql))
    }

    /// The token amount of a value scaled like a square root of a price,
    /// rounded up; fails when the rounding overflows 256 bits or the amount
    /// does not fit.
    pub fn from_big_sqrt_price_up(value: U256) -> (r: Result<TokenAmount, ContractError>)
        ensures
            value.value() + SQRT_PRICE_ALMOST_ONE >= two_pow_128() * two_pow_128() ==> r == Err::<
                TokenAmount,
                ContractError,
            >(ContractError::Add),
            value.value() + SQRT_PRICE_ALMOST_ONE < two_pow_128() * two_pow_128() ==> (match amount_down(
                (value.value() + SQRT_PRICE_ALMOST_ONE) as nat,
            ) {
                Some(a) => r == Ok::<TokenAmount, ContractError>(TokenAmount(a)),
                None => r == Err::<TokenAmount, ContractError>(ContractError::Cast),
            }),
    {
        let (sh, sl) = match uint256_checked_add(value.hi, value.lo, SQRT_PRICE_ALMOST_ONE) {
            Some(s) => s,
            None => {
                return Err(ContractError::Add);
            },
        };
        let (qh, ql) = match uint256_checked_div(sh, sl, SQRT_PRICE_ONE) {
            Some(q) => q,
            None => {
                return Err(ContractError::Div);
            },
        };
        proof {
            lemma_fits_iff_hi_zero(qh, ql);
        }
        if qh != 0 {
            return Err(ContractError::Cast);
        }
        Ok(TokenAmount(ql))
    }
}

/// Rounding up gives the amount rounded down, or one more when the value is
/// not a whole number of units.
pub proof fn lemma_round_up_vs_down(value: nat)
    ensures
        ((value + SQRT_PRICE_ALMOST_ONE) as nat) / (SQRT_PRICE_ONE as nat) == if value % (
        SQRT_PRICE_ONE as nat) == 0 {
            value / (SQRT_PRICE_ONE as nat)
        } else {
            value / (SQRT_PRICE_ONE as nat) + 1
        },
{
    let d = SQRT_PRICE_ONE as int;
    let q = value as int / d;
    let r = value as int % d;
    vstd::arithmetic::div_mod::lemma_fundamental_div_mod(value as int, d);
    if r == 0 {
        vstd::arithmetic::div_mod::lemma_fundamental_div_mod_converse(
            value + SQRT_PRICE_ALMOST_ONE,
            d,
            q,
            d - 1,
        );
    } else {
        vstd::arithmetic::div_mod::lemma_fundamental_div_mod_converse(
            value + SQRT_PRICE_ALMOST_ONE,
            d,
            q + 1,
            r - 1,
        );
    }
}

} // verus!
