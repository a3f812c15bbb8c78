//! Incentive programs: how a reward stream grows its global growth counter,
//! and how much of that growth falls inside a position's tick range.

use vstd::prelude::*;

use crate::asset::AssetInfo;
use crate::error::ContractError;
use crate::types::{FeeGrowth, Liquidity, TokenAmount};

verus! {

/// A reward stream of a pool.
#[derive(Clone, Debug, PartialEq, Eq)]
pub struct IncentiveRecord {
    pub id: u64,
    pub reward_per_sec: TokenAmount,
    pub reward_token: AssetInfo,
    pub remaining: TokenAmount,
    pub start_timestamp: u64,
    pub incentive_growth_global: FeeGrowth,
    pub last_updated: u64,
}

/// The incentive growth recorded outside a tick.
#[derive(Clone, Copy, Debug, PartialEq, Eq, Structural, Default)]
pub struct TickIncentive {
    pub incentive_id: u64,
    pub incentive_growth_outside: FeeGrowth,
}

/// What a position has earned from one reward stream.
#[derive(Clone, Copy, Debug, PartialEq, Eq, Structural)]
pub struct PositionIncentives {
    pub incentive_id: u64,
    pub pending_rewards: TokenAmount,
    pub incentive_growth_inside: FeeGrowth,
}

/// `10^34`: one unit of fee growth (28 decimal places) times one unit of
/// liquidity (6 decimal places).
pub const GROWTH_DENOMINATOR: u128 = 10_000_000_000_000_000_000_000_000_000_000_000;

/// `2^128`, the modulus of fee-growth arithmetic.
pub open spec fn growth_modulus() -> int {
    u128::MAX as int + 1
}

/// Subtraction of growth counters, which wrap around.
pub open spec fn wrapping_growth_sub(a: u128, b: u128) -> u128 {
    ((a - b) % growth_modulus()) as u128
}

/// The growth per unit of liquidity that `fee` tokens spread over `liquidity`
/// make: `fee * 10^34 / liquidity`, rounded down, when that fits.
pub open spec fn growth_from_fee(liquidity: u128, fee: u128) -> Option<u128> {
    if liquidity == 0 {
        None
    } else if fee * GROWTH_DENOMINATOR / (liquidity as int) > u128::MAX {
        None
    } else {
        Some((fee * GROWTH_DENOMINATOR / (liquidity as int)) as u128)
    }
}

/// `value * numerator / (denominator as int)`, rounded down, computed with a 256-bit
/// intermediate by `cosmwasm_std::Uint128::checked_multiply_ratio`: no result
/// when the denominator is zero or the quotient does not fit in 128 bits.
#[verifier::external_body]
fn checked_multiply_ratio(value: u128, numerator: u128, denominator: u128) -> (r: Option<u128>)
    ensures
        denominator == 0 ==> r is None,
        denominator != 0 ==> (r is Some <==> value * numerator / (denominator as int) <= u128::MAX),
        r matches Some(q) ==> q == value * numerator / (denominator as int),
{
    match cosmwasm_std::Uint128::new(value).checked_multiply_ratio(numerator, denominator) {
        Ok(v) => Some(v.u128()),
        Err(_) => None,
    }
}

impl FeeGrowth {
    /// Subtracts another growth counter, wrapping around.
    pub fn unchecked_sub(self, other: FeeGrowth) -> (r: FeeGrowth)
        ensures
            r.0 == wrapping_growth_sub(self.0, other.0),
    {
        if other.0 > self.0 {
            proof {
                let d = self.0 - other.0;
                vstd::arithmetic::div_mod::lemma_fundamental_div_mod_converse(
                    d,
                    growth_modulus(),
                    -1,
                    d + growth_modulus(),
                );
            }
            FeeGrowth(u128::MAX - (other.0 - self.0) + 1)
        } else {
            proof {
                vstd::arithmetic::div_mod::lemma_small_mod(
                    (self.0 - other.0) as nat,
                    growth_modulus() as nat,
                );
            }
            FeeGrowth(self.0 - other.0)
        }
    }

    /// The growth that `fee` tokens spread over `liquidity` make; fails when
    /// the liquidity is zero or the growth does not fit.
    pub fn from_fee(liquidity: Liquidity, fee: TokenAmount) -> (r: Result<FeeGrowth, ContractError>)
        ensures
            liquidity.0 == 0 ==> r == Err::<FeeGrowth, ContractError>(ContractError::Div),
            liquidity.0 != 0 && growth_from_fee(liquidity.0, fee.0) is None ==> r == Err::<
                FeeGrowth,
                ContractError,
            >(ContractError::Cast),
            growth_from_fee(liquidity.0, fee.0) matches Some(g) ==> r == Ok::<FeeGrowth, ContractError>(
                FeeGrowth(g),
            ),
    {
        if liquidity.0 == 0 {
            return Err(ContractError::Div);
        }
        match checked_multiply_ratio(fee.0, GROWTH_DENOMINATOR, liquidity.0) {
            Some(g) => Ok(FeeGrowth(g)),
            None => Err(ContractError::Cast),
        }
    }
}

/// The record after bringing its global growth up to `current_timestamp`.
pub open spec fn updated_incentive(
    record: IncentiveRecord,
    pool_liquidity: u128,
    current_timestamp: u64,
) -> IncentiveRecord {
    if current_timestamp < record.start_timestamp || current_timestamp < record.last_updated {
        record
    } else {
        let pass_time = current_timestamp - record.last_updated;
        let emit = record.reward_per_sec.0 * pass_time;
        let total_emit = if emit > record.remaining.0 {
            record.remaining.0
        } else {
            emit as u128
        };
        match growth_from_fee(pool_liquidity, total_emit) {
            Some(g) => IncentiveRecord {
                incentive_growth_global: FeeGrowth((record.incentive_growth_global.0 + g) as u128),
                remaining: TokenAmount((record.remaining.0 - total_emit) as u128),
                last_updated: current_timestamp,
                ..record
            },
            None => IncentiveRecord { last_updated: current_timestamp, ..record },
        }
    }
}

/// Whether bringing the record up to `current_timestamp` stays within the
/// bounds of its arithmetic (the emission and the new global growth fit).
pub open spec fn incentive_update_in_bounds(
    record: IncentiveRecord,
    pool_liquidity: u128,
    current_timestamp: u64,
) -> bool {
    current_timestamp >= record.start_timestamp && current_timestamp >= record.last_updated ==> {
        let pass_time = current_timestamp - record.last_updated;
        let emit = record.reward_per_sec.0 * pass_time;
        let total_emit = if emit > record.remaining.0 {
            record.remaining.0
        } else {
            emit as u128
        };
        &&& emit <= u128::MAX
        &&& growth_from_fee(pool_liquidity, total_emit) matches Some(g) ==> record.incentive_growth_global.0
            + g <= u128::MAX
    }
}

impl IncentiveRecord {
    /// Brings the global growth of the stream up to `current_timestamp`: the
    /// tokens emitted since the last update (at most what remains) are spread
    /// over the pool's liquidity. Nothing changes before the stream starts or
    /// when the time goes backwards; when the growth cannot be computed (no
    /// liquidity, or too large) only the update time moves.
    pub fn update_global_incentive_growth(
        &mut self,
        pool_liquidity: Liquidity,
        current_timestamp: u64,
    ) -> (r: Result<(), ContractError>)
        requires
            incentive_update_in_bounds(*old(self), pool_liquidity.0, current_timestamp),
        ensures
            r is Ok,
            *final(self) == updated_incentive(*old(self), pool_liquidity.0, current_timestamp),
            current_timestamp < old(self).start_timestamp || current_timestamp < old(
                self,
            ).last_updated ==> *final(self) == *old(self),
            current_timestamp >= old(self).start_timestamp && current_timestamp >= old(
                self,
            ).last_updated ==> final(self).last_updated == current_timestamp,
            final(self).remaining.0 <= old(self).remaining.0,
            current_timestamp >= old(self).last_updated ==> old(self).remaining.0
                - final(self).remaining.0 <= old(self).reward_per_sec.0 * (current_timestamp
                - old(self).last_updated),
    {
        if current_timestamp < self.start_timestamp || current_timestamp < self.last_updated {
            return Ok(());
        }
        let pass_time = current_timestamp - self.last_updated;

        let mut total_emit = TokenAmount(self.reward_per_sec.0 * (pass_time as u128));
        if total_emit.0 > self.remaining.0 {
            total_emit = self.remaining;
        };

        let incentive_growth = FeeGrowth::from_fee(pool_liquidity, total_emit);
        match incentive_growth {
            Ok(value) => {
                self.incentive_growth_global = FeeGrowth(self.incentive_growth_global.0 + value.0);
                self.remaining = TokenAmount(self.remaining.0 - total_emit.0);
            },
            Err(_) => {
                // the growth could not be computed (no liquidity, or too large):
                // nothing is emitted
            },
        }
        self.last_updated = current_timestamp;
        Ok(())
    }
}

/// The incentive growth inside a tick range, from the growth outside its two
/// ticks and the global growth.
pub open spec fn incentive_growth_inside(
    tick_lower: int,
    lower_outside: u128,
    tick_upper: int,
    upper_outside: u128,
    tick_current: int,
    global: u128,
) -> u128 {
    let below = if tick_current >= tick_lower {
        lower_outside
    } else {
        wrapping_growth_sub(global, lower_outside)
    };
    let above = if tick_current < tick_upper {
        upper_outside
    } else {
        wrapping_growth_sub(global, upper_outside)
    };
    wrapping_growth_sub(wrapping_growth_sub(global, below), above)
}

/// Computes the incentive growth inside the range `[tick_lower, tick_upper)`:
/// the global growth less the growth below the lower tick and above the upper
/// one, all wrapping around.
pub fn calculate_incentive_growth_inside(
    tick_lower: i32,
    tick_lower_incentive_growth_outside: FeeGrowth,
    tick_upper: i32,
    tick_upper_incentive_growth_outside: FeeGrowth,
    tick_current: i32,
    incentive_growth_global: FeeGrowth,
) -> (r: FeeGrowth)
    ensures
        r.0 == incentive_growth_inside(
            tick_lower as int,
            tick_lower_incentive_growth_outside.0,
            tick_upper as int,
            tick_upper_incentive_growth_outside.0,
            tick_current as int,
            incentive_growth_global.0,
        ),
{
    // determine position relative to current tick
    let current_above_lower = tick_current >= tick_lower;
    let current_below_upper = tick_current < tick_upper;

    // calculate fee growth below
    let incentive_growth_below = if current_above_lower {
        tick_lower_incentive_growth_outside
    } else {
        incentive_growth_global.unchecked_sub(tick_lower_incentive_growth_outside)
    };

    // calculate fee growth above
    let incentive_growth_above = if current_below_upper {
        tick_upper_incentive_growth_outside
    } else {
        incentive_growth_global.unchecked_sub(tick_upper_incentive_growth_outside)
    };

    // calculate fee growth inside
    incentive_growth_global.unchecked_sub(incentive_growth_below).unchecked_sub(
        incentive_growth_above,
    )
}

/// Wrapping subtraction is subtraction modulo `2^128`.
pub proof fn lemma_wrapping_growth_sub_mod(a: u128, b: u128)
    ensures
        wrapping_growth_sub(a, b) as int == (a - b) % growth_modulus(),
{
}

/// The growth inside a range, in each of the three places the current tick can
/// be: inside the range it is the global growth less both outside growths;
/// below the range it is the lower tick's outside growth less the upper's;
/// above the range it is the upper tick's outside growth less the lower's
/// (all modulo `2^128`).
pub proof fn lemma_incentive_growth_inside_cases(
    tick_lower: int,
    lower_outside: u128,
    tick_upper: int,
    upper_outside: u128,
    tick_current: int,
    global: u128,
)
    requires
        tick_lower < tick_upper,
    ensures
        tick_lower <= tick_current < tick_upper ==> incentive_growth_inside(
            tick_lower,
            lower_outside,
            tick_upper,
            upper_outside,
            tick_current,
            global,
        ) as int == (global - lower_outside - upper_outside) % growth_modulus(),
        tick_current < tick_lower ==> incentive_growth_inside(
            tick_lower,
            lower_outside,
            tick_upper,
            upper_outside,
            tick_current,
            global,
        ) as int == (lower_outside - upper_outside) % growth_modulus(),
        tick_current >= tick_upper ==> incentive_growth_inside(
            tick_lower,
            lower_outside,
            tick_upper,
            upper_outside,
            tick_current,
            global,
        ) as int == (upper_outside - lower_outside) % growth_modulus(),
{
    let m = growth_modulus();
    let g = global as int;
    let lo = lower_outside as int;
    let up = upper_outside as int;
    if tick_lower <= tick_current < tick_upper {
        let t = wrapping_growth_sub(global, lower_outside) as int;
        assert(t == (g - lo) % m);
        assert((t - up) % m == (g - lo - up) % m) by {
            vstd::arithmetic::div_mod::lemma_sub_mod_noop(g - lo, up, m);
            vstd::arithmetic::div_mod::lemma_mod_twice(g - lo, m);
            vstd::arithmetic::div_mod::lemma_mod_bound(up, m);
            vstd::arithmetic::div_mod::lemma_small_mod(up as nat, m as nat);
        }
    } else if tick_current < tick_lower {
        let below = wrapping_growth_sub(global, lower_outside) as int;
        let t = wrapping_growth_sub(global, below as u128) as int;
        assert(below == (g - lo) % m);
        assert(t == (g - below) % m);
        assert((g - below) % m == lo % m) by {
            vstd::arithmetic::div_mod::lemma_sub_mod_noop(g, g - lo, m);
            vstd::arithmetic::div_mod::lemma_small_mod(g as nat, m as nat);
            vstd::arithmetic::div_mod::lemma_mod_twice(g - lo, m);
            assert(g - (g - lo) == lo);
            vstd::arithmetic::div_mod::lemma_sub_mod_noop(g, g - lo, m);
        }
        vstd::arithmetic::div_mod::lemma_small_mod(lo as nat, m as nat);
        assert((t - up) % m == (lo - up) % m);
    } else {
        let above = wrapping_growth_sub(global, upper_outside) as int;
        let t = wrapping_growth_sub(global, lower_outside) as int;
        assert(t == (g - lo) % m);
        assert(above == (g - up) % m);
        assert((t - above) % m == (up - lo) % m) by {
            vstd::arithmetic::div_mod::lemma_sub_mod_noop(g - lo, g - up, m);
            vstd::arithmetic::div_mod::lemma_mod_twice(g - lo, m);
            vstd::arithmetic::div_mod::lemma_mod_twice(g - up, m);
            vstd::arithmetic::div_mod::lemma_sub_mod_noop(t, g - up, m);
            vstd::arithmetic::div_mod::lemma_sub_mod_noop(g - lo, above, m);
            assert((g - lo) - (g - up) == up - lo);
        }
    }
}

/// What bringing a stream up to a time does. Before the stream starts, or
/// at a time before its last update, nothing changes. Otherwise the update
/// time moves to now, and the tokens emitted since the last update, at most
/// `reward_per_sec` per second and never more than what remains, leave the
/// remaining amount and are spread over the pool's liquidity: the global
/// growth rises by `emitted * 10^34 / liquidity`. With no liquidity, or a
/// growth too large to represent, nothing is emitted.
pub proof fn lemma_incentive_emission(
    record: IncentiveRecord,
    pool_liquidity: u128,
    current_timestamp: u64,
)
    requires
        incentive_update_in_bounds(record, pool_liquidity, current_timestamp),
    ensures
        ({
            let after = updated_incentive(record, pool_liquidity, current_timestamp);
            let due = record.reward_per_sec.0 * (current_timestamp - record.last_updated);
            let emitted = vstd::math::min(due, record.remaining.0 as int);
            &&& current_timestamp < record.start_timestamp || current_timestamp < record.last_updated
                ==> after == record
            &&& current_timestamp >= record.start_timestamp && current_timestamp >= record.last_updated
                ==> {
                &&& after.last_updated == current_timestamp
                &&& after.id == record.id
                &&& after.reward_per_sec == record.reward_per_sec
                &&& after.reward_token == record.reward_token
                &&& after.start_timestamp == record.start_timestamp
                &&& pool_liquidity == 0 ==> after.remaining == record.remaining
                    && after.incentive_growth_global == record.incentive_growth_global
                &&& pool_liquidity != 0 && emitted * GROWTH_DENOMINATOR / (pool_liquidity as int)
                    <= u128::MAX ==> after.remaining.0 == record.remaining.0 - emitted
                    && after.incentive_growth_global.0 == record.incentive_growth_global.0 + emitted
                    * GROWTH_DENOMINATOR / (pool_liquidity as int)
                &&& pool_liquidity != 0 && emitted * GROWTH_DENOMINATOR / (pool_liquidity as int)
                    > u128::MAX ==> after.remaining == record.remaining
                    && after.incentive_growth_global == record.incentive_growth_global
            }
        }),
{
}

/// An update never raises what remains to be emitted, never lowers the
/// global growth, and whatever leaves the remaining amount is exactly what the
/// growth accounts for.
pub proof fn lemma_update_incentive_monotonic(
    record: IncentiveRecord,
    pool_liquidity: u128,
    current_timestamp: u64,
)
    requires
        incentive_update_in_bounds(record, pool_liquidity, current_timestamp),
    ensures
        ({
            let after = updated_incentive(record, pool_liquidity, current_timestamp);
            &&& after.remaining.0 <= record.remaining.0
            &&& after.incentive_growth_global.0 >= record.incentive_growth_global.0
            &&& after.remaining.0 < record.remaining.0 ==> growth_from_fee(
                pool_liquidity,
                (record.remaining.0 - after.remaining.0) as u128,
            ) == Some((after.incentive_growth_global.0 - record.incentive_growth_global.0) as u128)
            &&& after.id == record.id && after.reward_per_sec == record.reward_per_sec
                && after.start_timestamp == record.start_timestamp
        }),
{
}

} // verus!
