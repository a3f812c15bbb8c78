//! The records that the contract stores: ticks, positions and their approvals.

use vstd::prelude::*;

use crate::incentive::{IncentiveRecord, PositionIncentives, TickIncentive};
use crate::types::{FeeGrowth, FeeTier, Liquidity, Percentage, PoolKey, SqrtPrice, TokenAmount};

verus! {

/// When an approval stops being valid.
#[derive(Clone, Copy, Debug, PartialEq, Eq, Structural)]
pub enum Expiration {
    /// At the given block height.
    AtHeight(u64),
    /// At the given time, in nanoseconds since the epoch.
    AtTime(u64),
    /// Never.
    Never,
}

/// The block a message runs in: its height and its time, in nanoseconds
/// since the epoch.
#[derive(Clone, Copy, Debug, PartialEq, Eq, Structural)]
pub struct BlockInfo {
    pub height: u64,
    pub time: u64,
}

impl Expiration {
    /// Whether the expiration has passed at a block: its height or time is
    /// reached; never for `Never`.
    pub open spec fn expired_at(self, block: BlockInfo) -> bool {
        match self {
            Expiration::AtHeight(height) => block.height >= height,
            Expiration::AtTime(time) => block.time >= time,
            Expiration::Never => false,
        }
    }

    /// Whether the expiration has passed at a block.
    pub fn is_expired(&self, block: &BlockInfo) -> (r: bool)
        ensures
            r == self.expired_at(*block),
            *self matches Expiration::AtHeight(h) ==> (r <==> block.height >= h),
            *self matches Expiration::AtTime(t) ==> (r <==> block.time >= t),
            *self is Never ==> !r,
    {
        match self {
            Expiration::AtHeight(height) => block.height >= *height,
            Expiration::AtTime(time) => block.time >= *time,
            Expiration::Never => false,
        }
    }
}

/// An account allowed to transfer a position, and until when.
#[derive(Clone, Debug, PartialEq, Eq)]
pub struct Approval {
    /// Account that can transfer the position
    pub spender: String,
    /// When the approval expires
    pub expires: Expiration,
}

/// Whether a pool takes swaps and liquidity.
#[derive(Clone, Copy, Debug, PartialEq, Eq, Structural)]
pub enum PoolStatus {
    Opening,
    Paused,
    SwapOnly,
    LpOnly,
}

/// A pool.
#[derive(Clone, Debug, PartialEq, Eq)]
pub struct Pool {
    pub liquidity: Liquidity,
    pub sqrt_price: SqrtPrice,
    pub current_tick_index: i32,
    pub fee_growth_global_x: FeeGrowth,
    pub fee_growth_global_y: FeeGrowth,
    pub fee_protocol_token_x: TokenAmount,
    pub fee_protocol_token_y: TokenAmount,
    pub start_timestamp: u64,
    pub last_timestamp: u64,
    pub fee_receiver: String,
    pub status: Option<PoolStatus>,
    pub incentives: Vec<IncentiveRecord>,
}

/// A tick as the liquidity queries report it.
#[derive(Clone, Copy, Debug, PartialEq, Eq, Structural)]
pub struct LiquidityTick {
    pub index: i32,
    pub liquidity_change: Liquidity,
    pub sign: bool,
}

/// The contract's settings.
#[derive(Clone, Debug, PartialEq, Eq)]
pub struct Config {
    pub admin: String,
    pub fee_tiers: Vec<FeeTier>,
    pub protocol_fee: Percentage,
    pub incentives_fund_manager: String,
}

/// A tick of a pool.
#[derive(Clone, Debug, PartialEq, Eq)]
pub struct Tick {
    pub index: i32,
    pub sign: bool,
    pub liquidity_change: Liquidity,
    pub liquidity_gross: Liquidity,
    pub sqrt_price: SqrtPrice,
    pub fee_growth_outside_x: FeeGrowth,
    pub fee_growth_outside_y: FeeGrowth,
    pub seconds_outside: u64,
    pub incentives: Vec<TickIncentive>,
}

/// A liquidity position.
#[derive(Clone, Debug, PartialEq, Eq)]
pub struct Position {
    pub pool_key: PoolKey,
    pub liquidity: Liquidity,
    pub lower_tick_index: i32,
    pub upper_tick_index: i32,
    pub fee_growth_inside_x: FeeGrowth,
    pub fee_growth_inside_y: FeeGrowth,
    pub last_block_number: u64,
    pub tokens_owed_x: TokenAmount,
    pub tokens_owed_y: TokenAmount,
    pub approvals: Vec<Approval>,
    pub token_id: u64,
    pub incentives: Vec<PositionIncentives>,
}

/// A copy of a vector of copyable items.
pub fn copy_vec<T: Copy>(v: &Vec<T>) -> (r: Vec<T>)
    ensures
        r@ == v@,
{
    let mut r: Vec<T> = Vec::new();
    let mut i: usize = 0;
    while i < v.len()
        invariant
            i <= v@.len(),
            r@ == v@.subrange(0, i as int),
        decreases v@.len() - i,
    {
        r.push(v[i]);
        i = i + 1;
        assert(r@ =~= v@.subrange(0, i as int));
    }
    assert(v@.subrange(0, v@.len() as int) =~= v@);
    r
}

impl Approval {
    /// A copy of this approval.
    pub fn duplicate(&self) -> (r: Approval)
        ensures
            r == *self,
    {
        Approval { spender: self.spender.clone(), expires: self.expires }
    }
}

/// A copy of a list of approvals.
pub fn copy_approvals(v: &Vec<Approval>) -> (r: Vec<Approval>)
    ensures
        r@ == v@,
{
    let mut r: Vec<Approval> = Vec::new();
    let mut i: usize = 0;
    while i < v.len()
        invariant
            i <= v@.len(),
            r@ == v@.subrange(0, i as int),
        decreases v@.len() - i,
    {
        r.push(v[i].duplicate());
        i = i + 1;
        assert(r@ =~= v@.subrange(0, i as int));
    }
    assert(v@.subrange(0, v@.len() as int) =~= v@);
    r
}

/// The liquidity view of a tick.
pub open spec fn liquidity_tick_of(tick: Tick) -> LiquidityTick {
    LiquidityTick { index: tick.index, liquidity_change: tick.liquidity_change, sign: tick.sign }
}

impl LiquidityTick {
    /// The liquidity view of a tick.
    pub fn from_tick(tick: &Tick) -> (r: LiquidityTick)
        ensures
            r == liquidity_tick_of(*tick),
    {
        LiquidityTick { index: tick.index, liquidity_change: tick.liquidity_change, sign: tick.sign }
    }
}

impl Tick {
    /// The same tick: equal fields, and equal lists of incentives.
    pub open spec fn equiv(self, other: Tick) -> bool {
        &&& self.index == other.index
        &&& self.sign == other.sign
        &&& self.liquidity_change == other.liquidity_change
        &&& self.liquidity_gross == other.liquidity_gross
        &&& self.sqrt_price == other.sqrt_price
        &&& self.fee_growth_outside_x == other.fee_growth_outside_x
        &&& self.fee_growth_outside_y == other.fee_growth_outside_y
        &&& self.seconds_outside == other.seconds_outside
        &&& self.incentives@ == other.incentives@
    }

    /// A copy of this tick.
    pub fn duplicate(&self) -> (r: Tick)
        ensures
            r.equiv(*self),
    {
        Tick {
            index: self.index,
            sign: self.sign,
            liquidity_change: self.liquidity_change,
            liquidity_gross: self.liquidity_gross,
            sqrt_price: self.sqrt_price,
            fee_growth_outside_x: self.fee_growth_outside_x,
            fee_growth_outside_y: self.fee_growth_outside_y,
            seconds_outside: self.seconds_outside,
            incentives: copy_vec(&self.incentives),
        }
    }
}

impl Position {
    /// The same position: equal fields, and equal lists.
    pub open spec fn equiv(self, other: Position) -> bool {
        &&& self.pool_key == other.pool_key
        &&& self.liquidity == other.liquidity
        &&& self.lower_tick_index == other.lower_tick_index
        &&& self.upper_tick_index == other.upper_tick_index
        &&& self.fee_growth_inside_x == other.fee_growth_inside_x
        &&& self.fee_growth_inside_y == other.fee_growth_inside_y
        &&& self.last_block_number == other.last_block_number
        &&& self.tokens_owed_x == other.tokens_owed_x
        &&& self.tokens_owed_y == other.tokens_owed_y
        &&& self.approvals@ == other.approvals@
        &&& self.token_id == other.token_id
        &&& self.incentives@ == other.incentives@
    }

    /// A copy of this position.
    pub fn duplicate(&self) -> (r: Position)
        ensures
            r.equiv(*self),
    {
        Position {
            pool_key: self.pool_key.duplicate(),
            liquidity: self.liquidity,
            lower_tick_index: self.lower_tick_index,
            upper_tick_index: self.upper_tick_index,
            fee_growth_inside_x: self.fee_growth_inside_x,
            fee_growth_inside_y: self.fee_growth_inside_y,
            last_block_number: self.last_block_number,
            tokens_owed_x: self.tokens_owed_x,
            tokens_owed_y: self.tokens_owed_y,
            approvals: copy_approvals(&self.approvals),
            token_id: self.token_id,
            incentives: copy_vec(&self.incentives),
        }
    }
}

impl IncentiveRecord {
    /// A copy of this record.
    pub fn duplicate(&self) -> (r: IncentiveRecord)
        ensures
            r == *self,
    {
        IncentiveRecord {
            id: self.id,
            reward_per_sec: self.reward_per_sec,
            reward_token: self.reward_token.duplicate(),
            remaining: self.remaining,
            start_timestamp: self.start_timestamp,
            incentive_growth_global: self.incentive_growth_global,
            last_updated: self.last_updated,
        }
    }
}

/// A copy of a list of incentive records.
pub fn copy_incentive_records(v: &Vec<IncentiveRecord>) -> (r: Vec<IncentiveRecord>)
    ensures
        r@ == v@,
{
    let mut r: Vec<IncentiveRecord> = Vec::new();
    let mut i: usize = 0;
    while i < v.len()
        invariant
            i <= v@.len(),
            r@ == v@.subrange(0, i as int),
        decreases v@.len() - i,
    {
        r.push(v[i].duplicate());
        i = i + 1;
        assert(r@ =~= v@.subrange(0, i as int));
    }
    assert(v@.subrange(0, v@.len() as int) =~= v@);
    r
}

impl Pool {
    /// The same pool: equal fields, and equal lists.
    pub open spec fn equiv(self, other: Pool) -> bool {
        &&& self.liquidity == other.liquidity
        &&& self.sqrt_price == other.sqrt_price
        &&& self.current_tick_index == other.current_tick_index
        &&& self.fee_growth_global_x == other.fee_growth_global_x
        &&& self.fee_growth_global_y == other.fee_growth_global_y
        &&& self.fee_protocol_token_x == other.fee_protocol_token_x
        &&& self.fee_protocol_token_y == other.fee_protocol_token_y
        &&& self.start_timestamp == other.start_timestamp
        &&& self.last_timestamp == other.last_timestamp
        &&& self.fee_receiver == other.fee_receiver
        &&& self.status == other.status
        &&& self.incentives@ == other.incentives@
    }

    /// A copy of this pool.
    pub fn duplicate(&self) -> (r: Pool)
        ensures
            r.equiv(*self),
    {
        Pool {
            liquidity: self.liquidity,
            sqrt_price: self.sqrt_price,
            current_tick_index: self.current_tick_index,
            fee_growth_global_x: self.fee_growth_global_x,
            fee_growth_global_y: self.fee_growth_global_y,
            fee_protocol_token_x: self.fee_protocol_token_x,
            fee_protocol_token_y: self.fee_protocol_token_y,
            start_timestamp: self.start_timestamp,
            last_timestamp: self.last_timestamp,
            fee_receiver: self.fee_receiver.clone(),
            status: self.status,
            incentives: copy_incentive_records(&self.incentives),
        }
    }
}

impl Config {
    /// The same settings: equal fields, and equal fee tiers.
    pub open spec fn equiv(self, other: Config) -> bool {
        &&& self.admin == other.admin
        &&& self.fee_tiers@ == other.fee_tiers@
        &&& self.protocol_fee == other.protocol_fee
        &&& self.incentives_fund_manager == other.incentives_fund_manager
    }

    /// A copy of these settings.
    pub fn duplicate(&self) -> (r: Config)
        ensures
            r.equiv(*self),
    {
        Config {
            admin: self.admin.clone(),
            fee_tiers: copy_vec(&self.fee_tiers),
            protocol_fee: self.protocol_fee,
            incentives_fund_manager: self.incentives_fund_manager.clone(),
        }
    }
}

} // verus!
