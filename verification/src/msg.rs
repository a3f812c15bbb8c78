//! The messages of the concentrated-liquidity contract.

use vstd::prelude::*;

use crate::types::{Liquidity, Percentage, PoolKey, SqrtPrice};

verus! {

/// The settings the contract starts with.
#[derive(Clone, Debug, PartialEq, Eq)]
pub struct InstantiateMsg {
    pub protocol_fee: Percentage,
    pub incentives_fund_manager: String,
}

/// The data carried when a position token is minted.
#[derive(Clone, Debug, PartialEq, Eq)]
pub struct NftExtensionMsg {
    pub pool_key: PoolKey,
    pub lower_tick: i32,
    pub upper_tick: i32,
    pub liquidity_delta: Liquidity,
    pub slippage_limit_lower: SqrtPrice,
    pub slippage_limit_upper: SqrtPrice,
}

/// The message of a migration (it carries nothing).
#[derive(Clone, Copy, Debug, PartialEq, Eq, Structural)]
pub struct MigrateMsg {}

} // verus!
