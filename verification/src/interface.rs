//! The shapes in which the contract answers its queries.

use vstd::prelude::*;

use crate::storage::{Approval, Pool, Position};
use crate::types::{FeeGrowth, PoolKey};

verus! {

/// One hop of a swap route.
#[derive(Clone, Debug, PartialEq, Eq)]
pub struct SwapHop {
    pub pool_key: PoolKey,
    pub x_to_y: bool,
}

/// A tick of a position, as the position-ticks query reports it.
#[derive(Clone, Copy, Debug, PartialEq, Eq, Structural)]
pub struct PositionTick {
    pub index: i32,
    pub fee_growth_outside_x: FeeGrowth,
    pub fee_growth_outside_y: FeeGrowth,
    pub seconds_outside: u64,
}

/// A pool together with its key.
#[derive(Clone, Debug, PartialEq, Eq)]
pub struct PoolWithPoolKey {
    pub pool: Pool,
    pub pool_key: PoolKey,
}

/// The operators an owner approved for all its positions.
#[derive(Clone, Debug, PartialEq, Eq)]
pub struct ApprovedForAllResponse {
    pub operators: Vec<Approval>,
}

/// Position tokens.
#[derive(Clone, Debug, PartialEq, Eq)]
pub struct TokensResponse {
    /// The token ids; when there are more than the limit, ask again from the last one.
    pub tokens: Vec<u64>,
}

/// The owner of a position token and who may transfer it.
#[derive(Clone, Debug, PartialEq, Eq)]
pub struct OwnerOfResponse {
    /// Owner of the token
    pub owner: String,
    /// Accounts also approved to transfer the token
    pub approvals: Vec<Approval>,
}

/// The data of a position token.
#[derive(Clone, Debug, PartialEq, Eq)]
pub struct NftInfoResponse {
    pub extension: Position,
}

/// Everything about a position token.
#[derive(Clone, Debug, PartialEq, Eq)]
pub struct AllNftInfoResponse {
    /// Who can transfer the token
    pub access: OwnerOfResponse,
    /// Data on the token itself
    pub info: NftInfoResponse,
}

/// The number of position tokens.
#[derive(Clone, Copy, Debug, PartialEq, Eq, Structural)]
pub struct NumTokensResponse {
    pub count: u64,
}

} // verus!
