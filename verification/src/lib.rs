//! The oraiswap v3 concentrated-liquidity contract's storage (tickmap, ticks,
//! positions, pools, position tokens), its queries and incentive accounting,
//! the zapper that turns one asset into a position and back, and the
//! incentives fund manager, each function with a verified contract.

pub mod kv;
pub mod tickmap;
pub mod types;
pub mod error;
pub mod bits;
pub mod state;
pub mod sqrt_price;
pub mod query;
pub mod asset;
pub mod incentive;
pub mod storage;
pub mod token_amount;
pub mod interface;
pub mod msg;
pub mod fund_manager;
pub mod zapper;
pub mod contract;
