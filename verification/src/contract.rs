//! The concentrated-liquidity contract's start.

use vstd::prelude::*;

use crate::asset::MessageInfo;
use crate::error::ContractError;
use crate::msg::InstantiateMsg;
use crate::state::{same_tables_but_pools, State};
use crate::storage::Config;

verus! {

/// Starts the contract: the sender becomes the admin, with the protocol fee
/// and the incentives fund manager of the message and no fee tiers yet.
pub fn instantiate(store: &mut State, info: &MessageInfo, msg: InstantiateMsg) -> (r: Result<
    (),
    ContractError,
>)
    requires
        old(store).wf(),
    ensures
        r is Ok,
        final(store).wf(),
        final(store).config_view() matches Some(c) && c.admin == info.sender && c.fee_tiers@
            == Seq::<crate::types::FeeTier>::empty() && c.protocol_fee == msg.protocol_fee
            && c.incentives_fund_manager == msg.incentives_fund_manager,
        final(store).pools_view() == old(store).pools_view(),
        same_tables_but_pools(*final(store), *old(store)),
{
    let config = Config {
        fee_tiers: Vec::new(),
        admin: info.sender.clone(),
        protocol_fee: msg.protocol_fee,
        incentives_fund_manager: msg.incentives_fund_manager,
    };
    store.save_config(config);
    Ok(())
}

} // verus!
