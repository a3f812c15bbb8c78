//! The incentives fund manager: it keeps the reward tokens and pays them out
//! when the concentrated-liquidity contract asks.

use vstd::prelude::*;

use crate::asset::{send_msg, Asset, Attribute, MessageInfo, TransferMsg};
use crate::error::ContractError;

verus! {

/// The settings the fund manager starts with.
#[derive(Clone, Debug, PartialEq, Eq)]
pub struct InstantiateMsg {
    pub owner: Option<String>,
    pub oraiswap_v3: String,
}

/// The message of a migration (it carries nothing).
#[derive(Clone, Copy, Debug, PartialEq, Eq, Structural)]
pub struct MigrateMsg {}

/// The fund manager's settings.
#[derive(Clone, Debug, PartialEq, Eq)]
pub struct Config {
    pub owner: String,
    pub oraiswap_v3: String,
}

/// The answer to the configuration query.
#[derive(Clone, Debug, PartialEq, Eq)]
pub struct ConfigResponse {
    pub owner: String,
    pub oraiswap_v3: String,
}

/// The settings at instantiation: the given owner, or the sender.
pub fn instantiate(sender: &String, msg: InstantiateMsg) -> (r: Config)
    ensures
        r.owner == match msg.owner {
            Some(o) => o,
            None => *sender,
        },
        r.oraiswap_v3 == msg.oraiswap_v3,
{
    Config {
        owner: match msg.owner {
            Some(o) => o,
            None => sender.clone(),
        },
        oraiswap_v3: msg.oraiswap_v3,
    }
}

/// Lets the owner change the owner and the contract it pays for; fails for
/// anyone else. Answers with the new settings and the response's attributes.
pub fn execute_update_config(
    config: &Config,
    sender: &String,
    owner: Option<String>,
    oraiswap_v3: Option<String>,
) -> (r: Result<(Config, Vec<Attribute>), ContractError>)
    ensures
        sender@ != config.owner@ ==> r == Err::<(Config, Vec<Attribute>), ContractError>(
            ContractError::Unauthorized,
        ),
        sender@ == config.owner@ ==> {
            &&& r is Ok
            &&& r.unwrap().0 == Config {
                owner: match owner {
                    Some(o) => o,
                    None => config.owner,
                },
                oraiswap_v3: match oraiswap_v3 {
                    Some(a) => a,
                    None => config.oraiswap_v3,
                },
            }
            &&& r.unwrap().1@.len() == 1
            &&& r.unwrap().1@[0].key@ == "action"@
            &&& r.unwrap().1@[0].value@ == "update_config"@
        },
{
    if *sender != config.owner {
        return Err(ContractError::Unauthorized);
    }
    let new_owner = match owner {
        Some(o) => o,
        None => config.owner.clone(),
    };
    let new_v3 = match oraiswap_v3 {
        Some(a) => a,
        None => config.oraiswap_v3.clone(),
    };
    let mut attributes: Vec<Attribute> = Vec::new();
    attributes.push(Attribute { key: "action".to_owned(), value: "update_config".to_owned() });
    Ok((Config { owner: new_owner, oraiswap_v3: new_v3 }, attributes))
}

/// Lets the concentrated-liquidity contract have an asset sent to a
/// receiver; fails for anyone else. Answers with the transfers to make and
/// the response's attributes.
pub fn execute_send_fund(config: &Config, info: &MessageInfo, asset: Asset, receiver: String) -> (r:
    Result<(Vec<TransferMsg>, Vec<Attribute>), ContractError>)
    ensures
        info.sender@ != config.oraiswap_v3@ ==> r == Err::<
            (Vec<TransferMsg>, Vec<Attribute>),
            ContractError,
        >(ContractError::Unauthorized),
        info.sender@ == config.oraiswap_v3@ ==> {
            &&& r is Ok
            &&& if asset.amount == 0 {
                r.unwrap().0@ == Seq::<TransferMsg>::empty()
            } else {
                r.unwrap().0@ == seq![send_msg(asset.info, receiver, asset.amount)]
            }
            &&& r.unwrap().1@.len() == 1
            &&& r.unwrap().1@[0].key@ == "action"@
            &&& r.unwrap().1@[0].value@ == "send_fund"@
        },
{
    if info.sender != config.oraiswap_v3 {
        return Err(ContractError::Unauthorized);
    }

    let mut msgs: Vec<TransferMsg> = Vec::new();
    let payee = MessageInfo { sender: receiver, funds: Vec::new() };
    match asset.transfer(&mut msgs, &payee) {
        Ok(()) => {},
        Err(e) => {
            return Err(e);
        },
    }
    proof {
        if asset.amount != 0 {
            assert(msgs@ =~= seq![send_msg(asset.info, receiver, asset.amount)]);
        }
    }
    let mut attributes: Vec<Attribute> = Vec::new();
    attributes.push(Attribute { key: "action".to_owned(), value: "send_fund".to_owned() });
    Ok((msgs, attributes))
}

/// The answer to the configuration query.
pub fn query_config(config: &Config) -> (r: ConfigResponse)
    ensures
        r.owner == config.owner,
        r.oraiswap_v3 == config.oraiswap_v3,
{
    ConfigResponse { owner: config.owner.clone(), oraiswap_v3: config.oraiswap_v3.clone() }
}

} // verus!
