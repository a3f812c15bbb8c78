use oraiswap_v3::asset::{Asset, AssetInfo, Attribute, Coin, MessageInfo, TransferMsg};
use oraiswap_v3::error::ContractError;
use oraiswap_v3::fund_manager::{
    execute_send_fund, execute_update_config, instantiate, query_config, InstantiateMsg,
};

fn token(addr: &str) -> AssetInfo {
    AssetInfo::Token { contract_addr: addr.to_string() }
}

fn native(denom: &str) -> AssetInfo {
    AssetInfo::NativeToken { denom: denom.to_string() }
}

fn info(sender: &str, funds: Vec<Coin>) -> MessageInfo {
    MessageInfo { sender: sender.to_string(), funds }
}

#[test]
fn test_asset_transfer() {
    let mut msgs = vec![];
    let alice = info("alice", vec![]);
    Asset { info: token("usdt"), amount: 0 }.transfer(&mut msgs, &alice).unwrap();
    assert!(msgs.is_empty());
    Asset { info: token("usdt"), amount: 5 }.transfer(&mut msgs, &alice).unwrap();
    Asset { info: native("orai"), amount: 6 }.transfer(&mut msgs, &alice).unwrap();
    assert_eq!(
        msgs,
        vec![
            TransferMsg::Cw20Transfer {
                contract_addr: "usdt".to_string(),
                recipient: "alice".to_string(),
                amount: 5,
            },
            TransferMsg::BankSend { to_address: "alice".to_string(), denom: "orai".to_string(), amount: 6 },
        ]
    );
}

#[test]
fn test_asset_transfer_from() {
    let mut msgs = vec![];
    let alice = info(
        "alice",
        vec![
            Coin { denom: "atom".to_string(), amount: 1 },
            Coin { denom: "orai".to_string(), amount: 150 },
        ],
    );
    // a token is pulled from the sender
    Asset { info: token("usdt"), amount: 5 }
        .transfer_from(&mut msgs, &alice, "dex".to_string())
        .unwrap();
    // coins that came with the message pay, the excess goes back
    Asset { info: native("orai"), amount: 100 }
        .transfer_from(&mut msgs, &alice, "dex".to_string())
        .unwrap();
    assert_eq!(
        msgs,
        vec![
            TransferMsg::Cw20TransferFrom {
                contract_addr: "usdt".to_string(),
                owner: "alice".to_string(),
                recipient: "dex".to_string(),
                amount: 5,
            },
            TransferMsg::BankSend { to_address: "alice".to_string(), denom: "orai".to_string(), amount: 50 },
        ]
    );
    let mut msgs = vec![];
    Asset { info: native("orai"), amount: 150 }
        .transfer_from(&mut msgs, &alice, "dex".to_string())
        .unwrap();
    assert!(msgs.is_empty());
    assert_eq!(
        Asset { info: native("orai"), amount: 151 }.transfer_from(&mut msgs, &alice, "dex".to_string()),
        Err(ContractError::InvalidFunds { transfer_amount: 151 })
    );
    assert_eq!(
        Asset { info: native("usdc"), amount: 1 }.transfer_from(&mut msgs, &alice, "dex".to_string()),
        Err(ContractError::InvalidFunds { transfer_amount: 1 })
    );
    assert!(msgs.is_empty());
}

#[test]
fn test_asset_info_names() {
    assert_eq!(AssetInfo::from_denom(&"orai1abc".to_string(), true), token("orai1abc"));
    assert_eq!(AssetInfo::from_denom(&"orai".to_string(), false), native("orai"));
    assert_eq!(token("usdt").denom(), "usdt");
    assert_eq!(native("orai").denom(), "orai");
    assert!(native("orai").same_as(&native("orai")));
    assert!(!native("orai").same_as(&token("orai")));
    let mut coins = vec![];
    let mut msgs = vec![];
    token("usdt").increase_allowance(&mut coins, &mut msgs, "dex".to_string(), 3).unwrap();
    native("orai").increase_allowance(&mut coins, &mut msgs, "dex".to_string(), 4).unwrap();
    assert_eq!(coins, vec![Coin { denom: "orai".to_string(), amount: 4 }]);
    assert_eq!(
        msgs,
        vec![TransferMsg::Cw20IncreaseAllowance {
            contract_addr: "usdt".to_string(),
            spender: "dex".to_string(),
            amount: 3,
        }]
    );
}

#[test]
fn test_fund_manager() {
    let config = instantiate(
        &"alice".to_string(),
        InstantiateMsg { owner: None, oraiswap_v3: "dex".to_string() },
    );
    assert_eq!(config.owner, "alice");
    let response = query_config(&config);
    assert_eq!(response.owner, "alice");
    assert_eq!(response.oraiswap_v3, "dex");

    assert_eq!(
        execute_update_config(&config, &"bob".to_string(), Some("bob".to_string()), None),
        Err(ContractError::Unauthorized)
    );
    let (config, attributes) =
        execute_update_config(&config, &"alice".to_string(), Some("bob".to_string()), None).unwrap();
    assert_eq!(config.owner, "bob");
    assert_eq!(
        attributes,
        vec![Attribute { key: "action".to_string(), value: "update_config".to_string() }]
    );
    assert_eq!(config.oraiswap_v3, "dex");

    // only the dex may have funds sent
    let sent = execute_send_fund(
        &config,
        &info("bob", vec![]),
        Asset { info: token("usdt"), amount: 5 },
        "carol".to_string(),
    );
    assert_eq!(sent, Err(ContractError::Unauthorized));
    let (sent, attributes) = execute_send_fund(
        &config,
        &info("dex", vec![]),
        Asset { info: token("usdt"), amount: 5 },
        "carol".to_string(),
    )
    .unwrap();
    assert_eq!(
        attributes,
        vec![Attribute { key: "action".to_string(), value: "send_fund".to_string() }]
    );
    assert_eq!(
        sent,
        vec![TransferMsg::Cw20Transfer {
            contract_addr: "usdt".to_string(),
            recipient: "carol".to_string(),
            amount: 5,
        }]
    );
    let (sent, _) = execute_send_fund(
        &config,
        &info("dex", vec![]),
        Asset { info: native("orai"), amount: 0 },
        "carol".to_string(),
    )
    .unwrap();
    assert!(sent.is_empty());
}

#[test]
fn test_error_messages() {
    assert_eq!(ContractError::NotFound.message(), "not found");
    assert_eq!(ContractError::TokensAreSame.message(), "tokens are the same");
    assert_eq!(ContractError::UnrecognizedReplyId { id: 9 }.message(), "Invalid Reply ID");
}
