use oraiswap_v3::asset::{Asset, AssetInfo, Attribute, Coin, MessageInfo, TransferMsg};
use oraiswap_v3::error::ContractError;
use oraiswap_v3::sqrt_price::calculate_sqrt_price;
use oraiswap_v3::tickmap::{get_max_tick, get_min_tick};
use oraiswap_v3::types::{FeeTier, Liquidity, Percentage, PoolKey, SqrtPrice};
use oraiswap_v3::zapper::{
    add_liquidity, execute_register_protocol_fee, get_config, get_pool_v3_asset_info,
    get_protocol_fee, instantiate, liquidity_source, reply, update_config, zap_in_liquidity,
    zap_in_liquidity_reply, zap_out_liquidity, zap_out_reply, Config, Decimal, InstantiateMsg,
    LiquiditySource, PairBalance, PendingPosition, ProtocolFee, ReplyStep, Route, SubMsg,
    SwapMsg, ZapInPlan, ZapperMsg, ZapperStore, ADD_LIQUIDITY_REPLY_ID,
    ZAP_IN_LIQUIDITY_REPLY_ID, ZAP_OUT_LIQUIDITY_REPLY_ID,
};

fn info(sender: &str) -> MessageInfo {
    MessageInfo { sender: sender.to_string(), funds: vec![] }
}

fn token(addr: &str) -> AssetInfo {
    AssetInfo::Token { contract_addr: addr.to_string() }
}

fn native(denom: &str) -> AssetInfo {
    AssetInfo::NativeToken { denom: denom.to_string() }
}

fn store() -> ZapperStore<u32> {
    instantiate(
        &info("alice"),
        InstantiateMsg {
            admin: "alice".to_string(),
            mixed_router: "router".to_string(),
            dex_v3: "dex".to_string(),
        },
    )
    .unwrap()
}

fn store_with_fee(percent: Decimal) -> ZapperStore<u32> {
    let mut s = store();
    execute_register_protocol_fee(&mut s, &"alice".to_string(), percent, "treasury".to_string())
        .unwrap();
    s
}

fn pool_key() -> PoolKey {
    PoolKey {
        token_x: "orai".to_string(),
        token_y: "usdt".to_string(),
        fee_tier: FeeTier { fee: Percentage(3_000_000_000), tick_spacing: 10 },
    }
}

fn route(token_in: &str, offer_amount: u128, op: u32) -> Route<u32> {
    Route {
        token_in: token_in.to_string(),
        offer_amount,
        operations: vec![op],
        minimum_receive: Some(1),
    }
}

fn tenth() -> Decimal {
    // 0.1
    Decimal(100_000_000_000_000_000)
}

fn attribute(key: &str, value: &str) -> Attribute {
    Attribute { key: key.to_string(), value: value.to_string() }
}

fn swap(offer: AssetInfo, amount: u128, op: u32) -> ZapperMsg<u32> {
    ZapperMsg::Swap(SwapMsg {
        offer,
        swap_router: "router".to_string(),
        amount,
        operations: vec![op],
        minimum_receive: None,
        to: None,
    })
}

#[allow(clippy::too_many_arguments)]
fn zap_in(
    s: &mut ZapperStore<u32>,
    native_balance: u128,
    token_y_is_address: bool,
    balance_x: u128,
    balance_y: u128,
    asset_in: Asset,
    routes: Vec<Route<u32>>,
    minimum_liquidity: Option<Liquidity>,
) -> Result<ZapInPlan<u32>, ContractError> {
    zap_in_liquidity(
        s,
        &info("carol"),
        &"zapper".to_string(),
        native_balance,
        4,
        false,
        token_y_is_address,
        balance_x,
        balance_y,
        pool_key(),
        -100,
        100,
        asset_in,
        routes,
        minimum_liquidity,
    )
}

#[test]
fn test_change_config_admin() {
    let mut s = store();
    let config = get_config(&s).unwrap();
    assert_eq!(config.admin, "alice");
    assert_eq!(config.mixed_router, "router");
    assert_eq!(config.dex_v3, "dex");

    let attributes =
        update_config(&mut s, &"alice".to_string(), Some("bob".to_string()), None, None).unwrap();
    assert_eq!(attributes, vec![attribute("action", "update_config")]);
    let config = get_config(&s).unwrap();
    assert_eq!(config.admin, "bob");
    assert_eq!(config.mixed_router, "router");
    assert_eq!(config.dex_v3, "dex");

    let err = update_config(&mut s, &"alice".to_string(), None, None, None).unwrap_err();
    assert_eq!(err, ContractError::Unauthorized);
    assert_eq!(get_config(&s).unwrap().admin, "bob");
}

#[test]
fn test_update_protocol_fee() {
    let mut s = store();
    assert_eq!(get_config(&s).unwrap().admin, "alice");

    // register failed, unauthorized
    let err = execute_register_protocol_fee(&mut s, &"bob".to_string(), tenth(), "bob".to_string())
        .unwrap_err();
    assert!(err.message().contains(&ContractError::Unauthorized.message()));

    // register failed, fee > 1
    let err = execute_register_protocol_fee(
        &mut s,
        &"alice".to_string(),
        Decimal(1_100_000_000_000_000_000),
        "bob".to_string(),
    )
    .unwrap_err();
    assert!(err.message().contains(&ContractError::InvalidFee.message()));
    assert_eq!(get_protocol_fee(&s), Err(ContractError::NotFound));

    // register success
    let attributes =
        execute_register_protocol_fee(&mut s, &"alice".to_string(), tenth(), "bob".to_string())
            .unwrap();
    assert_eq!(
        attributes,
        vec![
            attribute("action", "register_protocol_fee"),
            attribute("percent", "0.1"),
            attribute("fee_receiver", "bob"),
        ]
    );
    // query protocol fee
    assert_eq!(
        get_protocol_fee(&s),
        Ok(ProtocolFee { percent: tenth(), fee_receiver: "bob".to_string() })
    );
    // a fee of exactly one is accepted
    assert!(execute_register_protocol_fee(
        &mut s,
        &"alice".to_string(),
        Decimal(1_000_000_000_000_000_000),
        "bob".to_string()
    )
    .is_ok());
}

#[test]
fn test_zap_in_token_without_fee() {
    let mut s = store();
    let plan = zap_in(
        &mut s,
        0,
        false,
        500,
        700,
        Asset { info: token("atom"), amount: 1000 },
        vec![route("atom", 600, 1), route("atom", 400, 2)],
        Some(Liquidity(5)),
    )
    .unwrap();
    assert_eq!(
        plan.msgs,
        vec![TransferMsg::Cw20TransferFrom {
            contract_addr: "atom".to_string(),
            owner: "carol".to_string(),
            recipient: "zapper".to_string(),
            amount: 1000,
        }]
    );
    // only the last swap is answered
    assert_eq!(
        plan.sub_msgs,
        vec![
            SubMsg { msg: swap(token("atom"), 600, 1), reply_on_success: None },
            SubMsg {
                msg: swap(token("atom"), 400, 2),
                reply_on_success: Some(ZAP_IN_LIQUIDITY_REPLY_ID),
            },
        ]
    );
    assert!(!plan.reply_now);
    assert_eq!(
        s.pending_position,
        Some(PendingPosition::new(4, pool_key(), -100, 100, None, None, None, Some(Liquidity(5))))
    );
    assert_eq!(s.receiver, Some("carol".to_string()));
    assert_eq!(
        s.snap_balance,
        Some(PairBalance::new(
            Asset { info: native("orai"), amount: 500 },
            Asset { info: native("usdt"), amount: 700 }
        ))
    );
}

#[test]
fn test_zap_in_no_routes() {
    let mut s = store_with_fee(tenth());
    let plan = zap_in(
        &mut s,
        0,
        true,
        0,
        0,
        Asset { info: token("orai"), amount: 1000 },
        vec![],
        None,
    )
    .unwrap();
    // the fee goes to its receiver, and the zap-in reply follows at once
    assert_eq!(plan.msgs.len(), 2);
    assert_eq!(
        plan.msgs[1],
        TransferMsg::Cw20Transfer {
            contract_addr: "orai".to_string(),
            recipient: "treasury".to_string(),
            amount: 100,
        }
    );
    assert!(plan.sub_msgs.is_empty());
    assert!(plan.reply_now);
    assert!(s.pending_position.is_some());
}

#[test]
fn test_zap_in_native_with_fee() {
    let mut s = store_with_fee(tenth());
    let plan = zap_in(
        &mut s,
        1000,
        true,
        1500,
        700,
        Asset { info: native("orai"), amount: 1000 },
        vec![route("orai", 900, 1)],
        None,
    )
    .unwrap();
    // the fee goes to its receiver; the coins came with the message
    assert_eq!(
        plan.msgs,
        vec![TransferMsg::BankSend {
            to_address: "treasury".to_string(),
            denom: "orai".to_string(),
            amount: 100,
        }]
    );
    // the coins sent in are not counted in the snapshot of token x
    let snap = s.snap_balance.clone().unwrap();
    assert_eq!(snap.token_x, Asset { info: native("orai"), amount: 500 });
    assert_eq!(snap.token_y, Asset { info: token("usdt"), amount: 700 });
    assert_eq!(plan.sub_msgs.len(), 1);
    assert_eq!(
        plan.sub_msgs[0],
        SubMsg { msg: swap(native("orai"), 900, 1), reply_on_success: Some(ZAP_IN_LIQUIDITY_REPLY_ID) }
    );
}

#[test]
fn test_zap_in_errors() {
    let mut s = store_with_fee(tenth());
    // routes offer more than is left after the fee
    let err = zap_in(
        &mut s,
        0,
        false,
        0,
        0,
        Asset { info: token("atom"), amount: 1000 },
        vec![route("atom", 500, 1), route("atom", 401, 2)],
        None,
    )
    .map(|_| ())
    .unwrap_err();
    assert_eq!(err, ContractError::InvalidFund);
    assert!(s.pending_position.is_none());
    // the native coins were not sent (the zapper holds fewer than the amount)
    let err = zap_in(
        &mut s,
        5,
        false,
        5,
        0,
        Asset { info: native("orai"), amount: 10 },
        vec![],
        None,
    )
    .map(|_| ())
    .unwrap_err();
    assert_eq!(err, ContractError::NoFundSent);
    assert!(s.receiver.is_none());
    // no settings stored
    let mut empty: ZapperStore<u32> = ZapperStore {
        config: None,
        protocol_fee: None,
        pending_position: None,
        snap_balance: None,
        receiver: None,
        zap_out_routes: None,
        snap_balances: vec![],
    };
    let err = zap_in(&mut empty, 0, false, 0, 0, Asset { info: token("atom"), amount: 1 }, vec![], None)
        .map(|_| ())
        .unwrap_err();
    assert_eq!(err, ContractError::NotFound);
}

fn zap_out_store(fee: Option<Decimal>, routes: Vec<Route<u32>>) -> ZapperStore<u32> {
    let mut s = match fee {
        Some(p) => store_with_fee(p),
        None => store(),
    };
    zap_out_liquidity(
        &mut s,
        &info("carol"),
        &"zapper".to_string(),
        42,
        vec![],
        Asset { info: native("orai"), amount: 10 },
        Asset { info: token("usdt"), amount: 0 },
        routes,
    )
    .unwrap();
    s
}

#[test]
fn test_zap_out_reply_swaps_fees_and_refunds() {
    let mut s = zap_out_store(
        Some(tenth()),
        vec![route("orai", 60, 1), route("usdt", 50, 2), route("atom", 5, 3)],
    );
    let msgs = zap_out_reply(&mut s, vec![110, 50]).unwrap();
    let swap_to = |offer: AssetInfo, amount: u128, op: u32| {
        ZapperMsg::Swap(SwapMsg {
            offer,
            swap_router: "router".to_string(),
            amount,
            operations: vec![op],
            minimum_receive: Some(1),
            to: Some("carol".to_string()),
        })
    };
    assert_eq!(
        msgs,
        vec![
            ZapperMsg::Transfer(TransferMsg::BankSend {
                to_address: "treasury".to_string(),
                denom: "orai".to_string(),
                amount: 6,
            }),
            swap_to(native("orai"), 54, 1),
            ZapperMsg::Transfer(TransferMsg::Cw20Transfer {
                contract_addr: "usdt".to_string(),
                recipient: "treasury".to_string(),
                amount: 5,
            }),
            swap_to(token("usdt"), 45, 2),
            // what is left of orai goes back; nothing is left of usdt
            ZapperMsg::Transfer(TransferMsg::BankSend {
                to_address: "carol".to_string(),
                denom: "orai".to_string(),
                amount: 40,
            }),
        ]
    );
    // the zap-out's state is cleared
    assert!(s.snap_balances.is_empty());
    assert!(s.receiver.is_none());
    assert!(s.zap_out_routes.is_none());
}

#[test]
fn test_zap_out_reply_without_fee() {
    let mut s = zap_out_store(None, vec![route("orai", 30, 1), route("orai", 70, 2)]);
    let msgs = zap_out_reply(&mut s, vec![110, 0]).unwrap();
    assert_eq!(msgs.len(), 2);
    assert!(matches!(&msgs[0], ZapperMsg::Swap(s) if s.amount == 30));
    assert!(matches!(&msgs[1], ZapperMsg::Swap(s) if s.amount == 70));
}

#[test]
fn test_zap_out_reply_errors() {
    let mut s = zap_out_store(None, vec![route("orai", 60, 1), route("orai", 41, 2)]);
    let err = zap_out_reply(&mut s, vec![110, 0]).unwrap_err();
    assert_eq!(err, ContractError::ZapOutNotEnoughBalanceToSwap);
    assert!(err.message().contains("not enough balance to swap"));
    // nothing was cleared
    assert_eq!(s.snap_balances.len(), 2);
    assert!(s.receiver.is_some());
    assert!(s.zap_out_routes.is_some());

    let err = zap_out_reply(&mut s, vec![9, 0]).unwrap_err();
    assert_eq!(err, ContractError::Overflow);

    let mut fresh = store();
    assert_eq!(zap_out_reply(&mut fresh, vec![]), Err(ContractError::NotFound));
}

#[test]
fn test_zap_out_snapshots_each_asset_once() {
    let mut s = store();
    let response = zap_out_liquidity(
        &mut s,
        &info("carol"),
        &"zapper".to_string(),
        42,
        vec![Asset { info: token("reward"), amount: 9 }, Asset { info: native("orai"), amount: 3 }],
        Asset { info: native("orai"), amount: 5 },
        Asset { info: token("usdt"), amount: 2 },
        vec![route("orai", 1, 1)],
    )
    .unwrap();
    assert_eq!(
        response.msgs,
        vec![ZapperMsg::TransferNft {
            dex: "dex".to_string(),
            token_id: 42,
            recipient: "zapper".to_string(),
        }]
    );
    assert_eq!(
        response.sub_msgs,
        vec![SubMsg {
            msg: ZapperMsg::Burn { dex: "dex".to_string(), token_id: 42 },
            reply_on_success: Some(ZAP_OUT_LIQUIDITY_REPLY_ID),
        }]
    );
    // one balance per name, in byte order of the names; the later one of orai stays
    assert_eq!(
        s.snap_balances,
        vec![
            Asset { info: native("orai"), amount: 5 },
            Asset { info: token("reward"), amount: 9 },
            Asset { info: token("usdt"), amount: 2 },
        ]
    );
    assert_eq!(s.receiver, Some("carol".to_string()));
    assert_eq!(s.zap_out_routes, Some(vec![route("orai", 1, 1)]));

    // the coin received once is refunded once
    s.zap_out_routes = Some(vec![]);
    let msgs = zap_out_reply(&mut s, vec![10, 9, 2]).unwrap();
    assert_eq!(
        msgs,
        vec![ZapperMsg::Transfer(TransferMsg::BankSend {
            to_address: "carol".to_string(),
            denom: "orai".to_string(),
            amount: 5,
        })]
    );
}

#[test]
fn test_zap_out_pays_out_what_it_received() {
    let mut s = zap_out_store(
        Some(Decimal(30_000_000_000_000_000)),
        vec![route("orai", 333, 1), route("usdt", 499, 2), route("orai", 7, 3)],
    );
    let msgs = zap_out_reply(&mut s, vec![1010, 500]).unwrap();
    let paid = |info: &AssetInfo| -> u128 {
        msgs.iter()
            .map(|m| match m {
                ZapperMsg::Transfer(TransferMsg::BankSend { denom, amount, .. })
                    if *info == native(denom) => *amount,
                ZapperMsg::Transfer(TransferMsg::Cw20Transfer { contract_addr, amount, .. })
                    if *info == token(contract_addr) => *amount,
                ZapperMsg::Swap(s) if s.offer == *info => s.amount,
                _ => 0,
            })
            .sum()
    };
    assert_eq!(paid(&native("orai")), 1000);
    assert_eq!(paid(&token("usdt")), 500);
}

fn pending_store(minimum_liquidity: Option<Liquidity>) -> ZapperStore<u32> {
    let mut s = store();
    s.snap_balance = Some(PairBalance::new(
        Asset { info: token("orai"), amount: 100 },
        Asset { info: native("usdt"), amount: 200 },
    ));
    s.pending_position =
        Some(PendingPosition::new(3, pool_key(), -10, 10, None, Some(SqrtPrice(77)), None, minimum_liquidity));
    s.receiver = Some("carol".to_string());
    s
}

#[test]
fn test_add_liquidity_refunds_and_clears() {
    let mut s = pending_store(None);
    let msgs = add_liquidity(&mut s, 150, 200).unwrap();
    assert_eq!(
        msgs,
        vec![
            ZapperMsg::TransferPosition {
                dex: "dex".to_string(),
                index: 3,
                receiver: "carol".to_string(),
            },
            ZapperMsg::Transfer(TransferMsg::Cw20Transfer {
                contract_addr: "orai".to_string(),
                recipient: "carol".to_string(),
                amount: 50,
            }),
        ]
    );
    assert!(s.pending_position.is_none());
    assert!(s.snap_balance.is_none());
    assert!(s.receiver.is_none());
    // nothing is pending any more
    assert_eq!(add_liquidity(&mut s, 150, 200), Err(ContractError::NotFound));
}

#[test]
fn test_zap_in_liquidity_reply() {
    let s = pending_store(Some(Liquidity(1000)));
    let err = zap_in_liquidity_reply(&s, 150, 260, Liquidity(999)).map(|_| ()).unwrap_err();
    assert_eq!(
        err,
        ContractError::ZapInAssertionFailure { minium_receive: 1000, return_amount: 999 }
    );

    let response = zap_in_liquidity_reply(&s, 150, 260, Liquidity(1000)).unwrap();
    let min_price = calculate_sqrt_price(get_min_tick(10)).unwrap();
    assert_ne!(min_price, SqrtPrice(77));
    assert_eq!(
        response.msgs,
        vec![ZapperMsg::Transfer(TransferMsg::Cw20IncreaseAllowance {
            contract_addr: "orai".to_string(),
            spender: "dex".to_string(),
            amount: 50,
        })]
    );
    assert_eq!(
        response.sub_msgs,
        vec![SubMsg {
            msg: ZapperMsg::CreatePosition {
                dex: "dex".to_string(),
                pool_key: pool_key(),
                lower_tick: -10,
                upper_tick: 10,
                liquidity_delta: Liquidity(1000),
                slippage_limit_lower: SqrtPrice(77),
                slippage_limit_upper: calculate_sqrt_price(get_max_tick(10)).unwrap(),
                funds: vec![Coin { denom: "usdt".to_string(), amount: 60 }],
            },
            reply_on_success: Some(ADD_LIQUIDITY_REPLY_ID),
        }]
    );
    assert_eq!(
        zap_in_liquidity_reply(&store(), 0, 0, Liquidity(1)).map(|_| ()),
        Err(ContractError::NotFound)
    );
}

#[test]
fn test_reply_ids() {
    assert_eq!(reply(ZAP_IN_LIQUIDITY_REPLY_ID), Ok(ReplyStep::ZapInLiquidity));
    assert_eq!(reply(ZAP_OUT_LIQUIDITY_REPLY_ID), Ok(ReplyStep::ZapOutLiquidity));
    assert_eq!(reply(ADD_LIQUIDITY_REPLY_ID), Ok(ReplyStep::AddLiquidity));
    assert_eq!(reply(4), Err(ContractError::UnrecognizedReplyId { id: 4 }));
}

#[test]
fn test_pool_asset_info() {
    let (x, y) = get_pool_v3_asset_info(&pool_key(), true, false);
    assert_eq!(x, token("orai"));
    assert_eq!(y, native("usdt"));
}

#[test]
fn test_liquidity_source() {
    assert_eq!(liquidity_source(-10, 10, 0), LiquiditySource::XThenY);
    assert_eq!(liquidity_source(-10, 10, -10), LiquiditySource::XThenY);
    assert_eq!(liquidity_source(-10, 10, 10), LiquiditySource::Y);
    assert_eq!(liquidity_source(-10, 10, -11), LiquiditySource::X);
}

#[test]
fn test_zapper_stored_settings() {
    let s = store();
    assert_eq!(
        get_config(&s),
        Ok(Config {
            admin: "alice".to_string(),
            mixed_router: "router".to_string(),
            dex_v3: "dex".to_string(),
        })
    );
    assert_eq!(get_protocol_fee(&s), Err(ContractError::NotFound));
    let s = store_with_fee(tenth());
    assert_eq!(
        get_protocol_fee(&s),
        Ok(ProtocolFee { percent: tenth(), fee_receiver: "treasury".to_string() })
    );
}
