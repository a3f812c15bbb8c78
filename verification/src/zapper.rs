//! The zapper: it turns one asset into a liquidity position (swapping part of
//! it through a router first) and a position back into assets, taking a
//! protocol fee on the way.

use vstd::prelude::*;

use crate::asset::{send_msg, Asset, AssetInfo, Attribute, Coin, MessageInfo, TransferMsg};
use crate::error::ContractError;
use crate::sqrt_price::{calculate_sqrt_price, sqrt_price_at};
use crate::tickmap::{get_max_tick, get_min_tick, max_tick_of};
use crate::kv::{
    bytes_eq, bytes_less, bytes_lt, lemma_bytes_lt_irreflexive, lemma_bytes_lt_total,
    lemma_bytes_lt_trans,
};
use crate::types::{string_bytes, utf8, Liquidity, PoolKey, SqrtPrice};

verus! {

/// A fraction with 18 decimal places, as its atomic units.
#[derive(Clone, Copy, Debug, PartialEq, Eq, Structural)]
pub struct Decimal(pub u128);

/// One, as a `Decimal`'s atomic units.
pub const DECIMAL_ONE: u128 = 1_000_000_000_000_000_000;

/// The zapper's settings.
#[derive(Clone, Debug, PartialEq, Eq)]
pub struct Config {
    pub admin: String,
    pub mixed_router: String,
    pub dex_v3: String,
}

/// The fee the zapper takes, and who receives it.
#[derive(Clone, Debug, PartialEq, Eq)]
pub struct ProtocolFee {
    pub percent: Decimal,
    pub fee_receiver: String,
}

/// The settings the zapper starts with.
#[derive(Clone, Debug, PartialEq, Eq)]
pub struct InstantiateMsg {
    pub admin: String,
    pub mixed_router: String,
    pub dex_v3: String,
}

/// The message of a migration (it carries nothing).
#[derive(Clone, Copy, Debug, PartialEq, Eq, Structural)]
pub struct MigrateMsg {}

/// A swap through the router: an amount of one token and the operations to
/// apply to it.
#[derive(Clone, Debug, PartialEq, Eq)]
pub struct Route<Op> {
    pub token_in: String,
    pub offer_amount: u128,
    pub operations: Vec<Op>,
    pub minimum_receive: Option<u128>,
}

/// The position a zap-in is building.
#[derive(Clone, Debug, PartialEq, Eq)]
pub struct PendingPosition {
    pub index: u32,
    pub pool_key: PoolKey,
    pub lower_tick: i32,
    pub upper_tick: i32,
    pub liquidity_delta: Option<Liquidity>,
    pub slippage_limit_lower: Option<SqrtPrice>,
    pub slippage_limit_upper: Option<SqrtPrice>,
    pub minimum_liquidity: Option<Liquidity>,
}

/// The balances of a pool's two tokens, as the zapper snapshots them.
#[derive(Clone, Debug, PartialEq, Eq)]
pub struct PairBalance {
    pub token_x: Asset,
    pub token_y: Asset,
}

/// The incentive balances a zap-out snapshots.
#[derive(Clone, Debug, PartialEq, Eq)]
pub struct IncentiveBalance {
    pub incentives: Vec<Asset>,
}

/// The routes of a zap-out into a single token.
#[derive(Clone, Debug, PartialEq, Eq)]
pub struct ZapOutRoutes<Op> {
    pub operation_from_x: Option<Vec<Op>>,
    pub operation_from_y: Option<Vec<Op>>,
    pub minimum_receive_x: Option<u128>,
    pub minimum_receive_y: Option<u128>,
    pub token_out: AssetInfo,
}

/// A call of the router's swap operations, paid with `amount` of `offer`.
#[derive(Clone, Debug, PartialEq, Eq)]
pub struct SwapMsg<Op> {
    pub offer: AssetInfo,
    pub swap_router: String,
    pub amount: u128,
    pub operations: Vec<Op>,
    pub minimum_receive: Option<u128>,
    pub to: Option<String>,
}

impl PendingPosition {
    /// A pending position.
    pub fn new(
        index: u32,
        pool_key: PoolKey,
        lower_tick: i32,
        upper_tick: i32,
        liquidity_delta: Option<Liquidity>,
        slippage_limit_lower: Option<SqrtPrice>,
        slippage_limit_upper: Option<SqrtPrice>,
        minimum_liquidity: Option<Liquidity>,
    ) -> (r: Self)
        ensures
            r == (PendingPosition {
                index,
                pool_key,
                lower_tick,
                upper_tick,
                liquidity_delta,
                slippage_limit_lower,
                slippage_limit_upper,
                minimum_liquidity,
            }),
    {
        Self {
            index,
            pool_key,
            lower_tick,
            upper_tick,
            liquidity_delta,
            slippage_limit_lower,
            slippage_limit_upper,
            minimum_liquidity,
        }
    }
}

impl PairBalance {
    /// A snapshot of two balances.
    pub fn new(token_x: Asset, token_y: Asset) -> (r: Self)
        ensures
            r == (PairBalance { token_x, token_y }),
    {
        Self { token_x, token_y }
    }
}

/// `amount * percent`, rounded down, computed by `cosmwasm_std`'s
/// `Uint128 * Decimal` (which panics when the product does not fit).
#[verifier::external_body]
fn mul_decimal(amount: u128, percent: Decimal) -> (r: u128)
    requires
        amount * percent.0 / (DECIMAL_ONE as int) <= u128::MAX,
    ensures
        r == amount * percent.0 / (DECIMAL_ONE as int),
{
    (cosmwasm_std::Uint128::new(amount) * cosmwasm_std::Decimal::raw(percent.0)).u128()
}

/// The fee on an amount.
pub open spec fn fee_on(amount: u128, percent: Decimal) -> int {
    amount * percent.0 / (DECIMAL_ONE as int)
}

/// The text of a decimal, as `cosmwasm_std::Decimal`'s `Display` writes it
/// from its atomics.
pub uninterp spec fn decimal_text(atomics: u128) -> Seq<char>;

/// The text of a decimal, written by `cosmwasm_std::Decimal`'s `Display`
/// (the whole part, then a point and the fraction's digits without trailing
/// zeros when there is a fraction); the contract names the result.
#[verifier::external_body]
fn decimal_to_string(percent: Decimal) -> (r: String)
    ensures
        r@ == decimal_text(percent.0),
{
    cosmwasm_std::Decimal::raw(percent.0).to_string()
}

/// Lets the admin change the admin, the router and the dex; fails, changing
/// nothing, for anyone else or when no settings are stored. Answers with the
/// response's attributes.
pub fn update_config<Op>(
    store: &mut ZapperStore<Op>,
    sender: &String,
    admin: Option<String>,
    mixed_router: Option<String>,
    dex_v3: Option<String>,
) -> (r: Result<Vec<Attribute>, ContractError>)
    ensures
        old(store).config is None ==> r == Err::<Vec<Attribute>, ContractError>(
            ContractError::NotFound,
        ) && *final(store) == *old(store),
        old(store).config matches Some(config) ==> {
            &&& sender@ != config.admin@ ==> r == Err::<Vec<Attribute>, ContractError>(
                ContractError::Unauthorized,
            ) && *final(store) == *old(store)
            &&& sender@ == config.admin@ ==> {
                &&& r is Ok
                &&& r.unwrap()@.len() == 1
                &&& r.unwrap()@[0].key@ == "action"@
                &&& r.unwrap()@[0].value@ == "update_config"@
                &&& *final(store) == ZapperStore {
                    config: Some(
                        Config {
                            admin: match admin {
                                Some(a) => a,
                                None => config.admin,
                            },
                            mixed_router: match mixed_router {
                                Some(a) => a,
                                None => config.mixed_router,
                            },
                            dex_v3: match dex_v3 {
                                Some(a) => a,
                                None => config.dex_v3,
                            },
                        },
                    ),
                    ..*old(store)
                }
            }
        },
{
    let config = match &store.config {
        Some(c) => c,
        None => {
            return Err(ContractError::NotFound);
        },
    };
    if *sender != config.admin {
        return Err(ContractError::Unauthorized);
    }
    let new_config = Config {
        admin: match admin {
            Some(a) => a,
            None => config.admin.clone(),
        },
        mixed_router: match mixed_router {
            Some(a) => a,
            None => config.mixed_router.clone(),
        },
        dex_v3: match dex_v3 {
            Some(a) => a,
            None => config.dex_v3.clone(),
        },
    };
    store.config = Some(new_config);
    let mut attributes: Vec<Attribute> = Vec::new();
    attributes.push(Attribute { key: "action".to_owned(), value: "update_config".to_owned() });
    Ok(attributes)
}

/// Lets the admin register the protocol fee, at most one, and who receives
/// it; fails, changing nothing, for anyone else, for a larger fee, or when
/// no settings are stored. Answers with the response's attributes.
pub fn execute_register_protocol_fee<Op>(
    store: &mut ZapperStore<Op>,
    sender: &String,
    percent: Decimal,
    fee_receiver: String,
) -> (r: Result<Vec<Attribute>, ContractError>)
    ensures
        old(store).config is None ==> r == Err::<Vec<Attribute>, ContractError>(
            ContractError::NotFound,
        ) && *final(store) == *old(store),
        old(store).config matches Some(config) ==> {
            &&& sender@ != config.admin@ ==> r == Err::<Vec<Attribute>, ContractError>(
                ContractError::Unauthorized,
            ) && *final(store) == *old(store)
            &&& sender@ == config.admin@ && percent.0 > DECIMAL_ONE ==> r == Err::<
                Vec<Attribute>,
                ContractError,
            >(ContractError::InvalidFee) && *final(store) == *old(store)
            &&& sender@ == config.admin@ && percent.0 <= DECIMAL_ONE ==> {
                &&& r is Ok
                &&& r.unwrap()@.len() == 3
                &&& r.unwrap()@[0].key@ == "action"@
                &&& r.unwrap()@[0].value@ == "register_protocol_fee"@
                &&& r.unwrap()@[1].key@ == "percent"@
                &&& r.unwrap()@[1].value@ == decimal_text(percent.0)
                &&& r.unwrap()@[2].key@ == "fee_receiver"@
                &&& r.unwrap()@[2].value@ == fee_receiver@
                &&& *final(store) == ZapperStore {
                    protocol_fee: Some(ProtocolFee { percent, fee_receiver }),
                    ..*old(store)
                }
            }
        },
{
    match &store.config {
        Some(c) => {
            if *sender != c.admin {
                return Err(ContractError::Unauthorized);
            }
        },
        None => {
            return Err(ContractError::NotFound);
        },
    }
    // the fee is at most one
    if percent.0 > DECIMAL_ONE {
        return Err(ContractError::InvalidFee);
    }
    let mut attributes: Vec<Attribute> = Vec::new();
    attributes.push(
        Attribute { key: "action".to_owned(), value: "register_protocol_fee".to_owned() },
    );
    attributes.push(Attribute { key: "percent".to_owned(), value: decimal_to_string(percent) });
    attributes.push(Attribute { key: "fee_receiver".to_owned(), value: fee_receiver.clone() });
    store.protocol_fee = Some(ProtocolFee { percent, fee_receiver });
    Ok(attributes)
}

/// Checks that `asset` reaches the zapper at `address`: a token is pulled
/// from the sender with a `TransferFrom`; for a native coin, the zapper's
/// balance of it (`native_balance`) must already cover the amount.
pub fn validate_fund(
    native_balance: u128,
    info: &MessageInfo,
    address: String,
    asset: Asset,
    msgs: &mut Vec<TransferMsg>,
) -> (r: Result<(), ContractError>)
    ensures
        match asset.info {
            AssetInfo::Token { contract_addr } => r is Ok && (asset.amount == 0 ==> final(msgs)@
                == old(msgs)@) && (asset.amount != 0 ==> final(msgs)@ == old(msgs)@.push(
                TransferMsg::Cw20TransferFrom {
                    contract_addr,
                    owner: info.sender,
                    recipient: address,
                    amount: asset.amount,
                },
            )),
            AssetInfo::NativeToken { .. } => final(msgs)@ == old(msgs)@ && (native_balance
                < asset.amount ==> r == Err::<(), ContractError>(ContractError::NoFundSent)) && (
            native_balance >= asset.amount ==> r is Ok),
        },
{
    match &asset.info {
        AssetInfo::Token { contract_addr: _ } => {
            match asset.transfer_from(msgs, info, address) {
                Ok(()) => {},
                Err(e) => {
                    return Err(e);
                },
            }
        },
        AssetInfo::NativeToken { denom: _ } => {
            if native_balance < asset.amount {
                return Err(ContractError::NoFundSent);
            }
        },
    }
    Ok(())
}

/// The assets of a pool's two tokens: each a cw20 token when its name is a
/// valid address (`token_x_is_address`, `token_y_is_address`, as the chain's
/// address validation says), a native coin otherwise.
pub fn get_pool_v3_asset_info(pool_key: &PoolKey, token_x_is_address: bool, token_y_is_address: bool) -> (r: (
    AssetInfo,
    AssetInfo,
))
    ensures
        r.0 == (if token_x_is_address {
            AssetInfo::Token { contract_addr: pool_key.token_x }
        } else {
            AssetInfo::NativeToken { denom: pool_key.token_x }
        }),
        r.1 == (if token_y_is_address {
            AssetInfo::Token { contract_addr: pool_key.token_y }
        } else {
            AssetInfo::NativeToken { denom: pool_key.token_y }
        }),
{
    (
        AssetInfo::from_denom(&pool_key.token_x, token_x_is_address),
        AssetInfo::from_denom(&pool_key.token_y, token_y_is_address),
    )
}

/// The sum of the amounts that routes offer.
pub open spec fn offered<Op>(routes: Seq<Route<Op>>) -> int
    decreases routes.len(),
{
    if routes.len() == 0 {
        0
    } else {
        offered(routes.drop_last()) + routes.last().offer_amount
    }
}

/// The zapper's storage: its settings, the protocol fee, and what a zap-in
/// or a zap-out keeps between its steps.
pub struct ZapperStore<Op> {
    pub config: Option<Config>,
    pub protocol_fee: Option<ProtocolFee>,
    /// The position a zap-in is building.
    pub pending_position: Option<PendingPosition>,
    /// A zap-in's balances of the pool's two tokens before its swaps.
    pub snap_balance: Option<PairBalance>,
    /// Who receives what a zap-in or a zap-out makes.
    pub receiver: Option<String>,
    /// The swaps a zap-out takes once the position is burnt.
    pub zap_out_routes: Option<Vec<Route<Op>>>,
    /// A zap-out's balances before the burn, one per asset name, in byte
    /// order of the names.
    pub snap_balances: Vec<Asset>,
}

/// A message sent as a submessage, answered by the reply with the given id
/// when it succeeds, or by none.
#[derive(Clone, Debug, PartialEq, Eq)]
pub struct SubMsg<Op> {
    pub msg: ZapperMsg<Op>,
    pub reply_on_success: Option<u64>,
}

/// What a zap-in sends: the transfers to make now, then the swaps as
/// submessages, the last of them answered by the zap-in reply. With no swap
/// to make, `reply_now` says the zap-in reply follows at once.
pub struct ZapInPlan<Op> {
    pub msgs: Vec<TransferMsg>,
    pub sub_msgs: Vec<SubMsg<Op>>,
    pub reply_now: bool,
}

/// The pool's token `token` (`token_x` or `token_y` of a key), a cw20
/// token when its name is a valid address.
pub open spec fn pool_asset(name: String, is_address: bool) -> AssetInfo {
    if is_address {
        AssetInfo::Token { contract_addr: name }
    } else {
        AssetInfo::NativeToken { denom: name }
    }
}

/// The `i`-th submessage of a zap-in: the swap of the `i`-th route through
/// the router, answered by the zap-in reply when it is the last.
pub open spec fn zap_in_sub_msg<Op>(asset_in: Asset, mixed_router: String, routes: Seq<Route<Op>>, i: int) -> SubMsg<Op> {
    let route = routes[i];
    SubMsg {
        msg: ZapperMsg::Swap(
            SwapMsg {
                offer: asset_in.info,
                swap_router: mixed_router,
                amount: route.offer_amount,
                operations: route.operations,
                minimum_receive: None,
                to: None,
            },
        ),
        reply_on_success: if i == routes.len() - 1 {
            Some(ZAP_IN_LIQUIDITY_REPLY_ID)
        } else {
            None
        },
    }
}

/// The amount of a zap-in left after the protocol fee.
pub open spec fn amount_after_fee(amount: u128, protocol_fee: Option<ProtocolFee>) -> int {
    match protocol_fee {
        Some(fee) => amount - fee_on(amount, fee.percent),
        None => amount as int,
    }
}

/// Whether a zap-in stays within the bounds of its arithmetic: the fee is at
/// most the amount, the routes' total fits, and once the coins sent in are
/// found in the zapper's balance, its balance of the pool token they are
/// covers them too.
pub open spec fn zap_in_in_bounds<Op>(
    protocol_fee: Option<ProtocolFee>,
    asset_in: Asset,
    routes: Seq<Route<Op>>,
    native_balance: u128,
    token_x: AssetInfo,
    token_y: AssetInfo,
    balance_x: u128,
    balance_y: u128,
) -> bool {
    &&& protocol_fee matches Some(fee) ==> fee_on(asset_in.amount, fee.percent) <= asset_in.amount
    &&& offered(routes) <= u128::MAX
    &&& asset_in.info is NativeToken && native_balance >= asset_in.amount ==> (asset_in.info.names_same(token_x) ==> balance_x
        >= asset_in.amount) && (!asset_in.info.names_same(token_x) && asset_in.info.names_same(
        token_y) ==> balance_y >= asset_in.amount)
}

proof fn lemma_offered_prefix<Op>(routes: Seq<Route<Op>>, i: int)
    requires
        0 <= i < routes.len(),
    ensures
        offered(routes.subrange(0, i + 1)) == offered(routes.subrange(0, i))
            + routes[i].offer_amount,
        offered(routes.subrange(0, i + 1)) <= offered(routes),
    decreases routes.len() - i,
{
    assert(routes.subrange(0, i + 1).drop_last() =~= routes.subrange(0, i));
    if i + 1 < routes.len() {
        lemma_offered_prefix(routes, i + 1);
    } else {
        assert(routes.subrange(0, i + 1) =~= routes);
    }
}

/// Starts a zap-in of `asset_in` into a position of `pool_key` between the
/// two ticks: checks that the asset reaches the zapper, takes the protocol
/// fee, checks that the routes offer no more than what is left, and plans
/// the swaps. `native_balance` is the zapper's balance of `asset_in` when it
/// is a native coin, `position_length` the zapper's number of positions at
/// the dex, `token_x_is_address`/`token_y_is_address` whether the pool's
/// token names are valid addresses, and `balance_x`/`balance_y` the
/// zapper's balances of them.
pub fn zap_in_liquidity<Op>(
    store: &mut ZapperStore<Op>,
    info: &MessageInfo,
    contract_address: &String,
    native_balance: u128,
    position_length: u32,
    token_x_is_address: bool,
    token_y_is_address: bool,
    balance_x: u128,
    balance_y: u128,
    pool_key: PoolKey,
    tick_lower_index: i32,
    tick_upper_index: i32,
    asset_in: Asset,
    routes: Vec<Route<Op>>,
    minimum_liquidity: Option<Liquidity>,
) -> (r: Result<ZapInPlan<Op>, ContractError>)
    requires
        zap_in_in_bounds(
            old(store).protocol_fee,
            asset_in,
            routes@,
            native_balance,
            pool_asset(pool_key.token_x, token_x_is_address),
            pool_asset(pool_key.token_y, token_y_is_address),
            balance_x,
            balance_y,
        ),
    ensures
        ({
            let no_fund = asset_in.info is NativeToken && native_balance < asset_in.amount;
            let too_much = offered(routes@) > amount_after_fee(asset_in.amount, old(store).protocol_fee);
            &&& no_fund ==> r == Err::<ZapInPlan<Op>, ContractError>(ContractError::NoFundSent)
            &&& !no_fund && too_much ==> r == Err::<ZapInPlan<Op>, ContractError>(
                ContractError::InvalidFund,
            )
            &&& !no_fund && !too_much && old(store).config is None ==> r == Err::<
                ZapInPlan<Op>,
                ContractError,
            >(ContractError::NotFound)
            &&& !no_fund && !too_much && old(store).config is Some ==> r is Ok
        }),
        r is Err ==> *final(store) == *old(store),
        r matches Ok(plan) ==> {
            let token_x = pool_asset(pool_key.token_x, token_x_is_address);
            let token_y = pool_asset(pool_key.token_y, token_y_is_address);
            let pulled: Seq<TransferMsg> = match asset_in.info {
                AssetInfo::Token { contract_addr } => if asset_in.amount == 0 {
                    Seq::empty()
                } else {
                    seq![
                        TransferMsg::Cw20TransferFrom {
                            contract_addr,
                            owner: info.sender,
                            recipient: *contract_address,
                            amount: asset_in.amount,
                        },
                    ]
                },
                AssetInfo::NativeToken { .. } => Seq::empty(),
            };
            let fee_msgs: Seq<TransferMsg> = match old(store).protocol_fee {
                Some(fee) => seq![
                    send_msg(
                        asset_in.info,
                        fee.fee_receiver,
                        fee_on(asset_in.amount, fee.percent) as u128,
                    ),
                ],
                None => Seq::empty(),
            };
            let native_in = asset_in.info is NativeToken;
            let mixed_router = old(store).config.unwrap().mixed_router;
            &&& plan.msgs@ == pulled + fee_msgs
            &&& final(store).pending_position == Some(
                PendingPosition {
                    index: position_length,
                    pool_key,
                    lower_tick: tick_lower_index,
                    upper_tick: tick_upper_index,
                    liquidity_delta: None,
                    slippage_limit_lower: None,
                    slippage_limit_upper: None,
                    minimum_liquidity,
                },
            )
            &&& final(store).receiver == Some(info.sender)
            &&& final(store).snap_balance == Some(
                PairBalance {
                    token_x: Asset {
                        info: token_x,
                        amount: if native_in && asset_in.info.names_same(token_x) {
                            (balance_x - asset_in.amount) as u128
                        } else {
                            balance_x
                        },
                    },
                    token_y: Asset {
                        info: token_y,
                        amount: if native_in && !asset_in.info.names_same(token_x)
                            && asset_in.info.names_same(token_y) {
                            (balance_y - asset_in.amount) as u128
                        } else {
                            balance_y
                        },
                    },
                },
            )
            &&& final(store).config == old(store).config
            &&& final(store).protocol_fee == old(store).protocol_fee
            &&& final(store).zap_out_routes == old(store).zap_out_routes
            &&& final(store).snap_balances == old(store).snap_balances
            &&& plan.sub_msgs@.len() == routes@.len()
            &&& forall|i: int|
                0 <= i < routes@.len() ==> #[trigger] plan.sub_msgs@[i] == zap_in_sub_msg(
                    asset_in,
                    mixed_router,
                    routes@,
                    i,
                )
            &&& plan.reply_now == (routes@.len() == 0)
        },
{
    let mut msgs: Vec<TransferMsg> = Vec::new();

    // transfer the amount or check the fund is sent with request
    match validate_fund(
        native_balance,
        info,
        contract_address.clone(),
        Asset { info: asset_in.info.duplicate(), amount: asset_in.amount },
        &mut msgs,
    ) {
        Ok(()) => {},
        Err(e) => {
            return Err(e);
        },
    }
    let ghost pulled = msgs@;

    let mut amount_after_fee = asset_in.amount;
    // deduct the zap-in fee
    match &store.protocol_fee {
        Some(fee) => {
            let fee_amount = mul_decimal(asset_in.amount, fee.percent);
            amount_after_fee = amount_after_fee - fee_amount;
            // transfer the fee to its receiver
            msgs.push(
                match &asset_in.info {
                    AssetInfo::Token { contract_addr } => TransferMsg::Cw20Transfer {
                        contract_addr: contract_addr.clone(),
                        recipient: fee.fee_receiver.clone(),
                        amount: fee_amount,
                    },
                    AssetInfo::NativeToken { denom } => TransferMsg::BankSend {
                        to_address: fee.fee_receiver.clone(),
                        denom: denom.clone(),
                        amount: fee_amount,
                    },
                },
            );
        },
        None => {},
    }

    // the routes offer no more than what is left
    let mut total_swap_amount: u128 = 0;
    let mut i: usize = 0;
    while i < routes.len()
        invariant
            i <= routes@.len(),
            total_swap_amount == offered(routes@.subrange(0, i as int)),
            offered(routes@) <= u128::MAX,
        decreases routes@.len() - i,
    {
        proof {
            lemma_offered_prefix(routes@, i as int);
        }
        total_swap_amount = total_swap_amount + routes[i].offer_amount;
        i = i + 1;
    }
    assert(routes@.subrange(0, routes@.len() as int) =~= routes@);
    if total_swap_amount > amount_after_fee {
        return Err(ContractError::InvalidFund);
    }

    let mixed_router = match &store.config {
        Some(c) => c.mixed_router.clone(),
        None => {
            return Err(ContractError::NotFound);
        },
    };

    let position = PendingPosition::new(
        position_length,
        pool_key.duplicate(),
        tick_lower_index,
        tick_upper_index,
        None,
        None,
        None,
        minimum_liquidity,
    );

    // the balances of the pool's tokens before the swaps
    let (token_x, token_y) = get_pool_v3_asset_info(&pool_key, token_x_is_address, token_y_is_address);
    let mut balance_x = balance_x;
    let mut balance_y = balance_y;
    match &asset_in.info {
        AssetInfo::NativeToken { denom: _ } => {
            if asset_in.info.same_as(&token_x) {
                balance_x = balance_x - asset_in.amount;
            } else if asset_in.info.same_as(&token_y) {
                balance_y = balance_y - asset_in.amount;
            }
        },
        AssetInfo::Token { .. } => {},
    }
    let pair_balance = PairBalance::new(Asset::new(token_x, balance_x), Asset::new(token_y, balance_y));

    // the swaps through the router, in order; the last one is answered
    let mut sub_msgs: Vec<SubMsg<Op>> = Vec::new();
    let reply_now = routes.len() == 0;
    let mut routes = routes;
    let ghost all = routes@;
    let count = routes.len();
    let mut j: usize = 0;
    while routes.len() > 0
        invariant
            j + routes@.len() == all.len(),
            count == all.len(),
            routes@ == all.subrange(j as int, all.len() as int),
            sub_msgs@.len() == j,
            forall|k: int|
                0 <= k < j ==> #[trigger] sub_msgs@[k] == zap_in_sub_msg(
                    asset_in,
                    mixed_router,
                    all,
                    k,
                ),
        decreases routes@.len(),
    {
        let route = routes.remove(0);
        let reply_on_success = if j + 1 == count {
            Some(ZAP_IN_LIQUIDITY_REPLY_ID)
        } else {
            None
        };
        sub_msgs.push(
            SubMsg {
                msg: ZapperMsg::Swap(
                    SwapMsg {
                        offer: asset_in.info.duplicate(),
                        swap_router: mixed_router.clone(),
                        amount: route.offer_amount,
                        operations: route.operations,
                        minimum_receive: None,
                        to: None,
                    },
                ),
                reply_on_success,
            },
        );
        j = j + 1;
        assert(routes@ =~= all.subrange(j as int, all.len() as int));
    }

    store.pending_position = Some(position);
    store.receiver = Some(info.sender.clone());
    store.snap_balance = Some(pair_balance);
    Ok(ZapInPlan { msgs, sub_msgs, reply_now })
}

} // verus!

verus! {

/// A message the zapper sends: a transfer, a swap through the router, or a
/// call of the dex.
#[derive(Clone, Debug, PartialEq, Eq)]
pub enum ZapperMsg<Op> {
    Transfer(TransferMsg),
    Swap(SwapMsg<Op>),
    /// The dex's `TransferPosition`: hands the zapper's `index`-th position
    /// to `receiver`.
    TransferPosition { dex: String, index: u32, receiver: String },
    /// The dex's `TransferNft`: hands a position token to `recipient`.
    TransferNft { dex: String, token_id: u64, recipient: String },
    /// The dex's `Burn`: removes the position of a token, paying out what it holds.
    Burn { dex: String, token_id: u64 },
    /// The dex's `CreatePosition`, paid with `funds`.
    CreatePosition {
        dex: String,
        pool_key: PoolKey,
        lower_tick: i32,
        upper_tick: i32,
        liquidity_delta: Liquidity,
        slippage_limit_lower: SqrtPrice,
        slippage_limit_upper: SqrtPrice,
        funds: Vec<Coin>,
    },
}

/// A balance of the zapper before and after the dex paid out.
#[derive(Clone, Debug, PartialEq, Eq)]
pub struct BalanceChange {
    pub info: AssetInfo,
    pub before: u128,
    pub after: u128,
}

/// What each balance grew by, or none when one of them shrank.
pub open spec fn received(changes: Seq<BalanceChange>) -> Option<Seq<Asset>>
    decreases changes.len(),
{
    if changes.len() == 0 {
        Some(Seq::empty())
    } else {
        match received(changes.drop_last()) {
            None => None,
            Some(rest) => {
                let c = changes.last();
                if c.after < c.before {
                    None
                } else {
                    Some(rest.push(Asset { info: c.info, amount: (c.after - c.before) as u128 }))
                }
            },
        }
    }
}

/// The index of the first balance of the asset named `name`, if any.
pub open spec fn find_balance(balances: Seq<Asset>, name: Seq<char>) -> Option<int>
    decreases balances.len(),
{
    if balances.len() == 0 {
        None
    } else {
        match find_balance(balances.drop_last(), name) {
            Some(i) => Some(i),
            None => if balances.last().info.name()@ == name {
                Some(balances.len() - 1)
            } else {
                None
            },
        }
    }
}

/// The fee rate a zap-out applies: the registered one, or zero.
pub open spec fn fee_rate(protocol_fee: Option<ProtocolFee>) -> u128 {
    match protocol_fee {
        Some(fee) => fee.percent.0,
        None => 0,
    }
}

/// One swap of a zap-out: the route's amount comes out of the balance of its
/// token (which must cover it), the protocol fee on it goes to the fee
/// receiver, and the rest is swapped for the receiver. A route whose token
/// has no balance is skipped.
pub open spec fn zap_out_step<Op>(
    balances: Seq<Asset>,
    msgs: Seq<ZapperMsg<Op>>,
    route: Route<Op>,
    protocol_fee: Option<ProtocolFee>,
    receiver: String,
    mixed_router: String,
) -> Result<(Seq<Asset>, Seq<ZapperMsg<Op>>), ContractError> {
    match find_balance(balances, route.token_in@) {
        None => Ok((balances, msgs)),
        Some(i) => {
            let b = balances[i];
            if b.amount < route.offer_amount {
                Err(ContractError::ZapOutNotEnoughBalanceToSwap)
            } else {
                let left = balances.update(
                    i,
                    Asset { info: b.info, amount: (b.amount - route.offer_amount) as u128 },
                );
                let rate = fee_rate(protocol_fee);
                let fee = if rate != 0 {
                    fee_on(route.offer_amount, Decimal(rate))
                } else {
                    0
                };
                let fee_msgs: Seq<ZapperMsg<Op>> = if rate != 0 {
                    seq![
                        ZapperMsg::Transfer(
                            send_msg(b.info, protocol_fee.unwrap().fee_receiver, fee as u128),
                        ),
                    ]
                } else {
                    Seq::empty()
                };
                let swap = ZapperMsg::Swap(
                    SwapMsg {
                        offer: b.info,
                        swap_router: mixed_router,
                        amount: (route.offer_amount - fee) as u128,
                        operations: route.operations,
                        minimum_receive: route.minimum_receive,
                        to: Some(receiver),
                    },
                );
                Ok((left, msgs + fee_msgs + seq![swap]))
            }
        },
    }
}

/// The routes of a zap-out taken in order, from the balances received.
pub open spec fn zap_out_swaps<Op>(
    balances: Seq<Asset>,
    routes: Seq<Route<Op>>,
    protocol_fee: Option<ProtocolFee>,
    receiver: String,
    mixed_router: String,
) -> Result<(Seq<Asset>, Seq<ZapperMsg<Op>>), ContractError>
    decreases routes.len(),
{
    if routes.len() == 0 {
        Ok((balances, Seq::empty()))
    } else {
        match zap_out_swaps(balances, routes.drop_last(), protocol_fee, receiver, mixed_router) {
            Err(e) => Err(e),
            Ok((b, m)) => zap_out_step(b, m, routes.last(), protocol_fee, receiver, mixed_router),
        }
    }
}

/// The transfers to the receiver of what is left of each balance, skipping
/// empty ones.
pub open spec fn refunds<Op>(balances: Seq<Asset>, receiver: String) -> Seq<ZapperMsg<Op>>
    decreases balances.len(),
{
    if balances.len() == 0 {
        Seq::empty()
    } else {
        let rest = refunds(balances.drop_last(), receiver);
        let b = balances.last();
        if b.amount != 0 {
            rest.push(ZapperMsg::Transfer(send_msg(b.info, receiver, b.amount)))
        } else {
            rest
        }
    }
}

/// What the second step of a zap-out answers: the swaps of the routes (with
/// their fees), then the refunds of what is left.
pub open spec fn zap_out_reply_result<Op>(
    changes: Seq<BalanceChange>,
    routes: Seq<Route<Op>>,
    protocol_fee: Option<ProtocolFee>,
    receiver: String,
    mixed_router: String,
) -> Result<Seq<ZapperMsg<Op>>, ContractError> {
    match received(changes) {
        None => Err(ContractError::Overflow),
        Some(balances) => match zap_out_swaps(
            balances,
            routes,
            protocol_fee,
            receiver,
            mixed_router,
        ) {
            Err(e) => Err(e),
            Ok((left, msgs)) => Ok(msgs + refunds(left, receiver)),
        },
    }
}

fn find_balance_index(balances: &Vec<Asset>, name: &String) -> (r: Option<usize>)
    ensures
        r matches Some(i) ==> find_balance(balances@, name@) == Some(i as int) && i
            < balances@.len(),
        r is None ==> find_balance(balances@, name@) is None,
{
    let mut i: usize = 0;
    while i < balances.len()
        invariant
            i <= balances@.len(),
            find_balance(balances@.subrange(0, i as int), name@) is None,
        decreases balances@.len() - i,
    {
        assert(balances@.subrange(0, i + 1).drop_last() =~= balances@.subrange(0, i as int));
        let n = balances[i].info.denom();
        if n == *name {
            proof {
                lemma_find_balance_prefix(balances@, name@, i + 1, i as int);
            }
            return Some(i);
        }
        i = i + 1;
    }
    assert(balances@.subrange(0, balances@.len() as int) =~= balances@);
    None
}

proof fn lemma_find_balance_prefix(balances: Seq<Asset>, name: Seq<char>, n: int, k: int)
    requires
        0 <= n <= balances.len(),
        find_balance(balances.subrange(0, n), name) == Some(k),
    ensures
        find_balance(balances, name) == Some(k),
    decreases balances.len() - n,
{
    if n < balances.len() {
        assert(balances.subrange(0, n + 1).drop_last() =~= balances.subrange(0, n));
        lemma_find_balance_prefix(balances, name, n + 1, k);
    } else {
        assert(balances.subrange(0, n) =~= balances);
    }
}

proof fn lemma_find_balance_bound(balances: Seq<Asset>, name: Seq<char>)
    ensures
        find_balance(balances, name) matches Some(i) ==> 0 <= i < balances.len(),
    decreases balances.len(),
{
    if balances.len() > 0 {
        lemma_find_balance_bound(balances.drop_last(), name);
    }
}

/// What each balance grew by; fails when one of them shrank.
fn received_amounts(changes: &Vec<BalanceChange>) -> (r: Result<Vec<Asset>, ContractError>)
    ensures
        received(changes@) is None ==> r == Err::<Vec<Asset>, ContractError>(
            ContractError::Overflow,
        ),
        received(changes@) matches Some(b) ==> r is Ok && r.unwrap()@ == b,
{
    let mut balances: Vec<Asset> = Vec::new();
    let mut i: usize = 0;
    while i < changes.len()
        invariant
            i <= changes@.len(),
            received(changes@.subrange(0, i as int)) == Some(balances@),
        decreases changes@.len() - i,
    {
        assert(changes@.subrange(0, i + 1).drop_last() =~= changes@.subrange(0, i as int));
        let c = &changes[i];
        if c.after < c.before {
            proof {
                lemma_received_prefix_none(changes@, i + 1);
            }
            return Err(ContractError::Overflow);
        }
        balances.push(Asset { info: c.info.duplicate(), amount: c.after - c.before });
        i = i + 1;
    }
    assert(changes@.subrange(0, changes@.len() as int) =~= changes@);
    Ok(balances)
}

proof fn lemma_received_prefix_none(changes: Seq<BalanceChange>, n: int)
    requires
        0 <= n <= changes.len(),
        received(changes.subrange(0, n)) is None,
    ensures
        received(changes) is None,
    decreases changes.len() - n,
{
    if n < changes.len() {
        assert(changes.subrange(0, n + 1).drop_last() =~= changes.subrange(0, n));
        lemma_received_prefix_none(changes, n + 1);
    } else {
        assert(changes.subrange(0, n) =~= changes);
    }
}

} // verus!

verus! {

proof fn lemma_swaps_err_persists<Op>(
    balances: Seq<Asset>,
    routes: Seq<Route<Op>>,
    n: int,
    protocol_fee: Option<ProtocolFee>,
    receiver: String,
    mixed_router: String,
)
    requires
        0 <= n <= routes.len(),
        zap_out_swaps(balances, routes.subrange(0, n), protocol_fee, receiver, mixed_router) is Err,
    ensures
        zap_out_swaps(balances, routes, protocol_fee, receiver, mixed_router) == zap_out_swaps(
            balances,
            routes.subrange(0, n),
            protocol_fee,
            receiver,
            mixed_router,
        ),
    decreases routes.len() - n,
{
    if n < routes.len() {
        assert(routes.subrange(0, n + 1).drop_last() =~= routes.subrange(0, n));
        lemma_swaps_err_persists(balances, routes, n + 1, protocol_fee, receiver, mixed_router);
    } else {
        assert(routes.subrange(0, n) =~= routes);
    }
}

/// The swaps and refunds of a zap-out, from the zapper's balances of the
/// position's tokens and rewards before and after the burn: each route swaps
/// part of what was received (the protocol fee on it going to the fee
/// receiver), in order, and what is left goes back to `receiver`. Fails when
/// a balance shrank or a route asks for more than is left of its token.
fn settle_zap_out<Op>(
    changes: &Vec<BalanceChange>,
    routes: Vec<Route<Op>>,
    protocol_fee: &Option<ProtocolFee>,
    receiver: &String,
    mixed_router: &String,
) -> (r: Result<Vec<ZapperMsg<Op>>, ContractError>)
    requires
        protocol_fee matches Some(fee) ==> fee.percent.0 <= DECIMAL_ONE,
    ensures
        match zap_out_reply_result(changes@, routes@, *protocol_fee, *receiver, *mixed_router) {
            Ok(m) => r is Ok && r.unwrap()@ == m,
            Err(e) => r == Err::<Vec<ZapperMsg<Op>>, ContractError>(e),
        },
{
    let mut balances = match received_amounts(changes) {
        Ok(b) => b,
        Err(e) => {
            return Err(e);
        },
    };
    let ghost start = balances@;
    let ghost pf = *protocol_fee;
    let ghost all = routes@;
    let mut msgs: Vec<ZapperMsg<Op>> = Vec::new();
    let route_count = routes.len();
    assert(all.len() == route_count);
    let mut remaining = routes;
    let mut j: usize = 0;
    assert(all.subrange(0, 0) =~= Seq::<Route<Op>>::empty());
    while remaining.len() > 0
        invariant
            j + remaining@.len() == all.len(),
            all.len() <= usize::MAX,
            all == routes@,
            remaining@ == all.subrange(j as int, all.len() as int),
            pf == *protocol_fee,
            received(changes@) == Some(start),
            protocol_fee matches Some(fee) ==> fee.percent.0 <= DECIMAL_ONE,
            zap_out_swaps(start, all.subrange(0, j as int), pf, *receiver, *mixed_router) == Ok::<
                (Seq<Asset>, Seq<ZapperMsg<Op>>),
                ContractError,
            >((balances@, msgs@)),
        decreases remaining@.len(),
    {
        let route = remaining.remove(0);
        assert(route == all[j as int]);
        assert(all.subrange(0, j + 1).drop_last() =~= all.subrange(0, j as int));
        assert(remaining@ =~= all.subrange(j + 1, all.len() as int));
        let ghost bals = balances@;
        let ghost before = msgs@;
        proof {
            lemma_find_balance_bound(bals, route.token_in@);
        }
        match find_balance_index(&balances, &route.token_in) {
            None => {},
            Some(i) => {
                let amount = balances[i].amount;
                let info = balances[i].info.duplicate();
                if amount < route.offer_amount {
                    proof {
                        assert(zap_out_swaps(start, all.subrange(0, j + 1), pf, *receiver, *mixed_router)
                            == zap_out_step(bals, before, route, pf, *receiver, *mixed_router));
                        assert(zap_out_step(bals, before, route, pf, *receiver, *mixed_router)
                            == Err::<(Seq<Asset>, Seq<ZapperMsg<Op>>), ContractError>(
                            ContractError::ZapOutNotEnoughBalanceToSwap,
                        ));
                        lemma_swaps_err_persists(
                            start,
                            all,
                            j + 1,
                            pf,
                            *receiver,
                            *mixed_router,
                        );
                        assert(zap_out_reply_result(changes@, all, pf, *receiver, *mixed_router)
                            == Err::<Seq<ZapperMsg<Op>>, ContractError>(
                            ContractError::ZapOutNotEnoughBalanceToSwap,
                        ));
                    }
                    return Err(ContractError::ZapOutNotEnoughBalanceToSwap);
                }
                balances.set(i, Asset { info: info.duplicate(), amount: amount - route.offer_amount });
                let mut amount_to_swap = route.offer_amount;
                let ghost fee_msgs: Seq<ZapperMsg<Op>> = Seq::empty();
                match protocol_fee {
                    Some(fee) => {
                        if fee.percent.0 != 0 {
                            proof {
                                assert(route.offer_amount * fee.percent.0 <= route.offer_amount
                                    * DECIMAL_ONE) by (nonlinear_arith)
                                    requires
                                        fee.percent.0 <= DECIMAL_ONE,
                                ;
                                vstd::arithmetic::div_mod::lemma_div_is_ordered(
                                    route.offer_amount * fee.percent.0,
                                    route.offer_amount * DECIMAL_ONE,
                                    DECIMAL_ONE as int,
                                );
                                vstd::arithmetic::div_mod::lemma_div_multiples_vanish(
                                    route.offer_amount as int,
                                    DECIMAL_ONE as int,
                                );
                            }
                            let fee_amount = mul_decimal(amount_to_swap, fee.percent);
                            amount_to_swap = amount_to_swap - fee_amount;
                            msgs.push(
                                ZapperMsg::Transfer(
                                    info.transfer_msg(fee.fee_receiver.clone(), fee_amount),
                                ),
                            );
                        }
                    },
                    None => {},
                }
                let ghost mid = msgs@;
                msgs.push(
                    ZapperMsg::Swap(
                        SwapMsg {
                            offer: info,
                            swap_router: mixed_router.clone(),
                            amount: amount_to_swap,
                            operations: route.operations,
                            minimum_receive: route.minimum_receive,
                            to: Some(receiver.clone()),
                        },
                    ),
                );
                proof {
                    let rate = fee_rate(pf);
                    if rate != 0 {
                        assert(pf.unwrap().percent == Decimal(rate));
                    }
                    let b = bals[i as int];
                    assert(balances@ == bals.update(
                        i as int,
                        Asset { info: b.info, amount: (b.amount - route.offer_amount) as u128 },
                    ));
                    let fee = if rate != 0 {
                        fee_on(route.offer_amount, Decimal(rate))
                    } else {
                        0
                    };
                    assert(amount_to_swap == route.offer_amount - fee);
                    let fee_msgs: Seq<ZapperMsg<Op>> = if rate != 0 {
                        seq![
                            ZapperMsg::Transfer(
                                send_msg(b.info, pf.unwrap().fee_receiver, fee as u128),
                            ),
                        ]
                    } else {
                        Seq::empty()
                    };
                    assert(mid =~= before + fee_msgs);
                    let rt = all[j as int];
                    let swap = ZapperMsg::Swap(
                        SwapMsg {
                            offer: b.info,
                            swap_router: *mixed_router,
                            amount: (rt.offer_amount - fee) as u128,
                            operations: rt.operations,
                            minimum_receive: rt.minimum_receive,
                            to: Some(*receiver),
                        },
                    );
                    assert(msgs@.last() == swap);
                    assert(msgs@ =~= before + fee_msgs + seq![swap]);
                    assert(zap_out_step(bals, before, route, pf, *receiver, *mixed_router) == Ok::<
                        (Seq<Asset>, Seq<ZapperMsg<Op>>),
                        ContractError,
                    >((balances@, msgs@)));
                }
            },
        }
        assert(zap_out_swaps(start, all.subrange(0, j + 1), pf, *receiver, *mixed_router)
            == zap_out_step(bals, before, route, pf, *receiver, *mixed_router));
        j = j + 1;
    }
    assert(all.subrange(0, all.len() as int) =~= all);
    let ghost swapped = msgs@;

    // refund what is left
    let mut k: usize = 0;
    while k < balances.len()
        invariant
            k <= balances@.len(),
            msgs@ == swapped + refunds::<Op>(balances@.subrange(0, k as int), *receiver),
        decreases balances@.len() - k,
    {
        assert(balances@.subrange(0, k + 1).drop_last() =~= balances@.subrange(0, k as int));
        if balances[k].amount != 0 {
            msgs.push(
                ZapperMsg::Transfer(
                    balances[k].info.transfer_msg(receiver.clone(), balances[k].amount),
                ),
            );
        }
        k = k + 1;
    }
    assert(balances@.subrange(0, balances@.len() as int) =~= balances@);
    Ok(msgs)
}

} // verus!

verus! {

/// The zapper's storage at the start: the sender is the admin, with the
/// router and the dex of the message; nothing else is stored.
pub fn instantiate<Op>(info: &MessageInfo, msg: InstantiateMsg) -> (r: Result<ZapperStore<Op>, ContractError>)
    ensures
        r is Ok,
        r.unwrap().wf(),
        r.unwrap().config == Some(
            Config { admin: info.sender, mixed_router: msg.mixed_router, dex_v3: msg.dex_v3 },
        ),
        r.unwrap().protocol_fee is None,
        r.unwrap().pending_position is None,
        r.unwrap().snap_balance is None,
        r.unwrap().receiver is None,
        r.unwrap().zap_out_routes is None,
        r.unwrap().snap_balances@ == Seq::<Asset>::empty(),
{
    Ok(
        ZapperStore {
            config: Some(
                Config { admin: info.sender.clone(), mixed_router: msg.mixed_router, dex_v3: msg.dex_v3 },
            ),
            protocol_fee: None,
            pending_position: None,
            snap_balance: None,
            receiver: None,
            zap_out_routes: None,
            snap_balances: Vec::new(),
        },
    )
}

/// The reply to the last swap of a zap-in.
pub const ZAP_IN_LIQUIDITY_REPLY_ID: u64 = 1;

/// The reply to the burn of a zap-out.
pub const ZAP_OUT_LIQUIDITY_REPLY_ID: u64 = 2;

/// The reply to the creation of a zap-in's position.
pub const ADD_LIQUIDITY_REPLY_ID: u64 = 3;

/// The step a reply continues.
#[derive(Clone, Copy, Debug, PartialEq, Eq, Structural)]
pub enum ReplyStep {
    ZapInLiquidity,
    ZapOutLiquidity,
    AddLiquidity,
}

/// The step a reply continues, by the reply's id; fails for an unknown id.
pub fn reply(id: u64) -> (r: Result<ReplyStep, ContractError>)
    ensures
        id == ZAP_IN_LIQUIDITY_REPLY_ID ==> r == Ok::<ReplyStep, ContractError>(
            ReplyStep::ZapInLiquidity,
        ),
        id == ZAP_OUT_LIQUIDITY_REPLY_ID ==> r == Ok::<ReplyStep, ContractError>(
            ReplyStep::ZapOutLiquidity,
        ),
        id == ADD_LIQUIDITY_REPLY_ID ==> r == Ok::<ReplyStep, ContractError>(
            ReplyStep::AddLiquidity,
        ),
        id != ZAP_IN_LIQUIDITY_REPLY_ID && id != ZAP_OUT_LIQUIDITY_REPLY_ID && id
            != ADD_LIQUIDITY_REPLY_ID ==> r == Err::<ReplyStep, ContractError>(
            ContractError::UnrecognizedReplyId { id },
        ),
{
    if id == ZAP_IN_LIQUIDITY_REPLY_ID {
        Ok(ReplyStep::ZapInLiquidity)
    } else if id == ZAP_OUT_LIQUIDITY_REPLY_ID {
        Ok(ReplyStep::ZapOutLiquidity)
    } else if id == ADD_LIQUIDITY_REPLY_ID {
        Ok(ReplyStep::AddLiquidity)
    } else {
        Err(ContractError::UnrecognizedReplyId { id })
    }
}

/// The refund of a balance's growth to the receiver, if it grew.
pub open spec fn refund_if_any<Op>(info: AssetInfo, amount: int, receiver: String) -> Seq<ZapperMsg<Op>> {
    if amount != 0 {
        seq![ZapperMsg::Transfer(send_msg(info, receiver, amount as u128))]
    } else {
        Seq::empty()
    }
}

/// The position handed to the receiver, and the refunds of what the zapper
/// holds beyond its snapshot of the pool's two tokens (`x_after`, `y_after`
/// are its balances now).
fn refund_msgs<Op>(
    snap: &PairBalance,
    x_after: u128,
    y_after: u128,
    pending_position: &PendingPosition,
    receiver: &String,
    dex_v3: &String,
) -> (r: Vec<ZapperMsg<Op>>)
    requires
        x_after >= snap.token_x.amount,
        y_after >= snap.token_y.amount,
    ensures
        r@ == seq![
            ZapperMsg::TransferPosition {
                dex: *dex_v3,
                index: pending_position.index,
                receiver: *receiver,
            },
        ] + refund_if_any::<Op>(snap.token_x.info, x_after - snap.token_x.amount, *receiver)
            + refund_if_any::<Op>(snap.token_y.info, y_after - snap.token_y.amount, *receiver),
{
    let x_amount = x_after - snap.token_x.amount;
    let y_amount = y_after - snap.token_y.amount;
    let mut msgs: Vec<ZapperMsg<Op>> = Vec::new();
    msgs.push(
        ZapperMsg::TransferPosition {
            dex: dex_v3.clone(),
            index: pending_position.index,
            receiver: receiver.clone(),
        },
    );
    if x_amount != 0 {
        msgs.push(ZapperMsg::Transfer(snap.token_x.info.transfer_msg(receiver.clone(), x_amount)));
    }
    if y_amount != 0 {
        msgs.push(ZapperMsg::Transfer(snap.token_y.info.transfer_msg(receiver.clone(), y_amount)));
    }
    assert(msgs@ =~= seq![
        ZapperMsg::TransferPosition {
            dex: *dex_v3,
            index: pending_position.index,
            receiver: *receiver,
        },
    ] + refund_if_any::<Op>(snap.token_x.info, x_after - snap.token_x.amount, *receiver)
        + refund_if_any::<Op>(snap.token_y.info, y_after - snap.token_y.amount, *receiver));
    msgs
}

/// What a step of the zapper sends: messages, then submessages.
pub struct ZapperResponse<Op> {
    pub msgs: Vec<ZapperMsg<Op>>,
    pub sub_msgs: Vec<SubMsg<Op>>,
}

/// The key of a snapshot balance: the bytes of its asset's name.
pub open spec fn snap_key(a: Asset) -> Seq<u8> {
    utf8(a.info.name())
}

/// Snapshot balances saved one after the other, each replacing any earlier
/// one of the same name.
pub open spec fn snap_map(saved: Seq<Asset>) -> Map<Seq<u8>, Asset>
    decreases saved.len(),
{
    if saved.len() == 0 {
        Map::empty()
    } else {
        snap_map(saved.drop_last()).insert(snap_key(saved.last()), saved.last())
    }
}

proof fn lemma_snap_map_ordered(s: Seq<Asset>)
    requires
        names_ordered(s),
    ensures
        forall|k: Seq<u8>|
            #[trigger] snap_map(s).contains_key(k) <==> exists|i: int|
                0 <= i < s.len() && snap_key(s[i]) == k,
        forall|i: int| 0 <= i < s.len() ==> snap_map(s)[snap_key(#[trigger] s[i])] == s[i],
    decreases s.len(),
{
    if s.len() > 0 {
        let p = s.drop_last();
        assert(names_ordered(p)) by {
            assert forall|i: int, j: int| 0 <= i < j < p.len() implies bytes_lt(
                utf8(#[trigger] p[i].info.name()),
                utf8(#[trigger] p[j].info.name()),
            ) by {
                assert(p[i] == s[i] && p[j] == s[j]);
            }
        }
        lemma_snap_map_ordered(p);
        assert forall|k: Seq<u8>| #[trigger] snap_map(s).contains_key(k) <==> exists|i: int|
            0 <= i < s.len() && snap_key(s[i]) == k by {
            if snap_map(p).contains_key(k) {
                let i = choose|i: int| 0 <= i < p.len() && snap_key(p[i]) == k;
                assert(s[i] == p[i]);
            }
            if exists|i: int| 0 <= i < s.len() && snap_key(s[i]) == k {
                let i = choose|i: int| 0 <= i < s.len() && snap_key(s[i]) == k;
                if i < s.len() - 1 {
                    assert(p[i] == s[i]);
                }
            }
        }
        assert forall|i: int| 0 <= i < s.len() implies snap_map(s)[snap_key(#[trigger] s[i])]
            == s[i] by {
            if i < s.len() - 1 {
                assert(p[i] == s[i]);
                assert(bytes_lt(snap_key(s[i]), snap_key(s[s.len() - 1])));
                lemma_bytes_lt_irreflexive(snap_key(s[i]));
            }
        }
    }
}

/// Saves a snapshot balance into balances kept one per name in byte order
/// of the names: it replaces the balance of its name, or goes where its name
/// belongs.
fn save_snapshot(snaps: &mut Vec<Asset>, asset: Asset)
    requires
        names_ordered(old(snaps)@),
    ensures
        names_ordered(final(snaps)@),
        snap_map(final(snaps)@) == snap_map(old(snaps)@).insert(snap_key(asset), asset),
{
    let ghost s0 = snaps@;
    let key = string_bytes(&asset.info.denom());
    let mut i: usize = 0;
    while i < snaps.len()
        invariant
            i <= snaps@.len(),
            snaps@ == s0,
            key@ == snap_key(asset),
            forall|j: int| 0 <= j < i ==> bytes_lt(snap_key(#[trigger] snaps@[j]), key@),
        ensures
            i <= snaps@.len(),
            snaps@ == s0,
            forall|j: int| 0 <= j < i ==> bytes_lt(snap_key(#[trigger] snaps@[j]), key@),
            i < snaps@.len() ==> !bytes_lt(snap_key(snaps@[i as int]), key@),
        decreases snaps@.len() - i,
    {
        let k = string_bytes(&snaps[i].info.denom());
        if !bytes_less(k.as_slice(), key.as_slice()) {
            break;
        }
        i = i + 1;
    }
    let ghost ka = snap_key(asset);
    proof {
        lemma_snap_map_ordered(s0);
    }
    let same = if i < snaps.len() {
        let k = string_bytes(&snaps[i].info.denom());
        bytes_eq(k.as_slice(), key.as_slice())
    } else {
        false
    };
    if same {
        snaps.set(i, asset);
        proof {
            let s1 = snaps@;
            assert(names_ordered(s1)) by {
                assert forall|a: int, b: int| 0 <= a < b < s1.len() implies bytes_lt(
                    utf8(#[trigger] s1[a].info.name()),
                    utf8(#[trigger] s1[b].info.name()),
                ) by {
                    assert(snap_key(s1[a]) == snap_key(s0[a]) && snap_key(s1[b]) == snap_key(s0[b]));
                }
            }
            lemma_snap_map_ordered(s1);
            assert(snap_map(s1) =~= snap_map(s0).insert(ka, asset)) by {
                assert forall|k: Seq<u8>| #[trigger] snap_map(s1).contains_key(k)
                    == snap_map(s0).insert(ka, asset).contains_key(k) by {
                    if exists|j: int| 0 <= j < s0.len() && snap_key(s0[j]) == k {
                        let j = choose|j: int| 0 <= j < s0.len() && snap_key(s0[j]) == k;
                        assert(snap_key(s1[j]) == k);
                    }
                    if exists|j: int| 0 <= j < s1.len() && snap_key(s1[j]) == k {
                        let j = choose|j: int| 0 <= j < s1.len() && snap_key(s1[j]) == k;
                        assert(snap_key(s0[j]) == k);
                    }
                }
                assert forall|k: Seq<u8>| #[trigger] snap_map(s1).contains_key(k) implies snap_map(
                    s1,
                )[k] == snap_map(s0).insert(ka, asset)[k] by {
                    let j = choose|j: int| 0 <= j < s1.len() && snap_key(s1[j]) == k;
                    assert(snap_map(s1)[snap_key(s1[j])] == s1[j]);
                    if j != i {
                        assert(snap_map(s0)[snap_key(s0[j])] == s0[j]);
                        assert(snap_key(s0[j]) != ka) by {
                            if j < i {
                                lemma_bytes_lt_irreflexive(ka);
                            } else {
                                assert(bytes_lt(snap_key(s0[i as int]), snap_key(s0[j])));
                                lemma_bytes_lt_irreflexive(ka);
                            }
                        }
                    }
                }
            }
        }
    } else {
        snaps.insert(i, asset);
        proof {
            let s1 = snaps@;
            assert(i < s0.len() ==> bytes_lt(ka, snap_key(s0[i as int]))) by {
                if i < s0.len() {
                    lemma_bytes_lt_total(ka, snap_key(s0[i as int]));
                }
            }
            assert(names_ordered(s1)) by {
                assert forall|a: int, b: int| 0 <= a < b < s1.len() implies bytes_lt(
                    utf8(#[trigger] s1[a].info.name()),
                    utf8(#[trigger] s1[b].info.name()),
                ) by {
                    if b < i {
                        assert(s1[a] == s0[a] && s1[b] == s0[b]);
                    } else if b == i {
                        assert(s1[a] == s0[a]);
                    } else if a < i {
                        assert(s1[a] == s0[a] && s1[b] == s0[b - 1]);
                        lemma_bytes_lt_trans(snap_key(s0[a]), ka, snap_key(s0[i as int]));
                        if b - 1 > i {
                            lemma_bytes_lt_trans(snap_key(s0[a]), snap_key(s0[i as int]), snap_key(s0[b - 1]));
                        }
                    } else if a == i {
                        assert(s1[b] == s0[b - 1]);
                        if b - 1 > i {
                            lemma_bytes_lt_trans(ka, snap_key(s0[i as int]), snap_key(s0[b - 1]));
                        }
                    } else {
                        assert(s1[a] == s0[a - 1] && s1[b] == s0[b - 1]);
                    }
                }
            }
            lemma_snap_map_ordered(s1);
            assert(snap_map(s1) =~= snap_map(s0).insert(ka, asset)) by {
                assert forall|k: Seq<u8>| #[trigger] snap_map(s1).contains_key(k)
                    == snap_map(s0).insert(ka, asset).contains_key(k) by {
                    if exists|j: int| 0 <= j < s0.len() && snap_key(s0[j]) == k {
                        let j = choose|j: int| 0 <= j < s0.len() && snap_key(s0[j]) == k;
                        if j < i {
                            assert(s1[j] == s0[j]);
                        } else {
                            assert(s1[j + 1] == s0[j]);
                        }
                    }
                    if k == ka {
                        assert(s1[i as int] == asset);
                    }
                    if exists|j: int| 0 <= j < s1.len() && snap_key(s1[j]) == k {
                        let j = choose|j: int| 0 <= j < s1.len() && snap_key(s1[j]) == k;
                        if j < i {
                            assert(s1[j] == s0[j]);
                        } else if j > i {
                            assert(s1[j] == s0[j - 1]);
                        }
                    }
                }
                assert forall|k: Seq<u8>| #[trigger] snap_map(s1).contains_key(k) implies snap_map(
                    s1,
                )[k] == snap_map(s0).insert(ka, asset)[k] by {
                    let j = choose|j: int| 0 <= j < s1.len() && snap_key(s1[j]) == k;
                    assert(snap_map(s1)[snap_key(s1[j])] == s1[j]);
                    if j < i {
                        assert(s1[j] == s0[j]);
                        assert(snap_map(s0)[snap_key(s0[j])] == s0[j]);
                        lemma_bytes_lt_irreflexive(ka);
                    } else if j > i {
                        assert(s1[j] == s0[j - 1]);
                        assert(snap_map(s0)[snap_key(s0[j - 1])] == s0[j - 1]);
                        assert(bytes_lt(ka, snap_key(s0[j - 1]))) by {
                            if j - 1 > i {
                                lemma_bytes_lt_trans(ka, snap_key(s0[i as int]), snap_key(s0[j - 1]));
                            }
                        }
                        lemma_bytes_lt_irreflexive(ka);
                    }
                }
            }
        }
    }
}

/// Starts a zap-out of the sender's position (the one with token
/// `token_id`): the zapper saves its balances of the position's rewards
/// (`incentive_balances`) and of the pool's two tokens (each replacing an
/// earlier balance of the same name), the receiver and the routes, takes
/// the token, and burns the position in a submessage answered by the
/// zap-out reply. Fails, changing nothing, when no settings are stored.
pub fn zap_out_liquidity<Op>(
    store: &mut ZapperStore<Op>,
    info: &MessageInfo,
    contract_address: &String,
    token_id: u64,
    incentive_balances: Vec<Asset>,
    balance_x: Asset,
    balance_y: Asset,
    routes: Vec<Route<Op>>,
) -> (r: Result<ZapperResponse<Op>, ContractError>)
    requires
        old(store).wf(),
    ensures
        final(store).wf(),
        old(store).config is None ==> r == Err::<ZapperResponse<Op>, ContractError>(
            ContractError::NotFound,
        ) && *final(store) == *old(store),
        old(store).config matches Some(config) ==> {
            &&& r is Ok
            &&& r.unwrap().msgs@ == seq![
                ZapperMsg::<Op>::TransferNft {
                    dex: config.dex_v3,
                    token_id,
                    recipient: *contract_address,
                },
            ]
            &&& r.unwrap().sub_msgs@ == seq![
                SubMsg {
                    msg: ZapperMsg::<Op>::Burn { dex: config.dex_v3, token_id },
                    reply_on_success: Some(ZAP_OUT_LIQUIDITY_REPLY_ID),
                },
            ]
            &&& snap_map(final(store).snap_balances@) == snap_map(
                old(store).snap_balances@ + incentive_balances@.push(balance_x).push(balance_y),
            )
            &&& final(store).receiver == Some(info.sender)
            &&& final(store).zap_out_routes == Some(routes)
            &&& final(store).config == old(store).config
            &&& final(store).protocol_fee == old(store).protocol_fee
            &&& final(store).pending_position == old(store).pending_position
            &&& final(store).snap_balance == old(store).snap_balance
        },
{
    let dex = match &store.config {
        Some(c) => c.dex_v3.clone(),
        None => {
            return Err(ContractError::NotFound);
        },
    };
    let ghost s0 = store.snap_balances@;
    let ghost saved = incentive_balances@.push(balance_x).push(balance_y);
    let mut to_save = incentive_balances;
    to_save.push(balance_x);
    to_save.push(balance_y);
    assert(to_save@ == saved);
    proof {
        lemma_snap_map_ordered(s0);
        assert(s0 + saved.subrange(0, 0) =~= s0);
    }
    let mut k: usize = 0;
    while k < to_save.len()
        invariant
            k <= to_save@.len(),
            to_save@ == saved,
            names_ordered(store.snap_balances@),
            snap_map(store.snap_balances@) == snap_map(s0 + saved.subrange(0, k as int)),
            store.config == old(store).config,
            store.protocol_fee == old(store).protocol_fee,
            store.pending_position == old(store).pending_position,
            store.snap_balance == old(store).snap_balance,
            store.receiver == old(store).receiver,
            store.zap_out_routes == old(store).zap_out_routes,
        decreases to_save@.len() - k,
    {
        let a = Asset { info: to_save[k].info.duplicate(), amount: to_save[k].amount };
        save_snapshot(&mut store.snap_balances, a);
        assert((s0 + saved.subrange(0, k + 1)).drop_last() =~= s0 + saved.subrange(0, k as int));
        k = k + 1;
    }
    assert(saved.subrange(0, saved.len() as int) =~= saved);
    store.receiver = Some(info.sender.clone());
    store.zap_out_routes = Some(routes);

    let mut msgs: Vec<ZapperMsg<Op>> = Vec::new();
    // the position's token goes to the zapper (the sender approved it first)
    msgs.push(ZapperMsg::TransferNft { dex: dex.clone(), token_id, recipient: contract_address.clone() });
    let mut sub_msgs: Vec<SubMsg<Op>> = Vec::new();
    // removing the liquidity is answered by a reply
    sub_msgs.push(
        SubMsg {
            msg: ZapperMsg::Burn { dex, token_id },
            reply_on_success: Some(ZAP_OUT_LIQUIDITY_REPLY_ID),
        },
    );
    assert(msgs@ =~= seq![
        ZapperMsg::<Op>::TransferNft {
            dex: old(store).config.unwrap().dex_v3,
            token_id,
            recipient: *contract_address,
        },
    ]);
    assert(sub_msgs@ =~= seq![
        SubMsg {
            msg: ZapperMsg::<Op>::Burn { dex: old(store).config.unwrap().dex_v3, token_id },
            reply_on_success: Some(ZAP_OUT_LIQUIDITY_REPLY_ID),
        },
    ]);
    Ok(ZapperResponse { msgs, sub_msgs })
}

} // verus!

verus! {

/// The allowance message that lets `spender` take `amount` of a token; none
/// for a native coin (it is sent along instead).
pub open spec fn allowance_msgs<Op>(info: AssetInfo, spender: String, amount: u128) -> Seq<
    ZapperMsg<Op>,
> {
    match info {
        AssetInfo::Token { contract_addr } => seq![
            ZapperMsg::Transfer(
                TransferMsg::Cw20IncreaseAllowance { contract_addr, spender, amount },
            ),
        ],
        AssetInfo::NativeToken { .. } => Seq::empty(),
    }
}

/// The coins sent along for `amount` of a native coin; none for a token.
pub open spec fn allowance_coins(info: AssetInfo, amount: u128) -> Seq<Coin> {
    match info {
        AssetInfo::Token { .. } => Seq::empty(),
        AssetInfo::NativeToken { denom } => seq![Coin { denom, amount }],
    }
}

/// The dex's creation of a pending position with `liquidity`, paid with
/// `funds`; its slippage limits default to the whole price range.
pub open spec fn create_position_msg<Op>(
    dex: String,
    pending_position: PendingPosition,
    liquidity: Liquidity,
    funds: Vec<Coin>,
) -> ZapperMsg<Op> {
    let ts = pending_position.pool_key.fee_tier.tick_spacing as int;
    ZapperMsg::CreatePosition {
        dex,
        pool_key: pending_position.pool_key,
        lower_tick: pending_position.lower_tick,
        upper_tick: pending_position.upper_tick,
        liquidity_delta: liquidity,
        slippage_limit_lower: match pending_position.slippage_limit_lower {
            Some(p) => p,
            None => SqrtPrice(sqrt_price_at(-max_tick_of(ts)) as u128),
        },
        slippage_limit_upper: match pending_position.slippage_limit_upper {
            Some(p) => p,
            None => SqrtPrice(sqrt_price_at(max_tick_of(ts)) as u128),
        },
        funds,
    }
}

/// Whether a liquidity falls short of the minimum a position asks for.
pub open spec fn below_minimum(pending_position: PendingPosition, liquidity: Liquidity) -> bool {
    match pending_position.minimum_liquidity {
        Some(m) => liquidity.0 < m.0,
        None => false,
    }
}

/// The messages that create a zap-in's position: the allowances that let
/// the dex take what the zapper received of the pool's two tokens beyond its
/// snapshot (`x_after`, `y_after` are its balances now), then the creation
/// with `liquidity`. Fails when the liquidity is below the position's
/// minimum.
fn create_position_msgs<Op>(
    snap: &PairBalance,
    x_after: u128,
    y_after: u128,
    pending_position: &PendingPosition,
    liquidity: Liquidity,
    dex_v3: &String,
) -> (r: Result<Vec<ZapperMsg<Op>>, ContractError>)
    requires
        x_after >= snap.token_x.amount,
        y_after >= snap.token_y.amount,
        pending_position.pool_key.fee_tier.tick_spacing > 0,
    ensures
        below_minimum(*pending_position, liquidity) ==> r == Err::<
            Vec<ZapperMsg<Op>>,
            ContractError,
        >(
            ContractError::ZapInAssertionFailure {
                minium_receive: pending_position.minimum_liquidity.unwrap().0,
                return_amount: liquidity.0,
            },
        ),
        !below_minimum(*pending_position, liquidity) ==> {
            let x = (x_after - snap.token_x.amount) as u128;
            let y = (y_after - snap.token_y.amount) as u128;
            let create = create_position_msg::<Op>(
                *dex_v3,
                *pending_position,
                liquidity,
                r.unwrap()@.last()->CreatePosition_funds,
            );
            &&& r is Ok
            &&& r.unwrap()@ == allowance_msgs::<Op>(snap.token_x.info, *dex_v3, x) + allowance_msgs::<
                Op,
            >(snap.token_y.info, *dex_v3, y) + seq![create]
            &&& create->CreatePosition_funds@ == allowance_coins(snap.token_x.info, x)
                + allowance_coins(snap.token_y.info, y)
        },
{
    let x_amount = x_after - snap.token_x.amount;
    let y_amount = y_after - snap.token_y.amount;

    // validate minimum liquidity
    match pending_position.minimum_liquidity {
        Some(min_liquidity) => {
            if liquidity.0 < min_liquidity.0 {
                return Err(
                    ContractError::ZapInAssertionFailure {
                        minium_receive: min_liquidity.0,
                        return_amount: liquidity.0,
                    },
                );
            }
        },
        None => {},
    }

    // let the dex take the pool's tokens
    let mut coins: Vec<Coin> = Vec::new();
    let mut transfers: Vec<TransferMsg> = Vec::new();
    let _ = snap.token_x.info.increase_allowance(&mut coins, &mut transfers, dex_v3.clone(), x_amount);
    let _ = snap.token_y.info.increase_allowance(&mut coins, &mut transfers, dex_v3.clone(), y_amount);
    let mut msgs: Vec<ZapperMsg<Op>> = Vec::new();
    let mut i: usize = 0;
    while i < transfers.len()
        invariant
            i <= transfers@.len(),
            msgs@.len() == i,
            forall|j: int| 0 <= j < i ==> #[trigger] msgs@[j] == ZapperMsg::<Op>::Transfer(transfers@[j]),
        decreases transfers@.len() - i,
    {
        msgs.push(ZapperMsg::Transfer(transfers[i].clone_msg()));
        i = i + 1;
    }

    let tick_spacing = pending_position.pool_key.fee_tier.tick_spacing;
    let slippage_limit_lower = match pending_position.slippage_limit_lower {
        Some(p) => p,
        None => match calculate_sqrt_price(get_min_tick(tick_spacing)) {
            Ok(p) => p,
            Err(e) => {
                return Err(e);
            },
        },
    };
    let slippage_limit_upper = match pending_position.slippage_limit_upper {
        Some(p) => p,
        None => match calculate_sqrt_price(get_max_tick(tick_spacing)) {
            Ok(p) => p,
            Err(e) => {
                return Err(e);
            },
        },
    };
    let ghost funds = coins@;
    msgs.push(
        ZapperMsg::CreatePosition {
            dex: dex_v3.clone(),
            pool_key: pending_position.pool_key.duplicate(),
            lower_tick: pending_position.lower_tick,
            upper_tick: pending_position.upper_tick,
            liquidity_delta: liquidity,
            slippage_limit_lower,
            slippage_limit_upper,
            funds: coins,
        },
    );
    proof {
        let x = x_amount;
        let y = y_amount;
        assert(transfers@.len() == allowance_msgs::<Op>(snap.token_x.info, *dex_v3, x).len()
            + allowance_msgs::<Op>(snap.token_y.info, *dex_v3, y).len());
        assert(msgs@.drop_last() =~= allowance_msgs::<Op>(snap.token_x.info, *dex_v3, x)
            + allowance_msgs::<Op>(snap.token_y.info, *dex_v3, y));
        assert(funds =~= allowance_coins(snap.token_x.info, x) + allowance_coins(
            snap.token_y.info,
            y,
        ));
    }
    Ok(msgs)
}

} // verus!

verus! {

/// The asset and the amount a zapper message hands out of the zapper, if it
/// hands out any: a transfer of a token or a coin, or the offer of a swap.
pub open spec fn paid_out<Op>(m: ZapperMsg<Op>) -> Option<(AssetInfo, u128)> {
    match m {
        ZapperMsg::Transfer(TransferMsg::Cw20Transfer { contract_addr, amount, .. }) => Some(
            (AssetInfo::Token { contract_addr }, amount),
        ),
        ZapperMsg::Transfer(TransferMsg::BankSend { denom, amount, .. }) => Some(
            (AssetInfo::NativeToken { denom }, amount),
        ),
        ZapperMsg::Swap(s) => Some((s.offer, s.amount)),
        _ => None,
    }
}

/// The total of an asset that messages hand out.
pub open spec fn total_paid_out<Op>(msgs: Seq<ZapperMsg<Op>>, info: AssetInfo) -> int
    decreases msgs.len(),
{
    if msgs.len() == 0 {
        0
    } else {
        total_paid_out(msgs.drop_last(), info) + match paid_out(msgs.last()) {
            Some((i, a)) => if i == info {
                a as int
            } else {
                0
            },
            None => 0,
        }
    }
}

/// The total of an asset in a list of balances.
pub open spec fn total_held(balances: Seq<Asset>, info: AssetInfo) -> int
    decreases balances.len(),
{
    if balances.len() == 0 {
        0
    } else {
        total_held(balances.drop_last(), info) + if balances.last().info == info {
            balances.last().amount as int
        } else {
            0
        }
    }
}

proof fn lemma_paid_out_concat<Op>(a: Seq<ZapperMsg<Op>>, b: Seq<ZapperMsg<Op>>, info: AssetInfo)
    ensures
        total_paid_out(a + b, info) == total_paid_out(a, info) + total_paid_out(b, info),
    decreases b.len(),
{
    if b.len() > 0 {
        assert((a + b).drop_last() =~= a + b.drop_last());
        lemma_paid_out_concat(a, b.drop_last(), info);
    } else {
        assert(a + b =~= a);
    }
}

proof fn lemma_held_update(balances: Seq<Asset>, i: int, amount: u128, info: AssetInfo)
    requires
        0 <= i < balances.len(),
    ensures
        total_held(balances.update(i, Asset { info: balances[i].info, amount }), info) == total_held(
            balances,
            info,
        ) + if balances[i].info == info {
            amount - balances[i].amount
        } else {
            0
        },
    decreases balances.len(),
{
    let updated = balances.update(i, Asset { info: balances[i].info, amount });
    if i < balances.len() - 1 {
        assert(updated.drop_last() =~= balances.drop_last().update(
            i,
            Asset { info: balances[i].info, amount },
        ));
        lemma_held_update(balances.drop_last(), i, amount, info);
    } else {
        assert(updated.drop_last() =~= balances.drop_last());
    }
}

proof fn lemma_refunds_pay_out_all<Op>(balances: Seq<Asset>, receiver: String, info: AssetInfo)
    ensures
        total_paid_out(refunds::<Op>(balances, receiver), info) == total_held(balances, info),
    decreases balances.len(),
{
    if balances.len() > 0 {
        lemma_refunds_pay_out_all::<Op>(balances.drop_last(), receiver, info);
        let rest = refunds::<Op>(balances.drop_last(), receiver);
        let b = balances.last();
        if b.amount != 0 {
            assert(rest.push(ZapperMsg::Transfer(send_msg(b.info, receiver, b.amount))).drop_last()
                =~= rest);
        }
    }
}

proof fn lemma_step_conserves<Op>(
    balances: Seq<Asset>,
    msgs: Seq<ZapperMsg<Op>>,
    route: Route<Op>,
    protocol_fee: Option<ProtocolFee>,
    receiver: String,
    mixed_router: String,
    info: AssetInfo,
)
    requires
        protocol_fee matches Some(fee) ==> fee.percent.0 <= DECIMAL_ONE,
        zap_out_step(balances, msgs, route, protocol_fee, receiver, mixed_router) is Ok,
    ensures
        ({
            let (b2, m2) = zap_out_step(
                balances,
                msgs,
                route,
                protocol_fee,
                receiver,
                mixed_router,
            ).unwrap();
            total_paid_out(m2, info) + total_held(b2, info) == total_paid_out(msgs, info)
                + total_held(balances, info)
        }),
{
    lemma_find_balance_bound(balances, route.token_in@);
    match find_balance(balances, route.token_in@) {
        None => {},
        Some(i) => {
            let b = balances[i];
            let rate = fee_rate(protocol_fee);
            let fee = if rate != 0 {
                fee_on(route.offer_amount, Decimal(rate))
            } else {
                0
            };
            assert(0 <= fee <= route.offer_amount) by {
                if rate != 0 {
                    assert(route.offer_amount * rate <= route.offer_amount * DECIMAL_ONE)
                        by (nonlinear_arith)
                        requires
                            rate <= DECIMAL_ONE,
                    ;
                    vstd::arithmetic::div_mod::lemma_div_is_ordered(
                        route.offer_amount * rate,
                        route.offer_amount * DECIMAL_ONE,
                        DECIMAL_ONE as int,
                    );
                    vstd::arithmetic::div_mod::lemma_div_multiples_vanish(
                        route.offer_amount as int,
                        DECIMAL_ONE as int,
                    );
                }
            }
            let fee_msgs: Seq<ZapperMsg<Op>> = if rate != 0 {
                seq![
                    ZapperMsg::Transfer(
                        send_msg(b.info, protocol_fee.unwrap().fee_receiver, fee as u128),
                    ),
                ]
            } else {
                Seq::empty()
            };
            let swap = ZapperMsg::Swap(
                SwapMsg {
                    offer: b.info,
                    swap_router: mixed_router,
                    amount: (route.offer_amount - fee) as u128,
                    operations: route.operations,
                    minimum_receive: route.minimum_receive,
                    to: Some(receiver),
                },
            );
            lemma_paid_out_concat(msgs, fee_msgs, info);
            lemma_paid_out_concat(msgs + fee_msgs, seq![swap], info);
            assert(seq![swap].drop_last() =~= Seq::<ZapperMsg<Op>>::empty());
            assert(seq![swap].len() == 1 && seq![swap].last() == swap);
            assert(paid_out(swap) == Some((b.info, (route.offer_amount - fee) as u128)));
            assert(total_paid_out(Seq::<ZapperMsg<Op>>::empty(), info) == 0);
            assert(total_paid_out(seq![swap], info) == if b.info == info {
                route.offer_amount - fee
            } else {
                0
            });
            if rate != 0 {
                assert(fee_msgs.drop_last() =~= Seq::<ZapperMsg<Op>>::empty());
                assert(paid_out(fee_msgs[0]) == Some((b.info, fee as u128)));
                assert(total_paid_out(fee_msgs, info) == if b.info == info {
                    fee
                } else {
                    0
                });
            } else {
                assert(total_paid_out(fee_msgs, info) == 0);
            }
            if b.amount >= route.offer_amount {
                lemma_held_update(balances, i, (b.amount - route.offer_amount) as u128, info);
                let (b2, m2) = zap_out_step(
                    balances,
                    msgs,
                    route,
                    protocol_fee,
                    receiver,
                    mixed_router,
                ).unwrap();
                assert(m2 == msgs + fee_msgs + seq![swap]);
                assert(b2 == balances.update(
                    i,
                    Asset { info: b.info, amount: (b.amount - route.offer_amount) as u128 },
                ));
            }
        },
    }
}

proof fn lemma_swaps_conserve<Op>(
    balances: Seq<Asset>,
    routes: Seq<Route<Op>>,
    protocol_fee: Option<ProtocolFee>,
    receiver: String,
    mixed_router: String,
    info: AssetInfo,
)
    requires
        protocol_fee matches Some(fee) ==> fee.percent.0 <= DECIMAL_ONE,
        zap_out_swaps(balances, routes, protocol_fee, receiver, mixed_router) is Ok,
    ensures
        ({
            let (left, msgs) = zap_out_swaps(
                balances,
                routes,
                protocol_fee,
                receiver,
                mixed_router,
            ).unwrap();
            total_paid_out(msgs, info) + total_held(left, info) == total_held(balances, info)
        }),
    decreases routes.len(),
{
    if routes.len() > 0 {
        lemma_swaps_conserve(
            balances,
            routes.drop_last(),
            protocol_fee,
            receiver,
            mixed_router,
            info,
        );
        let (b, m) = zap_out_swaps(
            balances,
            routes.drop_last(),
            protocol_fee,
            receiver,
            mixed_router,
        ).unwrap();
        lemma_step_conserves(b, m, routes.last(), protocol_fee, receiver, mixed_router, info);
    }
}

/// A zap-out keeps nothing: of each asset, the fee transfers, the swaps and
/// the refunds of its second step together hand out exactly what the
/// zapper received of it.
pub proof fn lemma_zap_out_pays_out_what_it_received<Op>(
    changes: Seq<BalanceChange>,
    routes: Seq<Route<Op>>,
    protocol_fee: Option<ProtocolFee>,
    receiver: String,
    mixed_router: String,
    info: AssetInfo,
)
    requires
        protocol_fee matches Some(fee) ==> fee.percent.0 <= DECIMAL_ONE,
        zap_out_reply_result(changes, routes, protocol_fee, receiver, mixed_router) is Ok,
    ensures
        total_paid_out(
            zap_out_reply_result(changes, routes, protocol_fee, receiver, mixed_router).unwrap(),
            info,
        ) == total_held(received(changes).unwrap(), info),
{
    let balances = received(changes).unwrap();
    lemma_swaps_conserve(balances, routes, protocol_fee, receiver, mixed_router, info);
    let (left, msgs) = zap_out_swaps(balances, routes, protocol_fee, receiver, mixed_router).unwrap();
    lemma_refunds_pay_out_all::<Op>(left, receiver, info);
    lemma_paid_out_concat(msgs, refunds::<Op>(left, receiver), info);
}

} // verus!

verus! {

/// The stored settings; fails when none are stored.
pub fn get_config<Op>(store: &ZapperStore<Op>) -> (r: Result<Config, ContractError>)
    ensures
        store.config is None ==> r == Err::<Config, ContractError>(ContractError::NotFound),
        store.config matches Some(c) ==> r == Ok::<Config, ContractError>(c),
{
    match &store.config {
        Some(c) => Ok(
            Config {
                admin: c.admin.clone(),
                mixed_router: c.mixed_router.clone(),
                dex_v3: c.dex_v3.clone(),
            },
        ),
        None => Err(ContractError::NotFound),
    }
}

/// The registered protocol fee; fails when none is registered.
pub fn get_protocol_fee<Op>(store: &ZapperStore<Op>) -> (r: Result<ProtocolFee, ContractError>)
    ensures
        store.protocol_fee is None ==> r == Err::<ProtocolFee, ContractError>(
            ContractError::NotFound,
        ),
        store.protocol_fee matches Some(f) ==> r == Ok::<ProtocolFee, ContractError>(f),
{
    match &store.protocol_fee {
        Some(f) => Ok(ProtocolFee { percent: f.percent, fee_receiver: f.fee_receiver.clone() }),
        None => Err(ContractError::NotFound),
    }
}

} // verus!

verus! {

/// Which of the pool's two amounts the liquidity of a zap-in's position is
/// computed from.
#[derive(Clone, Copy, Debug, PartialEq, Eq, Structural)]
pub enum LiquiditySource {
    /// From the amount of token x; when that asks for more of token y than
    /// there is, from the amount of token y instead.
    XThenY,
    /// From the amount of token x alone (the range is above the price).
    X,
    /// From the amount of token y alone (the range is below the price).
    Y,
}

/// How a zap-in computes its position's liquidity, by where the pool's
/// current tick stands against the position's range `[lower_tick, upper_tick)`.
pub fn liquidity_source(lower_tick: i32, upper_tick: i32, current_tick_index: i32) -> (r: LiquiditySource)
    ensures
        lower_tick <= current_tick_index < upper_tick ==> r == LiquiditySource::XThenY,
        !(lower_tick <= current_tick_index < upper_tick) && lower_tick > current_tick_index ==> r
            == LiquiditySource::X,
        !(lower_tick <= current_tick_index < upper_tick) && lower_tick <= current_tick_index ==> r
            == LiquiditySource::Y,
{
    let is_in_range = lower_tick <= current_tick_index && upper_tick > current_tick_index;
    if is_in_range {
        LiquiditySource::XThenY
    } else if lower_tick > current_tick_index {
        LiquiditySource::X
    } else {
        LiquiditySource::Y
    }
}

} // verus!

verus! {

/// Whether balances name their assets in strictly increasing byte order of
/// the names (so no name occurs twice).
pub open spec fn names_ordered(balances: Seq<Asset>) -> bool {
    forall|i: int, j: int|
        0 <= i < j < balances.len() ==> bytes_lt(
            utf8(#[trigger] balances[i].info.name()),
            utf8(#[trigger] balances[j].info.name()),
        )
}

impl<Op> ZapperStore<Op> {
    /// Well-formedness: the zap-out snapshots hold one balance per name, in
    /// byte order of the names, and a registered fee is at most one.
    pub open spec fn wf(self) -> bool {
        &&& names_ordered(self.snap_balances@)
        &&& self.protocol_fee matches Some(fee) ==> fee.percent.0 <= DECIMAL_ONE
    }
}

/// The snapshot balances of a zap-out taken with the balances now.
pub open spec fn snapshot_changes(snaps: Seq<Asset>, after: Seq<u128>) -> Seq<BalanceChange> {
    Seq::new(
        snaps.len(),
        |i: int| BalanceChange { info: snaps[i].info, before: snaps[i].amount, after: after[i] },
    )
}

/// What is left of the balances once the routes of a zap-out have taken
/// their amounts, or why they cannot.
pub open spec fn zap_out_left<Op>(balances: Seq<Asset>, routes: Seq<Route<Op>>) -> Result<
    Seq<Asset>,
    ContractError,
>
    decreases routes.len(),
{
    if routes.len() == 0 {
        Ok(balances)
    } else {
        match zap_out_left(balances, routes.drop_last()) {
            Err(e) => Err(e),
            Ok(b) => {
                let route = routes.last();
                match find_balance(b, route.token_in@) {
                    None => Ok(b),
                    Some(i) => if b[i].amount < route.offer_amount {
                        Err(ContractError::ZapOutNotEnoughBalanceToSwap)
                    } else {
                        Ok(
                            b.update(
                                i,
                                Asset { info: b[i].info, amount: (b[i].amount - route.offer_amount) as u128 },
                            ),
                        )
                    },
                }
            },
        }
    }
}

proof fn lemma_swaps_follow_left<Op>(
    balances: Seq<Asset>,
    routes: Seq<Route<Op>>,
    protocol_fee: Option<ProtocolFee>,
    receiver: String,
    mixed_router: String,
)
    ensures
        match zap_out_left(balances, routes) {
            Ok(b) => zap_out_swaps(balances, routes, protocol_fee, receiver, mixed_router) is Ok
                && zap_out_swaps(balances, routes, protocol_fee, receiver, mixed_router).unwrap().0
                == b,
            Err(e) => zap_out_swaps(balances, routes, protocol_fee, receiver, mixed_router) == Err::<
                (Seq<Asset>, Seq<ZapperMsg<Op>>),
                ContractError,
            >(e),
        },
    decreases routes.len(),
{
    if routes.len() > 0 {
        lemma_swaps_follow_left(balances, routes.drop_last(), protocol_fee, receiver, mixed_router);
    }
}

/// Whether the routes of a zap-out can take their amounts from the
/// balances.
fn zap_out_feasible<Op>(balances: &Vec<Asset>, routes: &Vec<Route<Op>>) -> (r: Result<(), ContractError>)
    ensures
        match zap_out_left(balances@, routes@) {
            Ok(_) => r is Ok,
            Err(e) => r == Err::<(), ContractError>(e),
        },
{
    let mut left: Vec<Asset> = Vec::new();
    let mut k: usize = 0;
    while k < balances.len()
        invariant
            k <= balances@.len(),
            left@ == balances@.subrange(0, k as int),
        decreases balances@.len() - k,
    {
        left.push(Asset { info: balances[k].info.duplicate(), amount: balances[k].amount });
        k = k + 1;
        assert(left@ =~= balances@.subrange(0, k as int));
    }
    assert(left@ =~= balances@);
    let mut i: usize = 0;
    assert(routes@.subrange(0, 0) =~= Seq::<Route<Op>>::empty());
    while i < routes.len()
        invariant
            i <= routes@.len(),
            zap_out_left(balances@, routes@.subrange(0, i as int)) == Ok::<Seq<Asset>, ContractError>(
                left@,
            ),
        decreases routes@.len() - i,
    {
        let route = &routes[i];
        assert(routes@.subrange(0, i + 1).drop_last() =~= routes@.subrange(0, i as int));
        proof {
            lemma_find_balance_bound(left@, route.token_in@);
        }
        match find_balance_index(&left, &route.token_in) {
            None => {},
            Some(j) => {
                let amount = left[j].amount;
                if amount < route.offer_amount {
                    proof {
                        lemma_left_err_persists(balances@, routes@, i + 1);
                    }
                    return Err(ContractError::ZapOutNotEnoughBalanceToSwap);
                }
                let info = left[j].info.duplicate();
                left.set(j, Asset { info, amount: amount - route.offer_amount });
            },
        }
        i = i + 1;
    }
    assert(routes@.subrange(0, routes@.len() as int) =~= routes@);
    Ok(())
}

proof fn lemma_left_err_persists<Op>(balances: Seq<Asset>, routes: Seq<Route<Op>>, n: int)
    requires
        0 <= n <= routes.len(),
        zap_out_left(balances, routes.subrange(0, n)) is Err,
    ensures
        zap_out_left(balances, routes) == zap_out_left(balances, routes.subrange(0, n)),
    decreases routes.len() - n,
{
    if n < routes.len() {
        assert(routes.subrange(0, n + 1).drop_last() =~= routes.subrange(0, n));
        lemma_left_err_persists(balances, routes, n + 1);
    } else {
        assert(routes.subrange(0, n) =~= routes);
    }
}

/// The second step of a zap-out, once the dex has burnt the position: the
/// zapper's balances now (`after`, one for each snapshot, in the snapshots'
/// order) less its snapshots are what it received; each stored route swaps
/// part of that (the protocol fee on it going to the fee receiver), in
/// order, and what is left goes back to the stored receiver, in byte order
/// of the asset names. The snapshots, the receiver and the routes are then
/// cleared. Fails, changing nothing, when one of them or the settings is
/// missing, a balance shrank, or a route asks for more than is left of its
/// token.
pub fn zap_out_reply<Op>(store: &mut ZapperStore<Op>, after: Vec<u128>) -> (r: Result<
    Vec<ZapperMsg<Op>>,
    ContractError,
>)
    requires
        old(store).wf(),
        after@.len() == old(store).snap_balances@.len(),
    ensures
        old(store).receiver is None || old(store).zap_out_routes is None || old(store).config is None
            ==> r == Err::<Vec<ZapperMsg<Op>>, ContractError>(ContractError::NotFound)
            && *final(store) == *old(store),
        old(store).receiver is Some && old(store).zap_out_routes is Some && old(store).config is Some
            ==> match zap_out_reply_result(
            snapshot_changes(old(store).snap_balances@, after@),
            old(store).zap_out_routes.unwrap()@,
            old(store).protocol_fee,
            old(store).receiver.unwrap(),
            old(store).config.unwrap().mixed_router,
        ) {
            Ok(m) => {
                &&& r is Ok
                &&& r.unwrap()@ == m
                &&& final(store).snap_balances@ == Seq::<Asset>::empty()
                &&& final(store).receiver is None
                &&& final(store).zap_out_routes is None
                &&& final(store).config == old(store).config
                &&& final(store).protocol_fee == old(store).protocol_fee
                &&& final(store).pending_position == old(store).pending_position
                &&& final(store).snap_balance == old(store).snap_balance
            },
            Err(e) => r == Err::<Vec<ZapperMsg<Op>>, ContractError>(e) && *final(store) == *old(
                store,
            ),
        },
        final(store).wf(),
{
    let receiver = match &store.receiver {
        Some(v) => v.clone(),
        None => {
            return Err(ContractError::NotFound);
        },
    };
    if store.zap_out_routes.is_none() {
        return Err(ContractError::NotFound);
    }
    let mixed_router = match &store.config {
        Some(c) => c.mixed_router.clone(),
        None => {
            return Err(ContractError::NotFound);
        },
    };

    // the snapshots with the balances now
    let mut changes: Vec<BalanceChange> = Vec::new();
    let mut k: usize = 0;
    while k < store.snap_balances.len()
        invariant
            k <= store.snap_balances@.len(),
            after@.len() == store.snap_balances@.len(),
            changes@ == snapshot_changes(store.snap_balances@, after@).subrange(0, k as int),
        decreases store.snap_balances@.len() - k,
    {
        let snap = &store.snap_balances[k];
        changes.push(BalanceChange { info: snap.info.duplicate(), before: snap.amount, after: after[k] });
        k = k + 1;
        assert(changes@ =~= snapshot_changes(store.snap_balances@, after@).subrange(0, k as int));
    }
    assert(changes@ =~= snapshot_changes(store.snap_balances@, after@));

    // nothing is settled unless every route can be
    let balances = match received_amounts(&changes) {
        Ok(b) => b,
        Err(e) => {
            return Err(e);
        },
    };
    let feasible = match &store.zap_out_routes {
        Some(routes) => zap_out_feasible(&balances, routes),
        None => Ok(()),
    };
    proof {
        lemma_swaps_follow_left(
            balances@,
            store.zap_out_routes.unwrap()@,
            store.protocol_fee,
            receiver,
            mixed_router,
        );
    }
    match feasible {
        Ok(()) => {},
        Err(e) => {
            return Err(e);
        },
    }

    let mut routes: Option<Vec<Route<Op>>> = None;
    core::mem::swap(&mut store.zap_out_routes, &mut routes);
    let routes = match routes {
        Some(v) => v,
        None => Vec::new(),
    };
    let msgs = match settle_zap_out(&changes, routes, &store.protocol_fee, &receiver, &mixed_router) {
        Ok(m) => m,
        Err(e) => {
            return Err(e);
        },
    };
    store.snap_balances = Vec::new();
    store.receiver = None;
    Ok(msgs)
}

} // verus!

verus! {

/// The third step of a zap-in, once the swaps are done: from the stored
/// snapshot, position and settings, the zapper lets the dex take what it
/// received of the pool's two tokens (`x_after`, `y_after` are its balances
/// now) and creates the position with `liquidity` (what those amounts buy,
/// by the dex's liquidity math) in a submessage answered by the add-liquidity
/// reply. Fails when something it reads is not stored, or the liquidity is
/// below the position's minimum.
pub fn zap_in_liquidity_reply<Op>(
    store: &ZapperStore<Op>,
    x_after: u128,
    y_after: u128,
    liquidity: Liquidity,
) -> (r: Result<ZapperResponse<Op>, ContractError>)
    requires
        store.snap_balance matches Some(snap) ==> x_after >= snap.token_x.amount && y_after
            >= snap.token_y.amount,
        store.pending_position matches Some(p) ==> p.pool_key.fee_tier.tick_spacing > 0,
    ensures
        store.snap_balance is None || store.config is None || store.pending_position is None ==> r
            == Err::<ZapperResponse<Op>, ContractError>(ContractError::NotFound),
        store.snap_balance is Some && store.config is Some && store.pending_position is Some ==> {
            let snap = store.snap_balance.unwrap();
            let config = store.config.unwrap();
            let p = store.pending_position.unwrap();
            &&& below_minimum(p, liquidity) ==> r == Err::<ZapperResponse<Op>, ContractError>(
                ContractError::ZapInAssertionFailure {
                    minium_receive: p.minimum_liquidity.unwrap().0,
                    return_amount: liquidity.0,
                },
            )
            &&& !below_minimum(p, liquidity) ==> {
                let x = (x_after - snap.token_x.amount) as u128;
                let y = (y_after - snap.token_y.amount) as u128;
                let funds = r.unwrap().sub_msgs@[0].msg->CreatePosition_funds;
                &&& r is Ok
                &&& r.unwrap().msgs@ == allowance_msgs::<Op>(snap.token_x.info, config.dex_v3, x)
                    + allowance_msgs::<Op>(snap.token_y.info, config.dex_v3, y)
                &&& r.unwrap().sub_msgs@ == seq![
                    SubMsg {
                        msg: create_position_msg::<Op>(config.dex_v3, p, liquidity, funds),
                        reply_on_success: Some(ADD_LIQUIDITY_REPLY_ID),
                    },
                ]
                &&& funds@ == allowance_coins(snap.token_x.info, x) + allowance_coins(
                    snap.token_y.info,
                    y,
                )
            }
        },
{
    let snap = match &store.snap_balance {
        Some(s) => s,
        None => {
            return Err(ContractError::NotFound);
        },
    };
    let dex = match &store.config {
        Some(c) => c.dex_v3.clone(),
        None => {
            return Err(ContractError::NotFound);
        },
    };
    let pending = match &store.pending_position {
        Some(p) => p,
        None => {
            return Err(ContractError::NotFound);
        },
    };
    let mut msgs = match create_position_msgs::<Op>(snap, x_after, y_after, pending, liquidity, &dex) {
        Ok(m) => m,
        Err(e) => {
            return Err(e);
        },
    };
    let ghost all = msgs@;
    let create = match msgs.pop() {
        Some(m) => m,
        None => {
            return Err(ContractError::NotFound);
        },
    };
    assert(msgs@ == all.drop_last());
    let mut sub_msgs: Vec<SubMsg<Op>> = Vec::new();
    sub_msgs.push(SubMsg { msg: create, reply_on_success: Some(ADD_LIQUIDITY_REPLY_ID) });
    Ok(ZapperResponse { msgs, sub_msgs })
}

/// The last step of a zap-in, once the position exists: hands the stored
/// pending position to the stored receiver, refunds what the zapper holds
/// beyond its stored snapshot of the pool's two tokens (`x_after`, `y_after`
/// are its balances now), and clears the pending position, the snapshot and
/// the receiver. Fails, changing nothing, when something it reads is not
/// stored.
pub fn add_liquidity<Op>(store: &mut ZapperStore<Op>, x_after: u128, y_after: u128) -> (r: Result<
    Vec<ZapperMsg<Op>>,
    ContractError,
>)
    requires
        old(store).snap_balance matches Some(snap) ==> x_after >= snap.token_x.amount && y_after
            >= snap.token_y.amount,
    ensures
        old(store).snap_balance is None || old(store).config is None
            || old(store).pending_position is None || old(store).receiver is None ==> r == Err::<
            Vec<ZapperMsg<Op>>,
            ContractError,
        >(ContractError::NotFound) && *final(store) == *old(store),
        old(store).snap_balance is Some && old(store).config is Some
            && old(store).pending_position is Some && old(store).receiver is Some ==> {
            let snap = old(store).snap_balance.unwrap();
            let config = old(store).config.unwrap();
            let p = old(store).pending_position.unwrap();
            let receiver = old(store).receiver.unwrap();
            &&& r is Ok
            &&& r.unwrap()@ == seq![
                ZapperMsg::TransferPosition { dex: config.dex_v3, index: p.index, receiver },
            ] + refund_if_any::<Op>(snap.token_x.info, x_after - snap.token_x.amount, receiver)
                + refund_if_any::<Op>(snap.token_y.info, y_after - snap.token_y.amount, receiver)
            &&& snap.token_x.info != snap.token_y.info ==> total_paid_out(
                r.unwrap()@,
                snap.token_x.info,
            ) == x_after - snap.token_x.amount && total_paid_out(r.unwrap()@, snap.token_y.info)
                == y_after - snap.token_y.amount
            &&& final(store).pending_position is None
            &&& final(store).snap_balance is None
            &&& final(store).receiver is None
            &&& final(store).config == old(store).config
            &&& final(store).protocol_fee == old(store).protocol_fee
            &&& final(store).zap_out_routes == old(store).zap_out_routes
            &&& final(store).snap_balances == old(store).snap_balances
        },
{
    proof {
        if old(store).snap_balance is Some && old(store).config is Some
            && old(store).pending_position is Some && old(store).receiver is Some {
            let snap = old(store).snap_balance.unwrap();
            if snap.token_x.info != snap.token_y.info {
                lemma_add_liquidity_refunds_growth::<Op>(
                    snap,
                    x_after,
                    y_after,
                    old(store).config.unwrap().dex_v3,
                    old(store).pending_position.unwrap().index,
                    old(store).receiver.unwrap(),
                );
            }
        }
    }
    let msgs = match (&store.snap_balance, &store.config, &store.pending_position, &store.receiver) {
        (Some(snap), Some(config), Some(pending), Some(receiver)) => refund_msgs::<Op>(
            snap,
            x_after,
            y_after,
            pending,
            receiver,
            &config.dex_v3,
        ),
        _ => {
            return Err(ContractError::NotFound);
        },
    };
    store.pending_position = None;
    store.snap_balance = None;
    store.receiver = None;
    Ok(msgs)
}

} // verus!

verus! {

proof fn lemma_received_shape(changes: Seq<BalanceChange>)
    requires
        received(changes) is Some,
    ensures
        received(changes).unwrap().len() == changes.len(),
        forall|j: int|
            0 <= j < changes.len() ==> #[trigger] received(changes).unwrap()[j] == (Asset {
                info: changes[j].info,
                amount: (changes[j].after - changes[j].before) as u128,
            }),
    decreases changes.len(),
{
    if changes.len() > 0 {
        lemma_received_shape(changes.drop_last());
        let rest = received(changes.drop_last()).unwrap();
        assert forall|j: int| 0 <= j < changes.len() implies #[trigger] received(changes).unwrap()[j]
            == (Asset { info: changes[j].info, amount: (changes[j].after - changes[j].before) as u128 }) by {
            if j < changes.len() - 1 {
                assert(received(changes).unwrap()[j] == rest[j]);
                assert(changes.drop_last()[j] == changes[j]);
            }
        }
    }
}

proof fn lemma_held_once(balances: Seq<Asset>, i: int)
    requires
        0 <= i < balances.len(),
        forall|j: int| 0 <= j < balances.len() && j != i ==> balances[j].info != balances[i].info,
    ensures
        total_held(balances, balances[i].info) == balances[i].amount,
    decreases balances.len(),
{
    let info = balances[i].info;
    let p = balances.drop_last();
    if i < balances.len() - 1 {
        assert forall|j: int| 0 <= j < p.len() && j != i implies p[j].info != p[i].info by {
            assert(p[j] == balances[j]);
        }
        lemma_held_once(p, i);
        assert(p[i] == balances[i]);
    } else {
        lemma_held_none(p, info);
    }
}

proof fn lemma_held_none(balances: Seq<Asset>, info: AssetInfo)
    requires
        forall|j: int| 0 <= j < balances.len() ==> balances[j].info != info,
    ensures
        total_held(balances, info) == 0,
    decreases balances.len(),
{
    if balances.len() > 0 {
        lemma_held_none(balances.drop_last(), info);
    }
}

/// A zap-out hands out of each snapshotted asset exactly what the zapper
/// received of it, once: its balance now less its snapshot (the snapshots
/// hold one balance per name).
pub proof fn lemma_zap_out_pays_each_asset_once<Op>(
    snaps: Seq<Asset>,
    after: Seq<u128>,
    routes: Seq<Route<Op>>,
    protocol_fee: Option<ProtocolFee>,
    receiver: String,
    mixed_router: String,
    i: int,
)
    requires
        names_ordered(snaps),
        after.len() == snaps.len(),
        0 <= i < snaps.len(),
        protocol_fee matches Some(fee) ==> fee.percent.0 <= DECIMAL_ONE,
        zap_out_reply_result(snapshot_changes(snaps, after), routes, protocol_fee, receiver, mixed_router)
            is Ok,
    ensures
        total_paid_out(
            zap_out_reply_result(
                snapshot_changes(snaps, after),
                routes,
                protocol_fee,
                receiver,
                mixed_router,
            ).unwrap(),
            snaps[i].info,
        ) == after[i] - snaps[i].amount,
{
    let changes = snapshot_changes(snaps, after);
    lemma_zap_out_pays_out_what_it_received(
        changes,
        routes,
        protocol_fee,
        receiver,
        mixed_router,
        snaps[i].info,
    );
    lemma_received_shape(changes);
    let b = received(changes).unwrap();
    assert(b[i] == (Asset { info: snaps[i].info, amount: (after[i] - snaps[i].amount) as u128 }));
    assert(after[i] >= snaps[i].amount) by {
        lemma_received_entries_grew(changes, i);
    }
    assert forall|j: int| 0 <= j < b.len() && j != i implies b[j].info != b[i].info by {
        assert(b[j].info == snaps[j].info);
        if b[j].info == b[i].info {
            if j < i {
                assert(bytes_lt(utf8(snaps[j].info.name()), utf8(snaps[i].info.name())));
            } else {
                assert(bytes_lt(utf8(snaps[i].info.name()), utf8(snaps[j].info.name())));
            }
            lemma_bytes_lt_irreflexive(utf8(snaps[i].info.name()));
        }
    }
    lemma_held_once(b, i);
}

proof fn lemma_received_entries_grew(changes: Seq<BalanceChange>, i: int)
    requires
        received(changes) is Some,
        0 <= i < changes.len(),
    ensures
        changes[i].after >= changes[i].before,
    decreases changes.len(),
{
    if i < changes.len() - 1 {
        assert(changes.drop_last()[i] == changes[i]);
        lemma_received_entries_grew(changes.drop_last(), i);
    }
}

} // verus!

verus! {

/// Whether no two balances name the same asset.
pub open spec fn names_distinct(balances: Seq<Asset>) -> bool {
    forall|i: int, j: int|
        0 <= i < balances.len() && 0 <= j < balances.len() && i != j ==> (#[trigger] balances[i]).info.name()@
            != (#[trigger] balances[j]).info.name()@
}

/// The total that routes offer of the asset named `name`.
pub open spec fn offered_for<Op>(routes: Seq<Route<Op>>, name: Seq<char>) -> int
    decreases routes.len(),
{
    if routes.len() == 0 {
        0
    } else {
        offered_for(routes.drop_last(), name) + if routes.last().token_in@ == name {
            routes.last().offer_amount as int
        } else {
            0
        }
    }
}

/// Whether every route of a zap-out finds what it offers: of each balance,
/// the routes up to and including each one offer no more than the balance.
pub open spec fn no_shortfall<Op>(balances: Seq<Asset>, routes: Seq<Route<Op>>) -> bool {
    forall|k: int, i: int|
        0 <= k < routes.len() && 0 <= i < balances.len() && routes[k].token_in@
            == balances[i].info.name()@ ==> #[trigger] offered_for(routes.take(k + 1), balances[i].info.name()@)
            <= (#[trigger] balances[i]).amount
}

proof fn lemma_names_ordered_distinct(balances: Seq<Asset>)
    requires
        names_ordered(balances),
    ensures
        names_distinct(balances),
{
    assert forall|i: int, j: int|
        0 <= i < balances.len() && 0 <= j < balances.len() && i != j implies (#[trigger] balances[i]).info.name()@
        != (#[trigger] balances[j]).info.name()@ by {
        let (a, b) = (balances[i].info.name(), balances[j].info.name());
        if a@ == b@ {
            assert(utf8(a) == utf8(b));
            lemma_bytes_lt_irreflexive(utf8(a));
            if i < j {
                assert(bytes_lt(utf8(a), utf8(b)));
            } else {
                assert(bytes_lt(utf8(b), utf8(a)));
            }
        }
    }
}

proof fn lemma_find_balance_distinct(balances: Seq<Asset>, name: Seq<char>)
    requires
        names_distinct(balances),
    ensures
        match find_balance(balances, name) {
            Some(i) => 0 <= i < balances.len() && balances[i].info.name()@ == name,
            None => forall|j: int| 0 <= j < balances.len() ==> balances[j].info.name()@ != name,
        },
    decreases balances.len(),
{
    if balances.len() > 0 {
        let p = balances.drop_last();
        assert(names_distinct(p)) by {
            assert forall|i: int, j: int|
                0 <= i < p.len() && 0 <= j < p.len() && i != j implies (#[trigger] p[i]).info.name()@
                != (#[trigger] p[j]).info.name()@ by {
                assert(p[i] == balances[i] && p[j] == balances[j]);
            }
        }
        lemma_find_balance_distinct(p, name);
        assert forall|j: int| 0 <= j < p.len() implies p[j] == balances[j] by {}
    }
}

proof fn lemma_find_balance_same_infos(a: Seq<Asset>, b: Seq<Asset>, name: Seq<char>)
    requires
        a.len() == b.len(),
        forall|j: int| 0 <= j < a.len() ==> (#[trigger] a[j]).info == b[j].info,
    ensures
        find_balance(a, name) == find_balance(b, name),
    decreases a.len(),
{
    if a.len() > 0 {
        let (pa, pb) = (a.drop_last(), b.drop_last());
        assert forall|j: int| 0 <= j < pa.len() implies (#[trigger] pa[j]).info == pb[j].info by {
            assert(pa[j] == a[j] && pb[j] == b[j]);
        }
        lemma_find_balance_same_infos(pa, pb, name);
        assert(a.last().info == b.last().info);
    }
}

/// What is left of each balance when every route finds what it offers:
/// its amount less what the routes offer of its asset.
proof fn lemma_zap_out_left_shape<Op>(balances: Seq<Asset>, routes: Seq<Route<Op>>)
    requires
        names_distinct(balances),
    ensures
        zap_out_left(balances, routes) is Ok <==> no_shortfall(balances, routes),
        zap_out_left(balances, routes) is Err ==> zap_out_left(balances, routes) == Err::<
            Seq<Asset>,
            ContractError,
        >(ContractError::ZapOutNotEnoughBalanceToSwap),
        zap_out_left(balances, routes) matches Ok(left) ==> {
            &&& left.len() == balances.len()
            &&& forall|i: int|
                0 <= i < balances.len() ==> (#[trigger] left[i]).info == balances[i].info
                    && left[i].amount == balances[i].amount - offered_for(
                    routes,
                    balances[i].info.name()@,
                )
        },
    decreases routes.len(),
{
    if routes.len() == 0 {
        assert forall|i: int| 0 <= i < balances.len() implies balances[i].info == balances[i].info by {}
    } else {
        let p = routes.drop_last();
        let r = routes.last();
        let n = routes.len() - 1;
        lemma_zap_out_left_shape(balances, p);
        // the shortfall condition splits into the earlier routes and the last one
        assert forall|k: int, i: int|
            0 <= k < p.len() && 0 <= i < balances.len() implies #[trigger] offered_for(
            routes.take(k + 1),
            balances[i].info.name()@,
        ) == offered_for(p.take(k + 1), balances[i].info.name()@) by {
            assert(p.take(k + 1) =~= routes.take(k + 1));
        }
        assert(routes.take(n + 1) =~= routes);
        assert(routes.drop_last() == p);
        match zap_out_left(balances, p) {
            Err(e) => {
                assert(!no_shortfall(balances, p));
                let (k, i) = choose|k: int, i: int|
                    0 <= k < p.len() && 0 <= i < balances.len() && p[k].token_in@
                        == balances[i].info.name()@ && !(offered_for(
                        p.take(k + 1),
                        balances[i].info.name()@,
                    ) <= balances[i].amount);
                assert(routes[k] == p[k]);
                assert(offered_for(routes.take(k + 1), balances[i].info.name()@) == offered_for(
                    p.take(k + 1),
                    balances[i].info.name()@,
                ));
            },
            Ok(b1) => {
                lemma_find_balance_same_infos(b1, balances, r.token_in@);
                lemma_find_balance_distinct(balances, r.token_in@);
                match find_balance(balances, r.token_in@) {
                    None => {
                        assert forall|i: int| 0 <= i < balances.len() implies offered_for(
                            routes,
                            balances[i].info.name()@,
                        ) == offered_for(p, balances[i].info.name()@) by {}
                        assert forall|k: int, i: int|
                            0 <= k < routes.len() && 0 <= i < balances.len() && routes[k].token_in@
                                == balances[i].info.name()@ implies #[trigger] offered_for(
                            routes.take(k + 1),
                            balances[i].info.name()@,
                        ) <= (#[trigger] balances[i]).amount by {
                            if k < p.len() {
                                assert(routes[k] == p[k]);
                            }
                        }
                    },
                    Some(i) => {
                        let name = balances[i].info.name()@;
                        assert(offered_for(routes, name) == offered_for(p, name) + r.offer_amount);
                        if b1[i].amount < r.offer_amount {
                            assert(!(offered_for(routes.take(n + 1), name) <= balances[i].amount));
                            assert(routes[n] == r);
                        } else {
                            assert forall|k: int, j: int|
                                0 <= k < routes.len() && 0 <= j < balances.len()
                                    && routes[k].token_in@ == balances[j].info.name()@ implies #[trigger] offered_for(
                                routes.take(k + 1),
                                balances[j].info.name()@,
                            ) <= (#[trigger] balances[j]).amount by {
                                if k < p.len() {
                                    assert(routes[k] == p[k]);
                                } else {
                                    assert(routes[k] == r);
                                    assert(j == i);
                                }
                            }
                            let left = zap_out_left(balances, routes).unwrap();
                            assert forall|j: int| 0 <= j < balances.len() implies (#[trigger] left[j]).info
                                == balances[j].info && left[j].amount == balances[j].amount
                                - offered_for(routes, balances[j].info.name()@) by {
                                if j != i {
                                    assert(balances[j].info.name()@ != name);
                                }
                            }
                        }
                    },
                }
            },
        }
    }
}

/// A zap-out falls short exactly when some route, counting it and the routes
/// before it, offers more of a snapshotted asset than the zapper received of
/// it; routes of assets that were not snapshotted are skipped.
pub proof fn lemma_zap_out_shortfall<Op>(
    snaps: Seq<Asset>,
    after: Seq<u128>,
    routes: Seq<Route<Op>>,
    protocol_fee: Option<ProtocolFee>,
    receiver: String,
    mixed_router: String,
)
    requires
        names_ordered(snaps),
        after.len() == snaps.len(),
        forall|i: int| 0 <= i < snaps.len() ==> after[i] >= (#[trigger] snaps[i]).amount,
    ensures
        zap_out_reply_result(snapshot_changes(snaps, after), routes, protocol_fee, receiver, mixed_router)
            == Err::<Seq<ZapperMsg<Op>>, ContractError>(ContractError::ZapOutNotEnoughBalanceToSwap)
            <==> exists|k: int, i: int|
            0 <= k < routes.len() && 0 <= i < snaps.len() && routes[k].token_in@
                == snaps[i].info.name()@ && #[trigger] offered_for(routes.take(k + 1), snaps[i].info.name()@)
                > after[i] - (#[trigger] snaps[i]).amount,
        zap_out_reply_result(snapshot_changes(snaps, after), routes, protocol_fee, receiver, mixed_router)
            is Ok <==> !exists|k: int, i: int|
            0 <= k < routes.len() && 0 <= i < snaps.len() && routes[k].token_in@
                == snaps[i].info.name()@ && #[trigger] offered_for(routes.take(k + 1), snaps[i].info.name()@)
                > after[i] - (#[trigger] snaps[i]).amount,
{
    let changes = snapshot_changes(snaps, after);
    lemma_received_all_grew(changes);
    lemma_received_shape(changes);
    let b = received(changes).unwrap();
    lemma_names_ordered_distinct(snaps);
    assert(names_distinct(b)) by {
        assert forall|i: int, j: int|
            0 <= i < b.len() && 0 <= j < b.len() && i != j implies (#[trigger] b[i]).info.name()@
            != (#[trigger] b[j]).info.name()@ by {
            assert(b[i].info == snaps[i].info && b[j].info == snaps[j].info);
            assert(snaps[i].info.name()@ != snaps[j].info.name()@);
        }
    }
    lemma_zap_out_left_shape(b, routes);
    lemma_swaps_follow_left(b, routes, protocol_fee, receiver, mixed_router);
    assert forall|i: int| 0 <= i < b.len() implies (#[trigger] b[i]).amount == after[i] - snaps[i].amount
        && b[i].info == snaps[i].info by {}
    if no_shortfall(b, routes) {
        assert(!exists|k: int, i: int|
            0 <= k < routes.len() && 0 <= i < snaps.len() && routes[k].token_in@
                == snaps[i].info.name()@ && #[trigger] offered_for(routes.take(k + 1), snaps[i].info.name()@)
                > after[i] - (#[trigger] snaps[i]).amount) by {
            assert forall|k: int, i: int|
                0 <= k < routes.len() && 0 <= i < snaps.len() && routes[k].token_in@
                    == snaps[i].info.name()@ implies !(#[trigger] offered_for(routes.take(k + 1), snaps[i].info.name()@)
                > after[i] - (#[trigger] snaps[i]).amount) by {
                assert(b[i].info == snaps[i].info);
                assert(offered_for(routes.take(k + 1), b[i].info.name()@) <= b[i].amount);
            }
        }
    } else {
        let (k, i) = choose|k: int, i: int|
            0 <= k < routes.len() && 0 <= i < b.len() && routes[k].token_in@ == b[i].info.name()@
                && !(offered_for(routes.take(k + 1), b[i].info.name()@) <= b[i].amount);
        assert(b[i].info == snaps[i].info);
        assert(offered_for(routes.take(k + 1), snaps[i].info.name()@) > after[i] - snaps[i].amount);
    }
}

proof fn lemma_received_all_grew(changes: Seq<BalanceChange>)
    requires
        forall|i: int| 0 <= i < changes.len() ==> (#[trigger] changes[i]).after >= changes[i].before,
    ensures
        received(changes) is Some,
    decreases changes.len(),
{
    if changes.len() > 0 {
        let p = changes.drop_last();
        assert forall|i: int| 0 <= i < p.len() implies (#[trigger] p[i]).after >= p[i].before by {
            assert(p[i] == changes[i]);
        }
        lemma_received_all_grew(p);
    }
}

} // verus!

verus! {

/// The messages of one route of a zap-out, from balances with the names of
/// the snapshots: the fee transfer of `floor(offer × rate)` to the fee
/// receiver (when the rate is not zero), then the swap of the rest for the
/// receiver; nothing for a route whose asset was not snapshotted.
pub open spec fn route_block<Op>(
    balances: Seq<Asset>,
    route: Route<Op>,
    protocol_fee: Option<ProtocolFee>,
    receiver: String,
    mixed_router: String,
) -> Seq<ZapperMsg<Op>> {
    match find_balance(balances, route.token_in@) {
        None => Seq::empty(),
        Some(i) => {
            let info = balances[i].info;
            let rate = fee_rate(protocol_fee);
            let fee = if rate != 0 {
                fee_on(route.offer_amount, Decimal(rate))
            } else {
                0
            };
            let fee_msgs: Seq<ZapperMsg<Op>> = if rate != 0 {
                seq![
                    ZapperMsg::Transfer(
                        send_msg(info, protocol_fee.unwrap().fee_receiver, fee as u128),
                    ),
                ]
            } else {
                Seq::empty()
            };
            fee_msgs + seq![
                ZapperMsg::Swap(
                    SwapMsg {
                        offer: info,
                        swap_router: mixed_router,
                        amount: (route.offer_amount - fee) as u128,
                        operations: route.operations,
                        minimum_receive: route.minimum_receive,
                        to: Some(receiver),
                    },
                ),
            ]
        },
    }
}

/// The messages of the routes of a zap-out, route after route.
pub open spec fn route_blocks<Op>(
    balances: Seq<Asset>,
    routes: Seq<Route<Op>>,
    protocol_fee: Option<ProtocolFee>,
    receiver: String,
    mixed_router: String,
) -> Seq<ZapperMsg<Op>>
    decreases routes.len(),
{
    if routes.len() == 0 {
        Seq::empty()
    } else {
        route_blocks(balances, routes.drop_last(), protocol_fee, receiver, mixed_router)
            + route_block(balances, routes.last(), protocol_fee, receiver, mixed_router)
    }
}

proof fn lemma_swaps_are_blocks<Op>(
    balances: Seq<Asset>,
    routes: Seq<Route<Op>>,
    protocol_fee: Option<ProtocolFee>,
    receiver: String,
    mixed_router: String,
)
    requires
        zap_out_swaps(balances, routes, protocol_fee, receiver, mixed_router) is Ok,
    ensures
        ({
            let (left, msgs) = zap_out_swaps(
                balances,
                routes,
                protocol_fee,
                receiver,
                mixed_router,
            ).unwrap();
            &&& left.len() == balances.len()
            &&& forall|j: int| 0 <= j < left.len() ==> (#[trigger] left[j]).info == balances[j].info
            &&& msgs == route_blocks(balances, routes, protocol_fee, receiver, mixed_router)
        }),
    decreases routes.len(),
{
    if routes.len() > 0 {
        let p = routes.drop_last();
        lemma_swaps_are_blocks(balances, p, protocol_fee, receiver, mixed_router);
        let (b1, m1) = zap_out_swaps(balances, p, protocol_fee, receiver, mixed_router).unwrap();
        lemma_find_balance_same_infos(b1, balances, routes.last().token_in@);
        lemma_find_balance_bound(b1, routes.last().token_in@);
        let (left, msgs) = zap_out_swaps(balances, routes, protocol_fee, receiver, mixed_router).unwrap();
        match find_balance(b1, routes.last().token_in@) {
            None => {},
            Some(i) => {
                assert forall|j: int| 0 <= j < left.len() implies (#[trigger] left[j]).info
                    == balances[j].info by {
                    assert(b1[j].info == balances[j].info);
                }
                assert(msgs =~= m1 + route_block(
                    balances,
                    routes.last(),
                    protocol_fee,
                    receiver,
                    mixed_router,
                ));
            },
        }
    }
}

/// A settled zap-out sends, route after route, the fee transfer of
/// `floor(offer × rate)` to the fee receiver (when a fee is registered)
/// followed by the swap of the rest for the receiver (nothing for a route
/// whose asset was not snapshotted), and then the refunds of what is left.
pub proof fn lemma_zap_out_messages<Op>(
    changes: Seq<BalanceChange>,
    routes: Seq<Route<Op>>,
    protocol_fee: Option<ProtocolFee>,
    receiver: String,
    mixed_router: String,
)
    requires
        zap_out_reply_result(changes, routes, protocol_fee, receiver, mixed_router) is Ok,
    ensures
        zap_out_reply_result(changes, routes, protocol_fee, receiver, mixed_router).unwrap()
            == route_blocks(received(changes).unwrap(), routes, protocol_fee, receiver, mixed_router)
            + refunds::<Op>(zap_out_left(received(changes).unwrap(), routes).unwrap(), receiver),
{
    let b = received(changes).unwrap();
    lemma_swaps_are_blocks(b, routes, protocol_fee, receiver, mixed_router);
    lemma_swaps_follow_left(b, routes, protocol_fee, receiver, mixed_router);
}

/// The number of messages that hand out an asset.
pub open spec fn count_paying<Op>(msgs: Seq<ZapperMsg<Op>>, info: AssetInfo) -> nat
    decreases msgs.len(),
{
    if msgs.len() == 0 {
        0
    } else {
        count_paying(msgs.drop_last(), info) + match paid_out(msgs.last()) {
            Some((i, _)) => if i == info {
                1nat
            } else {
                0nat
            },
            None => 0nat,
        }
    }
}

proof fn lemma_refunds_count<Op>(balances: Seq<Asset>, receiver: String, i: int)
    requires
        names_distinct(balances),
        0 <= i < balances.len(),
    ensures
        count_paying(refunds::<Op>(balances, receiver), balances[i].info) == if balances[i].amount
            != 0 {
            1nat
        } else {
            0nat
        },
    decreases balances.len(),
{
    let info = balances[i].info;
    let p = balances.drop_last();
    assert(names_distinct(p)) by {
        assert forall|a: int, b: int|
            0 <= a < p.len() && 0 <= b < p.len() && a != b implies (#[trigger] p[a]).info.name()@
            != (#[trigger] p[b]).info.name()@ by {
            assert(p[a] == balances[a] && p[b] == balances[b]);
        }
    }
    let rest = refunds::<Op>(p, receiver);
    let last = balances.last();
    if last.amount != 0 {
        assert(rest.push(ZapperMsg::Transfer(send_msg(last.info, receiver, last.amount))).drop_last()
            =~= rest);
    }
    if i < balances.len() - 1 {
        assert(p[i] == balances[i]);
        lemma_refunds_count::<Op>(p, receiver, i);
        assert(last.info.name()@ != info.name()@);
    } else {
        lemma_refunds_count_none::<Op>(p, receiver, info);
    }
}

proof fn lemma_refunds_count_none<Op>(balances: Seq<Asset>, receiver: String, info: AssetInfo)
    requires
        forall|j: int| 0 <= j < balances.len() ==> (#[trigger] balances[j]).info.name()@ != info.name()@,
    ensures
        count_paying(refunds::<Op>(balances, receiver), info) == 0,
    decreases balances.len(),
{
    if balances.len() > 0 {
        let p = balances.drop_last();
        assert forall|j: int| 0 <= j < p.len() implies (#[trigger] p[j]).info.name()@ != info.name()@ by {
            assert(p[j] == balances[j]);
        }
        lemma_refunds_count_none::<Op>(p, receiver, info);
        let rest = refunds::<Op>(p, receiver);
        let last = balances.last();
        if last.amount != 0 {
            assert(rest.push(ZapperMsg::Transfer(send_msg(last.info, receiver, last.amount))).drop_last()
                =~= rest);
            assert(last.info != info);
        }
    }
}

/// A settled zap-out refunds each snapshotted asset once when something of
/// it is left (its gain less what the routes offered of it), with exactly
/// that amount, and not at all when nothing is left.
pub proof fn lemma_zap_out_refunds_once<Op>(
    snaps: Seq<Asset>,
    after: Seq<u128>,
    routes: Seq<Route<Op>>,
    protocol_fee: Option<ProtocolFee>,
    receiver: String,
    mixed_router: String,
    i: int,
)
    requires
        names_ordered(snaps),
        after.len() == snaps.len(),
        0 <= i < snaps.len(),
        zap_out_reply_result(snapshot_changes(snaps, after), routes, protocol_fee, receiver, mixed_router)
            is Ok,
    ensures
        ({
            let b = received(snapshot_changes(snaps, after)).unwrap();
            let refunded = refunds::<Op>(zap_out_left(b, routes).unwrap(), receiver);
            let rem = after[i] - snaps[i].amount - offered_for(routes, snaps[i].info.name()@);
            &&& count_paying(refunded, snaps[i].info) == if rem != 0 {
                1nat
            } else {
                0nat
            }
            &&& total_paid_out(refunded, snaps[i].info) == rem
        }),
{
    let changes = snapshot_changes(snaps, after);
    lemma_received_shape(changes);
    let b = received(changes).unwrap();
    lemma_names_ordered_distinct(snaps);
    assert(names_distinct(b)) by {
        assert forall|x: int, y: int|
            0 <= x < b.len() && 0 <= y < b.len() && x != y implies (#[trigger] b[x]).info.name()@
            != (#[trigger] b[y]).info.name()@ by {
            assert(b[x].info == snaps[x].info && b[y].info == snaps[y].info);
            assert(snaps[x].info.name()@ != snaps[y].info.name()@);
        }
    }
    lemma_swaps_follow_left(b, routes, protocol_fee, receiver, mixed_router);
    lemma_zap_out_left_shape(b, routes);
    let left = zap_out_left(b, routes).unwrap();
    assert(after[i] >= snaps[i].amount) by {
        lemma_received_entries_grew(changes, i);
    }
    assert(left[i].info == snaps[i].info);
    assert(names_distinct(left)) by {
        assert forall|x: int, y: int|
            0 <= x < left.len() && 0 <= y < left.len() && x != y implies (#[trigger] left[x]).info.name()@
            != (#[trigger] left[y]).info.name()@ by {
            assert(left[x].info == b[x].info && left[y].info == b[y].info);
        }
    }
    lemma_refunds_count::<Op>(left, receiver, i);
    lemma_refunds_pay_out_all::<Op>(left, receiver, snaps[i].info);
    assert forall|j: int| 0 <= j < left.len() && j != i implies left[j].info != left[i].info by {
        assert(left[j].info.name()@ != left[i].info.name()@);
    }
    lemma_held_once(left, i);
}

} // verus!

verus! {

/// Who a message that hands something out of the zapper pays, if anyone.
pub open spec fn payee<Op>(m: ZapperMsg<Op>) -> Option<String> {
    match m {
        ZapperMsg::Transfer(TransferMsg::Cw20Transfer { recipient, .. }) => Some(recipient),
        ZapperMsg::Transfer(TransferMsg::BankSend { to_address, .. }) => Some(to_address),
        ZapperMsg::Swap(s) => s.to,
        _ => None,
    }
}

proof fn lemma_refund_if_any_pays<Op>(info: AssetInfo, amount: int, receiver: String, other: AssetInfo)
    requires
        0 <= amount <= u128::MAX,
    ensures
        total_paid_out(refund_if_any::<Op>(info, amount, receiver), other) == if info == other {
            amount
        } else {
            0
        },
        forall|i: int|
            0 <= i < refund_if_any::<Op>(info, amount, receiver).len() ==> paid_out(
                #[trigger] refund_if_any::<Op>(info, amount, receiver)[i],
            ) is Some && payee(refund_if_any::<Op>(info, amount, receiver)[i]) == Some(receiver),
{
    let s = refund_if_any::<Op>(info, amount, receiver);
    let e = Seq::<ZapperMsg<Op>>::empty();
    assert(total_paid_out(e, other) == 0);
    if amount != 0 {
        assert(s.len() == 1);
        assert(s.drop_last() =~= e);
        assert(s.last() == s[0]);
        match info {
            AssetInfo::Token { contract_addr } => {
                assert(paid_out(s[0]) == Some((info, amount as u128)));
                assert(payee(s[0]) == Some(receiver));
            },
            AssetInfo::NativeToken { denom } => {
                assert(paid_out(s[0]) == Some((info, amount as u128)));
                assert(payee(s[0]) == Some(receiver));
            },
        }
        assert(total_paid_out(s, other) == total_paid_out(e, other) + if info == other {
            amount
        } else {
            0
        });
    } else {
        assert(s =~= e);
    }
}

/// The last step of a zap-in hands the receiver, of each of the pool's two
/// tokens (cw20 or native), exactly what the zapper holds of it beyond its
/// snapshot, and pays nobody else.
pub proof fn lemma_add_liquidity_refunds_growth<Op>(
    snap: PairBalance,
    x_after: u128,
    y_after: u128,
    dex: String,
    index: u32,
    receiver: String,
)
    requires
        x_after >= snap.token_x.amount,
        y_after >= snap.token_y.amount,
        snap.token_x.info != snap.token_y.info,
    ensures
        ({
            let msgs = seq![ZapperMsg::<Op>::TransferPosition { dex, index, receiver }]
                + refund_if_any::<Op>(snap.token_x.info, x_after - snap.token_x.amount, receiver)
                + refund_if_any::<Op>(snap.token_y.info, y_after - snap.token_y.amount, receiver);
            &&& total_paid_out(msgs, snap.token_x.info) == x_after - snap.token_x.amount
            &&& total_paid_out(msgs, snap.token_y.info) == y_after - snap.token_y.amount
            &&& forall|i: int|
                0 <= i < msgs.len() && paid_out(#[trigger] msgs[i]) is Some ==> payee(msgs[i]) == Some(
                    receiver,
                )
        }),
{
    let head = seq![ZapperMsg::<Op>::TransferPosition { dex, index, receiver }];
    let rx = refund_if_any::<Op>(snap.token_x.info, x_after - snap.token_x.amount, receiver);
    let ry = refund_if_any::<Op>(snap.token_y.info, y_after - snap.token_y.amount, receiver);
    assert(head.drop_last() =~= Seq::<ZapperMsg<Op>>::empty());
    assert(paid_out(head.last()) is None);
    assert(total_paid_out(Seq::<ZapperMsg<Op>>::empty(), snap.token_x.info) == 0);
    assert(total_paid_out(Seq::<ZapperMsg<Op>>::empty(), snap.token_y.info) == 0);
    assert(total_paid_out(head, snap.token_x.info) == 0);
    assert(total_paid_out(head, snap.token_y.info) == 0);
    let (ix, iy) = (snap.token_x.info, snap.token_y.info);
    lemma_refund_if_any_pays::<Op>(ix, x_after - snap.token_x.amount, receiver, ix);
    lemma_refund_if_any_pays::<Op>(ix, x_after - snap.token_x.amount, receiver, iy);
    lemma_refund_if_any_pays::<Op>(iy, y_after - snap.token_y.amount, receiver, ix);
    lemma_refund_if_any_pays::<Op>(iy, y_after - snap.token_y.amount, receiver, iy);
    lemma_paid_out_concat(head, rx, ix);
    lemma_paid_out_concat(head + rx, ry, ix);
    lemma_paid_out_concat(head, rx, iy);
    lemma_paid_out_concat(head + rx, ry, iy);
    let msgs = head + rx + ry;
    assert forall|i: int| 0 <= i < msgs.len() && paid_out(#[trigger] msgs[i]) is Some implies payee(
        msgs[i],
    ) == Some(receiver) by {
        if i == 0 {
        } else if i < 1 + rx.len() {
            assert(msgs[i] == rx[i - 1]);
        } else {
            assert(msgs[i] == ry[i - 1 - rx.len()]);
        }
    }
}

} // verus!
