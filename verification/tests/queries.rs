use oraiswap_v3::asset::MessageInfo;
use oraiswap_v3::contract::instantiate;
use oraiswap_v3::error::ContractError;
use oraiswap_v3::interface::PositionTick;
use oraiswap_v3::msg::InstantiateMsg;
use oraiswap_v3::query::{
    fee_tier_exist, get_all_pools_for_pair, get_fee_tiers, get_incentives_fund_manager,
    get_liquidity_ticks, get_liquidity_ticks_amount, get_pool, get_pools_with_pool_keys,
    get_position_ticks, get_protocol_fee, get_tickmap, get_user_position_amount,
    is_tick_initialized, query_admin, query_all_nft_info, query_all_positions, query_all_tokens,
    query_all_approvals, query_nft_info, query_num_tokens, query_owner_of, query_tokens,
    tickmap_slice,
    LIQUIDITY_TICK_LIMIT, POSITION_TICK_LIMIT,
};
use oraiswap_v3::state::{add_position, add_tick, flip_bitmap, position_key, State};
use oraiswap_v3::storage::{
    Approval, BlockInfo, Config, Expiration, LiquidityTick, Pool, Position, Tick,
};
use oraiswap_v3::tickmap::{get_max_chunk, get_max_tick, get_min_tick, position_to_tick};
use oraiswap_v3::types::{
    FeeGrowth, FeeTier, Liquidity, Percentage, PoolKey, SqrtPrice, TokenAmount,
};

fn tier(fee: u64, tick_spacing: u16) -> FeeTier {
    FeeTier { fee: Percentage(fee), tick_spacing }
}

fn key(x: &str, y: &str, tick_spacing: u16) -> PoolKey {
    PoolKey { token_x: x.to_string(), token_y: y.to_string(), fee_tier: tier(1, tick_spacing) }
}

fn pool(liquidity: u128) -> Pool {
    Pool {
        liquidity: Liquidity(liquidity),
        sqrt_price: SqrtPrice(1_000_000_000_000_000_000_000_000),
        current_tick_index: 0,
        fee_growth_global_x: FeeGrowth(0),
        fee_growth_global_y: FeeGrowth(0),
        fee_protocol_token_x: TokenAmount(0),
        fee_protocol_token_y: TokenAmount(0),
        start_timestamp: 0,
        last_timestamp: 0,
        fee_receiver: "receiver".to_string(),
        status: None,
        incentives: vec![],
    }
}

fn tick(index: i32, seconds_outside: u64) -> Tick {
    Tick {
        index,
        sign: index < 0,
        liquidity_change: Liquidity(10),
        liquidity_gross: Liquidity(10),
        sqrt_price: SqrtPrice(1),
        fee_growth_outside_x: FeeGrowth((index + 300_000) as u128 * 3),
        fee_growth_outside_y: FeeGrowth(7),
        seconds_outside,
        incentives: vec![],
    }
}

fn position(pool_key: &PoolKey, lower: i32, upper: i32, token_id: u64) -> Position {
    Position {
        pool_key: pool_key.clone(),
        liquidity: Liquidity(100),
        lower_tick_index: lower,
        upper_tick_index: upper,
        fee_growth_inside_x: FeeGrowth(0),
        fee_growth_inside_y: FeeGrowth(0),
        last_block_number: 0,
        tokens_owed_x: TokenAmount(0),
        tokens_owed_y: TokenAmount(0),
        approvals: vec![],
        token_id,
        incentives: vec![],
    }
}

fn position_tick(t: &Tick) -> PositionTick {
    PositionTick {
        index: t.index,
        fee_growth_outside_x: t.fee_growth_outside_x,
        fee_growth_outside_y: t.fee_growth_outside_y,
        seconds_outside: t.seconds_outside,
    }
}

fn started_store() -> State {
    let mut store = State::new();
    let info = MessageInfo { sender: "alice".to_string(), funds: vec![] };
    instantiate(
        &mut store,
        &info,
        InstantiateMsg {
            protocol_fee: Percentage(100),
            incentives_fund_manager: "fund_manager".to_string(),
        },
    )
    .unwrap();
    store
}

#[test]
fn test_config_queries() {
    let store = State::new();
    assert_eq!(query_admin(&store), Err(ContractError::NotFound));
    assert_eq!(get_fee_tiers(&store), Err(ContractError::NotFound));
    assert_eq!(fee_tier_exist(&store, tier(1, 1)), Err(ContractError::NotFound));

    let mut store = started_store();
    assert_eq!(query_admin(&store), Ok("alice".to_string()));
    assert_eq!(get_protocol_fee(&store), Ok(Percentage(100)));
    assert_eq!(get_incentives_fund_manager(&store), Ok("fund_manager".to_string()));
    assert_eq!(get_fee_tiers(&store), Ok(vec![]));
    assert_eq!(fee_tier_exist(&store, tier(1, 1)), Ok(false));

    store.save_config(Config {
        admin: "alice".to_string(),
        fee_tiers: vec![tier(1, 1), tier(2, 10)],
        protocol_fee: Percentage(100),
        incentives_fund_manager: "fund_manager".to_string(),
    });
    assert_eq!(fee_tier_exist(&store, tier(2, 10)), Ok(true));
    assert_eq!(fee_tier_exist(&store, tier(2, 1)), Ok(false));
    assert_eq!(get_fee_tiers(&store), Ok(vec![tier(1, 1), tier(2, 10)]));
}

#[test]
fn test_pool_key_orders_tokens() {
    let ft = tier(5, 1);
    let k1 = PoolKey::new("b".to_string(), "a".to_string(), ft).unwrap();
    let k2 = PoolKey::new("a".to_string(), "b".to_string(), ft).unwrap();
    assert_eq!(k1, k2);
    assert_eq!(k1.token_x, "a");
    assert_eq!(k1.token_y, "b");
    // a proper prefix comes first
    let k3 = PoolKey::new("ab".to_string(), "a".to_string(), ft).unwrap();
    assert_eq!(k3.token_x, "a");
    assert_eq!(
        PoolKey::new("a".to_string(), "a".to_string(), ft),
        Err(ContractError::TokensAreSame)
    );
}

#[test]
fn test_fee_tier_new() {
    assert_eq!(FeeTier::new(Percentage(0), 0), Err(ContractError::InvalidTickSpacing));
    assert_eq!(FeeTier::new(Percentage(0), 101), Err(ContractError::InvalidTickSpacing));
    assert_eq!(
        FeeTier::new(Percentage(1_000_000_000_001), 1),
        Err(ContractError::InvalidFee)
    );
    assert_eq!(
        FeeTier::new(Percentage(1_000_000_000_000), 100),
        Ok(FeeTier { fee: Percentage(1_000_000_000_000), tick_spacing: 100 })
    );
}

#[test]
fn test_get_pool_in_either_order() {
    let mut store = started_store();
    let ft = tier(1, 1);
    store.save_pool(&key("a", "b", 1), pool(7));
    assert_eq!(get_pool(&store, "b".to_string(), "a".to_string(), ft), Ok(pool(7)));
    assert_eq!(get_pool(&store, "a".to_string(), "b".to_string(), ft), Ok(pool(7)));
    assert_eq!(
        get_pool(&store, "a".to_string(), "c".to_string(), ft),
        Err(ContractError::NotFound)
    );
    assert_eq!(
        get_pool(&store, "a".to_string(), "a".to_string(), ft),
        Err(ContractError::TokensAreSame)
    );
}

#[test]
fn test_get_pools_with_pool_keys() {
    let mut store = started_store();
    store.save_pool(&key("a", "b", 1), pool(1));
    store.save_pool(&key("a", "c", 1), pool(3));
    let pools = get_pools_with_pool_keys(
        &store,
        vec![key("a", "c", 1), key("a", "d", 1), key("a", "b", 1)],
    )
    .unwrap();
    assert_eq!(pools.len(), 2);
    assert_eq!(pools[0].pool_key, key("a", "c", 1));
    assert_eq!(pools[0].pool, pool(3));
    assert_eq!(pools[1].pool_key, key("a", "b", 1));
    assert_eq!(pools[1].pool, pool(1));
}

#[test]
fn test_get_all_pools_for_pair() {
    let mut store = State::new();
    assert_eq!(
        get_all_pools_for_pair(&store, "a".to_string(), "b".to_string()),
        Err(ContractError::NotFound)
    );
    store.save_config(Config {
        admin: "alice".to_string(),
        fee_tiers: vec![tier(1, 1), tier(1, 2), tier(1, 3)],
        protocol_fee: Percentage(0),
        incentives_fund_manager: "fund_manager".to_string(),
    });
    store.save_pool(&key("a", "b", 3), pool(3));
    store.save_pool(&key("a", "b", 1), pool(1));
    store.save_pool(&key("a", "c", 2), pool(2));
    let pools = get_all_pools_for_pair(&store, "b".to_string(), "a".to_string()).unwrap();
    assert_eq!(pools.len(), 2);
    assert_eq!(pools[0].pool_key, key("a", "b", 1));
    assert_eq!(pools[0].pool, pool(1));
    assert_eq!(pools[1].pool_key, key("a", "b", 3));
    assert_eq!(pools[1].pool, pool(3));
    assert_eq!(
        get_all_pools_for_pair(&store, "b".to_string(), "b".to_string()),
        Err(ContractError::TokensAreSame)
    );
}

#[test]
fn test_position_ticks_skip_missing_ticks() {
    let mut store = State::new();
    let alice = "alice".to_string();
    let pk = key("a", "b", 1);
    let (t1, t2, t3) = (tick(-10, 1), tick(10, 2), tick(20, 3));
    add_tick(&mut store, &pk, -10, &t1).unwrap();
    add_tick(&mut store, &pk, 10, &t2).unwrap();
    add_tick(&mut store, &pk, 20, &t3).unwrap();
    add_position(&mut store, &alice, &position(&pk, -10, 10, 1)).unwrap();
    // the upper tick of this one is not stored
    add_position(&mut store, &alice, &position(&pk, 20, 30, 2)).unwrap();

    let ticks = get_position_ticks(&store, &alice, 0).unwrap();
    assert_eq!(ticks, vec![position_tick(&t1), position_tick(&t2), position_tick(&t3)]);
    let ticks = get_position_ticks(&store, &alice, 1).unwrap();
    assert_eq!(ticks, vec![position_tick(&t3)]);
    assert_eq!(get_position_ticks(&store, &alice, 2), Ok(vec![]));
    assert_eq!(get_position_ticks(&store, &alice, 3), Err(ContractError::InvalidOffset));
    assert_eq!(get_user_position_amount(&store, &alice), Ok(2));
}

#[test]
fn test_get_position_ticks_stops_at_limit() {
    let mut store = State::new();
    let alice = "alice".to_string();
    let pk = key("a", "b", 1);
    let n = POSITION_TICK_LIMIT as i32 / 2;
    for i in 1..=n + 3 {
        add_tick(&mut store, &pk, -i, &tick(-i, 0)).unwrap();
        add_tick(&mut store, &pk, i, &tick(i, 0)).unwrap();
        add_position(&mut store, &alice, &position(&pk, -i, i, i as u64)).unwrap();
    }
    let ticks = get_position_ticks(&store, &alice, 0).unwrap();
    assert_eq!(ticks.len(), POSITION_TICK_LIMIT);
    assert_eq!(ticks[0].index, -1);
    assert_eq!(ticks[1].index, 1);
    assert_eq!(ticks[POSITION_TICK_LIMIT - 1].index, n);
}

#[test]
fn test_liquidity_ticks_in_order_and_errors() {
    let mut store = State::new();
    let pk = key("a", "b", 1);
    add_tick(&mut store, &pk, -5, &tick(-5, 0)).unwrap();
    add_tick(&mut store, &pk, 5, &tick(5, 0)).unwrap();
    let ticks = get_liquidity_ticks(&store, &pk, vec![5, -5]).unwrap();
    assert_eq!(
        ticks,
        vec![
            LiquidityTick { index: 5, liquidity_change: Liquidity(10), sign: false },
            LiquidityTick { index: -5, liquidity_change: Liquidity(10), sign: true },
        ]
    );
    assert_eq!(get_liquidity_ticks(&store, &pk, vec![5, 6]), Err(ContractError::NotFound));
    assert_eq!(
        get_liquidity_ticks(&store, &pk, vec![5; LIQUIDITY_TICK_LIMIT + 1]),
        Err(ContractError::TickLimitReached)
    );
    assert_eq!(get_liquidity_ticks(&store, &pk, vec![5; LIQUIDITY_TICK_LIMIT]).unwrap().len(), LIQUIDITY_TICK_LIMIT);
}

#[test]
fn test_get_liquidity_ticks_amount() {
    let mut store = State::new();
    let pk = key("a", "b", 1);
    for t in [-200, -3, 0, 64, 70, 500] {
        flip_bitmap(&mut store, true, t, 1, &pk).unwrap();
    }
    assert_eq!(get_liquidity_ticks_amount(&store, &pk, -3, 64), Ok(3));
    assert_eq!(get_liquidity_ticks_amount(&store, &pk, -200, 500), Ok(6));
    assert_eq!(get_liquidity_ticks_amount(&store, &pk, 1, 63), Ok(0));
    let spaced = key("a", "b", 10);
    assert_eq!(get_liquidity_ticks_amount(&store, &spaced, 5, 10), Err(ContractError::InvalidTickIndex));
    assert_eq!(
        get_liquidity_ticks_amount(&store, &spaced, -221820, 10),
        Err(ContractError::InvalidTickIndex)
    );
    let zero = key("a", "b", 0);
    assert_eq!(get_liquidity_ticks_amount(&store, &zero, 0, 0), Err(ContractError::InvalidTickSpacing));
    assert!(is_tick_initialized(&store, &pk, 70).unwrap());
    assert!(!is_tick_initialized(&store, &pk, 71).unwrap());
}

#[test]
fn test_get_tickmap_both_directions() {
    let mut store = State::new();
    let pk = key("a", "b", 1);
    let max_chunk = get_max_chunk(1);
    flip_bitmap(&mut store, true, get_min_tick(1), 1, &pk).unwrap();
    flip_bitmap(&mut store, true, get_min_tick(1) + 1, 1, &pk).unwrap();
    flip_bitmap(&mut store, true, get_max_tick(1), 1, &pk).unwrap();
    // a chunk flipped back to zero is not listed
    flip_bitmap(&mut store, true, 0, 1, &pk).unwrap();
    flip_bitmap(&mut store, false, 0, 1, &pk).unwrap();

    let up = get_tickmap(&store, &pk, get_min_tick(1), get_max_tick(1), false).unwrap();
    assert_eq!(up, vec![(0, 0b11), (max_chunk, 1u64 << (2 * 221818 % 64))]);
    let down = get_tickmap(&store, &pk, get_min_tick(1), get_max_tick(1), true).unwrap();
    assert_eq!(down, vec![(max_chunk, 1u64 << (2 * 221818 % 64)), (0, 0b11)]);
    let part = get_tickmap(&store, &pk, 0, get_max_tick(1), false).unwrap();
    assert_eq!(part, vec![(max_chunk, 1u64 << (2 * 221818 % 64))]);
}

#[test]
fn test_tickmap_slice_sizes() {
    let mut store = State::new();
    let pk = key("a", "b", 1);
    for chunk in 0..3 {
        flip_bitmap(&mut store, true, position_to_tick(chunk, 5, 1), 1, &pk).unwrap();
    }
    assert_eq!(tickmap_slice(&store, 0, 2, &pk, 2), vec![(0, 32), (1, 32)]);
    // a zero size never stops the listing
    assert_eq!(tickmap_slice(&store, 0, 2, &pk, 0), vec![(0, 32), (1, 32), (2, 32)]);
    assert_eq!(tickmap_slice(&store, 2, 1, &pk, 5), vec![]);
}

#[test]
fn test_nft_queries() {
    let mut store = State::new();
    let alice = "alice".to_string();
    let pk = key("a", "b", 1);
    let mut p0 = position(&pk, -10, 10, 7);
    p0.approvals = vec![
        Approval { spender: "h".to_string(), expires: Expiration::AtHeight(10) },
        Approval { spender: "t".to_string(), expires: Expiration::AtTime(100) },
        Approval { spender: "n".to_string(), expires: Expiration::Never },
    ];
    add_position(&mut store, &alice, &p0).unwrap();
    add_position(&mut store, &alice, &position(&pk, -20, 20, 9)).unwrap();

    assert_eq!(query_nft_info(&store, 7).unwrap().extension, p0);
    assert_eq!(query_nft_info(&store, 8), Err(ContractError::NotFound));

    let block = BlockInfo { height: 10, time: 50 };
    let owner = query_owner_of(&store, &block, 7, false).unwrap();
    assert_eq!(owner.owner, "alice");
    assert_eq!(owner.approvals, p0.approvals[1..].to_vec());
    let owner = query_owner_of(&store, &block, 7, true).unwrap();
    assert_eq!(owner.approvals, p0.approvals);
    assert_eq!(query_owner_of(&store, &block, 8, true), Err(ContractError::NotFound));

    let all = query_all_nft_info(&store, &block, 7, false).unwrap();
    assert_eq!(all.access.owner, "alice");
    assert_eq!(all.access.approvals, p0.approvals[1..].to_vec());
    assert_eq!(all.info.extension.approvals, p0.approvals[1..].to_vec());
    assert_eq!(all.info.extension.token_id, 7);

    assert_eq!(query_tokens(&store, &alice, None, None).unwrap().tokens, vec![7, 9]);
    assert_eq!(query_tokens(&store, &alice, Some(1), None).unwrap().tokens, vec![9]);
    assert_eq!(query_tokens(&store, &alice, None, Some(1)).unwrap().tokens, vec![7]);
    assert_eq!(query_num_tokens(&store).unwrap().count, 2);
}

#[test]
fn test_query_all_tokens_in_order() {
    let mut store = State::new();
    let pk = key("a", "b", 1);
    for (owner, id) in [("bob", 300u64), ("alice", 5), ("bob", 2)] {
        add_position(&mut store, &owner.to_string(), &position(&pk, -1, 1, id)).unwrap();
    }
    assert_eq!(query_all_tokens(&store, None, None).unwrap().tokens, vec![2, 5, 300]);
    assert_eq!(query_all_tokens(&store, Some(2), None).unwrap().tokens, vec![5, 300]);
    assert_eq!(query_all_tokens(&store, None, Some(1)).unwrap().tokens, vec![2]);
    assert_eq!(query_all_tokens(&store, Some(300), None).unwrap().tokens, Vec::<u64>::new());
}

#[test]
fn test_query_all_positions_in_key_order() {
    let mut store = State::new();
    let pk = key("a", "b", 1);
    let bob = "bob".to_string();
    let alice = "alice".to_string();
    add_position(&mut store, &bob, &position(&pk, -1, 1, 1)).unwrap();
    add_position(&mut store, &alice, &position(&pk, -2, 2, 2)).unwrap();
    add_position(&mut store, &alice, &position(&pk, -3, 3, 3)).unwrap();
    let ids = |ps: Vec<Position>| ps.iter().map(|p| p.token_id).collect::<Vec<u64>>();
    assert_eq!(ids(query_all_positions(&store, None, None).unwrap()), vec![2, 3, 1]);
    assert_eq!(ids(query_all_positions(&store, Some(2), None).unwrap()), vec![2, 3]);
    let after = position_key(&alice, 1);
    assert_eq!(ids(query_all_positions(&store, None, Some(after)).unwrap()), vec![1]);
}

#[test]
fn test_query_all_approvals() {
    let mut store = State::new();
    let alice = "alice".to_string();
    let block = BlockInfo { height: 10, time: 50 };
    store.save_operator(&alice, &"carol".to_string(), Expiration::Never);
    store.save_operator(&alice, &"bob".to_string(), Expiration::AtHeight(5));
    store.save_operator(&alice, &"dave".to_string(), Expiration::AtTime(60));
    store.save_operator(&"zed".to_string(), &"erin".to_string(), Expiration::Never);

    let spenders = |r: Vec<Approval>| r.iter().map(|a| a.spender.clone()).collect::<Vec<String>>();
    // bob's approval has expired
    let r = query_all_approvals(&store, &block, &alice, false, None, None).unwrap();
    assert_eq!(spenders(r.operators.clone()), vec!["carol".to_string(), "dave".to_string()]);
    assert_eq!(r.operators[1].expires, Expiration::AtTime(60));
    let r = query_all_approvals(&store, &block, &alice, true, None, None).unwrap();
    assert_eq!(
        spenders(r.operators),
        vec!["bob".to_string(), "carol".to_string(), "dave".to_string()]
    );
    let r = query_all_approvals(&store, &block, &alice, true, Some("bob".to_string()), Some(1))
        .unwrap();
    assert_eq!(spenders(r.operators), vec!["carol".to_string()]);
    // the limit counts only the approvals kept
    let r = query_all_approvals(&store, &block, &alice, false, None, Some(1)).unwrap();
    assert_eq!(spenders(r.operators), vec!["carol".to_string()]);
    let r = query_all_approvals(&store, &block, &"nobody".to_string(), true, None, None).unwrap();
    assert!(r.operators.is_empty());
}

#[test]
fn test_tickmap_is_ordered_and_capped() {
    let mut store = State::new();
    let pk = key("a", "b", 1);
    for chunk in [7u16, 2, 5] {
        flip_bitmap(&mut store, true, position_to_tick(chunk, 0, 1), 1, &pk).unwrap();
    }
    let up = get_tickmap(&store, &pk, get_min_tick(1), get_max_tick(1), false).unwrap();
    assert_eq!(up.iter().map(|c| c.0).collect::<Vec<u16>>(), vec![2, 5, 7]);
    let down = get_tickmap(&store, &pk, get_min_tick(1), get_max_tick(1), true).unwrap();
    assert_eq!(down.iter().map(|c| c.0).collect::<Vec<u16>>(), vec![7, 5, 2]);
}

#[test]
fn test_pool_key_law_on_values() {
    let ft = tier(9, 4);
    for (a, b) in [("orai", "usdt"), ("z", "zz"), ("B", "a")] {
        assert_eq!(
            PoolKey::new(a.to_string(), b.to_string(), ft),
            PoolKey::new(b.to_string(), a.to_string(), ft)
        );
    }
}

#[test]
fn test_pool_keys_keep_tokens_apart() {
    let ft = tier(1, 1);
    let a = PoolKey { token_x: "ab".to_string(), token_y: "c".to_string(), fee_tier: ft };
    let b = PoolKey { token_x: "a".to_string(), token_y: "bc".to_string(), fee_tier: ft };
    assert_ne!(a.key(), b.key());
    let mut store = State::new();
    store.save_pool(&a, pool(1));
    assert_eq!(get_pool(&store, "a".to_string(), "bc".to_string(), ft), Err(ContractError::NotFound));
}

#[test]
fn test_get_liquidity_ticks_amount_whole_chunks() {
    let mut store = State::new();
    let pk = key("a", "b", 1);
    // -58 is the first tick of its chunk and 69 the last of the next one
    for t in [-58, 0, 69, 70] {
        flip_bitmap(&mut store, true, t, 1, &pk).unwrap();
    }
    assert_eq!(get_liquidity_ticks_amount(&store, &pk, -58, 69), Ok(3));
    assert_eq!(get_liquidity_ticks_amount(&store, &pk, -58, 5), Ok(2));
    assert_eq!(get_liquidity_ticks_amount(&store, &pk, 6, 69), Ok(1));
}

#[test]
fn test_pool_key_from_bytes() {
    let k = key("orai", "usdt", 7);
    assert_eq!(PoolKey::from_bytes(&k.key()), Ok(k.clone()));
    let mut short = k.key();
    short.truncate(13);
    assert_eq!(PoolKey::from_bytes(&short), Err(ContractError::InvalidPoolKey));
    // a name that is not UTF-8
    let mut bad = vec![0, 0, 0, 1, 0xff];
    bad.extend_from_slice(&[0u8; 10]);
    assert_eq!(PoolKey::from_bytes(&bad), Err(ContractError::InvalidPoolKey));
    // a length running past the end
    let mut long = vec![0, 0, 0, 9, b'a'];
    long.extend_from_slice(&[0u8; 10]);
    assert_eq!(PoolKey::from_bytes(&long), Err(ContractError::InvalidPoolKey));
}
