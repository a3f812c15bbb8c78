use oraiswap_v3::interface::PositionTick;
use oraiswap_v3::query::{
    get_liquidity_ticks, get_liquidity_ticks_amount, get_position_ticks, get_tickmap,
    query_all_positions, LIQUIDITY_TICK_LIMIT, POSITION_TICK_LIMIT,
};
use oraiswap_v3::sqrt_price::calculate_sqrt_price;
use oraiswap_v3::state::{
    add_position, add_tick, flip_bitmap, get_pools, get_tick, next_token_id, State,
};
use oraiswap_v3::storage::{Config, LiquidityTick, Pool, Position, Tick};
use oraiswap_v3::tickmap::{get_max_chunk, get_max_tick, get_min_tick, position_to_tick, CHUNK_SIZE};
use oraiswap_v3::types::{
    FeeGrowth, FeeTier, Liquidity, Percentage, PoolKey, SqrtPrice, TokenAmount,
};

const TOKEN_X: &str = "token_x";
const TOKEN_Y: &str = "token_y";

fn dex() -> State {
    let mut store = State::new();
    store.save_config(Config {
        admin: "alice".to_string(),
        fee_tiers: vec![],
        protocol_fee: Percentage(0),
        incentives_fund_manager: "fund_manager".to_string(),
    });
    store
}

fn create_pool(store: &mut State, fee_tier: FeeTier, init_tick: i32) -> PoolKey {
    let pool_key = PoolKey::new(TOKEN_X.to_string(), TOKEN_Y.to_string(), fee_tier).unwrap();
    store.save_pool(
        &pool_key,
        Pool {
            liquidity: Liquidity(0),
            sqrt_price: calculate_sqrt_price(init_tick).unwrap(),
            current_tick_index: init_tick,
            fee_growth_global_x: FeeGrowth(0),
            fee_growth_global_y: FeeGrowth(0),
            fee_protocol_token_x: TokenAmount(0),
            fee_protocol_token_y: TokenAmount(0),
            start_timestamp: 0,
            last_timestamp: 0,
            fee_receiver: "alice".to_string(),
            status: None,
            incentives: vec![],
        },
    );
    pool_key
}

fn init_tick(store: &mut State, pool_key: &PoolKey, index: i32, liquidity: Liquidity, lower: bool) {
    if get_tick(store, pool_key, index).is_err() {
        let tick = Tick {
            index,
            sign: lower,
            liquidity_change: liquidity,
            liquidity_gross: liquidity,
            sqrt_price: calculate_sqrt_price(index).unwrap(),
            fee_growth_outside_x: FeeGrowth(0),
            fee_growth_outside_y: FeeGrowth(0),
            seconds_outside: 0,
            incentives: vec![],
        };
        add_tick(store, pool_key, index, &tick).unwrap();
        flip_bitmap(store, true, index, pool_key.fee_tier.tick_spacing, pool_key).unwrap();
    }
}

/// What creating a position leaves in storage: both ticks initialized and
/// the position stored under its owner with a fresh token id.
fn create_position(
    store: &mut State,
    pool_key: &PoolKey,
    lower: i32,
    upper: i32,
    liquidity: Liquidity,
    owner: &str,
) {
    init_tick(store, pool_key, lower, liquidity, true);
    init_tick(store, pool_key, upper, liquidity, false);
    let token_id = next_token_id(store).unwrap();
    let position = Position {
        pool_key: pool_key.clone(),
        liquidity,
        lower_tick_index: lower,
        upper_tick_index: upper,
        fee_growth_inside_x: FeeGrowth(0),
        fee_growth_inside_y: FeeGrowth(0),
        last_block_number: 0,
        tokens_owed_x: TokenAmount(0),
        tokens_owed_y: TokenAmount(0),
        approvals: vec![],
        token_id,
        incentives: vec![],
    };
    add_position(store, &owner.to_string(), &position).unwrap();
}

fn position_tick_equals(a: &PositionTick, b: &Tick) {
    assert_eq!(a.index, b.index);
    assert_eq!(a.fee_growth_outside_x, b.fee_growth_outside_x);
    assert_eq!(a.fee_growth_outside_y, b.fee_growth_outside_y);
    assert_eq!(a.seconds_outside, b.seconds_outside);
}

fn liquidity_tick_equals(a: &Tick, b: &LiquidityTick) {
    assert_eq!(a.index, b.index);
    assert_eq!(a.liquidity_change, b.liquidity_change);
    assert_eq!(a.sign, b.sign);
}

fn ticks_of(pool_key: &PoolKey, tickmap: &[(u16, u64)]) -> Vec<i32> {
    let mut ticks = vec![];
    tickmap.iter().for_each(|(chunk_index, chunk)| {
        for i in 0..(CHUNK_SIZE as u8) {
            if chunk & (1 << i) != 0 {
                ticks.push(position_to_tick(*chunk_index, i, pool_key.fee_tier.tick_spacing));
            }
        }
    });
    ticks
}

#[test]
fn test_get_tickmap() {
    let mut store = dex();
    let fee_tier = FeeTier::new(Percentage(500_000_000_000), 1).unwrap();
    let pool_key = create_pool(&mut store, fee_tier, 0);
    create_position(&mut store, &pool_key, -58, 5, Liquidity(1000), "alice");

    let tickmap = get_tickmap(
        &store,
        &pool_key,
        get_min_tick(fee_tier.tick_spacing),
        get_max_tick(fee_tier.tick_spacing),
        false,
    )
    .unwrap();
    assert_eq!(
        tickmap[0],
        (3465, 0b1000000000000000000000000000000000000000000000000000000000000001)
    );
    assert_eq!(tickmap.len(), 1);
}

#[test]
fn test_get_tickmap_tick_spacing_over_one() {
    let mut store = dex();
    let fee_tier = FeeTier::new(Percentage(500_000_000_000), 10).unwrap();
    let pool_key = create_pool(&mut store, fee_tier, 0);
    create_position(&mut store, &pool_key, 10, 20, Liquidity(1000), "alice");
    create_position(
        &mut store,
        &pool_key,
        get_min_tick(fee_tier.tick_spacing),
        get_max_tick(fee_tier.tick_spacing),
        Liquidity(1000),
        "alice",
    );

    let tickmap = get_tickmap(
        &store,
        &pool_key,
        get_min_tick(fee_tier.tick_spacing),
        get_max_tick(fee_tier.tick_spacing),
        false,
    )
    .unwrap();
    assert_eq!(tickmap[0], (0, 0b1));
    assert_eq!(tickmap[1], (346, 0b1100000000000000000000000000000000000000));
    assert_eq!(tickmap[2], (get_max_chunk(fee_tier.tick_spacing), 0b10000000000));
    assert_eq!(tickmap.len(), 3);
}

#[test]
fn test_get_tickmap_edge_ticks_intialized() {
    let mut store = dex();
    let fee_tier = FeeTier::new(Percentage(500_000_000_000), 1).unwrap();
    let pool_key = create_pool(&mut store, fee_tier, 0);
    create_position(&mut store, &pool_key, -221818, -221817, Liquidity(1000), "alice");
    create_position(&mut store, &pool_key, 221817, 221818, Liquidity(1000), "alice");

    let tickmap = get_tickmap(
        &store,
        &pool_key,
        get_min_tick(fee_tier.tick_spacing),
        get_max_tick(fee_tier.tick_spacing),
        false,
    )
    .unwrap();
    assert_eq!(tickmap[0], (0, 0b11));
    assert_eq!(
        tickmap[1],
        (
            get_max_chunk(fee_tier.tick_spacing),
            0b11000000000000000000000000000000000000000000000000000
        )
    );
    assert_eq!(tickmap.len(), 2);

    let tickmap = get_tickmap(
        &store,
        &pool_key,
        get_min_tick(fee_tier.tick_spacing),
        get_max_tick(fee_tier.tick_spacing),
        true,
    )
    .unwrap();
    assert_eq!(tickmap[1], (0, 0b11));
    assert_eq!(
        tickmap[0],
        (
            get_max_chunk(fee_tier.tick_spacing),
            0b11000000000000000000000000000000000000000000000000000
        )
    );
    assert_eq!(tickmap.len(), 2);
}

#[test]
fn test_get_tickmap_more_chunks_above() {
    let mut store = dex();
    let fee_tier = FeeTier::new(Percentage(500_000_000_000), 1).unwrap();
    let pool_key = create_pool(&mut store, fee_tier, 0);
    for i in (6..52500).step_by(64) {
        create_position(&mut store, &pool_key, i, i + 1, Liquidity(1000), "alice");
    }

    let tickmap = get_tickmap(
        &store,
        &pool_key,
        get_min_tick(fee_tier.tick_spacing),
        get_max_tick(fee_tier.tick_spacing),
        false,
    )
    .unwrap();
    for (i, _) in (0..tickmap.len()).enumerate() {
        let current = 3466 + i as u16;
        assert_eq!(tickmap[i], (current, 0b11));
    }
}

#[test]
fn test_get_tickmap_more_chunks_below() {
    let mut store = dex();
    let fee_tier = FeeTier::new(Percentage(500_000_000_000), 1).unwrap();
    let pool_key = create_pool(&mut store, fee_tier, 0);
    for i in (-52544..6).step_by(64) {
        create_position(&mut store, &pool_key, i, i + 1, Liquidity(1000), "alice");
    }

    let tickmap = get_tickmap(
        &store,
        &pool_key,
        get_min_tick(fee_tier.tick_spacing),
        get_max_tick(fee_tier.tick_spacing),
        false,
    )
    .unwrap();
    for (i, _) in (0..tickmap.len()).enumerate() {
        let current = 2644 + i as u16;
        assert_eq!(
            tickmap[i],
            (current, 0b110000000000000000000000000000000000000000000000000000000000)
        );
    }
}

#[test]
fn test_get_tickmap_max_chunks_returned() {
    let mut store = dex();
    let fee_tier = FeeTier::new(Percentage(500_000_000_000), 1).unwrap();
    let pool_key = create_pool(&mut store, fee_tier, -200_000);
    for i in (0..104832).step_by(64) {
        create_position(&mut store, &pool_key, i, i + 1, Liquidity(1000), "alice");
    }

    let tickmap = get_tickmap(
        &store,
        &pool_key,
        get_min_tick(fee_tier.tick_spacing),
        get_max_tick(fee_tier.tick_spacing),
        false,
    )
    .unwrap();
    assert_eq!(tickmap.len(), 1638);
}

#[test]
fn test_get_liquidity_ticks() {
    let mut store = dex();
    let fee_tier = FeeTier::new(Percentage(10_000_000_000), 1).unwrap();
    let pool_key = create_pool(&mut store, fee_tier, 0);
    create_position(&mut store, &pool_key, -10, 10, Liquidity(10), "alice");

    let ticks_amount = get_liquidity_ticks_amount(&store, &pool_key, -10, 10).unwrap();
    assert_eq!(ticks_amount, 2);

    let tickmap = get_tickmap(&store, &pool_key, -10, 10, false).unwrap();
    assert_eq!(tickmap.len(), 2);
    let ticks = ticks_of(&pool_key, &tickmap);
    assert_eq!(ticks, vec![-10i32, 10]);

    let result = get_liquidity_ticks(&store, &pool_key, ticks.clone()).unwrap();
    assert_eq!(result.len(), 2);
    let lower_tick = get_tick(&store, &pool_key, -10).unwrap();
    let upper_tick = get_tick(&store, &pool_key, 10).unwrap();
    liquidity_tick_equals(&lower_tick, &result[0]);
    liquidity_tick_equals(&upper_tick, &result[1]);
}

#[test]
fn test_get_liquidity_ticks_different_tick_spacings() {
    let mut store = dex();
    let fee_tier_1 = FeeTier::new(Percentage(10_000_000_000), 2).unwrap();
    let fee_tier_2 = FeeTier::new(Percentage(10_000_000_000), 10).unwrap();
    let pool_key_1 = create_pool(&mut store, fee_tier_1, 0);
    let pool_key_2 = create_pool(&mut store, fee_tier_2, 0);
    create_position(&mut store, &pool_key_1, -10, 30, Liquidity(10), "alice");
    create_position(&mut store, &pool_key_2, -20, 40, Liquidity(10), "alice");

    let result = get_liquidity_ticks_amount(&store, &pool_key_1, -10, 30).unwrap();
    assert_eq!(result, 2);
    let result = get_liquidity_ticks(&store, &pool_key_1, vec![-10, 30]).unwrap();
    assert_eq!(result.len(), 2);
    let result = get_liquidity_ticks_amount(&store, &pool_key_2, -20, 40).unwrap();
    assert_eq!(result, 2);
    let result = get_liquidity_ticks(&store, &pool_key_2, vec![-20, 40]).unwrap();
    assert_eq!(result.len(), 2);
}

#[test]
fn test_get_liquidity_ticks_limit() {
    let mut store = dex();
    let fee_tier = FeeTier::new(Percentage(10_000_000_000), 1).unwrap();
    let pool_key = create_pool(&mut store, fee_tier, 0);
    let mut ticks = vec![];
    for i in 1..=LIQUIDITY_TICK_LIMIT / 2 {
        ticks.push(i as i32);
        ticks.push(-(i as i32));
        create_position(&mut store, &pool_key, -(i as i32), i as i32, Liquidity(10), "alice");
    }

    let result = get_liquidity_ticks_amount(
        &store,
        &pool_key,
        -(LIQUIDITY_TICK_LIMIT as i32),
        LIQUIDITY_TICK_LIMIT as i32,
    )
    .unwrap();
    assert_eq!(result, LIQUIDITY_TICK_LIMIT as u32);
    let result = get_liquidity_ticks(&store, &pool_key, ticks.clone()).unwrap();
    assert_eq!(result.len(), LIQUIDITY_TICK_LIMIT);
}

#[test]
fn test_get_liquidity_ticks_limit_with_spread() {
    let mut store = dex();
    let fee_tier = FeeTier::new(Percentage(10_000_000_000), 1).unwrap();
    let pool_key = create_pool(&mut store, fee_tier, 0);
    let spread = CHUNK_SIZE as usize;
    let mut ticks = vec![];
    for i in 1..=LIQUIDITY_TICK_LIMIT / 2 {
        let index = (i * spread) as i32;
        ticks.push(index);
        ticks.push(-index);
        create_position(&mut store, &pool_key, -index, index, Liquidity(10), "alice");
    }

    let result = get_liquidity_ticks_amount(
        &store,
        &pool_key,
        -((LIQUIDITY_TICK_LIMIT * spread) as i32) / 2,
        (LIQUIDITY_TICK_LIMIT * spread) as i32 / 2,
    )
    .unwrap();
    assert_eq!(result, LIQUIDITY_TICK_LIMIT as u32);
    let result = get_liquidity_ticks(&store, &pool_key, ticks.clone()).unwrap();
    assert_eq!(result.len(), LIQUIDITY_TICK_LIMIT);
}

#[test]
fn test_get_liquidity_ticks_with_offset() {
    let mut store = dex();
    let fee_tier = FeeTier::new(Percentage(10_000_000_000), 1).unwrap();
    let pool_key = create_pool(&mut store, fee_tier, 0);
    create_position(&mut store, &pool_key, -10, 10, Liquidity(10), "alice");

    let result = get_liquidity_ticks_amount(&store, &pool_key, -10, 10).unwrap();
    assert_eq!(result, 2);
    let result_1 = get_liquidity_ticks(&store, &pool_key, vec![-10i32, 10]).unwrap();
    assert_eq!(result_1.len(), 2);
    let result_2 = get_liquidity_ticks(&store, &pool_key, vec![10]).unwrap();
    assert_eq!(result_2.len(), 1);
    assert_eq!(result_1[1], result_2[0]);
}

#[test]
fn test_get_position_ticks() {
    let mut store = dex();
    let fee_tier = FeeTier::new(Percentage(10_000_000_000), 1).unwrap();
    let pool_key = create_pool(&mut store, fee_tier, 0);
    create_position(&mut store, &pool_key, -10, 10, Liquidity(10), "alice");

    let result = get_position_ticks(&store, &"alice".to_string(), 0).unwrap();
    assert_eq!(result.len(), 2);
    let lower_tick = get_tick(&store, &pool_key, -10).unwrap();
    let upper_tick = get_tick(&store, &pool_key, 10).unwrap();
    position_tick_equals(&result[0], &lower_tick);
    position_tick_equals(&result[1], &upper_tick);
}

#[test]
fn test_get_position_ticks_limit() {
    let mut store = dex();
    let fee_tier = FeeTier::new(Percentage(10_000_000_000), 1).unwrap();
    let pool_key = create_pool(&mut store, fee_tier, 0);
    for i in 1..=POSITION_TICK_LIMIT / 2 {
        create_position(&mut store, &pool_key, -(i as i32), i as i32, Liquidity(10), "alice");
    }

    let result = get_position_ticks(&store, &"alice".to_string(), 0).unwrap();
    assert_eq!(result.len(), POSITION_TICK_LIMIT);
    for i in 1..=POSITION_TICK_LIMIT / 2 {
        let lower_tick = get_tick(&store, &pool_key, -(i as i32)).unwrap();
        let upper_tick = get_tick(&store, &pool_key, i as i32).unwrap();
        position_tick_equals(&result[i * 2 - 2], &lower_tick);
        position_tick_equals(&result[i * 2 - 1], &upper_tick);
    }
}

#[test]
fn test_get_position_ticks_with_offset() {
    let mut store = dex();
    let fee_tier_1 = FeeTier::new(Percentage(10_000_000_000), 2).unwrap();
    let fee_tier_2 = FeeTier::new(Percentage(10_000_000_000), 10).unwrap();
    let pool_key_1 = create_pool(&mut store, fee_tier_1, 0);
    let pool_key_2 = create_pool(&mut store, fee_tier_2, 0);
    create_position(&mut store, &pool_key_1, -10, 30, Liquidity(10), "alice");
    create_position(&mut store, &pool_key_2, -20, 40, Liquidity(10), "alice");

    let result_1 = get_position_ticks(&store, &"alice".to_string(), 0).unwrap();
    assert_eq!(result_1.len(), 4);
    let result_2 = get_position_ticks(&store, &"alice".to_string(), 1).unwrap();
    assert_eq!(result_2.len(), 2);
    assert_eq!(result_1[2], result_2[0]);
    assert_eq!(result_1[3], result_2[1]);
}

#[test]
fn test_query_all_positions() {
    let mut store = dex();
    let fee_tier = FeeTier::new(Percentage(10_000_000_000), 1).unwrap();
    let pool_key = create_pool(&mut store, fee_tier, 0);
    create_position(&mut store, &pool_key, -10, 10, Liquidity(10), "alice");
    create_position(&mut store, &pool_key, -100, 100, Liquidity(10), "alice");

    let positions = query_all_positions(&store, None, None).unwrap();
    assert_eq!(positions.len(), 2);
    assert_eq!(
        positions,
        [
            Position {
                pool_key: PoolKey {
                    token_x: TOKEN_X.to_string(),
                    token_y: TOKEN_Y.to_string(),
                    fee_tier: FeeTier { fee: Percentage(10000000000), tick_spacing: 1 }
                },
                liquidity: Liquidity(10),
                lower_tick_index: -10,
                upper_tick_index: 10,
                fee_growth_inside_x: FeeGrowth(0),
                fee_growth_inside_y: FeeGrowth(0),
                last_block_number: positions[0].last_block_number,
                tokens_owed_x: TokenAmount(0),
                tokens_owed_y: TokenAmount(0),
                approvals: vec![],
                token_id: 1,
                incentives: vec![]
            },
            Position {
                pool_key: PoolKey {
                    token_x: TOKEN_X.to_string(),
                    token_y: TOKEN_Y.to_string(),
                    fee_tier: FeeTier { fee: Percentage(10000000000), tick_spacing: 1 }
                },
                liquidity: Liquidity(10),
                lower_tick_index: -100,
                upper_tick_index: 100,
                fee_growth_inside_x: FeeGrowth(0),
                fee_growth_inside_y: FeeGrowth(0),
                last_block_number: positions[1].last_block_number,
                tokens_owed_x: TokenAmount(0),
                tokens_owed_y: TokenAmount(0),
                token_id: 2,
                approvals: vec![],
                incentives: vec![]
            }
        ]
    )
}

#[test]
fn test_get_pools_in_key_order() {
    let mut store = dex();
    let k1 = create_pool(&mut store, FeeTier::new(Percentage(10_000_000_000), 1).unwrap(), 0);
    let k2 = create_pool(&mut store, FeeTier::new(Percentage(10_000_000_000), 2).unwrap(), 0);
    let k3 = create_pool(&mut store, FeeTier::new(Percentage(20_000_000_000), 1).unwrap(), 0);

    let pools = get_pools(&store, None, None).unwrap();
    let keys: Vec<PoolKey> = pools.iter().map(|p| p.pool_key.clone()).collect();
    // the fee comes before the spacing in the key's bytes
    assert_eq!(keys, vec![k1.clone(), k2.clone(), k3.clone()]);
    assert_eq!(pools[0].pool.current_tick_index, 0);

    let pools = get_pools(&store, Some(1), Some(k1.clone())).unwrap();
    assert_eq!(pools.len(), 1);
    assert_eq!(pools[0].pool_key, k2);
    let pools = get_pools(&store, None, Some(k3)).unwrap();
    assert!(pools.is_empty());
}
