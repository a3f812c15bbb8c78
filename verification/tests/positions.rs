use oraiswap_v3::error::ContractError;
use oraiswap_v3::state::{
    add_position, add_tick, decrement_tokens, get_all_position_keys, get_all_positions,
    get_position, get_position_by_key, get_position_length, get_tick, increment_tokens,
    last_token_id, next_token_id, num_tokens, position_key, remove_position, remove_tick,
    update_position, update_tick, State,
};
use oraiswap_v3::storage::{Position, Tick};
use oraiswap_v3::types::{FeeGrowth, FeeTier, Liquidity, Percentage, PoolKey, SqrtPrice, TokenAmount};

fn pool_key() -> PoolKey {
    PoolKey {
        token_x: "x".to_string(),
        token_y: "y".to_string(),
        fee_tier: FeeTier { fee: Percentage(1), tick_spacing: 1 },
    }
}

fn position(token_id: u64) -> Position {
    Position {
        pool_key: pool_key(),
        liquidity: Liquidity(token_id as u128 * 10),
        lower_tick_index: -1,
        upper_tick_index: 1,
        fee_growth_inside_x: FeeGrowth(0),
        fee_growth_inside_y: FeeGrowth(0),
        last_block_number: 0,
        tokens_owed_x: TokenAmount(0),
        tokens_owed_y: TokenAmount(0),
        approvals: vec![],
        token_id,
        incentives: vec![],
    }
}

fn tick(index: i32, seconds_outside: u64) -> Tick {
    Tick {
        index,
        sign: true,
        liquidity_change: Liquidity(1),
        liquidity_gross: Liquidity(1),
        sqrt_price: SqrtPrice(1),
        fee_growth_outside_x: FeeGrowth(0),
        fee_growth_outside_y: FeeGrowth(0),
        seconds_outside,
        incentives: vec![],
    }
}

#[test]
fn test_positions_stay_numbered_from_zero() {
    let mut store = State::new();
    let alice = "alice".to_string();
    for id in 1..=3 {
        assert_eq!(add_position(&mut store, &alice, &position(id)), Ok(id as u32 - 1));
    }
    assert_eq!(get_position_length(&store, &alice), 3);
    assert_eq!(num_tokens(&store), Ok(3));

    // removing the first moves the last into its place
    assert_eq!(remove_position(&mut store, &alice, 0), Ok(position(1)));
    assert_eq!(get_position_length(&store, &alice), 2);
    assert_eq!(get_position(&store, &alice, 0), Ok(position(3)));
    assert_eq!(get_position(&store, &alice, 1), Ok(position(2)));
    assert_eq!(get_position(&store, &alice, 2), Err(ContractError::NotFound));
    assert_eq!(num_tokens(&store), Ok(2));

    // removing the last moves nothing
    assert_eq!(remove_position(&mut store, &alice, 1), Ok(position(2)));
    assert_eq!(get_position(&store, &alice, 0), Ok(position(3)));
    assert_eq!(get_position_length(&store, &alice), 1);

    // an index past the count finds nothing and changes nothing
    assert_eq!(remove_position(&mut store, &alice, 5), Err(ContractError::NotFound));
    assert_eq!(get_position_length(&store, &alice), 1);
}

#[test]
fn test_update_position_follows_its_token() {
    let mut store = State::new();
    let alice = "alice".to_string();
    add_position(&mut store, &alice, &position(1)).unwrap();
    add_position(&mut store, &alice, &position(2)).unwrap();
    remove_position(&mut store, &alice, 0).unwrap();
    // token 2 now lives at index 0
    let mut p = position(2);
    p.liquidity = Liquidity(999);
    update_position(&mut store, &p).unwrap();
    assert_eq!(get_position(&store, &alice, 0), Ok(p));
    // token 1 is gone
    assert_eq!(update_position(&mut store, &position(1)), Err(ContractError::NotFound));
}

#[test]
fn test_listing_positions() {
    let mut store = State::new();
    let alice = "alice".to_string();
    for id in 1..=5 {
        add_position(&mut store, &alice, &position(id)).unwrap();
    }
    let ids = |ps: Vec<Position>| ps.iter().map(|p| p.token_id).collect::<Vec<u64>>();
    assert_eq!(ids(get_all_positions(&store, &alice, None, None).unwrap()), vec![1, 2, 3, 4, 5]);
    assert_eq!(ids(get_all_positions(&store, &alice, Some(2), Some(1)).unwrap()), vec![2, 3]);
    assert_eq!(ids(get_all_positions(&store, &alice, Some(10), Some(4)).unwrap()), vec![5]);
    assert_eq!(ids(get_all_positions(&store, &alice, None, Some(7)).unwrap()), Vec::<u64>::new());
    let keys = get_all_position_keys(&store, &alice, Some(2), Some(3));
    assert_eq!(keys, vec![position_key(&alice, 3), position_key(&alice, 4)]);
    assert_eq!(get_position_by_key(&store, &keys[1]), Ok(position(5)));
    assert_eq!(position_key(&alice, 3), b"alice\x00\x00\x00\x03".to_vec());
}

#[test]
fn test_tick_storage() {
    let mut store = State::new();
    let pk = pool_key();
    assert_eq!(get_tick(&store, &pk, 5), Err(ContractError::NotFound));
    add_tick(&mut store, &pk, 5, &tick(5, 1)).unwrap();
    assert_eq!(add_tick(&mut store, &pk, 5, &tick(5, 2)), Err(ContractError::TickAlreadyExist));
    assert_eq!(get_tick(&store, &pk, 5), Ok(tick(5, 1)));
    update_tick(&mut store, &pk, 5, &tick(5, 3)).unwrap();
    assert_eq!(get_tick(&store, &pk, 5), Ok(tick(5, 3)));
    assert_eq!(update_tick(&mut store, &pk, 6, &tick(6, 3)), Err(ContractError::TickNotFound));
    remove_tick(&mut store, &pk, 5).unwrap();
    assert_eq!(get_tick(&store, &pk, 5), Err(ContractError::NotFound));
    assert_eq!(remove_tick(&mut store, &pk, 5), Err(ContractError::TickNotFound));
}

#[test]
fn test_token_counters() {
    let mut store = State::new();
    assert_eq!(num_tokens(&store), Ok(0));
    assert_eq!(increment_tokens(&mut store), Ok(1));
    assert_eq!(increment_tokens(&mut store), Ok(2));
    assert_eq!(decrement_tokens(&mut store), Ok(1));
    assert_eq!(last_token_id(&store), Ok(0));
    assert_eq!(next_token_id(&mut store), Ok(1));
    assert_eq!(next_token_id(&mut store), Ok(2));
    assert_eq!(last_token_id(&store), Ok(2));
    assert_eq!(num_tokens(&store), Ok(1));
}

#[test]
fn test_add_then_remove_restores() {
    let mut store = State::new();
    let alice = "alice".to_string();
    add_position(&mut store, &alice, &position(1)).unwrap();
    let count = num_tokens(&store).unwrap();
    add_position(&mut store, &alice, &position(2)).unwrap();
    remove_position(&mut store, &alice, 1).unwrap();
    assert_eq!(get_position_length(&store, &alice), 1);
    assert_eq!(get_position(&store, &alice, 0), Ok(position(1)));
    assert_eq!(get_position(&store, &alice, 1), Err(ContractError::NotFound));
    assert_eq!(num_tokens(&store), Ok(count));

    let pk = pool_key();
    add_tick(&mut store, &pk, 3, &tick(3, 0)).unwrap();
    remove_tick(&mut store, &pk, 3).unwrap();
    assert_eq!(get_tick(&store, &pk, 3), Err(ContractError::NotFound));
}
