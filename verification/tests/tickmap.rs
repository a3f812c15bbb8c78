use oraiswap_v3::state::{
    flip_bitmap, get_bitmap, get_closer_limit, next_initialized, prev_initialized, State,
};
use oraiswap_v3::query::tickmap_slice;
use oraiswap_v3::tickmap::{get_search_limit, position_to_tick, MAX_TICK, TICK_SEARCH_RANGE};
use oraiswap_v3::types::{FeeTier, Percentage, PoolKey, SqrtPrice};

fn pool_key(tick_spacing: u16) -> PoolKey {
    PoolKey {
        token_x: "token_0".to_string(),
        token_y: "token_1".to_string(),
        fee_tier: FeeTier {
            fee: Percentage(1),
            tick_spacing,
        },
    }
}

fn from_integer(v: u128) -> SqrtPrice {
    SqrtPrice(v * 10u128.pow(24))
}

#[test]
fn test_get_closer_limit() {
    let mut store = State::new();
    let pool_key = &pool_key(1);

    flip_bitmap(&mut store, true, 0, 1, pool_key).unwrap();

    // tick limit closer
    {
        let (result, from_tick) =
            get_closer_limit(&store, from_integer(5), true, 100, 1, pool_key).unwrap();

        let expected = from_integer(5);
        assert_eq!(result, expected);
        assert_eq!(from_tick, None);
    }
    // trade limit closer
    {
        let (result, from_tick) =
            get_closer_limit(&store, SqrtPrice(10u128.pow(23)), true, 100, 1, pool_key).unwrap();
        let expected = from_integer(1);
        assert_eq!(result, expected);
        assert_eq!(from_tick, Some((0, true)));
    }
    // other direction
    {
        let (result, from_tick) =
            get_closer_limit(&store, from_integer(2), false, -5, 1, pool_key).unwrap();
        let expected = from_integer(1);
        assert_eq!(result, expected);
        assert_eq!(from_tick, Some((0, true)));
    }
    // other direction
    {
        let (result, from_tick) =
            get_closer_limit(&store, SqrtPrice(10u128.pow(23)), false, -100, 10, pool_key).unwrap();
        let expected = SqrtPrice(10u128.pow(23));
        assert_eq!(result, expected);
        assert_eq!(from_tick, None);
    }
}

#[test]
fn test_flip() {
    let mut store = State::new();
    let pool_key = &pool_key(1);

    //zero
    {
        let index = 0;

        assert!(!get_bitmap(&store, index, 1, pool_key));
        flip_bitmap(&mut store, true, index, 1, pool_key).unwrap();
        assert!(get_bitmap(&store, index, 1, pool_key));
        flip_bitmap(&mut store, false, index, 1, pool_key).unwrap();
        assert!(!get_bitmap(&store, index, 1, pool_key));
    }
    // small
    {
        let index = 7;

        assert!(!get_bitmap(&store, index, 1, pool_key));
        flip_bitmap(&mut store, true, index, 1, pool_key).unwrap();
        assert!(get_bitmap(&store, index, 1, pool_key));
        flip_bitmap(&mut store, false, index, 1, pool_key).unwrap();
        assert!(!get_bitmap(&store, index, 1, pool_key));
    }
    // big
    {
        let index = MAX_TICK - 1;

        assert!(!get_bitmap(&store, index, 1, pool_key));
        flip_bitmap(&mut store, true, index, 1, pool_key).unwrap();
        assert!(get_bitmap(&store, index, 1, pool_key));
        flip_bitmap(&mut store, false, index, 1, pool_key).unwrap();
        assert!(!get_bitmap(&store, index, 1, pool_key));
    }
    // negative
    {
        let index = MAX_TICK - 40;

        assert!(!get_bitmap(&store, index, 1, pool_key));
        flip_bitmap(&mut store, true, index, 1, pool_key).unwrap();
        assert!(get_bitmap(&store, index, 1, pool_key));
        flip_bitmap(&mut store, false, index, 1, pool_key).unwrap();
        assert!(!get_bitmap(&store, index, 1, pool_key));
    }
    // tick spacing
    {
        let index = 20000;
        let tick_spacing = 1000;

        assert!(!get_bitmap(&store, index, tick_spacing, pool_key));
        flip_bitmap(&mut store, true, index, tick_spacing, pool_key).unwrap();
        assert!(get_bitmap(&store, index, tick_spacing, pool_key));
        flip_bitmap(&mut store, false, index, tick_spacing, pool_key).unwrap();
        assert!(!get_bitmap(&store, index, tick_spacing, pool_key));
    }
}

#[test]
fn test_next_initialized_simple() {
    let mut store = State::new();
    let pool_key = &pool_key(1);

    flip_bitmap(&mut store, true, 5, 1, pool_key).unwrap();
    assert_eq!(next_initialized(&store, 0, 1, pool_key), Some(5));
}

#[test]
fn test_next_initialized_multiple() {
    let mut store = State::new();
    let pool_key = &pool_key(1);

    flip_bitmap(&mut store, true, 50, 10, pool_key).unwrap();
    flip_bitmap(&mut store, true, 100, 10, pool_key).unwrap();
    assert_eq!(next_initialized(&store, 0, 10, pool_key), Some(50));
    assert_eq!(next_initialized(&store, 50, 10, pool_key), Some(100));
}

#[test]
fn test_next_initialized_current_is_last() {
    let mut store = State::new();
    let pool_key = &pool_key(1);

    flip_bitmap(&mut store, true, 0, 10, pool_key).unwrap();
    assert_eq!(next_initialized(&store, 0, 10, pool_key), None);
}

#[test]
fn test_next_initialized_just_below_limit() {
    let mut store = State::new();
    let pool_key = &pool_key(1);

    flip_bitmap(&mut store, true, 0, 1, pool_key).unwrap();
    assert_eq!(
        next_initialized(&store, -TICK_SEARCH_RANGE, 1, pool_key),
        Some(0)
    );
}

#[test]
fn test_next_initialized_at_limit() {
    let mut store = State::new();
    let pool_key = &pool_key(1);

    flip_bitmap(&mut store, true, 0, 1, pool_key).unwrap();
    assert_eq!(
        next_initialized(&store, -TICK_SEARCH_RANGE - 1, 1, pool_key),
        None
    );
}

#[test]
fn test_next_initialized_further_than_limit() {
    let mut store = State::new();
    let pool_key = &pool_key(1);

    flip_bitmap(&mut store, true, MAX_TICK - 10, 1, pool_key).unwrap();
    assert_eq!(next_initialized(&store, -MAX_TICK + 1, 1, pool_key), None);
}

#[test]
fn test_next_initialized_hitting_the_limit() {
    let store = State::new();
    let pool_key = &pool_key(1);

    assert_eq!(next_initialized(&store, MAX_TICK - 22, 4, pool_key), None);
}

#[test]
fn test_next_initialized_already_at_limit() {
    let store = State::new();
    let pool_key = &pool_key(1);

    assert_eq!(next_initialized(&store, MAX_TICK - 2, 4, pool_key), None);
}

#[test]
fn test_next_initialized_at_pos_63() {
    let mut store = State::new();
    let pool_key = &pool_key(1);

    flip_bitmap(&mut store, true, MAX_TICK - 63, 1, pool_key).unwrap();
    assert_eq!(
        next_initialized(&store, MAX_TICK - 128, 1, pool_key),
        Some(MAX_TICK - 63)
    );
}

#[test]
fn test_prev_initialized_simple() {
    let mut store = State::new();
    let pool_key = &pool_key(1);

    flip_bitmap(&mut store, true, -5, 1, pool_key).unwrap();
    assert_eq!(prev_initialized(&store, 0, 1, pool_key), Some(-5));
}

#[test]
fn test_prev_initialized_multiple() {
    let mut store = State::new();
    let pool_key = &pool_key(1);

    flip_bitmap(&mut store, true, -50, 10, pool_key).unwrap();
    flip_bitmap(&mut store, true, -100, 10, pool_key).unwrap();
    assert_eq!(prev_initialized(&store, 0, 10, pool_key), Some(-50));
    assert_eq!(prev_initialized(&store, -50, 10, pool_key), Some(-50));
}

#[test]
fn test_prev_initialized_current_is_last() {
    let mut store = State::new();
    let pool_key = &pool_key(1);

    flip_bitmap(&mut store, true, 0, 10, pool_key).unwrap();
    assert_eq!(prev_initialized(&store, 0, 10, pool_key), Some(0));
}

#[test]
fn test_prev_initialized_next_is_last() {
    let mut store = State::new();
    let pool_key = &pool_key(1);

    flip_bitmap(&mut store, true, 10, 10, pool_key).unwrap();
    assert_eq!(prev_initialized(&store, 0, 10, pool_key), None);
}

#[test]
fn test_prev_initialized_just_below_limit() {
    let mut store = State::new();
    let pool_key = &pool_key(1);

    flip_bitmap(&mut store, true, 0, 1, pool_key).unwrap();
    assert_eq!(
        prev_initialized(&store, TICK_SEARCH_RANGE, 1, pool_key),
        Some(0)
    );
}

#[test]
fn test_prev_initialized_at_limit() {
    let mut store = State::new();
    let pool_key = &pool_key(1);

    flip_bitmap(&mut store, true, 0, 1, pool_key).unwrap();
    assert_eq!(
        prev_initialized(&store, TICK_SEARCH_RANGE + 1, 1, pool_key),
        None
    );
}

#[test]
fn test_prev_initialized_farther_than_limit() {
    let mut store = State::new();
    let pool_key = &pool_key(1);

    flip_bitmap(&mut store, true, -MAX_TICK + 1, 1, pool_key).unwrap();
    assert_eq!(prev_initialized(&store, MAX_TICK - 1, 1, pool_key), None);
}

#[test]
fn test_prev_initialized_at_pos_63() {
    let mut store = State::new();
    let pool_key = &pool_key(1);

    flip_bitmap(&mut store, true, -MAX_TICK + 63, 1, pool_key).unwrap();
    assert_eq!(
        prev_initialized(&store, -MAX_TICK + 128, 1, pool_key),
        Some(-MAX_TICK + 63)
    );
}

#[test]
fn test_get_search_limit() {
    // Simple up
    {
        let result = get_search_limit(0, 1, true);
        assert_eq!(result, TICK_SEARCH_RANGE);
    }
    // Simple down
    {
        let result = get_search_limit(0, 1, false);
        assert_eq!(result, -TICK_SEARCH_RANGE);
    }
    // Less simple up
    {
        let start = 60;
        let step = 12;
        let result = get_search_limit(start, step, true);
        let expected = start + TICK_SEARCH_RANGE * step as i32;
        assert_eq!(result, expected);
    }
    // Less simple down
    {
        let start = 60;
        let step = 12;
        let result = get_search_limit(start, step, false);
        let expected = start - TICK_SEARCH_RANGE * step as i32;
        assert_eq!(result, expected);
    }
    // Up to price limit
    {
        let step = 5u16;
        let result = get_search_limit(MAX_TICK - 22, step, true);
        let expected = MAX_TICK - 3;
        assert_eq!(result, expected);
    }
    // At the price limit
    {
        let step = 5u16;
        let result = get_search_limit(MAX_TICK - 3, step, true);
        let expected = MAX_TICK - 3;
        assert_eq!(result, expected);
    }
}

#[test]
fn test_next_and_prev_initialized() {
    let mut store = State::new();
    let pool_key = &pool_key(1);

    // initalized edges
    {
        for spacing in 1..=10 {
            let max_index = MAX_TICK - MAX_TICK % spacing;
            let min_index = -max_index;

            flip_bitmap(&mut store, true, max_index, spacing as u16, pool_key).unwrap();
            flip_bitmap(&mut store, true, min_index, spacing as u16, pool_key).unwrap();

            let tick_edge_diff = TICK_SEARCH_RANGE / spacing * spacing;

            let prev =
                prev_initialized(&store, min_index + tick_edge_diff, spacing as u16, pool_key);
            let next =
                next_initialized(&store, max_index - tick_edge_diff, spacing as u16, pool_key);

            assert_eq!((prev.is_some(), next.is_some()), (true, true));
            // cleanup
            {
                flip_bitmap(&mut store, false, max_index, spacing as u16, pool_key).unwrap();
                flip_bitmap(&mut store, false, min_index, spacing as u16, pool_key).unwrap();
            }
        }
    }
    // unintalized edges
    for spacing in 1..=1000 {
        let max_index = MAX_TICK - MAX_TICK % spacing;
        let min_index = -max_index;
        let tick_edge_diff = TICK_SEARCH_RANGE / spacing * spacing;

        let prev = prev_initialized(&store, min_index + tick_edge_diff, spacing as u16, pool_key);
        let next = next_initialized(&store, max_index - tick_edge_diff, spacing as u16, pool_key);

        assert_eq!((prev.is_some(), next.is_some()), (false, false));
    }
}

#[test]
fn test_tick_map() {
    let mut store = State::new();
    let min_chunk = 0;
    let max_chunk = 2;
    let fee_tier = FeeTier::new(Percentage(0), 1).unwrap();
    let pool_key_1 = PoolKey::new("x".to_string(), "y".to_string(), fee_tier).unwrap();
    let pool_key_2 = PoolKey::new("y".to_string(), "z".to_string(), fee_tier).unwrap();

    // update pool1: every chunk holds 1 (its lowest tick)
    for index in min_chunk..=max_chunk {
        let tick = position_to_tick(index, 0, 1);
        flip_bitmap(&mut store, true, tick, 1, &pool_key_1).unwrap();
    }

    // update pool2: every chunk holds 2 (its second tick)
    for index in min_chunk..=max_chunk {
        let tick = position_to_tick(index, 1, 1);
        flip_bitmap(&mut store, true, tick, 1, &pool_key_2).unwrap();
    }

    let ret = tickmap_slice(&store, min_chunk, max_chunk, &pool_key_1, 3);
    assert_eq!(ret, [(0, 1u64), (1, 1u64), (2, 1u64)]);
}

#[test]
fn test_flip_to_the_same_value_is_refused() {
    let mut store = State::new();
    let pool_key = &pool_key(1);
    flip_bitmap(&mut store, true, 5, 1, pool_key).unwrap();
    assert_eq!(
        flip_bitmap(&mut store, true, 5, 1, pool_key),
        Err(oraiswap_v3::error::ContractError::TickReInitialize)
    );
    assert!(get_bitmap(&store, 5, 1, pool_key));
    flip_bitmap(&mut store, false, 5, 1, pool_key).unwrap();
    assert_eq!(
        flip_bitmap(&mut store, false, 5, 1, pool_key),
        Err(oraiswap_v3::error::ContractError::TickReInitialize)
    );
}
