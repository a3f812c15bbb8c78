use oraiswap_v3::state::{add_position, get_position, State};
use oraiswap_v3::storage::Position;
use oraiswap_v3::types::{FeeGrowth, FeeTier, Liquidity, Percentage, PoolKey, TokenAmount};

fn basic_position(token_id: u64) -> Position {
    Position {
        pool_key: PoolKey {
            token_x: "token_x".to_string(),
            token_y: "token_y".to_string(),
            fee_tier: FeeTier {
                fee: Percentage(10_000_000_000),
                tick_spacing: 1,
            },
        },
        liquidity: Liquidity(1_000_000_000_000),
        lower_tick_index: -20,
        upper_tick_index: 10,
        fee_growth_inside_x: FeeGrowth(0),
        fee_growth_inside_y: FeeGrowth(0),
        last_block_number: 0,
        tokens_owed_x: TokenAmount(0),
        tokens_owed_y: TokenAmount(0),
        approvals: vec![],
        token_id,
        incentives: vec![],
    }
}

#[test]
fn test_claim_not_owner() {
    let mut store = State::new();
    let alice = "alice".to_string();
    let bob = "bob".to_string();
    let index = add_position(&mut store, &alice, &basic_position(1)).unwrap();
    assert_eq!(index, 0);

    // alice owns position 0; bob owns none, so claiming his position 0 fails
    assert!(get_position(&store, &alice, 0).is_ok());
    let error = get_position(&store, &bob, 0).unwrap_err();
    assert!(error.message().contains("not found"));
}
