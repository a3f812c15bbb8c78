use oraiswap_v3::asset::AssetInfo;
use oraiswap_v3::error::ContractError;
use oraiswap_v3::incentive::{calculate_incentive_growth_inside, IncentiveRecord};
use oraiswap_v3::sqrt_price::calculate_sqrt_price;
use oraiswap_v3::token_amount::U256;
use oraiswap_v3::tickmap::MAX_TICK;
use oraiswap_v3::types::{FeeGrowth, Liquidity, SqrtPrice, TokenAmount};

#[test]
fn test_calculate_sqrt_price() {
    assert_eq!(calculate_sqrt_price(0), Ok(SqrtPrice(1_000_000_000_000_000_000_000_000)));
    assert_eq!(calculate_sqrt_price(1), Ok(SqrtPrice(1_000_049_998_750_000_000_000_000)));
    assert_eq!(calculate_sqrt_price(-1), Ok(SqrtPrice(999_950_003_749_000_000_000_000)));
    assert_eq!(calculate_sqrt_price(20_000), Ok(SqrtPrice(2_718_145_925_979_000_000_000_000)));
    assert_eq!(calculate_sqrt_price(-20_000), Ok(SqrtPrice(367_897_834_491_000_000_000_000)));
    assert_eq!(
        calculate_sqrt_price(200_000),
        Ok(SqrtPrice(22_015_455_979_766_288_000_000_000_000))
    );
    assert_eq!(calculate_sqrt_price(-200_000), Ok(SqrtPrice(45_422_634_000_000_000_000)));
    assert_eq!(
        calculate_sqrt_price(MAX_TICK),
        Ok(SqrtPrice(65_535_383_934_512_647_000_000_000_000))
    );
    assert_eq!(calculate_sqrt_price(-MAX_TICK), Ok(SqrtPrice(15_258_932_000_000_000_000)));
    assert_eq!(calculate_sqrt_price(MAX_TICK + 1), Err(ContractError::TickOverBounds));
    assert_eq!(calculate_sqrt_price(-MAX_TICK - 1), Err(ContractError::TickOverBounds));
}

#[test]
fn test_sqrt_price_grows_with_the_tick() {
    let mut prev = calculate_sqrt_price(-MAX_TICK).unwrap();
    for t in [-100_000, -1_000, -1, 0, 1, 1_000, 100_000, MAX_TICK] {
        let next = calculate_sqrt_price(t).unwrap();
        assert!(next.0 > prev.0);
        prev = next;
    }
}

#[test]
fn test_fee_growth_from_fee() {
    assert_eq!(
        FeeGrowth::from_fee(Liquidity(1_000_000), TokenAmount(1)),
        Ok(FeeGrowth(10_000_000_000_000_000_000_000_000_000))
    );
    assert_eq!(
        FeeGrowth::from_fee(Liquidity(3_000_000), TokenAmount(1)),
        Ok(FeeGrowth(3333333333333333333333333333))
    );
    assert_eq!(FeeGrowth::from_fee(Liquidity(0), TokenAmount(1)), Err(ContractError::Div));
    assert_eq!(FeeGrowth::from_fee(Liquidity(1), TokenAmount(u128::MAX)), Err(ContractError::Cast));
}

#[test]
fn test_fee_growth_unchecked_sub_wraps() {
    assert_eq!(FeeGrowth(7).unchecked_sub(FeeGrowth(5)), FeeGrowth(2));
    assert_eq!(FeeGrowth(5).unchecked_sub(FeeGrowth(7)), FeeGrowth(u128::MAX - 1));
}

fn record() -> IncentiveRecord {
    IncentiveRecord {
        id: 1,
        reward_per_sec: TokenAmount(10),
        reward_token: AssetInfo::NativeToken { denom: "orai".to_string() },
        remaining: TokenAmount(1000),
        start_timestamp: 100,
        incentive_growth_global: FeeGrowth(0),
        last_updated: 100,
    }
}

#[test]
fn test_update_global_incentive_growth() {
    let mut r = record();
    // before the start nothing moves
    r.update_global_incentive_growth(Liquidity(1_000_000), 99).unwrap();
    assert_eq!(r, record());

    r.update_global_incentive_growth(Liquidity(1_000_000), 150).unwrap();
    assert_eq!(r.incentive_growth_global, FeeGrowth(5_000_000_000_000_000_000_000_000_000_000));
    assert_eq!(r.remaining, TokenAmount(500));
    assert_eq!(r.last_updated, 150);

    // the emission stops at what remains
    r.update_global_incentive_growth(Liquidity(1_000_000), 300).unwrap();
    assert_eq!(r.incentive_growth_global, FeeGrowth(10_000_000_000_000_000_000_000_000_000_000));
    assert_eq!(r.remaining, TokenAmount(0));
    assert_eq!(r.last_updated, 300);

    // with no liquidity only the time moves
    let mut r = record();
    r.update_global_incentive_growth(Liquidity(0), 200).unwrap();
    assert_eq!(r.incentive_growth_global, FeeGrowth(0));
    assert_eq!(r.remaining, TokenAmount(1000));
    assert_eq!(r.last_updated, 200);
}

#[test]
fn test_calculate_incentive_growth_inside() {
    // current tick inside the range
    assert_eq!(
        calculate_incentive_growth_inside(-10, FeeGrowth(100), 10, FeeGrowth(200), 0, FeeGrowth(1000)),
        FeeGrowth(700)
    );
    // current tick above the range
    assert_eq!(
        calculate_incentive_growth_inside(-10, FeeGrowth(100), 10, FeeGrowth(200), 20, FeeGrowth(1000)),
        FeeGrowth(100)
    );
    // current tick below the range: the subtraction wraps
    assert_eq!(
        calculate_incentive_growth_inside(-10, FeeGrowth(100), 10, FeeGrowth(200), -20, FeeGrowth(1000)),
        FeeGrowth(u128::MAX - 99)
    );
    // the upper tick is exclusive
    assert_eq!(
        calculate_incentive_growth_inside(-10, FeeGrowth(100), 10, FeeGrowth(200), 10, FeeGrowth(1000)),
        FeeGrowth(100)
    );
}

#[test]
fn test_token_amount_from_big_sqrt_price() {
    let one = 1_000_000_000_000_000_000_000_000u128;
    let v = U256 { hi: 0, lo: 5 * one + 7 };
    assert_eq!(TokenAmount::from_big_sqrt_price(v), Ok(TokenAmount(5)));
    assert_eq!(TokenAmount::from_big_sqrt_price_up(v), Ok(TokenAmount(6)));
    let exact = U256 { hi: 0, lo: 5 * one };
    assert_eq!(TokenAmount::from_big_sqrt_price(exact), Ok(TokenAmount(5)));
    assert_eq!(TokenAmount::from_big_sqrt_price_up(exact), Ok(TokenAmount(5)));
    let big = U256 { hi: 1, lo: 0 };
    assert_eq!(TokenAmount::from_big_sqrt_price(big), Ok(TokenAmount(340_282_366_920_938)));
    assert_eq!(TokenAmount::from_big_sqrt_price_up(big), Ok(TokenAmount(340_282_366_920_939)));
    let max = U256 { hi: u128::MAX, lo: u128::MAX };
    assert_eq!(TokenAmount::from_big_sqrt_price(max), Err(ContractError::Cast));
    assert_eq!(TokenAmount::from_big_sqrt_price_up(max), Err(ContractError::Add));
}
