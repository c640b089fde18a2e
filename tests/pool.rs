use amm::pool::{Pool, PoolError};

fn alice() -> String {
    "alice.near".to_string()
}

fn bob() -> String {
    "bob.near".to_string()
}

fn seeded(fee: u128) -> Pool {
    let mut pool = Pool::new(2, 100, fee);
    assert_eq!(pool.add_liquidity(&alice(), 1000, Some(vec![1, 1])), Ok(1000));
    pool
}

#[test]
fn seeding_with_even_weights_fills_every_reserve() {
    let pool = seeded(0);
    assert_eq!(pool.reserves, vec![1000, 1000]);
    assert_eq!(pool.lp_supply, 1000);
    assert_eq!(pool.get_pool_token_balance(&alice()), 1000);
    assert_eq!(pool.get_share_balance(&alice(), 0), 0);
}

#[test]
fn seeding_with_uneven_weights_returns_the_rest_as_shares() {
    let mut pool = Pool::new(2, 100, 0);
    assert_eq!(pool.add_liquidity(&alice(), 1000, Some(vec![2, 1])), Ok(1000));
    assert_eq!(pool.reserves, vec![1000, 500]);
    assert_eq!(pool.get_share_balance(&alice(), 1), 500);
}

#[test]
fn seeding_needs_weights() {
    let mut pool = Pool::new(2, 100, 0);
    assert_eq!(pool.add_liquidity(&alice(), 1000, None), Err(PoolError::InvalidWeights));
    assert_eq!(pool.add_liquidity(&alice(), 1000, Some(vec![1])), Err(PoolError::InvalidWeights));
    assert_eq!(pool.add_liquidity(&alice(), 1000, Some(vec![1, 0])), Err(PoolError::InvalidWeights));
    assert_eq!(pool.add_liquidity(&alice(), 0, Some(vec![1, 1])), Err(PoolError::AmountTooSmall));
    assert_eq!(pool.lp_supply, 0);
}

#[test]
fn buy_without_fee() {
    let mut pool = seeded(0);
    assert_eq!(pool.calc_buy_amount(100, 0), Ok(190));
    assert_eq!(pool.buy(&alice(), 100, 0, 190), Ok(190));
    assert_eq!(pool.reserves, vec![910, 1100]);
    assert_eq!(pool.get_share_balance(&alice(), 0), 190);
    assert_eq!(pool.fee_pool_weight, 0);
}

#[test]
fn buy_with_fee_accrues_to_the_fee_weight() {
    let mut pool = seeded(2);
    assert_eq!(pool.buy(&alice(), 100, 0, 0), Ok(187));
    assert_eq!(pool.reserves, vec![911, 1098]);
    assert_eq!(pool.fee_pool_weight, 2);
    assert_eq!(pool.get_fees_withdrawable(&alice()), 2);
}

#[test]
fn buy_below_minimum_is_refused() {
    let mut pool = seeded(0);
    assert_eq!(pool.buy(&alice(), 100, 0, 191), Err(PoolError::SlippageExceeded));
    assert_eq!(pool.reserves, vec![1000, 1000]);
}

#[test]
fn buy_errors() {
    let mut empty = Pool::new(2, 100, 0);
    assert_eq!(empty.buy(&alice(), 100, 0, 0), Err(PoolError::NoLiquidity));
    let mut pool = seeded(0);
    assert_eq!(pool.buy(&alice(), 100, 2, 0), Err(PoolError::InvalidOutcome));
    assert_eq!(pool.buy(&alice(), u128::MAX, 0, 0), Err(PoolError::Overflow));
}

#[test]
fn sell_after_buy() {
    let mut pool = seeded(0);
    pool.buy(&alice(), 100, 0, 0).unwrap();
    assert_eq!(pool.calc_sell_collateral_out(50, 0), Ok(94));
    assert_eq!(pool.sell(&alice(), 50, 0, 94), Ok(0));
    assert_eq!(pool.get_share_balance(&alice(), 0), 96);
    assert_eq!(pool.reserves, vec![954, 1050]);
}

#[test]
fn sell_errors() {
    let mut pool = seeded(0);
    pool.buy(&alice(), 100, 0, 0).unwrap();
    assert_eq!(pool.sell(&alice(), 50, 0, 93), Err(PoolError::SlippageExceeded));
    assert_eq!(pool.sell(&bob(), 50, 0, 1000), Err(PoolError::InsufficientBalance));
    assert_eq!(pool.sell(&alice(), 1100, 0, u128::MAX), Err(PoolError::InsufficientLiquidity));
    assert_eq!(pool.get_share_balance(&alice(), 0), 190);
}

#[test]
fn sell_keeps_back_the_fee() {
    let mut pool = seeded(2);
    pool.buy(&alice(), 100, 0, 0).unwrap();
    assert_eq!(pool.sell(&alice(), 50, 0, u128::MAX), Ok(1));
    assert_eq!(pool.fee_pool_weight, 3);
}

#[test]
fn adding_to_a_live_pool_follows_the_reserves() {
    let mut pool = seeded(2);
    pool.buy(&alice(), 100, 0, 0).unwrap();
    assert_eq!(pool.add_liquidity(&bob(), 500, None), Ok(455));
    assert_eq!(pool.reserves, vec![1326, 1598]);
    assert_eq!(pool.get_share_balance(&bob(), 0), 85);
    assert_eq!(pool.get_share_balance(&bob(), 1), 0);
    assert_eq!(pool.lp_supply, 1455);
    assert_eq!(pool.get_fees_withdrawable(&alice()), 1);
    assert_eq!(pool.get_fees_withdrawable(&bob()), 0);
}

#[test]
fn exit_pool_returns_reserves_and_fees() {
    let mut pool = seeded(2);
    pool.buy(&alice(), 100, 0, 0).unwrap();
    pool.add_liquidity(&bob(), 500, None).unwrap();
    assert_eq!(pool.exit_pool(&alice(), 1000), Ok(1));
    assert_eq!(pool.reserves, vec![415, 500]);
    assert_eq!(pool.lp_supply, 455);
    assert_eq!(pool.fee_pool_weight, 1);
    assert_eq!(pool.get_share_balance(&alice(), 0), 187 + 911);
    assert_eq!(pool.get_share_balance(&alice(), 1), 1098);
}

#[test]
fn exit_everything_empties_the_pool() {
    let mut pool = seeded(0);
    assert_eq!(pool.exit_pool(&alice(), 1000), Ok(0));
    assert_eq!(pool.reserves, vec![0, 0]);
    assert_eq!(pool.lp_supply, 0);
    assert_eq!(pool.get_share_balance(&alice(), 0), 1000);
}

#[test]
fn exit_more_than_held_is_refused() {
    let mut pool = seeded(0);
    assert_eq!(pool.exit_pool(&bob(), 1), Err(PoolError::InsufficientBalance));
    assert_eq!(pool.exit_pool(&alice(), 1001), Err(PoolError::InsufficientBalance));
}

#[test]
fn burning_complete_sets() {
    let mut pool = seeded(0);
    pool.exit_pool(&alice(), 500).unwrap();
    assert_eq!(pool.burn_outcome_tokens_redeem_collateral(&alice(), 200), Ok(200));
    assert_eq!(pool.get_share_balance(&alice(), 0), 300);
    assert_eq!(pool.get_share_balance(&alice(), 1), 300);
    assert_eq!(pool.burn_outcome_tokens_redeem_collateral(&alice(), 301), Err(PoolError::InsufficientBalance));
}

#[test]
fn payout_twice_pays_once() {
    let mut pool = seeded(0);
    pool.buy(&alice(), 100, 0, 0).unwrap();
    let numerator = Some(vec![75, 25]);
    assert_eq!(pool.payout(&alice(), &numerator), 142);
    assert_eq!(pool.get_share_balance(&alice(), 0), 0);
    assert_eq!(pool.payout(&alice(), &numerator), 0);
}

#[test]
fn payout_of_an_invalid_market_keeps_shares() {
    let mut pool = seeded(0);
    pool.buy(&alice(), 100, 0, 0).unwrap();
    assert_eq!(pool.payout(&alice(), &None), 0);
    assert_eq!(pool.get_share_balance(&alice(), 0), 190);
}

#[test]
fn spot_prices() {
    let pool = seeded(0);
    assert_eq!(pool.get_spot_price_sans_fee(0), Ok(50));
    let mut pool = seeded(0);
    pool.buy(&alice(), 100, 0, 0).unwrap();
    assert_eq!(pool.get_spot_price_sans_fee(0), Ok(54));
    assert_eq!(pool.get_spot_price_sans_fee(1), Ok(45));
    let fee_pool = seeded(2);
    assert_eq!(fee_pool.get_spot_price(0), Ok(51));
    let empty = Pool::new(2, 100, 0);
    assert_eq!(empty.get_spot_price_sans_fee(0), Err(PoolError::NoLiquidity));
    assert_eq!(pool.get_spot_price_sans_fee(5), Err(PoolError::InvalidOutcome));
}

#[test]
fn three_outcome_spot_prices() {
    let mut pool = Pool::new(3, 100, 0);
    pool.add_liquidity(&alice(), 1000, Some(vec![4, 2, 1])).unwrap();
    assert_eq!(pool.reserves, vec![1000, 500, 250]);
    assert_eq!(pool.get_spot_price_sans_fee(0), Ok(14));
    assert_eq!(pool.get_spot_price_sans_fee(1), Ok(28));
    assert_eq!(pool.get_spot_price_sans_fee(2), Ok(57));
}

#[test]
fn fee_weight_only_falls_on_exit() {
    let mut pool = seeded(2);
    let mut last = pool.fee_pool_weight;
    pool.buy(&alice(), 100, 0, 0).unwrap();
    assert!(pool.fee_pool_weight >= last);
    last = pool.fee_pool_weight;
    pool.sell(&alice(), 50, 0, u128::MAX).unwrap();
    assert!(pool.fee_pool_weight >= last);
    last = pool.fee_pool_weight;
    pool.add_liquidity(&bob(), 500, None).unwrap();
    assert!(pool.fee_pool_weight >= last);
    last = pool.fee_pool_weight;
    pool.exit_pool(&alice(), 1000).unwrap();
    assert!(pool.fee_pool_weight <= last);
}

#[test]
fn prices_need_reserves_that_register_against_the_denomination() {
    let mut pool = Pool::new(3, 1000, 0);
    pool.add_liquidity(&alice(), 1, Some(vec![1, 1, 1])).unwrap();
    assert_eq!(pool.reserves, vec![1, 1, 1]);
    assert_eq!(pool.get_spot_price_sans_fee(0), Err(PoolError::PriceUndefined));
    let full_fee = seeded(100);
    assert_eq!(full_fee.get_spot_price_sans_fee(0), Ok(50));
    assert_eq!(full_fee.get_spot_price(0), Err(PoolError::PriceUndefined));
}
