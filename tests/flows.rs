use amm::market::{
    parse_market_id, AMMContract, AddLiquidityArgs, BuyArgs, CollateralToken, CreateMarketArgs,
    MarketError, Source,
};
use amm::math::{checked_mul_div, checked_mul_div_ceil, mul_div_ceil, mul_div_floor, mul_div_rem};
use amm::outcome::{
    categorical_payout, resolve_outcome, scalar_payout, AnswerNumberType, AnswerType,
    NumberOutcomeTag, Outcome, OutcomeTag, ResolutionError,
};
use amm::pool::PoolError;

const DENOM: u128 = 1_000_000_000_000_000_000_000_000;

fn alice() -> String {
    "alice.near".to_string()
}

fn carol() -> String {
    "carol.near".to_string()
}

fn gov() -> String {
    "gov.near".to_string()
}

fn token() -> String {
    "token.near".to_string()
}

fn oracle() -> String {
    "oracle.near".to_string()
}

fn tag(value: u128, negative: bool) -> NumberOutcomeTag {
    NumberOutcomeTag { value, multiplier: 1, negative }
}

fn answer(value: u128, negative: bool) -> AnswerNumberType {
    AnswerNumberType { value, multiplier: 1, negative }
}

fn payload(outcome_tags: Vec<OutcomeTag>, is_scalar: bool) -> CreateMarketArgs {
    let outcomes = outcome_tags.len() as u16;
    CreateMarketArgs {
        description: "".to_string(),
        extra_info: "".to_string(),
        outcomes,
        outcome_tags,
        categories: vec![],
        end_time: 1000,
        resolution_time: 2000,
        sources: vec![Source { end_point: "e".to_string(), source_path: "p".to_string() }],
        collateral_token_id: token(),
        swap_fee: 0,
        challenge_period: 1,
        is_scalar,
        scalar_multiplier: if is_scalar { Some(1) } else { None },
    }
}

fn yes_no() -> Vec<OutcomeTag> {
    vec![OutcomeTag::String("YES".to_string()), OutcomeTag::String("NO".to_string())]
}

/// A contract with a funded YES/NO market (2 decimals: a denomination of 100).
fn funded_market() -> AMMContract {
    let mut c = AMMContract::new(gov(), vec![CollateralToken { account_id: token(), decimals: 2 }], oracle());
    c.create_market(payload(yes_no(), false), 0).unwrap();
    let add = AddLiquidityArgs { market_id: 0, weight_indication: Some(vec![1, 1]) };
    assert_eq!(c.add_liquidity(&alice(), 1000, add, &token(), 10), Ok(1000));
    c
}

#[test]
fn categorical_scenario_from_the_oracle() {
    let tags = yes_no();
    let r = resolve_outcome(&Outcome::Answer(AnswerType::String("NO".to_string())), false, &tags, DENOM);
    assert_eq!(r, Ok(Some(vec![0, 1000000000000000000000000])));
}

#[test]
fn symmetric_scalar_scenario() {
    let lower = NumberOutcomeTag { value: 0, multiplier: 100, negative: false };
    let upper = NumberOutcomeTag { value: 500, multiplier: 100, negative: false };
    let ans = AnswerNumberType { value: 250, multiplier: 100, negative: false };
    assert_eq!(
        scalar_payout(&lower, &upper, &ans, DENOM),
        vec![500000000000000000000000, 500000000000000000000000]
    );
}

#[test]
fn mixed_sign_scalar_scenario() {
    assert_eq!(
        scalar_payout(&tag(50, true), &tag(50, false), &answer(0, false), DENOM),
        vec![500000000000000000000000, 500000000000000000000000]
    );
}

#[test]
fn mixed_sign_scalar_with_negative_answer_inside_the_range() {
    // -25 lies a quarter of the way up from -50 to 50
    assert_eq!(
        scalar_payout(&tag(50, true), &tag(50, false), &answer(25, true), DENOM),
        vec![750000000000000000000000, 250000000000000000000000]
    );
}

#[test]
fn both_negative_scalar_clamped_below() {
    assert_eq!(scalar_payout(&tag(200, true), &tag(100, true), &answer(201, true), DENOM), vec![DENOM, 0]);
}

#[test]
fn scalar_clamped_above_upper_bound() {
    assert_eq!(scalar_payout(&tag(0, false), &tag(50, false), &answer(55, false), DENOM), vec![0, DENOM]);
}

#[test]
fn scalar_rounding_stays_in_the_denomination() {
    let v = scalar_payout(&tag(0, false), &tag(3, false), &answer(1, false), 100);
    assert_eq!(v, vec![66, 34]);
    assert_eq!(v[0] + v[1], 100);
}

#[test]
fn resolution_errors() {
    let tags = yes_no();
    let n = Outcome::Answer(AnswerType::Number(answer(1, false)));
    let maybe = Outcome::Answer(AnswerType::String("MAYBE".to_string()));
    assert_eq!(resolve_outcome(&n, false, &tags, DENOM), Err(ResolutionError::StringExpected));
    assert_eq!(resolve_outcome(&maybe, false, &tags, DENOM), Err(ResolutionError::OutcomeNotFound));
    assert_eq!(resolve_outcome(&maybe, true, &tags, DENOM), Err(ResolutionError::WrongOutcomeTags));
    let bounds = vec![OutcomeTag::Number(tag(0, false)), OutcomeTag::Number(tag(10, false))];
    assert_eq!(resolve_outcome(&maybe, true, &bounds, DENOM), Err(ResolutionError::NumberExpected));
    assert_eq!(resolve_outcome(&Outcome::Invalid, true, &bounds, DENOM), Ok(None));
    assert_eq!(categorical_payout(&tags, &"YES".to_string(), 7), Ok(vec![7, 0]));
}

#[test]
fn market_ids_are_decimal_digits() {
    assert_eq!(parse_market_id(&"0".to_string()), Some(0));
    assert_eq!(parse_market_id(&"4207".to_string()), Some(4207));
    assert_eq!(parse_market_id(&"18446744073709551615".to_string()), Some(u64::MAX));
    assert_eq!(parse_market_id(&"18446744073709551616".to_string()), None);
    assert_eq!(parse_market_id(&"".to_string()), None);
    assert_eq!(parse_market_id(&"12a".to_string()), None);
}

#[test]
fn wide_products_are_divided_exactly() {
    assert_eq!(mul_div_rem(3, 5, 4), (3, 3));
    assert_eq!(mul_div_floor(u128::MAX, u128::MAX - 1, u128::MAX), u128::MAX - 1);
    assert_eq!(mul_div_ceil(10, 1, 3), 4);
    assert_eq!(mul_div_floor(10, 1, 3), 3);
    assert_eq!(checked_mul_div(u128::MAX, 2, 4), Some(u128::MAX / 2));
    assert_eq!(checked_mul_div(u128::MAX, 2, 1), None);
    assert_eq!(checked_mul_div_ceil(7, 3, 2), Some(11));
    assert_eq!(
        mul_div_floor(DENOM, 79630783658, 100000000000),
        796307836580000000000000
    );
}

#[test]
fn trading_through_the_market() {
    let mut c = funded_market();
    let buy = BuyArgs { market_id: 0, outcome_target: 0, min_shares_out: 0 };
    assert_eq!(c.calc_buy_amount(0, 100, 0), Ok(190));
    assert_eq!(c.buy(&carol(), 100, buy, &token(), 10), Ok(190));
    assert_eq!(c.get_share_balance(&carol(), 0, 0), Ok(190));
    assert_eq!(c.get_pool_balances(0), Ok(vec![910, 1100]));
    assert_eq!(c.calc_sell_collateral_out(0, 50, 0), Ok(94));
    assert_eq!(c.sell(&carol(), 0, 50, 0, 94, 10), Ok(50));
    assert_eq!(c.get_share_balance(&carol(), 0, 0), Ok(96));
    assert_eq!(c.get_spot_price_sans_fee(0, 0), Ok(52));
    assert_eq!(c.get_pool_token_total_supply(0), Ok(1000));
    assert_eq!(c.get_pool_token_balance(0, &alice()), Ok(1000));
    assert_eq!(c.get_fee_pool_weight(0), Ok(0));
    assert_eq!(c.get_fees_withdrawable(0, &alice()), Ok(0));
}

#[test]
fn trading_guards() {
    let mut c = funded_market();
    let buy = BuyArgs { market_id: 0, outcome_target: 0, min_shares_out: 0 };
    assert_eq!(c.buy(&carol(), 100, buy, &"other.near".to_string(), 10), Err(MarketError::WrongCollateral));
    assert_eq!(c.buy(&carol(), 100, buy, &token(), 1000), Err(MarketError::MarketEnded));
    let unknown = BuyArgs { market_id: 9, outcome_target: 0, min_shares_out: 0 };
    assert_eq!(c.buy(&carol(), 100, unknown, &token(), 10), Err(MarketError::NoMarket));
    assert_eq!(c.buy(&carol(), 100, BuyArgs { min_shares_out: 1000, ..buy }, &token(), 10),
        Err(MarketError::Pool(PoolError::SlippageExceeded)));
    c.paused = true;
    assert_eq!(c.sell(&carol(), 0, 50, 0, 94, 10), Err(MarketError::Paused));
    c.paused = false;
    c.markets[0].enabled = false;
    assert_eq!(c.exit_pool(&alice(), 0, 10, 10), Err(MarketError::DisabledMarket));
    assert_eq!(c.get_market_expect(3).err(), Some(MarketError::NoMarket));
}

#[test]
fn redeeming_complete_sets_and_leaving_the_pool() {
    let mut c = funded_market();
    assert_eq!(c.exit_pool(&alice(), 0, 400, 10), Ok(0));
    assert_eq!(c.get_share_balance(&alice(), 0, 1), Ok(400));
    assert_eq!(c.burn_outcome_tokens_redeem_collateral(&alice(), 0, 300, 10), Ok(300));
    assert_eq!(c.get_share_balance(&alice(), 0, 0), Ok(100));
    assert_eq!(c.exit_pool(&alice(), 0, 100, 1000), Err(MarketError::MarketEnded));
    assert_eq!(
        c.burn_outcome_tokens_redeem_collateral(&alice(), 0, 101, 10),
        Err(MarketError::Pool(PoolError::InsufficientBalance))
    );
}

#[test]
fn claiming_twice_pays_once() {
    let mut c = funded_market();
    let buy = BuyArgs { market_id: 0, outcome_target: 0, min_shares_out: 0 };
    c.buy(&carol(), 100, buy, &token(), 10).unwrap();
    assert_eq!(c.claim_earnings(&carol(), 0), Err(MarketError::NotFinalized));
    c.set_outcome(&oracle(), Outcome::Answer(AnswerType::String("YES".to_string())), vec!["0".to_string()])
        .unwrap();
    assert_eq!(c.claim_earnings(&carol(), 0), Ok(190));
    assert_eq!(c.claim_earnings(&carol(), 0), Err(MarketError::NoPayout));
    assert_eq!(c.claim_earnings(&alice(), 0), Err(MarketError::NoPayout));
}

#[test]
fn resolution_guards() {
    let mut c = funded_market();
    assert_eq!(c.resolute_market(&gov(), 0, Some(vec![100, 0]), 1999), Err(MarketError::ResolutionTimeNotReached));
    assert_eq!(c.resolute_market(&carol(), 0, Some(vec![100, 0]), 2000), Err(MarketError::Unauthorized));
    assert_eq!(c.resolute_market(&gov(), 0, Some(vec![60, 30]), 2000), Err(MarketError::InvalidPayoutSum));
    assert_eq!(c.resolute_market(&gov(), 0, Some(vec![u128::MAX, 1]), 2000), Err(MarketError::InvalidPayoutSum));
    assert_eq!(c.resolute_market(&gov(), 0, Some(vec![50, 25, 25]), 2000), Err(MarketError::InvalidNumerator));
    assert_eq!(c.resolute_market(&carol(), 0, None, 2000), Err(MarketError::DataRequestNotFinalized));
    let yes = Outcome::Answer(AnswerType::String("YES".to_string()));
    assert_eq!(c.set_outcome(&carol(), yes.clone(), vec!["0".to_string()]).err(), Some(MarketError::Unauthorized));
    assert_eq!(c.set_outcome(&oracle(), yes.clone(), vec!["x".to_string()]).err(), Some(MarketError::InvalidMarketId));
    assert_eq!(c.set_outcome(&oracle(), yes.clone(), vec![]).err(), Some(MarketError::InvalidMarketId));
    assert_eq!(c.set_outcome(&oracle(), yes.clone(), vec!["5".to_string()]).err(), Some(MarketError::NoMarket));
    let maybe = Outcome::Answer(AnswerType::String("MAYBE".to_string()));
    assert_eq!(
        c.set_outcome(&oracle(), maybe, vec!["0".to_string()]).err(),
        Some(MarketError::Resolution(ResolutionError::OutcomeNotFound))
    );
    assert_eq!(c.resolute_market(&gov(), 0, Some(vec![100, 0]), 2000), Ok(()));
    assert_eq!(c.resolute_market(&gov(), 0, Some(vec![100, 0]), 2000), Err(MarketError::FinalizedMarket));
    assert_eq!(c.set_outcome(&oracle(), yes, vec!["0".to_string()]).err(), Some(MarketError::FinalizedMarket));
}

#[test]
fn creation_checks() {
    let mut c = AMMContract::new(gov(), vec![CollateralToken { account_id: token(), decimals: 39 }], oracle());
    assert_eq!(c.create_market(payload(yes_no(), false), 0), Err(MarketError::InvalidCollateral));
    let mut c = AMMContract::new(gov(), vec![CollateralToken { account_id: token(), decimals: 2 }], oracle());
    let mut p = payload(yes_no(), false);
    p.collateral_token_id = "other.near".to_string();
    assert_eq!(c.create_market(p, 0), Err(MarketError::InvalidCollateral));
    let mut p = payload(yes_no(), false);
    p.outcomes = 3;
    assert_eq!(c.create_market(p, 0), Err(MarketError::InvalidTagLength));
    assert_eq!(c.create_market(payload(yes_no(), false), 1000), Err(MarketError::InvalidEndTime));
    let mut p = payload(vec![OutcomeTag::Number(tag(1, false)), OutcomeTag::Number(tag(2, false))], true);
    p.scalar_multiplier = None;
    assert_eq!(c.create_market(p, 0), Err(MarketError::NoMultiplier));
    let wide = vec![OutcomeTag::Number(tag(u128::MAX, true)), OutcomeTag::Number(tag(1, false))];
    assert_eq!(c.create_market(payload(wide, true), 0), Err(MarketError::WrongBounds));
    let mut p = payload(yes_no(), false);
    p.swap_fee = 101;
    assert_eq!(c.create_market(p, 0), Err(MarketError::InvalidSwapFee));
    c.paused = true;
    assert_eq!(c.create_market(payload(yes_no(), false), 0), Err(MarketError::Paused));
    assert_eq!(c.markets.len(), 0);
}

#[test]
fn the_validity_bond_goes_back_to_the_creator() {
    let mut c = AMMContract::new(gov(), vec![CollateralToken { account_id: token(), decimals: 2 }], oracle());
    let bond_token = "bond.near".to_string();
    assert_eq!(c.ft_create_market_callback(&carol(), 25, &bond_token, payload(yes_no(), false), 0), Ok(0));
    let transfer = c
        .set_outcome(&oracle(), Outcome::Answer(AnswerType::String("NO".to_string())), vec!["0".to_string()])
        .unwrap()
        .unwrap();
    assert_eq!(transfer.token, bond_token);
    assert_eq!(transfer.receiver, carol());
    assert_eq!(transfer.amount, 25);
}

#[test]
fn a_market_needs_outcomes() {
    let mut c = AMMContract::new(gov(), vec![CollateralToken { account_id: token(), decimals: 2 }], oracle());
    assert_eq!(c.create_market(payload(vec![], false), 0), Err(MarketError::InvalidTagLength));
    assert_eq!(c.markets.len(), 0);
}

#[test]
fn resolving_without_a_vector_keeps_the_oracle_payout() {
    let mut c = funded_market();
    c.markets[0].payout_numerator = Some(vec![30, 70]);
    c.markets[0].data_request_finalized = true;
    assert_eq!(c.resolute_market(&carol(), 0, None, 2000), Ok(()));
    let m = c.get_market_expect(0).unwrap();
    assert!(m.finalized);
    assert_eq!(m.payout_numerator, Some(vec![30, 70]));
}

#[test]
fn deposits_never_dilute_existing_lps() {
    // supply 3 over reserves [3, 2]; a deposit of 1 keeps every reserve per LP token
    let mut c = funded_market();
    c.markets[0].pool = amm::pool::Pool::new(2, 100, 0);
    c.markets[0].pool.add_liquidity(&alice(), 3, Some(vec![3, 2])).unwrap();
    assert_eq!(c.get_pool_balances(0), Ok(vec![3, 2]));
    let add = AddLiquidityArgs { market_id: 0, weight_indication: None };
    assert_eq!(c.add_liquidity(&carol(), 1, add, &token(), 10), Ok(1));
    assert_eq!(c.get_pool_balances(0), Ok(vec![4, 3]));
    assert_eq!(c.get_pool_token_total_supply(0), Ok(4));
}

#[test]
fn a_new_market_holds_nothing() {
    let mut c = AMMContract::new(gov(), vec![CollateralToken { account_id: token(), decimals: 2 }], oracle());
    c.create_market(payload(yes_no(), false), 0).unwrap();
    assert_eq!(c.get_share_balance(&alice(), 0, 0), Ok(0));
    assert_eq!(c.get_pool_token_balance(0, &alice()), Ok(0));
    assert_eq!(c.get_pool_balances(0), Ok(vec![0, 0]));
}
