use amm::market::{
    AMMContract, AddLiquidityArgs, CollateralToken, CreateMarketArgs, MarketError, Source,
};
use amm::outcome::{AnswerNumberType, AnswerType, NumberOutcomeTag, Outcome, OutcomeTag};

const END_TIME: u64 = 1609951265967;
const RESOLUTION_TIME: u64 = 1619882574000;
const DENOM: u128 = 1_000_000_000_000_000_000_000_000;

fn alice() -> String {
    "alice.near".to_string()
}

fn bob() -> String {
    "bob.near".to_string()
}

fn token() -> String {
    "token.near".to_string()
}

fn oracle() -> String {
    "oracle.near".to_string()
}

fn empty_string() -> String {
    "".to_string()
}

fn empty_string_vec(len: u16) -> Vec<String> {
    let mut tags: Vec<String> = vec![];
    for _i in 0..len {
        tags.push(empty_string());
    }
    tags
}

fn empty_string_outcomes(len: u16) -> Vec<OutcomeTag> {
    let mut tags: Vec<OutcomeTag> = vec![];
    for _i in 0..len {
        tags.push(OutcomeTag::String(empty_string()));
    }
    tags
}

fn number(value: u128, multiplier: u128, negative: bool) -> OutcomeTag {
    OutcomeTag::Number(NumberOutcomeTag { value, multiplier, negative })
}

fn init() -> AMMContract {
    AMMContract::new(bob(), vec![CollateralToken { account_id: token(), decimals: 24 }], oracle())
}

fn args(outcomes: u16, outcome_tags: Vec<OutcomeTag>, is_scalar: bool, scalar_multiplier: Option<u128>) -> CreateMarketArgs {
    CreateMarketArgs {
        description: empty_string(),
        extra_info: empty_string(),
        outcomes,
        outcome_tags,
        categories: empty_string_vec(outcomes),
        end_time: END_TIME,
        resolution_time: RESOLUTION_TIME,
        sources: vec![Source { end_point: "test".to_string(), source_path: "test".to_string() }],
        collateral_token_id: token(),
        swap_fee: 10_u128.pow(24) / 50,
        challenge_period: 1,
        is_scalar,
        scalar_multiplier,
    }
}

fn scalar_outcome(tags: Vec<OutcomeTag>, multiplier: u128, value: u128, negative: bool) -> Option<Vec<u128>> {
    let mut contract = init();
    contract.create_market(args(2, tags, true, Some(multiplier)), 0).unwrap();
    let answer = AnswerNumberType { multiplier, negative, value };
    contract
        .set_outcome(&oracle(), Outcome::Answer(AnswerType::Number(answer)), vec!["0".to_string()])
        .unwrap();
    let market = contract.get_market_expect(0).unwrap();
    assert!(market.finalized, "Market should be finalized");
    market.payout_numerator.clone()
}

#[test]
fn basic_create_market() {
    let mut contract = init();
    let id = contract.create_market(args(2, empty_string_outcomes(2), false, None), 0);
    assert_eq!(id, Ok(0));
    let market = contract.get_market_expect(0).unwrap();
    assert!(market.enabled);
    assert!(!market.finalized);
    assert_eq!(market.pool.collateral_denomination, DENOM);
    assert_eq!(contract.get_pool_swap_fee(0), Ok(DENOM / 50));
}

#[test]
fn add_liquidity_after_resolution() {
    let mut contract = init();
    let market_id = contract.create_market(args(2, empty_string_outcomes(2), false, None), 0).unwrap();
    contract.markets[0].enabled = true;
    let add_liquidity_args = AddLiquidityArgs { market_id, weight_indication: Some(vec![2, 1]) };
    let res = contract.add_liquidity(&alice(), 10000000000000000000, add_liquidity_args, &token(), RESOLUTION_TIME);
    assert_eq!(res, Err(MarketError::MarketEnded));
}

#[test]
fn invalid_resolution_time() {
    let mut contract = init();
    let mut payload = args(2, empty_string_outcomes(2), false, None);
    payload.resolution_time = 1609951265965;
    assert_eq!(contract.create_market(payload, 0), Err(MarketError::InvalidResolutionTime));
    assert_eq!(contract.markets.len(), 0);
}

#[test]
fn invalid_outcome() {
    let mut contract = init();
    contract.create_market(args(2, empty_string_outcomes(2), false, None), 0).unwrap();
    contract.set_outcome(&oracle(), Outcome::Invalid, vec!["0".to_string()]).unwrap();
    let market = contract.get_market_expect(0).unwrap();
    assert!(market.finalized, "Market should be finalized");
    assert_eq!(market.payout_numerator, None, "Numerator should be None");
}

#[test]
fn valid_categorical_outcome() {
    let mut contract = init();
    let tags = vec![OutcomeTag::String("YES".to_string()), OutcomeTag::String("NO".to_string())];
    contract.create_market(args(2, tags, false, None), 0).unwrap();
    contract
        .set_outcome(&oracle(), Outcome::Answer(AnswerType::String("NO".to_string())), vec!["0".to_string()])
        .unwrap();
    let market = contract.get_market_expect(0).unwrap();
    assert!(market.finalized, "Market should be finalized");
    assert_eq!(market.payout_numerator, Some(vec![0, 1000000000000000000000000]), "Numerator should be set");
}

#[test]
fn valid_negative_scalar_market() {
    let tags = vec![number(50, 1, true), number(50, 1, false)];
    assert_eq!(
        scalar_outcome(tags, 1, 0, false),
        Some(vec![500000000000000000000000, 500000000000000000000000]),
        "Numerator should be set"
    );
}

#[test]
fn negative_scalar_out_of_lower_bounds() {
    let tags = vec![number(10, 1, true), number(20, 1, false)];
    assert_eq!(scalar_outcome(tags, 1, 15, true), Some(vec![1000000000000000000000000, 0]), "Numerator should be set");
}

#[test]
fn negative_scalar_out_of_upper_bounds() {
    let tags = vec![number(10, 1, true), number(20, 1, false)];
    assert_eq!(scalar_outcome(tags, 1, 25, false), Some(vec![0, 1000000000000000000000000]), "Numerator should be set");
}

#[test]
fn full_negative_scalar() {
    let tags = vec![number(200, 1, true), number(100, 1, true)];
    assert_eq!(
        scalar_outcome(tags, 1, 175, true),
        Some(vec![750000000000000000000000, 250000000000000000000000]),
        "Numerator should be set"
    );
}

#[test]
fn full_negative_scalar_out_of_upper_bounds() {
    let tags = vec![number(200, 1, true), number(100, 1, true)];
    assert_eq!(scalar_outcome(tags, 1, 175, false), Some(vec![0, 1000000000000000000000000]), "Numerator should be set");
}

#[test]
fn full_negative_scalar_out_of_lower_bounds() {
    let tags = vec![number(200, 1, true), number(100, 1, true)];
    assert_eq!(scalar_outcome(tags, 1, 201, true), Some(vec![1000000000000000000000000, 0]), "Numerator should be set");
}

#[test]
fn valid_scalar_large_range() {
    let tags = vec![number(50000000000, 100000000000, false), number(150000000000, 100000000000, false)];
    assert_eq!(
        scalar_outcome(tags, 100000000000, 70369216342, false),
        Some(vec![796307836580000000000000, 203692163420000000000000]),
        "Numerator should be set"
    );
}

#[test]
fn valid_scalar_complex_floating_answer() {
    let tags = vec![number(0, 1000, false), number(1000, 1000, false)];
    assert_eq!(
        scalar_outcome(tags, 1000, 268, false),
        Some(vec![732000000000000000000000, 268000000000000000000000]),
        "Numerator should be set"
    );
}

#[test]
fn valid_scalar_floating_answer() {
    let tags = vec![number(0, 100, false), number(500, 100, false)];
    assert_eq!(
        scalar_outcome(tags, 100, 250, false),
        Some(vec![500000000000000000000000, 500000000000000000000000]),
        "Numerator should be set"
    );
}

#[test]
fn valid_scalar_outcome_price_over_lower_bound() {
    let tags = vec![number(25, 1, false), number(50, 1, false)];
    assert_eq!(scalar_outcome(tags, 1, 24, false), Some(vec![1000000000000000000000000, 0]), "Numerator should be set");
}

#[test]
fn valid_scalar_outcome_price_over_upper_bound() {
    let tags = vec![number(0, 1, false), number(50, 1, false)];
    assert_eq!(scalar_outcome(tags, 1, 55, false), Some(vec![0, 1000000000000000000000000]), "Numerator should be set");
}

#[test]
fn negative_scalar_outcome_with_positive_bounds() {
    let tags = vec![number(0, 1, false), number(50, 1, false)];
    assert_eq!(scalar_outcome(tags, 1, 55, true), Some(vec![1000000000000000000000000, 0]), "Numerator should be set");
}

#[test]
fn positive_scalar_outcome_with_negative_bounds() {
    let tags = vec![number(50, 1, true), number(1, 1, true)];
    assert_eq!(scalar_outcome(tags, 1, 49, false), Some(vec![0, 1000000000000000000000000]), "Numerator should be set");
}

#[test]
fn resolute_after_resolution_time() {
    let mut contract = init();
    let market_id = contract.create_market(args(2, empty_string_outcomes(2), false, None), 0).unwrap();
    contract.markets[0].enabled = true;
    let add_liquidity_args = AddLiquidityArgs { market_id, weight_indication: Some(vec![2, 1]) };
    contract.add_liquidity(&alice(), 10000000000000000000, add_liquidity_args, &token(), 0).unwrap();
    let res = contract.resolute_market(&bob(), market_id, Some(vec![1000000000000000000000000, 0]), RESOLUTION_TIME);
    assert_eq!(res, Ok(()));
    assert!(contract.get_market_expect(market_id).unwrap().finalized);
}

#[test]
fn market_too_many_outcomes() {
    let mut contract = init();
    let tags = vec![number(200, 1, false), number(300, 1, false), number(400, 1, false)];
    assert_eq!(contract.create_market(args(3, tags, true, Some(1)), 0), Err(MarketError::Max2Outcomes));
    assert_eq!(contract.markets.len(), 0);
}

#[test]
fn market_negative_zero_upper_bound() {
    let mut contract = init();
    let tags = vec![number(1, 1, true), number(0, 1, true)];
    assert_eq!(contract.create_market(args(2, tags, true, Some(1)), 0), Err(MarketError::NegativeZero));
    assert_eq!(contract.markets.len(), 0);
}

#[test]
fn market_negative_zero_lower_bound() {
    let mut contract = init();
    let tags = vec![number(0, 1, true), number(10, 1, false)];
    assert_eq!(contract.create_market(args(2, tags, true, Some(1)), 0), Err(MarketError::NegativeZero));
}

#[test]
fn market_wrong_outcome_type() {
    let mut contract = init();
    let tags = vec![number(200, 1, false), OutcomeTag::String("test".to_string())];
    assert_eq!(contract.create_market(args(2, tags, true, Some(1)), 0), Err(MarketError::NonNumber));
}

#[test]
fn create_scalar_market_out_of_bounds() {
    let mut contract = init();
    let tags = vec![number(200, 1, false), number(100, 1, false)];
    assert_eq!(contract.create_market(args(2, tags, true, Some(1)), 0), Err(MarketError::WrongBounds));
    assert_eq!(contract.markets.len(), 0);
}

#[test]
fn market_out_of_bounds_upper_bound_is_negative() {
    let mut contract = init();
    let tags = vec![number(200, 1, false), number(100, 1, true)];
    assert_eq!(contract.create_market(args(2, tags, true, Some(1)), 0), Err(MarketError::WrongBounds));
}

#[test]
fn market_out_of_bounds_upper_and_lower_bound_is_negative() {
    let mut contract = init();
    let tags = vec![number(100, 1, true), number(200, 1, true)];
    assert_eq!(contract.create_market(args(2, tags, true, Some(1)), 0), Err(MarketError::WrongBounds));
}

#[test]
fn market_out_of_bounds_upper_and_lower_bound_is_same_negative() {
    let mut contract = init();
    let tags = vec![number(100, 1, true), number(100, 1, true)];
    assert_eq!(contract.create_market(args(2, tags, true, Some(1)), 0), Err(MarketError::WrongBounds));
}

#[test]
fn market_out_of_bounds_upper_and_lower_bound_is_same_positive() {
    let mut contract = init();
    let tags = vec![number(100, 1, false), number(100, 1, false)];
    assert_eq!(contract.create_market(args(2, tags, true, Some(1)), 0), Err(MarketError::WrongBounds));
}

#[test]
fn valid_positive_market() {
    let mut contract = init();
    let tags = vec![number(50, 1, false), number(100, 1, false)];
    assert_eq!(contract.create_market(args(2, tags, true, Some(1)), 0), Ok(0));
}

#[test]
fn valid_negative_market() {
    let mut contract = init();
    let tags = vec![number(100, 1, true), number(50, 1, true)];
    assert_eq!(contract.create_market(args(2, tags, true, Some(1)), 0), Ok(0));
}

#[test]
fn valid_half_negative_market() {
    let mut contract = init();
    let tags = vec![number(100, 1, true), number(50, 1, false)];
    assert_eq!(contract.create_market(args(2, tags, true, Some(1)), 0), Ok(0));
}
