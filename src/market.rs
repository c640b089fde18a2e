//! Markets: creation-time validation, the state machine that gates pool operations, and the
//! resolution of markets into payout vectors that claims are settled against.
use vstd::prelude::*;
use crate::outcome::{
    as_ints, resolve_outcome, resolves_to, scalar_tags_valid, signed, sum, valid_scalar_bounds,
    NumberOutcomeTag, Outcome, OutcomeTag, ResolutionError,
};
use crate::pool::{AccountId, Pool, PoolError};
use vstd::utf8::encode_utf8;

verus! {

/// Where the oracle looks for the answer.
#[derive(Clone, Debug)]
pub struct Source {
    pub end_point: String,
    pub source_path: String,
}

/// A collateral asset markets may be created with, and its number of decimals.
#[derive(Clone, Debug)]
pub struct CollateralToken {
    pub account_id: AccountId,
    pub decimals: u32,
}

/// What a market is created from.
#[derive(Debug)]
pub struct CreateMarketArgs {
    pub description: String,
    pub extra_info: String,
    pub outcomes: u16,
    pub outcome_tags: Vec<OutcomeTag>,
    pub categories: Vec<String>,
    pub end_time: u64,
    pub resolution_time: u64,
    pub sources: Vec<Source>,
    pub collateral_token_id: AccountId,
    pub swap_fee: u128,
    pub challenge_period: u64,
    pub is_scalar: bool,
    pub scalar_multiplier: Option<u128>,
}

/// A deposit of liquidity into a market.
#[derive(Debug)]
pub struct AddLiquidityArgs {
    pub market_id: u64,
    pub weight_indication: Option<Vec<u128>>,
}

/// A purchase of outcome shares.
#[derive(Clone, Copy, Debug)]
pub struct BuyArgs {
    pub market_id: u64,
    pub outcome_target: u16,
    pub min_shares_out: u128,
}

/// A transfer the host is to make once the call has succeeded: `amount` of `token` to
/// `receiver`.
#[derive(Debug)]
pub struct BondTransfer {
    pub token: AccountId,
    pub receiver: AccountId,
    pub amount: u128,
}

/// Why a call on the market contract was refused. A refused call changes nothing.
#[derive(Clone, Copy, Debug, PartialEq, Eq)]
pub enum MarketError {
    /// The contract is paused.
    Paused,
    /// There is no market with that id.
    NoMarket,
    /// The market is disabled.
    DisabledMarket,
    /// The market is finalized already.
    FinalizedMarket,
    /// Trading on the market has ended.
    MarketEnded,
    /// The market is not finalized yet.
    NotFinalized,
    /// The oracle has not answered yet.
    DataRequestNotFinalized,
    /// The market's resolution time has not come yet.
    ResolutionTimeNotReached,
    /// The caller lacks the governance or oracle privilege the call needs.
    Unauthorized,
    /// A payout vector does not sum to the collateral denomination.
    InvalidPayoutSum,
    /// A payout vector does not have one entry per outcome.
    InvalidNumerator,
    /// The account has nothing to claim.
    NoPayout,
    /// The deposit came in a token other than the market's collateral.
    WrongCollateral,
    /// The oracle's tags do not name a market id.
    InvalidMarketId,
    /// The collateral token is not accepted.
    InvalidCollateral,
    /// The number of outcome tags differs from the number of outcomes, or there are none.
    InvalidTagLength,
    /// Trading would end at or before now.
    InvalidEndTime,
    /// Resolution would open before trading ends.
    InvalidResolutionTime,
    /// A scalar market needs a multiplier.
    NoMultiplier,
    /// A scalar market has exactly two outcomes.
    Max2Outcomes,
    /// A scalar market's bounds must be numbers.
    NonNumber,
    /// A scalar bound is a negative zero.
    NegativeZero,
    /// A scalar market's bounds are equal, crossed, or too far apart for 128 bits.
    WrongBounds,
    /// The swap fee exceeds 100%.
    InvalidSwapFee,
    /// The pool refused the operation.
    Pool(PoolError),
    /// The answer could not be resolved.
    Resolution(ResolutionError),
}

/// One market: its pool, its outcomes, and where it stands in its lifecycle.
#[derive(Debug)]
pub struct Market {
    /// When trading stops (ms).
    pub end_time: u64,
    /// When the market may be resolved (ms).
    pub resolution_time: u64,
    pub pool: Pool,
    pub collateral_token_id: AccountId,
    pub outcome_tags: Vec<OutcomeTag>,
    /// How payouts are split over the outcomes once resolved, in units of the collateral
    /// denomination; `None` marks an invalid market.
    pub payout_numerator: Option<Vec<u128>>,
    pub finalized: bool,
    pub enabled: bool,
    pub is_scalar: bool,
    pub scalar_multiplier: Option<u128>,
    /// Set once the oracle has answered.
    pub data_request_finalized: bool,
    pub challenge_period: u64,
    pub sources: Vec<Source>,
    pub description: String,
    pub extra_info: String,
    pub payment_token: Option<AccountId>,
    pub validity_bond: Option<u128>,
    pub dr_creator: Option<AccountId>,
}

/// `10^n`.
pub open spec fn pow10(n: nat) -> nat
    decreases n,
{
    if n == 0 {
        1
    } else {
        10 * pow10((n - 1) as nat)
    }
}

pub proof fn lemma_pow10_grows(a: nat, b: nat)
    requires
        a <= b,
    ensures
        1 <= pow10(a) <= pow10(b),
    decreases b,
{
    if b > 0 {
        if a < b {
            lemma_pow10_grows(a, (b - 1) as nat);
        } else {
            lemma_pow10_grows((a - 1) as nat, (b - 1) as nat);
        }
    }
}

/// The decimals of the first whitelisted token named `t`.
pub open spec fn whitelist_decimals(wl: Seq<CollateralToken>, t: Seq<char>) -> Option<u32>
    decreases wl.len(),
{
    if wl.len() == 0 {
        None
    } else if wl[0].account_id@ == t {
        Some(wl[0].decimals)
    } else {
        whitelist_decimals(wl.skip(1), t)
    }
}

/// The value of a string of ASCII decimal digits.
pub open spec fn decimal_value(b: Seq<u8>) -> int
    decreases b.len(),
{
    if b.len() == 0 {
        0
    } else {
        decimal_value(b.drop_last()) * 10 + (b.last() - 48)
    }
}

pub open spec fn all_digits(b: Seq<u8>) -> bool {
    forall|i: int| 0 <= i < b.len() ==> 48 <= #[trigger] b[i] <= 57
}

pub proof fn lemma_decimal_value_grows(b: Seq<u8>, k: int)
    requires
        all_digits(b),
        0 <= k <= b.len(),
    ensures
        0 <= decimal_value(b.take(k)) <= decimal_value(b),
    decreases b.len() - k,
{
    if k < b.len() {
        lemma_decimal_value_grows(b, k + 1);
        assert(b.take(k + 1).drop_last() =~= b.take(k));
        lemma_decimal_value_nonneg(b.take(k));
    } else {
        assert(b.take(k) =~= b);
        lemma_decimal_value_nonneg(b);
    }
}

pub proof fn lemma_decimal_value_nonneg(b: Seq<u8>)
    requires
        all_digits(b),
    ensures
        decimal_value(b) >= 0,
    decreases b.len(),
{
    if b.len() > 0 {
        lemma_decimal_value_nonneg(b.drop_last());
    }
}

/// The market id a string of decimal digits names: `None` for an empty string, any other
/// character, or a value beyond `u64`. Market ids are written as plain digits, so a sign (even
/// the leading `+` that `str::parse` would take) is refused.
pub fn parse_market_id(s: &String) -> (r: Option<u64>)
    ensures
        match r {
            Some(v) => {
                let b = encode_utf8(s@);
                &&& b.len() > 0
                &&& all_digits(b)
                &&& v == decimal_value(b)
            },
            None => {
                let b = encode_utf8(s@);
                b.len() == 0 || !all_digits(b) || decimal_value(b) > u64::MAX
            },
        },
{
    let text = s.as_str();
    let bytes = text.as_bytes();
    let ghost b = encode_utf8(s@);
    assert(text@ == s@);
    if bytes.len() == 0 {
        return None;
    }
    let mut v: u64 = 0;
    let mut i: usize = 0;
    while i < bytes.len()
        invariant
            b == bytes@,
            b == encode_utf8(s@),
            i <= b.len(),
            all_digits(b.take(i as int)),
            v == decimal_value(b.take(i as int)),
        decreases b.len() - i,
    {
        let c = bytes[i];
        if c < 48 || c > 57 {
            assert(!(48 <= b[i as int] <= 57));
            return None;
        }
        assert(b.take(i + 1).drop_last() =~= b.take(i as int));
        assert(all_digits(b.take(i + 1)));
        let digit = (c - 48) as u64;
        assert(decimal_value(b.take(i + 1)) == v * 10 + digit);
        if v > (u64::MAX - digit) / 10 {
            proof {
                assert(v * 10 + digit > u64::MAX) by (nonlinear_arith)
                    requires
                        v > (u64::MAX - digit) / 10,
                        0 <= digit <= 9,
                ;
                if all_digits(b) {
                    lemma_decimal_value_grows(b, i + 1);
                }
            }
            return None;
        }
        proof {
            assert(v * 10 + digit <= u64::MAX) by (nonlinear_arith)
                requires
                    v <= (u64::MAX - digit) / 10,
                    0 <= digit <= 9,
            ;
        }
        v = v * 10 + digit;
        i = i + 1;
    }
    assert(b.take(i as int) =~= b);
    Some(v)
}

/// The two bounds of a scalar market are acceptable at creation: both non-negative with the
/// lower below the upper, both negative with the lower further from zero, or a negative lower
/// with a non-negative upper; their distance fits in 128 bits.
pub open spec fn creation_bounds_ok(lower: NumberOutcomeTag, upper: NumberOutcomeTag) -> bool {
    let order_ok = if !lower.negative && !upper.negative {
        lower.value < upper.value
    } else if !lower.negative && upper.negative {
        false
    } else if lower.negative && upper.negative {
        lower.value > upper.value
    } else {
        true
    };
    order_ok && signed(upper.value, upper.negative) - signed(lower.value, lower.negative)
        <= u128::MAX
}

/// The market id the oracle's tags name: the first tag, read as decimal digits.
pub open spec fn market_id_of(tags: Seq<String>) -> Option<u64> {
    if tags.len() == 0 {
        None
    } else {
        let b = encode_utf8(tags[0]@);
        if b.len() > 0 && all_digits(b) && decimal_value(b) <= u64::MAX {
            Some(decimal_value(b) as u64)
        } else {
            None
        }
    }
}

/// Market `b` is market `a` but for its resolution fields.
pub open spec fn same_but_resolution(a: Market, b: Market) -> bool {
    &&& b.pool == a.pool
    &&& b.end_time == a.end_time
    &&& b.resolution_time == a.resolution_time
    &&& b.collateral_token_id == a.collateral_token_id
    &&& b.outcome_tags == a.outcome_tags
    &&& b.enabled == a.enabled
    &&& b.is_scalar == a.is_scalar
    &&& b.scalar_multiplier == a.scalar_multiplier
    &&& b.challenge_period == a.challenge_period
    &&& b.sources == a.sources
    &&& b.description == a.description
    &&& b.extra_info == a.extra_info
    &&& b.payment_token == a.payment_token
    &&& b.validity_bond == a.validity_bond
    &&& b.dr_creator == a.dr_creator
}

/// The integer view of an optional payout vector.
pub open spec fn numerator_ints(n: Option<Vec<u128>>) -> Option<Seq<int>> {
    match n {
        Some(v) => Some(as_ints(v@)),
        None => None,
    }
}

impl Market {
    /// The market's invariant.
    pub open spec fn wf(&self) -> bool {
        &&& self.pool.wf()
        &&& self.outcome_tags@.len() == self.pool.outcomes
        &&& self.resolution_time >= self.end_time
        &&& self.is_scalar ==> scalar_tags_valid(self.outcome_tags@)
        &&& self.payout_numerator matches Some(v) ==> v@.len() == self.pool.outcomes && sum(
            as_ints(v@),
        ) == self.pool.collateral_denomination
    }
}

/// The market contract: the whitelisted collateral, the privileged accounts, and every market
/// ever created, indexed by id.
#[derive(Debug)]
pub struct AMMContract {
    pub gov: AccountId,
    pub oracle: AccountId,
    pub collateral_whitelist: Vec<CollateralToken>,
    pub markets: Vec<Market>,
    pub paused: bool,
}

impl AMMContract {
    /// The contract's invariant: every market is well formed.
    pub open spec fn wf(&self) -> bool {
        forall|i: int| 0 <= i < self.markets@.len() ==> (#[trigger] self.markets@[i]).wf()
    }

    /// Why `payload` cannot become a market at time `now`, if it cannot.
    pub open spec fn creation_error(&self, payload: CreateMarketArgs, now: u64) -> Option<
        MarketError,
    > {
        let tags = payload.outcome_tags@;
        let decimals = whitelist_decimals(self.collateral_whitelist@, payload.collateral_token_id@);
        if self.paused {
            Some(MarketError::Paused)
        } else if decimals is None || pow10(decimals->Some_0 as nat) > u128::MAX {
            Some(MarketError::InvalidCollateral)
        } else if tags.len() != payload.outcomes || payload.outcomes == 0 {
            Some(MarketError::InvalidTagLength)
        } else if payload.end_time <= now {
            Some(MarketError::InvalidEndTime)
        } else if payload.resolution_time < payload.end_time {
            Some(MarketError::InvalidResolutionTime)
        } else if payload.is_scalar && payload.scalar_multiplier is None {
            Some(MarketError::NoMultiplier)
        } else if payload.is_scalar && tags.len() != 2 {
            Some(MarketError::Max2Outcomes)
        } else if payload.is_scalar && !(tags[0] is Number && tags[1] is Number) {
            Some(MarketError::NonNumber)
        } else if payload.is_scalar && ((tags[0]->Number_0.negative && tags[0]->Number_0.value == 0)
            || (tags[1]->Number_0.negative && tags[1]->Number_0.value == 0)) {
            Some(MarketError::NegativeZero)
        } else if payload.is_scalar && !creation_bounds_ok(tags[0]->Number_0, tags[1]->Number_0) {
            Some(MarketError::WrongBounds)
        } else if payload.swap_fee > pow10(decimals->Some_0 as nat) {
            Some(MarketError::InvalidSwapFee)
        } else {
            None
        }
    }

    /// A contract with no markets.
    pub fn new(gov: AccountId, collateral_whitelist: Vec<CollateralToken>, oracle: AccountId) -> (r:
        AMMContract)
        ensures
            r.wf(),
            r.gov == gov,
            r.oracle == oracle,
            r.collateral_whitelist == collateral_whitelist,
            r.markets@.len() == 0,
            !r.paused,
    {
        AMMContract { gov, oracle, collateral_whitelist, markets: Vec::new(), paused: false }
    }

    fn whitelisted_decimals(&self, token: &AccountId) -> (r: Option<u32>)
        ensures
            r == whitelist_decimals(self.collateral_whitelist@, token@),
    {
        let ghost wl = self.collateral_whitelist@;
        assert(wl.skip(0) =~= wl);
        let mut i: usize = 0;
        while i < self.collateral_whitelist.len()
            invariant
                wl == self.collateral_whitelist@,
                i <= wl.len(),
                whitelist_decimals(wl, token@) == whitelist_decimals(wl.skip(i as int), token@),
            decreases wl.len() - i,
        {
            assert(wl.skip(i as int).skip(1) =~= wl.skip(i + 1));
            assert(wl.skip(i as int)[0] == wl[i as int]);
            if self.collateral_whitelist[i].account_id == *token {
                return Some(self.collateral_whitelist[i].decimals);
            }
            i = i + 1;
        }
        None
    }

    /// `10^decimals`, or `None` where it exceeds `u128`.
    fn denomination_of(decimals: u32) -> (r: Option<u128>)
        ensures
            match r {
                Some(d) => d == pow10(decimals as nat),
                None => pow10(decimals as nat) > u128::MAX,
            },
    {
        let mut d: u128 = 1;
        let mut i: u32 = 0;
        while i < decimals
            invariant
                i <= decimals,
                d == pow10(i as nat),
            decreases decimals - i,
        {
            if d > u128::MAX / 10 {
                proof {
                    lemma_pow10_grows((i + 1) as nat, decimals as nat);
                }
                return None;
            }
            d = d * 10;
            i = i + 1;
        }
        Some(d)
    }

    /// Nothing has changed since `old`.
    pub open spec fn unchanged_from(&self, old: &AMMContract) -> bool {
        &&& self.markets@ == old.markets@
        &&& self.gov == old.gov
        &&& self.oracle == old.oracle
        &&& self.collateral_whitelist == old.collateral_whitelist
        &&& self.paused == old.paused
    }

    /// Every market but `id` is as in `old`, and so are the contract's own fields.
    pub open spec fn only_market_changed(&self, old: &AMMContract, id: int) -> bool {
        &&& self.markets@.len() == old.markets@.len()
        &&& forall|j: int|
            0 <= j < self.markets@.len() && j != id ==> #[trigger] self.markets@[j] == old.markets@[j]
        &&& self.gov == old.gov
        &&& self.oracle == old.oracle
        &&& self.collateral_whitelist == old.collateral_whitelist
        &&& self.paused == old.paused
    }

    /// Market `id` differs from the one in `old` in its pool alone.
    pub open spec fn only_pool_changed(&self, old: &AMMContract, id: int) -> bool {
        let a = old.markets@[id];
        let b = self.markets@[id];
        &&& self.only_market_changed(old, id)
        &&& b.end_time == a.end_time
        &&& b.resolution_time == a.resolution_time
        &&& b.collateral_token_id == a.collateral_token_id
        &&& b.outcome_tags == a.outcome_tags
        &&& b.payout_numerator == a.payout_numerator
        &&& b.finalized == a.finalized
        &&& b.enabled == a.enabled
        &&& b.is_scalar == a.is_scalar
        &&& b.scalar_multiplier == a.scalar_multiplier
        &&& b.data_request_finalized == a.data_request_finalized
        &&& b.challenge_period == a.challenge_period
        &&& b.sources == a.sources
        &&& b.description == a.description
        &&& b.extra_info == a.extra_info
        &&& b.payment_token == a.payment_token
        &&& b.validity_bond == a.validity_bond
        &&& b.dr_creator == a.dr_creator
    }

    /// Why market `id` refuses an operation, if it does: when asked, the contract must not be
    /// paused; the market must exist and be enabled; when asked, it must not be finalized, and
    /// trading must not have ended at time `now`.
    pub open spec fn guard_error(
        &self,
        id: u64,
        check_paused: bool,
        check_open: bool,
        now: Option<u64>,
    ) -> Option<MarketError> {
        if check_paused && self.paused {
            Some(MarketError::Paused)
        } else if id >= self.markets@.len() {
            Some(MarketError::NoMarket)
        } else if !self.markets@[id as int].enabled {
            Some(MarketError::DisabledMarket)
        } else if check_open && self.markets@[id as int].finalized {
            Some(MarketError::FinalizedMarket)
        } else if now matches Some(t) && self.markets@[id as int].end_time <= t {
            Some(MarketError::MarketEnded)
        } else {
            None
        }
    }

    fn guard(&self, id: u64, check_paused: bool, check_open: bool, now: Option<u64>) -> (r: Result<
        usize,
        MarketError,
    >)
        ensures
            match r {
                Ok(i) => self.guard_error(id, check_paused, check_open, now) is None && i == id,
                Err(e) => self.guard_error(id, check_paused, check_open, now) == Some(e),
            },
    {
        if check_paused && self.paused {
            return Err(MarketError::Paused);
        }
        if id >= self.markets.len() as u64 {
            return Err(MarketError::NoMarket);
        }
        let i = id as usize;
        if !self.markets[i].enabled {
            return Err(MarketError::DisabledMarket);
        }
        if check_open && self.markets[i].finalized {
            return Err(MarketError::FinalizedMarket);
        }
        match now {
            Some(t) => {
                if self.markets[i].end_time <= t {
                    return Err(MarketError::MarketEnded);
                }
            },
            None => {},
        }
        Ok(i)
    }

    /// The market with id `market_id`.
    pub fn get_market_expect(&self, market_id: u64) -> (r: Result<&Market, MarketError>)
        ensures
            match r {
                Ok(m) => market_id < self.markets@.len() && *m == self.markets@[market_id as int],
                Err(e) => e == MarketError::NoMarket && market_id >= self.markets@.len(),
            },
    {
        if market_id >= self.markets.len() as u64 {
            return Err(MarketError::NoMarket);
        }
        Ok(&self.markets[market_id as usize])
    }

    proof fn lemma_market_wf(&self, id: int)
        requires
            self.wf(),
            0 <= id < self.markets@.len(),
        ensures
            self.markets@[id].wf(),
    {
        assert(self.markets@[id].wf());
    }

    /// `sender` sells shares of `outcome_target` for `collateral_out` in market `market_id` at
    /// time `now`, handing in at most `max_shares_in`. Returns the collateral to pay `sender`:
    /// `collateral_out` less the fee the pool keeps.
    pub fn sell(
        &mut self,
        sender: &AccountId,
        market_id: u64,
        collateral_out: u128,
        outcome_target: u16,
        max_shares_in: u128,
        now: u64,
    ) -> (r: Result<u128, MarketError>)
        requires
            old(self).wf(),
        ensures
            final(self).wf(),
            match old(self).guard_error(market_id, true, true, Some(now)) {
                Some(e) => r == Err::<u128, MarketError>(e) && *final(self) == *old(self),
                None => {
                    let p = old(self).markets@[market_id as int].pool;
                    match p.sell_trade_error(sender@, collateral_out, outcome_target, max_shares_in) {
                        Some(e) => r == Err::<u128, MarketError>(MarketError::Pool(e)) && final(self).unchanged_from(old(self)),
                        None => {
                            &&& r == Ok::<u128, MarketError>((collateral_out - p.fee_on(collateral_out as int)) as u128)
                            &&& p.sell_post(
                                &final(self).markets@[market_id as int].pool,
                                sender@,
                                collateral_out,
                                outcome_target,
                                max_shares_in,
                                Ok(p.fee_on(collateral_out as int) as u128),
                            )
                            &&& final(self).only_pool_changed(old(self), market_id as int)
                        },
                    }
                },
            },
    {
        let i = match self.guard(market_id, true, true, Some(now)) {
            Ok(i) => i,
            Err(e) => { return Err(e); },
        };
        proof {
            self.lemma_market_wf(i as int);
            self.markets@[i as int].pool.lemma_fee_at_most_amount(collateral_out as int);
        }
        let res = self.markets[i].pool.sell(sender, collateral_out, outcome_target, max_shares_in);
        proof {
            assert forall|j: int| 0 <= j < self.markets@.len() implies (#[trigger] self.markets@[j]).wf() by {
                if j != i {
                    assert(self.markets@[j] == old(self).markets@[j]);
                }
            }
        }
        match res {
            Ok(fee) => Ok(collateral_out - fee),
            Err(e) => {
                assert(self.markets@ =~= old(self).markets@);
                Err(MarketError::Pool(e))
            },
        }
    }

    /// `sender` redeems `to_burn` shares of every outcome of market `market_id`, open at time
    /// `now`, for as much collateral, which is returned for the host to pay out.
    pub fn burn_outcome_tokens_redeem_collateral(
        &mut self,
        sender: &AccountId,
        market_id: u64,
        to_burn: u128,
        now: u64,
    ) -> (r: Result<u128, MarketError>)
        requires
            old(self).wf(),
        ensures
            final(self).wf(),
            match old(self).guard_error(market_id, true, true, Some(now)) {
                Some(e) => r == Err::<u128, MarketError>(e) && *final(self) == *old(self),
                None => {
                    let p = old(self).markets@[market_id as int].pool;
                    match p.burn_error(sender@, to_burn) {
                        Some(e) => r == Err::<u128, MarketError>(MarketError::Pool(e)) && final(self).unchanged_from(old(self)),
                        None => {
                            &&& r == Ok::<u128, MarketError>(to_burn)
                            &&& p.burn_post(&final(self).markets@[market_id as int].pool, sender@, to_burn, Ok(to_burn))
                            &&& final(self).only_pool_changed(old(self), market_id as int)
                        },
                    }
                },
            },
    {
        let i = match self.guard(market_id, true, true, Some(now)) {
            Ok(i) => i,
            Err(e) => { return Err(e); },
        };
        proof {
            self.lemma_market_wf(i as int);
        }
        let res = self.markets[i].pool.burn_outcome_tokens_redeem_collateral(sender, to_burn);
        proof {
            assert forall|j: int| 0 <= j < self.markets@.len() implies (#[trigger] self.markets@[j]).wf() by {
                if j != i {
                    assert(self.markets@[j] == old(self).markets@[j]);
                }
            }
        }
        match res {
            Ok(v) => Ok(v),
            Err(e) => {
                assert(self.markets@ =~= old(self).markets@);
                Err(MarketError::Pool(e))
            },
        }
    }

    /// `sender` burns `total_in` LP tokens of market `market_id`, open at time `now`, receiving
    /// its part of the reserves as outcome shares. Returns the fees earned, for the host to pay
    /// out.
    pub fn exit_pool(
        &mut self,
        sender: &AccountId,
        market_id: u64,
        total_in: u128,
        now: u64,
    ) -> (r: Result<u128, MarketError>)
        requires
            old(self).wf(),
        ensures
            final(self).wf(),
            match old(self).guard_error(market_id, true, true, Some(now)) {
                Some(e) => r == Err::<u128, MarketError>(e) && *final(self) == *old(self),
                None => {
                    let p = old(self).markets@[market_id as int].pool;
                    match p.exit_error(sender@, total_in) {
                        Some(e) => r == Err::<u128, MarketError>(MarketError::Pool(e)) && final(self).unchanged_from(old(self)),
                        None => {
                            &&& r == Ok::<u128, MarketError>(p.fees_withdrawable_of(sender@) as u128)
                            &&& p.exit_post(&final(self).markets@[market_id as int].pool, sender@, total_in, Ok(p.fees_withdrawable_of(sender@) as u128))
                            &&& final(self).only_pool_changed(old(self), market_id as int)
                        },
                    }
                },
            },
    {
        let i = match self.guard(market_id, true, true, Some(now)) {
            Ok(i) => i,
            Err(e) => { return Err(e); },
        };
        proof {
            self.lemma_market_wf(i as int);
            let m = self.markets@[i as int];
            assert(m.pool.wf());
        }
        let res = self.markets[i].pool.exit_pool(sender, total_in);
        proof {
            assert forall|j: int| 0 <= j < self.markets@.len() implies (#[trigger] self.markets@[j]).wf() by {
                if j != i {
                    assert(self.markets@[j] == old(self).markets@[j]);
                }
            }
        }
        match res {
            Ok(v) => Ok(v),
            Err(e) => {
                assert(self.markets@ =~= old(self).markets@);
                Err(MarketError::Pool(e))
            },
        }
    }

    /// `sender` buys shares of `args.outcome_target` in market `args.market_id` with
    /// `collateral_in` of `token`, received at time `now`. Returns the shares bought.
    pub fn buy(
        &mut self,
        sender: &AccountId,
        collateral_in: u128,
        args: BuyArgs,
        token: &AccountId,
        now: u64,
    ) -> (r: Result<u128, MarketError>)
        requires
            old(self).wf(),
        ensures
            final(self).wf(),
            match old(self).guard_error(args.market_id, false, true, Some(now)) {
                Some(e) => r == Err::<u128, MarketError>(e) && *final(self) == *old(self),
                None => {
                    let m = old(self).markets@[args.market_id as int];
                    let p = m.pool;
                    if m.collateral_token_id@ != token@ {
                        r == Err::<u128, MarketError>(MarketError::WrongCollateral) && *final(self) == *old(self)
                    } else {
                        match p.buy_trade_error(sender@, collateral_in, args.outcome_target, args.min_shares_out) {
                            Some(e) => r == Err::<u128, MarketError>(MarketError::Pool(e))
                                && final(self).unchanged_from(old(self)),
                            None => {
                                let bought = p.buy_amount(collateral_in, args.outcome_target);
                                &&& r == Ok::<u128, MarketError>(bought as u128)
                                &&& p.buy_post(
                                    &final(self).markets@[args.market_id as int].pool,
                                    sender@,
                                    collateral_in,
                                    args.outcome_target,
                                    args.min_shares_out,
                                    Ok(bought as u128),
                                )
                                &&& final(self).only_pool_changed(old(self), args.market_id as int)
                            },
                        }
                    }
                },
            },
    {
        let i = match self.guard(args.market_id, false, true, Some(now)) {
            Ok(i) => i,
            Err(e) => { return Err(e); },
        };
        if self.markets[i].collateral_token_id != *token {
            return Err(MarketError::WrongCollateral);
        }
        proof {
            self.lemma_market_wf(i as int);
        }
        let res = self.markets[i].pool.buy(sender, collateral_in, args.outcome_target, args.min_shares_out);
        proof {
            assert forall|j: int| 0 <= j < self.markets@.len() implies (#[trigger] self.markets@[j]).wf() by {
                if j != i {
                    assert(self.markets@[j] == old(self).markets@[j]);
                }
            }
        }
        match res {
            Ok(v) => Ok(v),
            Err(e) => {
                assert(self.markets@ =~= old(self).markets@);
                Err(MarketError::Pool(e))
            },
        }
    }

    /// `sender` adds `total_in` of `token`, received at time `now`, as liquidity to market
    /// `args.market_id`. Returns the LP tokens minted.
    pub fn add_liquidity(
        &mut self,
        sender: &AccountId,
        total_in: u128,
        args: AddLiquidityArgs,
        token: &AccountId,
        now: u64,
    ) -> (r: Result<u128, MarketError>)
        requires
            old(self).wf(),
        ensures
            final(self).wf(),
            match old(self).guard_error(args.market_id, false, true, Some(now)) {
                Some(e) => r == Err::<u128, MarketError>(e) && *final(self) == *old(self),
                None => {
                    let m = old(self).markets@[args.market_id as int];
                    let p = m.pool;
                    if m.collateral_token_id@ != token@ {
                        r == Err::<u128, MarketError>(MarketError::WrongCollateral) && *final(self) == *old(self)
                    } else {
                        match p.add_error(sender@, total_in, args.weight_indication) {
                            Some(e) => r == Err::<u128, MarketError>(MarketError::Pool(e))
                                && final(self).unchanged_from(old(self)),
                            None => {
                                let minted = p.add_minted(total_in);
                                &&& r == Ok::<u128, MarketError>(minted as u128)
                                &&& p.add_post(
                                    &final(self).markets@[args.market_id as int].pool,
                                    sender@,
                                    total_in,
                                    args.weight_indication,
                                    Ok(minted as u128),
                                )
                                &&& final(self).only_pool_changed(old(self), args.market_id as int)
                            },
                        }
                    }
                },
            },
    {
        let i = match self.guard(args.market_id, false, true, Some(now)) {
            Ok(i) => i,
            Err(e) => { return Err(e); },
        };
        if self.markets[i].collateral_token_id != *token {
            return Err(MarketError::WrongCollateral);
        }
        proof {
            self.lemma_market_wf(i as int);
        }
        let res = self.markets[i].pool.add_liquidity(sender, total_in, args.weight_indication);
        proof {
            assert forall|j: int| 0 <= j < self.markets@.len() implies (#[trigger] self.markets@[j]).wf() by {
                if j != i {
                    assert(self.markets@[j] == old(self).markets@[j]);
                }
            }
        }
        match res {
            Ok(v) => Ok(v),
            Err(e) => {
                assert(self.markets@ =~= old(self).markets@);
                Err(MarketError::Pool(e))
            },
        }
    }

    /// Why `sender` cannot resolve market `id` with `numerator` at time `now`, if it cannot: the
    /// market must exist, be enabled and not be finalized, and its resolution time must have
    /// come (so trading has ended); a payout vector must come from governance, sum to
    /// the collateral denomination and have one entry per outcome; without one, the oracle must
    /// have answered.
    pub open spec fn resolute_error(
        &self,
        sender: Seq<char>,
        id: u64,
        numerator: Option<Vec<u128>>,
        now: u64,
    ) -> Option<MarketError> {
        let m = self.markets@[id as int];
        if self.guard_error(id, false, true, None) is Some {
            self.guard_error(id, false, true, None)
        } else if now < m.resolution_time {
            Some(MarketError::ResolutionTimeNotReached)
        } else if numerator is Some && sender != self.gov@ {
            Some(MarketError::Unauthorized)
        } else if numerator is None && !m.data_request_finalized {
            Some(MarketError::DataRequestNotFinalized)
        } else if numerator matches Some(v) && sum(as_ints(v@)) != m.pool.collateral_denomination {
            Some(MarketError::InvalidPayoutSum)
        } else if numerator matches Some(v) && v@.len() != m.pool.outcomes {
            Some(MarketError::InvalidNumerator)
        } else {
            None
        }
    }

    /// Finalizes market `market_id` at time `now`: with `payout_numerator`, a payout vector set
    /// by governance; or, given `None`, with the payout the oracle's answer already stored.
    #[verifier::loop_isolation(false)]
    pub fn resolute_market(
        &mut self,
        sender: &AccountId,
        market_id: u64,
        payout_numerator: Option<Vec<u128>>,
        now: u64,
    ) -> (r: Result<(), MarketError>)
        requires
            old(self).wf(),
        ensures
            final(self).wf(),
            match old(self).resolute_error(sender@, market_id, payout_numerator, now) {
                Some(e) => r == Err::<(), MarketError>(e) && *final(self) == *old(self),
                None => {
                    let a = old(self).markets@[market_id as int];
                    let b = final(self).markets@[market_id as int];
                    &&& r is Ok
                    &&& final(self).only_market_changed(old(self), market_id as int)
                    &&& same_but_resolution(a, b)
                    &&& b.payout_numerator == if payout_numerator is Some {
                        payout_numerator
                    } else {
                        a.payout_numerator
                    }
                    &&& b.finalized
                    &&& b.data_request_finalized == a.data_request_finalized
                },
            },
    {
        let i = match self.guard(market_id, false, true, None) {
            Ok(i) => i,
            Err(e) => { return Err(e); },
        };
        proof {
            self.lemma_market_wf(i as int);
        }
        if now < self.markets[i].resolution_time {
            return Err(MarketError::ResolutionTimeNotReached);
        }
        match &payout_numerator {
            Some(v) => {
                if *sender != self.gov {
                    return Err(MarketError::Unauthorized);
                }
                let denomination = self.markets[i].pool.collateral_denomination;
                proof {
                    crate::pool::lemma_num_prefix_is_sum(v@);
                }
                let mut total: u128 = 0;
                let mut k: usize = 0;
                while k < v.len()
                    invariant
                        k <= v@.len(),
                        total == crate::pool::num_prefix(v@, k as int),
                    decreases v@.len() - k,
                {
                    match total.checked_add(v[k]) {
                        Some(t) => { total = t; },
                        None => {
                            proof {
                                crate::pool::lemma_num_prefix_le(v@, k + 1, v@.len() as int);
                            }
                            return Err(MarketError::InvalidPayoutSum);
                        },
                    }
                    k = k + 1;
                }
                if total != denomination {
                    return Err(MarketError::InvalidPayoutSum);
                }
                if v.len() != self.markets[i].pool.outcomes as usize {
                    return Err(MarketError::InvalidNumerator);
                }
            },
            None => {
                if !self.markets[i].data_request_finalized {
                    return Err(MarketError::DataRequestNotFinalized);
                }
            },
        }
        if payout_numerator.is_some() {
            self.markets[i].payout_numerator = payout_numerator;
        }
        self.markets[i].finalized = true;
        proof {
            assert forall|j: int| 0 <= j < self.markets@.len() implies (#[trigger] self.markets@[j]).wf() by {
                if j != i {
                    assert(self.markets@[j] == old(self).markets@[j]);
                }
            }
        }
        Ok(())
    }

    /// Why the oracle's call cannot resolve a market, if it cannot, before the answer is
    /// looked at: the caller must be the oracle, the tags must name an existing market, and the
    /// market must not be finalized.
    pub open spec fn outcome_error(&self, sender: Seq<char>, tags: Seq<String>) -> Option<MarketError> {
        let id = market_id_of(tags);
        if sender != self.oracle@ {
            Some(MarketError::Unauthorized)
        } else if id is None {
            Some(MarketError::InvalidMarketId)
        } else if id->Some_0 >= self.markets@.len() {
            Some(MarketError::NoMarket)
        } else if self.markets@[id->Some_0 as int].finalized {
            Some(MarketError::FinalizedMarket)
        } else {
            None
        }
    }

    /// The oracle delivers `outcome` for the market its first tag names: the answer is resolved
    /// into the market's payout vector and the market is finalized. Returns the transfer of the
    /// validity bond to the market's creator, where the market records one.
    pub fn set_outcome(&mut self, sender: &AccountId, outcome: Outcome, tags: Vec<String>) -> (r: Result<
        Option<BondTransfer>,
        MarketError,
    >)
        requires
            old(self).wf(),
        ensures
            final(self).wf(),
            match old(self).outcome_error(sender@, tags@) {
                Some(e) => r == Err::<Option<BondTransfer>, MarketError>(e) && *final(self) == *old(self),
                None => {
                    let id = market_id_of(tags@)->Some_0 as int;
                    let a = old(self).markets@[id];
                    let b = final(self).markets@[id];
                    match r {
                        Ok(bond) => {
                            &&& resolves_to(
                                outcome,
                                a.is_scalar,
                                a.outcome_tags@,
                                a.pool.collateral_denomination,
                                Ok(numerator_ints(b.payout_numerator)),
                            )
                            &&& final(self).only_market_changed(old(self), id)
                            &&& same_but_resolution(a, b)
                            &&& b.finalized
                            &&& b.data_request_finalized
                            &&& match bond {
                                Some(t) => a.payment_token == Some(t.token) && a.dr_creator == Some(
                                    t.receiver,
                                ) && t.amount == (match a.validity_bond {
                                    Some(x) => x,
                                    None => 0,
                                }),
                                None => a.payment_token is None || a.dr_creator is None,
                            }
                        },
                        Err(e) => {
                            &&& e matches MarketError::Resolution(re)
                            &&& resolves_to(
                                outcome,
                                a.is_scalar,
                                a.outcome_tags@,
                                a.pool.collateral_denomination,
                                Err(re),
                            )
                            &&& *final(self) == *old(self)
                        },
                    }
                },
            },
    {
        if *sender != self.oracle {
            return Err(MarketError::Unauthorized);
        }
        if tags.len() == 0 {
            return Err(MarketError::InvalidMarketId);
        }
        let id = match parse_market_id(&tags[0]) {
            Some(id) => id,
            None => { return Err(MarketError::InvalidMarketId); },
        };
        if id >= self.markets.len() as u64 {
            return Err(MarketError::NoMarket);
        }
        let i = id as usize;
        if self.markets[i].finalized {
            return Err(MarketError::FinalizedMarket);
        }
        proof {
            self.lemma_market_wf(i as int);
        }
        let resolved = resolve_outcome(
            &outcome,
            self.markets[i].is_scalar,
            &self.markets[i].outcome_tags,
            self.markets[i].pool.collateral_denomination,
        );
        let numerator = match resolved {
            Ok(n) => n,
            Err(e) => { return Err(MarketError::Resolution(e)); },
        };
        self.markets[i].payout_numerator = numerator;
        self.markets[i].data_request_finalized = true;
        self.markets[i].finalized = true;
        proof {
            assert forall|j: int| 0 <= j < self.markets@.len() implies (#[trigger] self.markets@[j]).wf() by {
                if j != i {
                    assert(self.markets@[j] == old(self).markets@[j]);
                }
            }
        }
        let m = &self.markets[i];
        let bond = match (&m.payment_token, &m.dr_creator) {
            (Some(token), Some(creator)) => Some(
                BondTransfer {
                    token: token.clone(),
                    receiver: creator.clone(),
                    amount: match m.validity_bond {
                        Some(x) => x,
                        None => 0,
                    },
                },
            ),
            _ => None,
        };
        Ok(bond)
    }

    /// Why `sender` cannot claim from market `id`, if it cannot: the contract must not be
    /// paused, the market must exist, be enabled and be finalized with a payout vector under
    /// which `sender` is owed something.
    pub open spec fn claim_error(&self, sender: Seq<char>, id: u64) -> Option<MarketError> {
        let m = self.markets@[id as int];
        if self.guard_error(id, true, false, None) is Some {
            self.guard_error(id, true, false, None)
        } else if !m.finalized {
            Some(MarketError::NotFinalized)
        } else if m.payout_numerator is None || m.pool.payout_owed(
            sender,
            m.payout_numerator->Some_0@,
        ) == 0 {
            Some(MarketError::NoPayout)
        } else {
            None
        }
    }

    /// The effect of `sender` claiming from market `market_id`, with result `r`.
    pub open spec fn claim_post(&self, after: &AMMContract, sender: Seq<char>, market_id: u64, r: Result<u128, MarketError>) -> bool {
        match self.claim_error(sender, market_id) {
            Some(e) => r == Err::<u128, MarketError>(e) && *after == *self,
            None => {
                let m = self.markets@[market_id as int];
                let owed = m.pool.payout_owed(sender, m.payout_numerator->Some_0@);
                &&& r == Ok::<u128, MarketError>(owed as u128)
                &&& owed > 0
                &&& m.pool.payout_post(
                    &after.markets@[market_id as int].pool,
                    sender,
                    m.payout_numerator,
                    owed as u128,
                )
                &&& after.only_pool_changed(self, market_id as int)
            },
        }
    }

    /// `sender` claims what its shares in finalized market `market_id` earn; its shares are
    /// cleared, so a second claim finds nothing. Returns the collateral for the host to pay out.
    pub fn claim_earnings(&mut self, sender: &AccountId, market_id: u64) -> (r: Result<u128, MarketError>)
        requires
            old(self).wf(),
        ensures
            final(self).wf(),
            old(self).claim_post(final(self), sender@, market_id, r),
    {
        let i = match self.guard(market_id, true, false, None) {
            Ok(i) => i,
            Err(e) => { return Err(e); },
        };
        if !self.markets[i].finalized {
            return Err(MarketError::NotFinalized);
        }
        proof {
            self.lemma_market_wf(i as int);
        }
        let owed = match &self.markets[i].payout_numerator {
            Some(v) => self.markets[i].pool.calc_payout(sender, v),
            None => { return Err(MarketError::NoPayout); },
        };
        if owed == 0 {
            return Err(MarketError::NoPayout);
        }
        let market = &mut self.markets[i];
        let paid = market.pool.payout(sender, &market.payout_numerator);
        proof {
            assert forall|j: int| 0 <= j < self.markets@.len() implies (#[trigger] self.markets@[j]).wf() by {
                if j != i {
                    assert(self.markets@[j] == old(self).markets@[j]);
                }
            }
        }
        Ok(paid)
    }

    /// The swap fee of market `market_id`'s pool, relative to its collateral denomination.
    pub fn get_pool_swap_fee(&self, market_id: u64) -> (r: Result<u128, MarketError>)
        requires
            self.wf(),
        ensures
            market_id >= self.markets@.len() ==> r == Err::<u128, MarketError>(MarketError::NoMarket),
            market_id < self.markets@.len() ==> {
                let p = self.markets@[market_id as int].pool;
                r == Ok::<u128, MarketError>(p.swap_fee)
            },
    {
        if market_id >= self.markets.len() as u64 {
            return Err(MarketError::NoMarket);
        }
        proof {
            self.lemma_market_wf(market_id as int);
        }
        let pool = &self.markets[market_id as usize].pool;
        Ok(pool.swap_fee)
    }

    /// The fee weight of market `market_id`'s pool.
    pub fn get_fee_pool_weight(&self, market_id: u64) -> (r: Result<u128, MarketError>)
        requires
            self.wf(),
        ensures
            market_id >= self.markets@.len() ==> r == Err::<u128, MarketError>(MarketError::NoMarket),
            market_id < self.markets@.len() ==> {
                let p = self.markets@[market_id as int].pool;
                r == Ok::<u128, MarketError>(p.fee_pool_weight)
            },
    {
        if market_id >= self.markets.len() as u64 {
            return Err(MarketError::NoMarket);
        }
        proof {
            self.lemma_market_wf(market_id as int);
        }
        let pool = &self.markets[market_id as usize].pool;
        Ok(pool.fee_pool_weight)
    }

    /// The LP token supply of market `market_id`'s pool.
    pub fn get_pool_token_total_supply(&self, market_id: u64) -> (r: Result<u128, MarketError>)
        requires
            self.wf(),
        ensures
            market_id >= self.markets@.len() ==> r == Err::<u128, MarketError>(MarketError::NoMarket),
            market_id < self.markets@.len() ==> {
                let p = self.markets@[market_id as int].pool;
                r == Ok::<u128, MarketError>(p.lp_supply)
            },
    {
        if market_id >= self.markets.len() as u64 {
            return Err(MarketError::NoMarket);
        }
        proof {
            self.lemma_market_wf(market_id as int);
        }
        let pool = &self.markets[market_id as usize].pool;
        Ok(pool.lp_supply)
    }

    /// The outcome reserves of market `market_id`'s pool.
    pub fn get_pool_balances(&self, market_id: u64) -> (r: Result<Vec<u128>, MarketError>)
        requires
            self.wf(),
        ensures
            market_id >= self.markets@.len() ==> r == Err::<Vec<u128>, MarketError>(MarketError::NoMarket),
            market_id < self.markets@.len() ==> {
                let p = self.markets@[market_id as int].pool;
                r matches Ok(v) && v@ == p.reserves@
            },
    {
        if market_id >= self.markets.len() as u64 {
            return Err(MarketError::NoMarket);
        }
        proof {
            self.lemma_market_wf(market_id as int);
        }
        let pool = &self.markets[market_id as usize].pool;
        let mut v: Vec<u128> = Vec::new();
        let mut k: usize = 0;
        while k < pool.reserves.len()
            invariant
                k <= pool.reserves@.len(),
                v@ == pool.reserves@.take(k as int),
            decreases pool.reserves@.len() - k,
        {
            v.push(pool.reserves[k]);
            assert(v@ =~= pool.reserves@.take(k + 1));
            k = k + 1;
        }
        assert(v@ =~= pool.reserves@);
        Ok(v)
    }

    /// The LP tokens `account_id` holds in market `market_id`'s pool.
    pub fn get_pool_token_balance(&self, market_id: u64, account_id: &AccountId) -> (r: Result<u128, MarketError>)
        requires
            self.wf(),
        ensures
            market_id >= self.markets@.len() ==> r == Err::<u128, MarketError>(MarketError::NoMarket),
            market_id < self.markets@.len() ==> {
                let p = self.markets@[market_id as int].pool;
                r == Ok::<u128, MarketError>(p.lp_balance_of(account_id@) as u128)
            },
    {
        if market_id >= self.markets.len() as u64 {
            return Err(MarketError::NoMarket);
        }
        proof {
            self.lemma_market_wf(market_id as int);
        }
        let pool = &self.markets[market_id as usize].pool;
        Ok(pool.get_pool_token_balance(account_id))
    }

    /// The spot price of `outcome` in market `market_id`, before fees.
    pub fn get_spot_price_sans_fee(&self, market_id: u64, outcome: u16) -> (r: Result<u128, MarketError>)
        requires
            self.wf(),
        ensures
            market_id >= self.markets@.len() ==> r == Err::<u128, MarketError>(MarketError::NoMarket),
            market_id < self.markets@.len() ==> {
                let p = self.markets@[market_id as int].pool;
                match p.spot_price_error(outcome) {
                    Some(e) => r == Err::<u128, MarketError>(MarketError::Pool(e)),
                    None => r == Ok::<u128, MarketError>((p.spot_price_sans_fee_of(outcome)) as u128),
                }
            },
    {
        if market_id >= self.markets.len() as u64 {
            return Err(MarketError::NoMarket);
        }
        proof {
            self.lemma_market_wf(market_id as int);
        }
        let pool = &self.markets[market_id as usize].pool;
        match pool.get_spot_price_sans_fee(outcome) {
            Ok(v) => Ok(v),
            Err(e) => Err(MarketError::Pool(e)),
        }
    }

    /// The spot price of `outcome` in market `market_id`, fee included.
    pub fn get_spot_price(&self, market_id: u64, outcome: u16) -> (r: Result<u128, MarketError>)
        requires
            self.wf(),
        ensures
            market_id >= self.markets@.len() ==> r == Err::<u128, MarketError>(MarketError::NoMarket),
            market_id < self.markets@.len() ==> {
                let p = self.markets@[market_id as int].pool;
                match p.spot_price_with_fee_error(outcome) {
                    Some(e) => r == Err::<u128, MarketError>(MarketError::Pool(e)),
                    None => r == Ok::<u128, MarketError>((p.spot_price_of(outcome)) as u128),
                }
            },
    {
        if market_id >= self.markets.len() as u64 {
            return Err(MarketError::NoMarket);
        }
        proof {
            self.lemma_market_wf(market_id as int);
        }
        let pool = &self.markets[market_id as usize].pool;
        match pool.get_spot_price(outcome) {
            Ok(v) => Ok(v),
            Err(e) => Err(MarketError::Pool(e)),
        }
    }

    /// The shares of `outcome_target` that `collateral_in` buys in market `market_id`.
    pub fn calc_buy_amount(&self, market_id: u64, collateral_in: u128, outcome_target: u16) -> (r: Result<u128, MarketError>)
        requires
            self.wf(),
        ensures
            market_id >= self.markets@.len() ==> r == Err::<u128, MarketError>(MarketError::NoMarket),
            market_id < self.markets@.len() ==> {
                let p = self.markets@[market_id as int].pool;
                match p.buy_error(collateral_in, outcome_target) {
                    Some(e) => r == Err::<u128, MarketError>(MarketError::Pool(e)),
                    None => r == Ok::<u128, MarketError>((p.buy_amount(collateral_in, outcome_target)) as u128),
                }
            },
    {
        if market_id >= self.markets.len() as u64 {
            return Err(MarketError::NoMarket);
        }
        proof {
            self.lemma_market_wf(market_id as int);
        }
        let pool = &self.markets[market_id as usize].pool;
        match pool.calc_buy_amount(collateral_in, outcome_target) {
            Ok(v) => Ok(v),
            Err(e) => Err(MarketError::Pool(e)),
        }
    }

    /// The shares of `outcome_target` to hand in for `collateral_out` from market `market_id`.
    pub fn calc_sell_collateral_out(&self, market_id: u64, collateral_out: u128, outcome_target: u16) -> (r: Result<u128, MarketError>)
        requires
            self.wf(),
        ensures
            market_id >= self.markets@.len() ==> r == Err::<u128, MarketError>(MarketError::NoMarket),
            market_id < self.markets@.len() ==> {
                let p = self.markets@[market_id as int].pool;
                match p.sell_error(collateral_out, outcome_target) {
                    Some(e) => r == Err::<u128, MarketError>(MarketError::Pool(e)),
                    None => r == Ok::<u128, MarketError>((p.sell_amount(collateral_out, outcome_target)) as u128),
                }
            },
    {
        if market_id >= self.markets.len() as u64 {
            return Err(MarketError::NoMarket);
        }
        proof {
            self.lemma_market_wf(market_id as int);
        }
        let pool = &self.markets[market_id as usize].pool;
        match pool.calc_sell_collateral_out(collateral_out, outcome_target) {
            Ok(v) => Ok(v),
            Err(e) => Err(MarketError::Pool(e)),
        }
    }

    /// The shares of `outcome` that `account_id` holds in market `market_id`.
    pub fn get_share_balance(&self, account_id: &AccountId, market_id: u64, outcome: u16) -> (r: Result<u128, MarketError>)
        requires
            self.wf(),
        ensures
            market_id >= self.markets@.len() ==> r == Err::<u128, MarketError>(MarketError::NoMarket),
            market_id < self.markets@.len() ==> {
                let p = self.markets@[market_id as int].pool;
                r == Ok::<u128, MarketError>(p.share_of(account_id@, outcome as int) as u128)
            },
    {
        if market_id >= self.markets.len() as u64 {
            return Err(MarketError::NoMarket);
        }
        proof {
            self.lemma_market_wf(market_id as int);
        }
        let pool = &self.markets[market_id as usize].pool;
        Ok(pool.get_share_balance(account_id, outcome))
    }

    /// The fees `account_id` may withdraw from market `market_id`.
    pub fn get_fees_withdrawable(&self, market_id: u64, account_id: &AccountId) -> (r: Result<u128, MarketError>)
        requires
            self.wf(),
        ensures
            market_id >= self.markets@.len() ==> r == Err::<u128, MarketError>(MarketError::NoMarket),
            market_id < self.markets@.len() ==> {
                let p = self.markets@[market_id as int].pool;
                r == Ok::<u128, MarketError>(p.fees_withdrawable_of(account_id@) as u128)
            },
    {
        if market_id >= self.markets.len() as u64 {
            return Err(MarketError::NoMarket);
        }
        proof {
            self.lemma_market_wf(market_id as int);
        }
        let pool = &self.markets[market_id as usize].pool;
        Ok(pool.get_fees_withdrawable(account_id))
    }

    /// Creates the market `payload` describes once `sender` has paid the validity bond
    /// `bond_in` in `token` at time `now`; the bond is recorded so that it goes back to
    /// `sender` when the oracle resolves the market. Returns the part of the payment to refund,
    /// which is none.
    pub fn ft_create_market_callback(
        &mut self,
        sender: &AccountId,
        bond_in: u128,
        token: &AccountId,
        payload: CreateMarketArgs,
        now: u64,
    ) -> (r: Result<u128, MarketError>)
        requires
            old(self).wf(),
            old(self).markets@.len() < u64::MAX,
        ensures
            final(self).wf(),
            match old(self).creation_error(payload, now) {
                Some(e) => r == Err::<u128, MarketError>(e) && *final(self) == *old(self),
                None => {
                    let m = final(self).markets@[old(self).markets@.len() as int];
                    &&& r == Ok::<u128, MarketError>(0)
                    &&& final(self).markets@.len() == old(self).markets@.len() + 1
                    &&& forall|i: int| 0 <= i < old(self).markets@.len() ==> final(self).markets@[i] == old(self).markets@[i]
                    &&& m.outcome_tags == payload.outcome_tags
                    &&& m.is_scalar == payload.is_scalar
                    &&& m.end_time == payload.end_time
                    &&& m.resolution_time == payload.resolution_time
                    &&& m.pool.outcomes == payload.outcomes
                    &&& m.payout_numerator is None && !m.finalized && m.enabled
                    &&& m.pool.lp_supply == 0
                    &&& m.pool.holds_nothing()
                    &&& m.payment_token == Some(*token)
                    &&& m.validity_bond == Some(bond_in)
                    &&& m.dr_creator == Some(*sender)
                },
            },
    {
        match self.create_market(payload, now) {
            Ok(_) => {},
            Err(e) => { return Err(e); },
        }
        let id = self.markets.len() - 1;
        let ghost before = *self;
        self.markets[id].payment_token = Some(token.clone());
        self.markets[id].validity_bond = Some(bond_in);
        self.markets[id].dr_creator = Some(sender.clone());
        proof {
            assert forall|j: int| 0 <= j < self.markets@.len() implies (#[trigger] self.markets@[j]).wf() by {
                if j != id {
                    assert(self.markets@[j] == before.markets@[j]);
                }
            }
            assert forall|j: int| 0 <= j < old(self).markets@.len() implies self.markets@[j] == old(self).markets@[j] by {
                assert(self.markets@[j] == before.markets@[j]);
            }
        }
        Ok(0)
    }

    /// Creates a market from `payload` at time `now` (ms), with an empty pool, and returns its
    /// id. The payload is validated first; nothing is created when it fails.
    pub fn create_market(&mut self, payload: CreateMarketArgs, now: u64) -> (r: Result<u64, MarketError>)
        requires
            old(self).wf(),
            old(self).markets@.len() < u64::MAX,
        ensures
            final(self).wf(),
            match r {
                Ok(id) => {
                    let m = final(self).markets@[id as int];
                    &&& old(self).creation_error(payload, now) is None
                    &&& id == old(self).markets@.len()
                    &&& final(self).markets@.len() == old(self).markets@.len() + 1
                    &&& forall|i: int| 0 <= i < id ==> final(self).markets@[i] == old(self).markets@[i]
                    &&& final(self).gov == old(self).gov && final(self).oracle == old(self).oracle
                    &&& final(self).collateral_whitelist == old(self).collateral_whitelist
                    &&& final(self).paused == old(self).paused
                    &&& m.end_time == payload.end_time
                    &&& m.resolution_time == payload.resolution_time
                    &&& m.outcome_tags == payload.outcome_tags
                    &&& m.is_scalar == payload.is_scalar
                    &&& m.scalar_multiplier == payload.scalar_multiplier
                    &&& m.collateral_token_id == payload.collateral_token_id
                    &&& m.payout_numerator is None
                    &&& !m.finalized && m.enabled && !m.data_request_finalized
                    &&& m.pool.outcomes == payload.outcomes
                    &&& m.pool.swap_fee == payload.swap_fee
                    &&& m.pool.collateral_denomination == pow10(
                        whitelist_decimals(old(self).collateral_whitelist@, payload.collateral_token_id@)->Some_0 as nat,
                    )
                    &&& m.pool.lp_supply == 0
                    &&& m.pool.fee_pool_weight == 0
                    &&& m.pool.reserves@ == Seq::new(payload.outcomes as nat, |i: int| 0u128)
                    &&& m.pool.holds_nothing()
                },
                Err(e) => old(self).creation_error(payload, now) == Some(e) && *final(self) == *old(self),
            },
    {
        if self.paused {
            return Err(MarketError::Paused);
        }
        let decimals = match self.whitelisted_decimals(&payload.collateral_token_id) {
            Some(d) => d,
            None => { return Err(MarketError::InvalidCollateral); },
        };
        let denomination = match Self::denomination_of(decimals) {
            Some(d) => d,
            None => { return Err(MarketError::InvalidCollateral); },
        };
        if payload.outcome_tags.len() != payload.outcomes as usize || payload.outcomes == 0 {
            return Err(MarketError::InvalidTagLength);
        }
        if payload.end_time <= now {
            return Err(MarketError::InvalidEndTime);
        }
        if payload.resolution_time < payload.end_time {
            return Err(MarketError::InvalidResolutionTime);
        }
        if payload.is_scalar {
            if payload.scalar_multiplier.is_none() {
                return Err(MarketError::NoMultiplier);
            }
            if payload.outcome_tags.len() != 2 {
                return Err(MarketError::Max2Outcomes);
            }
            let lower = match &payload.outcome_tags[0] {
                OutcomeTag::Number(n) => *n,
                OutcomeTag::String(_) => { return Err(MarketError::NonNumber); },
            };
            let upper = match &payload.outcome_tags[1] {
                OutcomeTag::Number(n) => *n,
                OutcomeTag::String(_) => { return Err(MarketError::NonNumber); },
            };
            if (lower.negative && lower.value == 0) || (upper.negative && upper.value == 0) {
                return Err(MarketError::NegativeZero);
            }
            let order_ok = if !lower.negative && !upper.negative {
                lower.value < upper.value
            } else if !lower.negative && upper.negative {
                false
            } else if lower.negative && upper.negative {
                lower.value > upper.value
            } else {
                upper.value <= u128::MAX - lower.value
            };
            if !order_ok {
                return Err(MarketError::WrongBounds);
            }
            assert(valid_scalar_bounds(lower, upper));
        }
        if payload.swap_fee > denomination {
            return Err(MarketError::InvalidSwapFee);
        }
        proof {
            lemma_pow10_grows(0, decimals as nat);
        }
        let pool = Pool::new(payload.outcomes, denomination, payload.swap_fee);
        let ghost new_pool = pool;
        let id = self.markets.len() as u64;
        let market = Market {
            end_time: payload.end_time,
            resolution_time: payload.resolution_time,
            pool,
            collateral_token_id: payload.collateral_token_id,
            outcome_tags: payload.outcome_tags,
            payout_numerator: None,
            finalized: false,
            enabled: true,
            is_scalar: payload.is_scalar,
            scalar_multiplier: payload.scalar_multiplier,
            data_request_finalized: false,
            challenge_period: payload.challenge_period,
            sources: payload.sources,
            description: payload.description,
            extra_info: payload.extra_info,
            payment_token: None,
            validity_bond: None,
            dr_creator: None,
        };
        self.markets.push(market);
        proof {
            assert forall|i: int| 0 <= i < self.markets@.len() implies (#[trigger] self.markets@[i]).wf() by {
                if i < id {
                    assert(self.markets@[i] == old(self).markets@[i]);
                }
            }
        }
        proof {
            let m = self.markets@[id as int];
            assert(m.pool == new_pool);
            assert(m.pool.reserves@ =~= Seq::new(payload.outcomes as nat, |i: int| 0u128));
        }
        Ok(id)
    }
}

/// Every finalized market with a payout vector pays out exactly its collateral denomination
/// over all outcomes: nothing is lost to rounding.
pub proof fn lemma_finalized_payout_sums_to_denomination(c: AMMContract, id: int)
    requires
        c.wf(),
        0 <= id < c.markets@.len(),
        c.markets@[id].finalized,
        c.markets@[id].payout_numerator is Some,
    ensures
        sum(as_ints(c.markets@[id].payout_numerator->Some_0@)) == c.markets@[id].pool.collateral_denomination,
        c.markets@[id].payout_numerator->Some_0@.len() == c.markets@[id].outcome_tags@.len(),
{
    assert(c.markets@[id].wf());
}

/// A claim clears what the claimant was owed: claiming again right after a successful claim
/// is refused with `NoPayout`.
pub proof fn lemma_second_claim_finds_nothing(
    before: AMMContract,
    after: AMMContract,
    sender: Seq<char>,
    id: u64,
    paid: u128,
)
    requires
        before.wf(),
        before.claim_post(&after, sender, id, Ok(paid)),
    ensures
        after.claim_error(sender, id) == Some(MarketError::NoPayout),
{
}

} // verus!
