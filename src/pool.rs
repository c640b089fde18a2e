//! The liquidity pool: a bonding curve over outcome reserves backed by one collateral asset, a
//! ledger of LP tokens, outcome shares and withdrawn fees per account, and the fee accumulator.
use vstd::prelude::*;
use crate::math::{
    checked_mul_div, checked_mul_div_ceil, mul_div_ceil, mul_div_ceil_spec, mul_div_floor,
    mul_div_spec,
};

verus! {

/// Account names as the host reports them.
pub type AccountId = String;

/// What one account holds in a pool.
#[derive(Debug)]
pub struct LedgerEntry {
    pub account: AccountId,
    pub lp_balance: u128,
    pub withdrawn_fees: u128,
    pub shares: Vec<u128>,
}

/// Why a pool operation was refused. A refused operation leaves the pool as it was.
#[derive(Clone, Copy, Debug, PartialEq, Eq)]
pub enum PoolError {
    /// The outcome index is not one of the pool's outcomes.
    InvalidOutcome,
    /// The pool holds no liquidity to trade against.
    NoLiquidity,
    /// A sale would take a reserve down to zero or below.
    InsufficientLiquidity,
    /// Seeding an empty pool needs one positive weight per outcome.
    InvalidWeights,
    /// A deposit too small to seed every reserve or to mint any LP token.
    AmountTooSmall,
    /// The trade is worse than the bound the caller set.
    SlippageExceeded,
    /// The account holds fewer LP tokens or shares than the operation takes.
    InsufficientBalance,
    /// A balance or reserve would exceed 128 bits.
    Overflow,
    /// The reserves are too small against the denomination to give a price.
    PriceUndefined,
}

pub open spec fn lp_sum(s: Seq<LedgerEntry>) -> int
    decreases s.len(),
{
    if s.len() == 0 {
        0
    } else {
        lp_sum(s.drop_last()) + s.last().lp_balance
    }
}

pub open spec fn unique_accounts(s: Seq<LedgerEntry>) -> bool {
    forall|i: int, j: int|
        0 <= i < s.len() && 0 <= j < s.len() && i != j ==> #[trigger] s[i].account@
            != #[trigger] s[j].account@
}

/// Where `a` stands in the ledger, or -1.
pub open spec fn index_of(s: Seq<LedgerEntry>, a: Seq<char>) -> int {
    if exists|i: int| 0 <= i < s.len() && #[trigger] s[i].account@ == a {
        choose|i: int| 0 <= i < s.len() && #[trigger] s[i].account@ == a
    } else {
        -1
    }
}

pub open spec fn seq_all_positive(s: Seq<u128>) -> bool {
    forall|i: int| 0 <= i < s.len() ==> #[trigger] s[i] > 0
}

pub open spec fn seq_all_zero(s: Seq<u128>) -> bool {
    forall|i: int| 0 <= i < s.len() ==> #[trigger] s[i] == 0
}

/// The largest element of a sequence (0 when empty).
pub open spec fn seq_max(s: Seq<u128>) -> int
    decreases s.len(),
{
    if s.len() == 0 {
        0
    } else {
        let m = seq_max(s.drop_last());
        if s.last() > m {
            s.last() as int
        } else {
            m
        }
    }
}

pub proof fn lemma_index_of(s: Seq<LedgerEntry>, a: Seq<char>, i: int)
    requires
        unique_accounts(s),
        0 <= i < s.len(),
        s[i].account@ == a,
    ensures
        index_of(s, a) == i,
{
    assert(exists|j: int| 0 <= j < s.len() && #[trigger] s[j].account@ == a);
    let j = index_of(s, a);
    assert(s[j].account@ == a);
}

pub proof fn lemma_index_absent(s: Seq<LedgerEntry>, a: Seq<char>)
    requires
        forall|i: int| 0 <= i < s.len() ==> #[trigger] s[i].account@ != a,
    ensures
        index_of(s, a) == -1,
{
}

pub proof fn lemma_lp_sum_update(s: Seq<LedgerEntry>, i: int, e: LedgerEntry)
    requires
        0 <= i < s.len(),
    ensures
        lp_sum(s.update(i, e)) == lp_sum(s) - s[i].lp_balance + e.lp_balance,
    decreases s.len(),
{
    let t = s.update(i, e);
    if i == s.len() - 1 {
        assert(t.drop_last() =~= s.drop_last());
    } else {
        lemma_lp_sum_update(s.drop_last(), i, e);
        assert(t.drop_last() =~= s.drop_last().update(i, e));
    }
}

pub proof fn lemma_lp_sum_push(s: Seq<LedgerEntry>, e: LedgerEntry)
    ensures
        lp_sum(s.push(e)) == lp_sum(s) + e.lp_balance,
{
    assert(s.push(e).drop_last() =~= s);
}

pub proof fn lemma_lp_sum_nonneg(s: Seq<LedgerEntry>)
    ensures
        lp_sum(s) >= 0,
    decreases s.len(),
{
    if s.len() > 0 {
        lemma_lp_sum_nonneg(s.drop_last());
    }
}

pub proof fn lemma_lp_entry_le_sum(s: Seq<LedgerEntry>, i: int)
    requires
        0 <= i < s.len(),
    ensures
        s[i].lp_balance <= lp_sum(s),
    decreases s.len(),
{
    lemma_lp_sum_nonneg(s.drop_last());
    if i < s.len() - 1 {
        lemma_lp_entry_le_sum(s.drop_last(), i);
    }
}

pub proof fn lemma_seq_max(s: Seq<u128>)
    ensures
        forall|i: int| 0 <= i < s.len() ==> s[i] <= seq_max(s),
        s.len() > 0 ==> exists|i: int| 0 <= i < s.len() && s[i] == seq_max(s),
        0 <= seq_max(s) <= u128::MAX,
    decreases s.len(),
{
    if s.len() > 0 {
        lemma_seq_max(s.drop_last());
        assert forall|i: int| 0 <= i < s.len() implies s[i] <= seq_max(s) by {
            if i < s.len() - 1 {
                assert(s[i] == s.drop_last()[i]);
            }
        }
        if s.last() <= seq_max(s.drop_last()) && s.len() > 1 {
            let j = choose|j: int|
                0 <= j < s.drop_last().len() && s.drop_last()[j] == seq_max(s.drop_last());
            assert(s[j] == seq_max(s));
        }
    }
}

/// Reserve of the bought outcome after the other reserves `0..k` have each grown by `net`: the
/// product of reserves stays put, each step rounded up in the pool's favour.
pub open spec fn buy_ending(r: Seq<u128>, t: int, net: int, k: int) -> int
    decreases k,
{
    if k <= 0 {
        r[t] as int
    } else {
        let e = buy_ending(r, t, net, k - 1);
        if k - 1 == t {
            e
        } else {
            mul_div_ceil_spec(e, r[k - 1] as int, r[k - 1] + net)
        }
    }
}

/// Reserve of the sold outcome after the other reserves `0..k` have each shrunk by `out`.
pub open spec fn sell_ending(r: Seq<u128>, t: int, out: int, k: int) -> int
    decreases k,
{
    if k <= 0 {
        r[t] as int
    } else {
        let e = sell_ending(r, t, out, k - 1);
        if k - 1 == t {
            e
        } else {
            mul_div_ceil_spec(e, r[k - 1] as int, r[k - 1] - out)
        }
    }
}

pub proof fn lemma_ceil_positive(a: int, b: int, c: int)
    requires
        a >= 1,
        b >= 1,
        c >= 1,
    ensures
        mul_div_ceil_spec(a, b, c) >= 1,
{
    assert(a * b >= 1) by (nonlinear_arith)
        requires
            a >= 1,
            b >= 1,
    ;
    assert((a * b + c - 1) / c >= c / c) by (nonlinear_arith)
        requires
            a * b + c - 1 >= c,
            c >= 1,
    ;
}

pub proof fn lemma_ceil_at_least(a: int, b: int, c: int)
    requires
        a >= 0,
        b >= c,
        c >= 1,
    ensures
        mul_div_ceil_spec(a, b, c) >= a,
{
    assert(a * b + c - 1 >= a * c) by (nonlinear_arith)
        requires
            a >= 0,
            b >= c,
            c >= 1,
    ;
    assert((a * b + c - 1) / c >= (a * c) / c) by (nonlinear_arith)
        requires
            a * b + c - 1 >= a * c,
            c >= 1,
    ;
    assert((a * c) / c == a) by (nonlinear_arith)
        requires
            c >= 1,
    ;
}

/// While every other reserve exceeds `out`, the sold outcome's reserve only grows.
pub proof fn lemma_sell_ending_grows(r: Seq<u128>, t: int, out: int, k: int, m: int)
    requires
        0 <= t < r.len(),
        0 <= k <= m <= r.len(),
        out >= 0,
        forall|i: int| 0 <= i < r.len() && i != t ==> #[trigger] r[i] > out,
    ensures
        r[t] <= sell_ending(r, t, out, k) <= sell_ending(r, t, out, m),
    decreases m,
{
    if m > 0 {
        if k < m {
            lemma_sell_ending_grows(r, t, out, k, m - 1);
        } else {
            lemma_sell_ending_grows(r, t, out, m - 1, m - 1);
        }
        if m - 1 != t {
            lemma_ceil_at_least(sell_ending(r, t, out, m - 1), r[m - 1] as int, r[m - 1] - out);
        }
    }
}

/// Replacing the holdings of entry `i` leaves every other account's holdings alone.
pub proof fn lemma_entry_frame(before: Pool, after: Pool, i: int)
    requires
        unique_accounts(before.ledger@),
        0 <= i < before.ledger@.len(),
        after.ledger@.len() == before.ledger@.len(),
        forall|j: int|
            0 <= j < before.ledger@.len() ==> (#[trigger] after.ledger@[j]).account@
                == before.ledger@[j].account@,
        forall|j: int| 0 <= j < before.ledger@.len() && j != i ==> after.ledger@[j] == before.ledger@[j],
    ensures
        unique_accounts(after.ledger@),
        index_of(after.ledger@, before.ledger@[i].account@) == i,
        after.others_unchanged(&before, before.ledger@[i].account@),
{
    let a = before.ledger@[i].account@;
    assert forall|x: int, y: int|
        0 <= x < after.ledger@.len() && 0 <= y < after.ledger@.len() && x != y implies #[trigger] after.ledger@[x].account@
        != #[trigger] after.ledger@[y].account@ by {
        assert(after.ledger@[x].account@ == before.ledger@[x].account@);
        assert(after.ledger@[y].account@ == before.ledger@[y].account@);
    }
    lemma_index_of(after.ledger@, a, i);
    assert forall|b: Seq<char>| b != a implies #[trigger] after.same_holdings(&before, b) by {
        let j = index_of(before.ledger@, b);
        if j >= 0 {
            assert(before.ledger@[j].account@ == b);
            assert(after.ledger@[j].account@ == b);
            lemma_index_of(after.ledger@, b, j);
        } else {
            assert forall|k: int| 0 <= k < after.ledger@.len() implies #[trigger] after.ledger@[k].account@
                != b by {
                assert(after.ledger@[k].account@ == before.ledger@[k].account@);
                if before.ledger@[k].account@ == b {
                    lemma_index_of(before.ledger@, b, k);
                }
            }
            lemma_index_absent(after.ledger@, b);
        }
    }
}

/// The reserves after a trade on outcome `t`: every other reserve moves by `add - sub`, the
/// traded one becomes `target`.
fn traded_reserves(v: &Vec<u128>, t: usize, add: u128, sub: u128, target: u128) -> (r: Vec<u128>)
    requires
        forall|i: int| 0 <= i < v@.len() && i != t ==> 0 <= #[trigger] v@[i] + add - sub <= u128::MAX,
    ensures
        r@ == Seq::new(v@.len(), |i: int| if i == t { target } else { (v@[i] + add - sub) as u128 }),
{
    let mut r: Vec<u128> = Vec::new();
    let mut i: usize = 0;
    while i < v.len()
        invariant
            i <= v@.len(),
            r@.len() == i,
            forall|j: int| 0 <= j < v@.len() && j != t ==> 0 <= #[trigger] v@[j] + add - sub <= u128::MAX,
            forall|j: int| 0 <= j < i ==> #[trigger] r@[j] == if j == t { target } else { (v@[j] + add - sub) as u128 },
        decreases v@.len() - i,
    {
        if i == t {
            r.push(target);
        } else {
            if add >= sub {
                r.push(v[i] + (add - sub));
            } else {
                r.push(v[i] - (sub - add));
            }
        }
        i = i + 1;
    }
    assert(r@ =~= Seq::new(v@.len(), |i: int| if i == t { target } else { (v@[i] + add - sub) as u128 }));
    r
}

/// The weights handed in, or none.
pub open spec fn weights_seq(w: Option<Vec<u128>>) -> Seq<u128> {
    match w {
        Some(v) => v@,
        None => Seq::empty(),
    }
}

/// The largest element of `v`.
fn vec_max(v: &Vec<u128>) -> (r: u128)
    ensures
        r == seq_max(v@),
{
    let mut m: u128 = 0;
    let mut i: usize = 0;
    while i < v.len()
        invariant
            i <= v@.len(),
            m == seq_max(v@.take(i as int)),
        decreases v@.len() - i,
    {
        assert(v@.take(i + 1).drop_last() =~= v@.take(i as int));
        if v[i] > m {
            m = v[i];
        }
        i = i + 1;
    }
    assert(v@.take(i as int) =~= v@);
    m
}

/// Whether every element of `v` can grow by `x` within 128 bits.
fn all_fit_after_adding(v: &Vec<u128>, x: u128) -> (r: bool)
    ensures
        r == forall|i: int| 0 <= i < v@.len() ==> #[trigger] v@[i] + x <= u128::MAX,
{
    let mut i: usize = 0;
    while i < v.len()
        invariant
            i <= v@.len(),
            forall|j: int| 0 <= j < i ==> #[trigger] v@[j] + x <= u128::MAX,
        decreases v@.len() - i,
    {
        if v[i] > u128::MAX - x {
            return false;
        }
        i = i + 1;
    }
    true
}

/// `max(a - b, 0)`.
pub open spec fn sub_floor_zero(a: int, b: int) -> int {
    if a > b {
        a - b
    } else {
        0
    }
}

/// The collateral that shares `b` earn under payout vector `v` over outcomes `0..k`, each
/// outcome's part rounded down.
pub open spec fn payout_sum(b: Seq<int>, v: Seq<u128>, d: int, k: int) -> int
    decreases k,
{
    if k <= 0 {
        0
    } else {
        payout_sum(b, v, d, k - 1) + mul_div_spec(b[k - 1], v[k - 1] as int, d)
    }
}

pub open spec fn num_prefix(v: Seq<u128>, k: int) -> int
    decreases k,
{
    if k <= 0 {
        0
    } else {
        num_prefix(v, k - 1) + v[k - 1]
    }
}

pub proof fn lemma_num_prefix_le(v: Seq<u128>, k: int, m: int)
    requires
        0 <= k <= m <= v.len(),
    ensures
        0 <= num_prefix(v, k) <= num_prefix(v, m),
    decreases m,
{
    if m > 0 {
        if k < m {
            lemma_num_prefix_le(v, k, m - 1);
        } else {
            lemma_num_prefix_le(v, k - 1, m - 1);
        }
    }
}

/// A payout vector's running total matches its sum over all outcomes.
pub proof fn lemma_num_prefix_is_sum(v: Seq<u128>)
    ensures
        num_prefix(v, v.len() as int) == crate::outcome::sum(crate::outcome::as_ints(v)),
    decreases v.len(),
{
    if v.len() > 0 {
        let w = v.drop_last();
        lemma_num_prefix_is_sum(w);
        assert(crate::outcome::as_ints(v).drop_last() =~= crate::outcome::as_ints(w));
        assert forall|k: int| 0 <= k <= w.len() implies num_prefix(w, k) == num_prefix(v, k) by {
            lemma_num_prefix_same(w, v, k);
        }
    }
}

proof fn lemma_num_prefix_same(w: Seq<u128>, v: Seq<u128>, k: int)
    requires
        0 <= k <= w.len(),
        w.len() <= v.len(),
        forall|i: int| 0 <= i < w.len() ==> w[i] == v[i],
    ensures
        num_prefix(w, k) == num_prefix(v, k),
    decreases k,
{
    if k > 0 {
        lemma_num_prefix_same(w, v, k - 1);
    }
}

/// With no shares the payout is nothing.
pub proof fn lemma_payout_sum_zero(b: Seq<int>, v: Seq<u128>, d: int, k: int)
    requires
        d > 0,
        forall|i: int| 0 <= i < k ==> #[trigger] b[i] == 0,
    ensures
        payout_sum(b, v, d, k) == 0,
    decreases k,
{
    if k > 0 {
        lemma_payout_sum_zero(b, v, d, k - 1);
        assert(mul_div_spec(b[k - 1], v[k - 1] as int, d) == 0) by (nonlinear_arith)
            requires
                b[k - 1] == 0,
                d > 0,
        ;
    }
}

/// The odds weight of outcome `k` after reserves `0..m`: one unit of the denomination scaled by
/// every other reserve taken as a fraction of the denomination, rounded down at each step.
pub open spec fn odds_step(r: Seq<u128>, k: int, d: int, m: int) -> int
    decreases m,
{
    if m <= 0 {
        d
    } else {
        let w = odds_step(r, k, d, m - 1);
        if m - 1 == k {
            w
        } else {
            mul_div_spec(w, r[m - 1] as int, d)
        }
    }
}

/// Every step of outcome `k`'s odds weight over reserves `0..m` fits in 128 bits.
pub open spec fn odds_fit(r: Seq<u128>, k: int, d: int, m: int) -> bool {
    forall|j: int| 0 <= j <= m ==> #[trigger] odds_step(r, k, d, j) <= u128::MAX
}

/// The sum of the odds weights of outcomes `0..m`.
pub open spec fn odds_sum(r: Seq<u128>, d: int, m: int) -> int
    decreases m,
{
    if m <= 0 {
        0
    } else {
        odds_sum(r, d, m - 1) + odds_step(r, m - 1, d, r.len() as int)
    }
}

pub proof fn lemma_odds_nonneg(r: Seq<u128>, k: int, d: int, m: int)
    requires
        d > 0,
    ensures
        odds_step(r, k, d, m) >= 0,
    decreases m,
{
    if m > 0 {
        lemma_odds_nonneg(r, k, d, m - 1);
        let w = odds_step(r, k, d, m - 1);
        if m - 1 != k {
            assert(mul_div_spec(w, r[m - 1] as int, d) >= 0) by (nonlinear_arith)
                requires
                    w >= 0,
                    r[m - 1] >= 0,
                    d > 0,
            ;
        }
    }
}

pub proof fn lemma_odds_sum_grows(r: Seq<u128>, d: int, k: int, m: int)
    requires
        d > 0,
        0 <= k <= m,
    ensures
        0 <= odds_sum(r, d, k) <= odds_sum(r, d, m),
    decreases m,
{
    if m > 0 {
        lemma_odds_nonneg(r, m - 1, d, r.len() as int);
        if k < m {
            lemma_odds_sum_grows(r, d, k, m - 1);
        } else {
            lemma_odds_sum_grows(r, d, k - 1, m - 1);
        }
    }
}

/// One outcome's odds weight is at most the sum over all outcomes.
pub proof fn lemma_odds_part_le_sum(r: Seq<u128>, d: int, t: int, m: int)
    requires
        d > 0,
        0 <= t < m,
    ensures
        odds_step(r, t, d, r.len() as int) <= odds_sum(r, d, m),
    decreases m,
{
    if t < m - 1 {
        lemma_odds_part_le_sum(r, d, t, m - 1);
        lemma_odds_nonneg(r, m - 1, d, r.len() as int);
    } else {
        lemma_odds_sum_grows(r, d, 0, m - 1);
    }
}

/// Rounding the reserve added by a deposit up and the LP tokens minted down keeps each reserve
/// per LP token from falling.
pub proof fn lemma_deposit_keeps_share(r: int, s: int, t: int, m: int)
    requires
        m > 0,
        0 <= r <= m,
        s >= 0,
        t >= 0,
    ensures
        (r + mul_div_ceil_spec(t, r, m)) * s >= r * (s + mul_div_spec(t, s, m)),
{
    let c = mul_div_ceil_spec(t, r, m);
    let f = mul_div_spec(t, s, m);
    vstd::arithmetic::div_mod::lemma_fundamental_div_mod(t * r + m - 1, m);
    vstd::arithmetic::div_mod::lemma_fundamental_div_mod(t * s, m);
    assert(c * m >= t * r) by (nonlinear_arith)
        requires
            t * r + m - 1 == m * c + (t * r + m - 1) % m,
            0 <= (t * r + m - 1) % m < m,
    ;
    assert(f * m <= t * s) by (nonlinear_arith)
        requires
            t * s == m * f + (t * s) % m,
            0 <= (t * s) % m,
    ;
    assert(c * s * m >= r * f * m) by (nonlinear_arith)
        requires
            c * m >= t * r,
            f * m <= t * s,
            r >= 0,
            s >= 0,
    ;
    assert(c * s >= r * f) by (nonlinear_arith)
        requires
            c * s * m >= r * f * m,
            m > 0,
    ;
    assert((r + c) * s >= r * (s + f)) by (nonlinear_arith)
        requires
            c * s >= r * f,
    ;
}

/// The pool of one market.
#[derive(Debug)]
pub struct Pool {
    pub outcomes: u16,
    pub collateral_denomination: u128,
    /// Fee rate relative to the collateral denomination (the denomination itself is 100%).
    pub swap_fee: u128,
    pub reserves: Vec<u128>,
    pub lp_supply: u128,
    /// Accumulated fees, weighted so that each LP token's share is `fee_pool_weight / lp_supply`.
    pub fee_pool_weight: u128,
    pub ledger: Vec<LedgerEntry>,
}

impl Pool {
    /// The pool's invariant.
    pub open spec fn wf(&self) -> bool {
        &&& self.ledger_wf()
        &&& (self.lp_supply > 0 ==> seq_all_positive(self.reserves@))
        &&& (self.lp_supply == 0 ==> seq_all_zero(self.reserves@))
    }

    /// The invariant but for how the reserves stand to the LP supply.
    pub open spec fn ledger_wf(&self) -> bool {
        &&& self.outcomes >= 1
        &&& self.collateral_denomination > 0
        &&& self.swap_fee <= self.collateral_denomination
        &&& self.reserves@.len() == self.outcomes
        &&& unique_accounts(self.ledger@)
        &&& forall|i: int|
            0 <= i < self.ledger@.len() ==> (#[trigger] self.ledger@[i]).shares@.len()
                == self.outcomes
        &&& lp_sum(self.ledger@) == self.lp_supply
    }

    /// LP tokens held by `a`.
    pub open spec fn lp_balance_of(&self, a: Seq<char>) -> int {
        let i = index_of(self.ledger@, a);
        if i >= 0 {
            self.ledger@[i].lp_balance as int
        } else {
            0
        }
    }

    /// Fees already paid out to `a`, as the fee attribution counts them.
    pub open spec fn withdrawn_of(&self, a: Seq<char>) -> int {
        let i = index_of(self.ledger@, a);
        if i >= 0 {
            self.ledger@[i].withdrawn_fees as int
        } else {
            0
        }
    }

    /// Shares of outcome `o` held by `a`.
    pub open spec fn share_of(&self, a: Seq<char>, o: int) -> int {
        let i = index_of(self.ledger@, a);
        if i >= 0 && 0 <= o < self.ledger@[i].shares@.len() {
            self.ledger@[i].shares@[o] as int
        } else {
            0
        }
    }

    /// All shares held by `a`, one per outcome.
    pub open spec fn shares_of(&self, a: Seq<char>) -> Seq<int> {
        Seq::new(self.outcomes as nat, |o: int| self.share_of(a, o))
    }

    /// `a` holds the same in `self` and in `other`.
    pub open spec fn same_holdings(&self, other: &Pool, a: Seq<char>) -> bool {
        &&& self.lp_balance_of(a) == other.lp_balance_of(a)
        &&& self.withdrawn_of(a) == other.withdrawn_of(a)
        &&& forall|o: int| #[trigger] self.share_of(a, o) == other.share_of(a, o)
    }

    /// Every account but `a` holds the same in `self` and in `other`.
    pub open spec fn others_unchanged(&self, other: &Pool, a: Seq<char>) -> bool {
        forall|b: Seq<char>| b != a ==> #[trigger] self.same_holdings(other, b)
    }

    /// The pool-wide figures are those of `other`.
    pub open spec fn same_config(&self, other: &Pool) -> bool {
        &&& self.outcomes == other.outcomes
        &&& self.collateral_denomination == other.collateral_denomination
        &&& self.swap_fee == other.swap_fee
    }

    /// The fee charged on `amount`.
    pub open spec fn fee_on(&self, amount: int) -> int {
        mul_div_spec(amount, self.swap_fee as int, self.collateral_denomination as int)
    }

    /// The fee never exceeds the amount it is charged on.
    pub proof fn lemma_fee_at_most_amount(&self, amount: int)
        requires
            self.wf(),
            amount >= 0,
        ensures
            0 <= self.fee_on(amount) <= amount,
    {
        let f = self.swap_fee as int;
        let d = self.collateral_denomination as int;
        assert(amount * f <= amount * d) by (nonlinear_arith)
            requires
                amount >= 0,
                f <= d,
        ;
        assert((amount * f) / d <= (amount * d) / d) by (nonlinear_arith)
            requires
                amount * f <= amount * d,
                d > 0,
        ;
        assert((amount * d) / d == amount) by (nonlinear_arith)
            requires
                d > 0,
        ;
        assert((amount * f) / d >= 0) by (nonlinear_arith)
            requires
                amount >= 0,
                f >= 0,
                d > 0,
        ;
    }

    /// No account holds LP tokens, withdrawn fees or shares.
    pub open spec fn holds_nothing(&self) -> bool {
        forall|a: Seq<char>|
            #![trigger self.lp_balance_of(a)]
            self.lp_balance_of(a) == 0 && self.withdrawn_of(a) == 0 && forall|o: int|
                #[trigger] self.share_of(a, o) == 0
    }

    /// An empty pool.
    pub fn new(outcomes: u16, collateral_denomination: u128, swap_fee: u128) -> (r: Pool)
        requires
            outcomes >= 1,
            collateral_denomination > 0,
            swap_fee <= collateral_denomination,
        ensures
            r.wf(),
            r.outcomes == outcomes,
            r.collateral_denomination == collateral_denomination,
            r.swap_fee == swap_fee,
            r.lp_supply == 0,
            r.fee_pool_weight == 0,
            r.reserves@ == Seq::new(outcomes as nat, |i: int| 0u128),
            r.holds_nothing(),
    {
        let reserves = zeros(outcomes as usize);
        let r = Pool {
            outcomes,
            collateral_denomination,
            swap_fee,
            reserves,
            lp_supply: 0,
            fee_pool_weight: 0,
            ledger: Vec::new(),
        };
        assert(r.reserves@ =~= Seq::new(outcomes as nat, |i: int| 0u128));
        r
    }

    /// Why a purchase of outcome `t` for `amount` collateral cannot be priced, if it cannot.
    pub open spec fn buy_error(&self, amount: u128, t: u16) -> Option<PoolError> {
        let net = amount - self.fee_on(amount as int);
        if t >= self.outcomes {
            Some(PoolError::InvalidOutcome)
        } else if self.lp_supply == 0 {
            Some(PoolError::NoLiquidity)
        } else if exists|i: int|
            0 <= i < self.reserves@.len() && #[trigger] self.reserves@[i] + net > u128::MAX {
            Some(PoolError::Overflow)
        } else {
            None
        }
    }

    /// Shares of outcome `t` that `amount` collateral buys: the fee is taken off, the rest
    /// mints that many complete sets into the pool, and the pool hands out as many shares of `t`
    /// as keep the product of reserves from falling.
    pub open spec fn buy_amount(&self, amount: u128, t: u16) -> int {
        let net = amount - self.fee_on(amount as int);
        self.reserves@[t as int] + net - buy_ending(self.reserves@, t as int, net, self.outcomes as int)
    }

    /// Reserves after a purchase of `bought` shares of `t` with `net` collateral after fees.
    pub open spec fn reserves_after_buy(&self, t: u16, net: int, bought: int) -> Seq<u128> {
        Seq::new(
            self.outcomes as nat,
            |i: int|
                if i == t {
                    (self.reserves@[i] + net - bought) as u128
                } else {
                    (self.reserves@[i] + net) as u128
                },
        )
    }

    /// Why `sender`'s purchase cannot take place, if it cannot.
    pub open spec fn buy_trade_error(
        &self,
        sender: Seq<char>,
        amount: u128,
        t: u16,
        min_shares_out: u128,
    ) -> Option<PoolError> {
        let bought = self.buy_amount(amount, t);
        if self.buy_error(amount, t) is Some {
            self.buy_error(amount, t)
        } else if bought < min_shares_out {
            Some(PoolError::SlippageExceeded)
        } else if self.fee_pool_weight + self.fee_on(amount as int) > u128::MAX
            || self.share_of(sender, t as int) + bought > u128::MAX {
            Some(PoolError::Overflow)
        } else {
            None
        }
    }

    fn fee(&self, amount: u128) -> (r: u128)
        requires
            self.wf(),
        ensures
            r == self.fee_on(amount as int),
            r <= amount,
    {
        mul_div_floor(amount, self.swap_fee, self.collateral_denomination)
    }

    /// Shares of `outcome_target` that `collateral_in` buys.
    pub fn calc_buy_amount(&self, collateral_in: u128, outcome_target: u16) -> (r: Result<
        u128,
        PoolError,
    >)
        requires
            self.wf(),
        ensures
            match r {
                Ok(v) => self.buy_error(collateral_in, outcome_target) is None && v == self.buy_amount(
                    collateral_in,
                    outcome_target,
                ),
                Err(e) => self.buy_error(collateral_in, outcome_target) == Some(e),
            },
            r is Ok ==> 0 < self.reserves@[outcome_target as int] + (collateral_in - self.fee_on(
                collateral_in as int,
            )) - r->Ok_0 <= self.reserves@[outcome_target as int],
    {
        if outcome_target >= self.outcomes {
            return Err(PoolError::InvalidOutcome);
        }
        if self.lp_supply == 0 {
            return Err(PoolError::NoLiquidity);
        }
        let fee = self.fee(collateral_in);
        let net = collateral_in - fee;
        if !all_fit_after_adding(&self.reserves, net) {
            return Err(PoolError::Overflow);
        }
        let t = outcome_target as usize;
        let mut ending = self.reserves[t];
        let mut i: usize = 0;
        while i < self.reserves.len()
            invariant
                self.wf(),
                t < self.reserves@.len(),
                i <= self.reserves@.len(),
                forall|j: int| 0 <= j < self.reserves@.len() ==> #[trigger] self.reserves@[j] + net <= u128::MAX,
                ending == buy_ending(self.reserves@, t as int, net as int, i as int),
                0 < ending <= self.reserves@[t as int],
            decreases self.reserves@.len() - i,
        {
            if i != t {
                let r_i = self.reserves[i];
                proof {
                    assert(self.reserves@[i as int] > 0);
                    lemma_ceil_positive(ending as int, r_i as int, r_i + net);
                }
                ending = mul_div_ceil(ending, r_i, r_i + net);
            }
            i = i + 1;
        }
        Ok(self.reserves[t] + net - ending)
    }

    /// `sender` buys shares of `outcome_target` for `collateral_in`, receiving at least
    /// `min_shares_out`; the fee accrues to the LPs. Returns the shares bought.
    pub fn buy(
        &mut self,
        sender: &AccountId,
        collateral_in: u128,
        outcome_target: u16,
        min_shares_out: u128,
    ) -> (r: Result<u128, PoolError>)
        requires
            old(self).wf(),
        ensures
            final(self).wf(),
            old(self).buy_post(final(self), sender@, collateral_in, outcome_target, min_shares_out, r),
    {
        let bought = match self.calc_buy_amount(collateral_in, outcome_target) {
            Ok(v) => v,
            Err(e) => { return Err(e); },
        };
        if bought < min_shares_out {
            return Err(PoolError::SlippageExceeded);
        }
        let fee = self.fee(collateral_in);
        let held = self.get_share_balance(sender, outcome_target);
        if self.fee_pool_weight > u128::MAX - fee || held > u128::MAX - bought {
            return Err(PoolError::Overflow);
        }
        let net = collateral_in - fee;
        let t = outcome_target as usize;
        let ghost before = *self;
        self.reserves = traded_reserves(&self.reserves, t, net, 0, self.reserves[t] + net - bought);
        self.fee_pool_weight = self.fee_pool_weight + fee;
        assert(self.reserves@ =~= before.reserves_after_buy(outcome_target, net as int, bought as int));
        proof {
            assert forall|j: int| 0 <= j < self.reserves@.len() implies #[trigger] self.reserves@[j] > 0 by {
                assert(before.reserves@[j] > 0);
            }
        }
        let (lp, withdrawn, mut shares) = self.holdings(sender);
        shares.set(t, held + bought);
        let ghost pre = *self;
        self.set_holdings(sender, lp, withdrawn, shares);
        proof {
            assert forall|b: Seq<char>| b != sender@ implies #[trigger] self.same_holdings(old(self), b) by {
                assert(self.same_holdings(&pre, b));
                assert(pre.ledger == old(self).ledger);
            }
        }
        Ok(bought)
    }

    /// Why a sale of outcome `t` for `out` collateral cannot be priced, if it cannot.
    pub open spec fn sell_error(&self, out: u128, t: u16) -> Option<PoolError> {
        let ending = sell_ending(self.reserves@, t as int, out as int, self.outcomes as int);
        if t >= self.outcomes {
            Some(PoolError::InvalidOutcome)
        } else if self.lp_supply == 0 {
            Some(PoolError::NoLiquidity)
        } else if exists|i: int|
            0 <= i < self.reserves@.len() && i != t && #[trigger] self.reserves@[i] <= out {
            Some(PoolError::InsufficientLiquidity)
        } else if ending > u128::MAX || out + ending - self.reserves@[t as int] > u128::MAX {
            Some(PoolError::Overflow)
        } else {
            None
        }
    }

    /// Shares of outcome `t` to hand in for `out` collateral: `out` complete sets leave the
    /// pool, and the sold outcome's reserve must grow enough to keep the product of reserves.
    pub open spec fn sell_amount(&self, out: u128, t: u16) -> int {
        out + sell_ending(self.reserves@, t as int, out as int, self.outcomes as int)
            - self.reserves@[t as int]
    }

    /// Reserves after `sold` shares of `t` come in and `out` complete sets leave.
    pub open spec fn reserves_after_sell(&self, t: u16, sold: int, out: u128) -> Seq<u128> {
        Seq::new(
            self.outcomes as nat,
            |i: int|
                if i == t {
                    (self.reserves@[i] + sold - out) as u128
                } else {
                    (self.reserves@[i] - out) as u128
                },
        )
    }

    /// Why `sender`'s sale cannot take place, if it cannot.
    pub open spec fn sell_trade_error(
        &self,
        sender: Seq<char>,
        out: u128,
        t: u16,
        max_shares_in: u128,
    ) -> Option<PoolError> {
        let sold = self.sell_amount(out, t);
        if self.sell_error(out, t) is Some {
            self.sell_error(out, t)
        } else if sold > max_shares_in {
            Some(PoolError::SlippageExceeded)
        } else if self.share_of(sender, t as int) < sold {
            Some(PoolError::InsufficientBalance)
        } else if self.fee_pool_weight + self.fee_on(out as int) > u128::MAX {
            Some(PoolError::Overflow)
        } else {
            None
        }
    }

    /// Shares of `outcome_target` to hand in for `collateral_out`.
    pub fn calc_sell_collateral_out(&self, collateral_out: u128, outcome_target: u16) -> (r: Result<
        u128,
        PoolError,
    >)
        requires
            self.wf(),
        ensures
            match r {
                Ok(v) => self.sell_error(collateral_out, outcome_target) is None && v
                    == self.sell_amount(collateral_out, outcome_target),
                Err(e) => self.sell_error(collateral_out, outcome_target) == Some(e),
            },
    {
        if outcome_target >= self.outcomes {
            return Err(PoolError::InvalidOutcome);
        }
        if self.lp_supply == 0 {
            return Err(PoolError::NoLiquidity);
        }
        let t = outcome_target as usize;
        let mut i: usize = 0;
        while i < self.reserves.len()
            invariant
                self.wf(),
                self.lp_supply > 0,
                t == outcome_target,
                t < self.reserves@.len(),
                i <= self.reserves@.len(),
                forall|j: int| 0 <= j < i && j != t ==> #[trigger] self.reserves@[j] > collateral_out,
            decreases self.reserves@.len() - i,
        {
            if i != t && self.reserves[i] <= collateral_out {
                assert(self.reserves@[i as int] <= collateral_out);
                return Err(PoolError::InsufficientLiquidity);
            }
            i = i + 1;
        }
        proof {
            lemma_sell_ending_grows(self.reserves@, t as int, collateral_out as int, 0, self.outcomes as int);
        }
        let mut ending = self.reserves[t];
        let mut i: usize = 0;
        while i < self.reserves.len()
            invariant
                self.wf(),
                self.lp_supply > 0,
                t == outcome_target,
                t < self.reserves@.len(),
                i <= self.reserves@.len(),
                forall|j: int| 0 <= j < self.reserves@.len() && j != t ==> #[trigger] self.reserves@[j] > collateral_out,
                ending == sell_ending(self.reserves@, t as int, collateral_out as int, i as int),
            decreases self.reserves@.len() - i,
        {
            if i != t {
                let r_i = self.reserves[i];
                match checked_mul_div_ceil(ending, r_i, r_i - collateral_out) {
                    Some(e) => { ending = e; },
                    None => {
                        proof {
                            assert(sell_ending(self.reserves@, t as int, collateral_out as int, i + 1)
                                == mul_div_ceil_spec(ending as int, r_i as int, r_i - collateral_out));
                            lemma_sell_ending_grows(self.reserves@, t as int, collateral_out as int, i + 1, self.outcomes as int);
                        }
                        return Err(PoolError::Overflow);
                    },
                }
            }
            i = i + 1;
        }
        proof {
            lemma_sell_ending_grows(self.reserves@, t as int, collateral_out as int, i as int, i as int);
        }
        let grown = ending - self.reserves[t];
        match collateral_out.checked_add(grown) {
            Some(v) => Ok(v),
            None => Err(PoolError::Overflow),
        }
    }

    /// `sender` hands in shares of `outcome_target`, at most `max_shares_in`, so that
    /// `collateral_out` complete sets leave the pool. Returns the fee kept back for the LPs,
    /// which the caller subtracts from the collateral it pays out.
    pub fn sell(
        &mut self,
        sender: &AccountId,
        collateral_out: u128,
        outcome_target: u16,
        max_shares_in: u128,
    ) -> (r: Result<u128, PoolError>)
        requires
            old(self).wf(),
        ensures
            final(self).wf(),
            old(self).sell_post(final(self), sender@, collateral_out, outcome_target, max_shares_in, r),
    {
        let sold = match self.calc_sell_collateral_out(collateral_out, outcome_target) {
            Ok(v) => v,
            Err(e) => { return Err(e); },
        };
        if sold > max_shares_in {
            return Err(PoolError::SlippageExceeded);
        }
        let held = self.get_share_balance(sender, outcome_target);
        if held < sold {
            return Err(PoolError::InsufficientBalance);
        }
        let fee = self.fee(collateral_out);
        if self.fee_pool_weight > u128::MAX - fee {
            return Err(PoolError::Overflow);
        }
        let t = outcome_target as usize;
        let ghost before = *self;
        proof {
            lemma_sell_ending_grows(self.reserves@, t as int, collateral_out as int, 0, self.outcomes as int);
        }
        let target = self.reserves[t] + (sold - collateral_out);
        self.reserves = traded_reserves(&self.reserves, t, 0, collateral_out, target);
        self.fee_pool_weight = self.fee_pool_weight + fee;
        proof {
            assert(self.reserves@ =~= before.reserves_after_sell(outcome_target, sold as int, collateral_out));
            assert forall|j: int| 0 <= j < self.reserves@.len() implies #[trigger] self.reserves@[j] > 0 by {
                assert(before.reserves@[j] > 0);
            }
        }
        let (lp, withdrawn, mut shares) = self.holdings(sender);
        shares.set(t, held - sold);
        let ghost pre = *self;
        self.set_holdings(sender, lp, withdrawn, shares);
        proof {
            assert forall|b: Seq<char>| b != sender@ implies #[trigger] self.same_holdings(old(self), b) by {
                assert(self.same_holdings(&pre, b));
                assert(pre.ledger == old(self).ledger);
            }
        }
        Ok(fee)
    }

    /// The fees `a` may still withdraw: its stake's share of the fee weight, less what it has
    /// already been paid, never below zero. The share is rounded down each time LP tokens are
    /// minted or burnt, so what `a` has been paid can come to exceed its current share; it then
    /// may withdraw nothing until its share grows past it again.
    pub open spec fn fees_withdrawable_of(&self, a: Seq<char>) -> int {
        let raw = if self.lp_supply == 0 {
            0
        } else {
            mul_div_spec(self.fee_pool_weight as int, self.lp_balance_of(a), self.lp_supply as int)
        };
        sub_floor_zero(raw, self.withdrawn_of(a))
    }

    pub proof fn lemma_lp_balance_le_supply(&self, a: Seq<char>)
        requires
            self.wf(),
        ensures
            0 <= self.lp_balance_of(a) <= self.lp_supply,
    {
        let i = index_of(self.ledger@, a);
        if i >= 0 {
            lemma_lp_entry_le_sum(self.ledger@, i);
        }
    }

    /// Fees that `account` may withdraw.
    pub fn get_fees_withdrawable(&self, account: &AccountId) -> (r: u128)
        requires
            self.wf(),
        ensures
            r == self.fees_withdrawable_of(account@),
            self.withdrawn_of(account@) + r <= u128::MAX,
            self.lp_supply > 0 ==> r <= mul_div_spec(
                self.fee_pool_weight as int,
                self.lp_balance_of(account@),
                self.lp_supply as int,
            ),
            r <= self.fee_pool_weight,
    {
        let balance = self.get_pool_token_balance(account);
        let withdrawn = self.get_withdrawn_fees(account);
        if self.lp_supply == 0 {
            return 0;
        }
        proof {
            self.lemma_lp_balance_le_supply(account@);
        }
        let raw = mul_div_floor(self.fee_pool_weight, balance, self.lp_supply);
        if raw > withdrawn {
            raw - withdrawn
        } else {
            0
        }
    }

    /// Outcome `i`'s part of the reserves that `lp_in` LP tokens stand for.
    pub open spec fn exit_part(&self, lp_in: u128, i: int) -> int {
        if self.lp_supply == 0 {
            0
        } else {
            mul_div_spec(self.reserves@[i] as int, lp_in as int, self.lp_supply as int)
        }
    }

    /// The part of the fee weight that leaves with `lp_in` burnt LP tokens.
    pub open spec fn exit_fee_weight(&self, lp_in: u128) -> int {
        if self.lp_supply == 0 {
            0
        } else {
            mul_div_spec(self.fee_pool_weight as int, lp_in as int, self.lp_supply as int)
        }
    }

    /// Why `sender` cannot burn `lp_in` LP tokens, if it cannot.
    pub open spec fn exit_error(&self, sender: Seq<char>, lp_in: u128) -> Option<PoolError> {
        if lp_in > self.lp_balance_of(sender) {
            Some(PoolError::InsufficientBalance)
        } else if exists|i: int|
            0 <= i < self.outcomes && #[trigger] self.share_of(sender, i) + self.exit_part(lp_in, i)
                > u128::MAX {
            Some(PoolError::Overflow)
        } else {
            None
        }
    }

    /// `sender` burns `lp_in` LP tokens: it receives that fraction of every reserve as outcome
    /// shares and is paid its unclaimed fees, which are returned.
    pub fn exit_pool(&mut self, sender: &AccountId, lp_in: u128) -> (r: Result<u128, PoolError>)
        requires
            old(self).wf(),
        ensures
            final(self).wf(),
            old(self).exit_post(final(self), sender@, lp_in, r),
    {
        let (balance, withdrawn, mut shares) = self.holdings(sender);
        if lp_in > balance {
            return Err(PoolError::InsufficientBalance);
        }
        proof {
            self.lemma_lp_balance_le_supply(sender@);
        }
        let supply = self.lp_supply;
        let n = self.reserves.len();
        let mut new_reserves: Vec<u128> = Vec::new();
        let mut i: usize = 0;
        while i < n
            invariant
                self.wf(),
                n == self.outcomes,
                supply == self.lp_supply,
                lp_in <= supply,
                lp_in <= balance,
                balance == self.lp_balance_of(sender@),
                i <= n,
                shares@.len() == n,
                new_reserves@.len() == i,
                forall|o: int| 0 <= o < self.outcomes ==> #[trigger] shares@[o] == (if o < i {
                    self.share_of(sender@, o) + self.exit_part(lp_in, o)
                } else {
                    self.share_of(sender@, o)
                }),
                forall|o: int| 0 <= o < i ==> #[trigger] new_reserves@[o] == self.reserves@[o] - self.exit_part(lp_in, o),
                forall|o: int| 0 <= o < i ==> self.share_of(sender@, o) + self.exit_part(lp_in, o) <= u128::MAX,
            decreases n - i,
        {
            let part = if supply == 0 {
                0
            } else {
                mul_div_floor(self.reserves[i], lp_in, supply)
            };
            if shares[i] > u128::MAX - part {
                assert(self.share_of(sender@, i as int) + self.exit_part(lp_in, i as int) > u128::MAX);
                return Err(PoolError::Overflow);
            }
            let cur = shares[i];
            shares.set(i, cur + part);
            new_reserves.push(self.reserves[i] - part);
            i = i + 1;
        }
        let fees = self.get_fees_withdrawable(sender);
        let burnt_weight = if supply == 0 {
            0
        } else {
            mul_div_floor(self.fee_pool_weight, lp_in, supply)
        };
        let paid = withdrawn + fees;
        let new_withdrawn = if paid > burnt_weight {
            paid - burnt_weight
        } else {
            0
        };
        let ghost before = *self;
        proof {
            assert(new_reserves@ =~= Seq::new(
                before.outcomes as nat,
                |i: int| (before.reserves@[i] - before.exit_part(lp_in, i)) as u128,
            ));
            if lp_in < supply {
                assert forall|o: int| 0 <= o < n implies #[trigger] new_reserves@[o] > 0 by {
                    assert(before.reserves@[o] > 0);
                    assert(before.exit_part(lp_in, o) < before.reserves@[o]) by (nonlinear_arith)
                        requires
                            before.exit_part(lp_in, o) == (before.reserves@[o] * lp_in) / (supply as int),
                            lp_in < supply,
                            before.reserves@[o] > 0,
                    ;
                }
            } else {
                assert forall|o: int| 0 <= o < n implies #[trigger] new_reserves@[o] == 0 by {
                    if supply > 0 {
                        assert(before.exit_part(lp_in, o) == before.reserves@[o]) by (nonlinear_arith)
                            requires
                                before.exit_part(lp_in, o) == (before.reserves@[o] * lp_in) / (supply as int),
                                lp_in == supply,
                                supply > 0,
                        ;
                    } else {
                        assert(before.reserves@[o] == 0);
                    }
                }
            }
        }
        self.reserves = new_reserves;
        self.fee_pool_weight = self.fee_pool_weight - burnt_weight;
        let ghost pre = *self;
        self.set_holdings(sender, balance - lp_in, new_withdrawn, shares);
        proof {
            assert forall|b: Seq<char>| b != sender@ implies #[trigger] self.same_holdings(old(self), b) by {
                assert(self.same_holdings(&pre, b));
                assert(pre.ledger == old(self).ledger);
            }
        }
        Ok(fees)
    }

    /// Why `sender` cannot redeem `to_burn` complete sets, if it cannot.
    pub open spec fn burn_error(&self, sender: Seq<char>, to_burn: u128) -> Option<PoolError> {
        if exists|i: int| 0 <= i < self.outcomes && #[trigger] self.share_of(sender, i) < to_burn {
            Some(PoolError::InsufficientBalance)
        } else {
            None
        }
    }

    /// `sender` gives up `to_burn` shares of every outcome; one of each together is worth one
    /// unit of collateral, so the collateral owed back, `to_burn`, is returned.
    pub fn burn_outcome_tokens_redeem_collateral(&mut self, sender: &AccountId, to_burn: u128) -> (r:
        Result<u128, PoolError>)
        requires
            old(self).wf(),
        ensures
            final(self).wf(),
            old(self).burn_post(final(self), sender@, to_burn, r),
    {
        let (balance, withdrawn, mut shares) = self.holdings(sender);
        let n = shares.len();
        let mut i: usize = 0;
        while i < n
            invariant
                self.wf(),
                n == self.outcomes,
                i <= n,
                shares@.len() == n,
                forall|o: int| 0 <= o < self.outcomes ==> #[trigger] shares@[o] == (if o < i {
                    self.share_of(sender@, o) - to_burn
                } else {
                    self.share_of(sender@, o)
                }),
                forall|o: int| 0 <= o < i ==> #[trigger] self.share_of(sender@, o) >= to_burn,
            decreases n - i,
        {
            let cur = shares[i];
            if cur < to_burn {
                assert(self.share_of(sender@, i as int) < to_burn);
                return Err(PoolError::InsufficientBalance);
            }
            shares.set(i, cur - to_burn);
            i = i + 1;
        }
        proof {
            self.lemma_lp_balance_le_supply(sender@);
        }
        self.set_holdings(sender, balance, withdrawn, shares);
        Ok(to_burn)
    }

    /// The collateral owed to `a` for its shares under payout vector `v`.
    pub open spec fn payout_owed(&self, a: Seq<char>, v: Seq<u128>) -> int {
        payout_sum(
            self.shares_of(a),
            v,
            self.collateral_denomination as int,
            self.outcomes as int,
        )
    }

    /// Pays `account` out under the resolution `payout_numerator`: with a payout vector, each
    /// share earns its outcome's numerator over the denomination and all the account's shares
    /// are cleared, so a second claim yields nothing; an invalid resolution (`None`) pays
    /// nothing and keeps the shares.
    pub fn payout(&mut self, account: &AccountId, payout_numerator: &Option<Vec<u128>>) -> (r: u128)
        requires
            old(self).wf(),
            payout_numerator matches Some(v) ==> v@.len() == old(self).outcomes
                && crate::outcome::sum(crate::outcome::as_ints(v@))
                == old(self).collateral_denomination,
        ensures
            final(self).wf(),
            old(self).payout_post(final(self), account@, *payout_numerator, r),
    {
        let v = match payout_numerator {
            Some(v) => v,
            None => { return 0; },
        };
        let owed = self.calc_payout(account, v);
        let (balance, withdrawn, _shares) = self.holdings(account);
        let n = self.reserves.len();
        let d = self.collateral_denomination;
        proof {
            self.lemma_lp_balance_le_supply(account@);
        }
        self.set_holdings(account, balance, withdrawn, zeros(n));
        proof {
            let b2 = self.shares_of(account@);
            assert forall|o: int| 0 <= o < n implies #[trigger] b2[o] == 0 by {
                assert(self.share_of(account@, o) == 0);
            }
            lemma_payout_sum_zero(b2, v@, d as int, n as int);
        }
        owed
    }

    /// The collateral `account` is owed for its shares under the payout vector `v`.
    pub fn calc_payout(&self, account: &AccountId, v: &Vec<u128>) -> (r: u128)
        requires
            self.wf(),
            v@.len() == self.outcomes,
            crate::outcome::sum(crate::outcome::as_ints(v@)) == self.collateral_denomination,
        ensures
            r == self.payout_owed(account@, v@),
    {
        let (_balance, _withdrawn, shares) = self.holdings(account);
        let d = self.collateral_denomination;
        let n = shares.len();
        let ghost b = self.shares_of(account@);
        proof {
            lemma_num_prefix_is_sum(v@);
        }
        let mut owed: u128 = 0;
        let mut i: usize = 0;
        while i < n
            invariant
                self.wf(),
                n == self.outcomes,
                d == self.collateral_denomination,
                v@.len() == n,
                shares@.len() == n,
                b == self.shares_of(account@),
                forall|o: int| 0 <= o < n ==> #[trigger] shares@[o] == b[o],
                num_prefix(v@, n as int) == d,
                i <= n,
                owed == payout_sum(b, v@, d as int, i as int),
                owed * d <= u128::MAX * num_prefix(v@, i as int),
            decreases n - i,
        {
            proof {
                lemma_num_prefix_le(v@, i as int, n as int);
                lemma_num_prefix_le(v@, i + 1, n as int);
            }
            let part = mul_div_floor(shares[i], v[i], d);
            proof {
                assert(part * d <= u128::MAX * v@[i as int]) by (nonlinear_arith)
                    requires
                        part == (shares@[i as int] * v@[i as int]) / (d as int),
                        shares@[i as int] <= u128::MAX,
                        d > 0,
                        v@[i as int] >= 0,
                ;
                assert((owed + part) * d <= u128::MAX * num_prefix(v@, i + 1)) by (nonlinear_arith)
                    requires
                        owed * d <= u128::MAX * num_prefix(v@, i as int),
                        part * d <= u128::MAX * v@[i as int],
                        num_prefix(v@, i + 1) == num_prefix(v@, i as int) + v@[i as int],
                ;
                assert(owed + part <= u128::MAX) by (nonlinear_arith)
                    requires
                        (owed + part) * d <= u128::MAX * num_prefix(v@, i + 1),
                        num_prefix(v@, i + 1) <= d,
                        d > 0,
                ;
            }
            owed = owed + part;
            i = i + 1;
        }
        owed
    }

    /// What a deposit is measured against: the weights when seeding an empty pool, the
    /// reserves otherwise.
    pub open spec fn add_basis(&self, weights: Seq<u128>) -> Seq<u128> {
        if self.lp_supply == 0 {
            weights
        } else {
            self.reserves@
        }
    }

    /// Per outcome, how much of a deposit of `total_in` complete sets stays in the pool: the
    /// deposit scaled by the outcome's part of the largest basis entry. The rest goes back to the
    /// depositor as outcome shares.
    pub open spec fn add_remaining(&self, total_in: u128, weights: Seq<u128>) -> Seq<int> {
        let basis = self.add_basis(weights);
        Seq::new(
            self.outcomes as nat,
            |i: int|
                if self.lp_supply == 0 {
                    mul_div_spec(total_in as int, basis[i] as int, seq_max(basis))
                } else {
                    mul_div_ceil_spec(total_in as int, basis[i] as int, seq_max(basis))
                },
        )
    }

    /// LP tokens a deposit of `total_in` mints: the deposit itself when seeding, otherwise the
    /// supply scaled by the deposit's part of the largest reserve.
    pub open spec fn add_minted(&self, total_in: u128) -> int {
        if self.lp_supply == 0 {
            total_in as int
        } else {
            mul_div_spec(total_in as int, self.lp_supply as int, seq_max(self.reserves@))
        }
    }

    /// Fee weight added with `minted` new LP tokens, so that they earn no fee collected before.
    pub open spec fn add_fee_weight(&self, minted: int) -> int {
        if self.lp_supply == 0 {
            0
        } else {
            mul_div_spec(self.fee_pool_weight as int, minted, self.lp_supply as int)
        }
    }

    /// Why `sender` cannot add `total_in`, if it cannot.
    pub open spec fn add_error(&self, sender: Seq<char>, total_in: u128, weights: Option<Vec<u128>>) -> Option<
        PoolError,
    > {
        let ws = weights_seq(weights);
        let rem = self.add_remaining(total_in, ws);
        let minted = self.add_minted(total_in);
        let fw = self.add_fee_weight(minted);
        if self.lp_supply == 0 && (weights is None || ws.len() != self.outcomes || exists|i: int|
            0 <= i < ws.len() && #[trigger] ws[i] == 0) {
            Some(PoolError::InvalidWeights)
        } else if (self.lp_supply == 0 && exists|i: int| 0 <= i < self.outcomes && #[trigger] rem[i] == 0)
            || (self.lp_supply > 0 && minted == 0) {
            Some(PoolError::AmountTooSmall)
        } else if minted > u128::MAX
            || (exists|i: int| 0 <= i < self.outcomes && #[trigger] self.reserves@[i] + rem[i] > u128::MAX)
            || (exists|i: int|
            0 <= i < self.outcomes && #[trigger] self.share_of(sender, i) + (total_in - rem[i]) > u128::MAX)
            || self.lp_supply + minted > u128::MAX || self.fee_pool_weight + fw > u128::MAX
            || self.withdrawn_of(sender) + fw > u128::MAX {
            Some(PoolError::Overflow)
        } else {
            None
        }
    }

    /// `sender` deposits `total_in` collateral as that many complete sets. An empty pool is
    /// seeded in the proportions of `weight_indication`; otherwise the deposit follows the
    /// current reserve ratios. What cannot stay in the pool is credited to `sender` as outcome
    /// shares. Returns the LP tokens minted.
    #[verifier::loop_isolation(false)]
    pub fn add_liquidity(
        &mut self,
        sender: &AccountId,
        total_in: u128,
        weight_indication: Option<Vec<u128>>,
    ) -> (r: Result<u128, PoolError>)
        requires
            old(self).wf(),
        ensures
            final(self).wf(),
            old(self).add_post(final(self), sender@, total_in, weight_indication, r),
    {
        let ghost ws = weights_seq(weight_indication);
        let seeding = self.lp_supply == 0;
        let n = self.reserves.len();
        let basis: Vec<u128> = if seeding {
            match weight_indication {
                None => { return Err(PoolError::InvalidWeights); },
                Some(w) => {
                    if w.len() != n {
                        return Err(PoolError::InvalidWeights);
                    }
                    let mut i: usize = 0;
                    while i < n
                        invariant
                            self.wf(),
                            *self == *old(self),
                            self.lp_supply == 0,
                            n == self.outcomes,
                            ws == w@,
                            i <= n,
                            w@.len() == n,
                            forall|j: int| 0 <= j < i ==> #[trigger] w@[j] > 0,
                        decreases n - i,
                    {
                        if w[i] == 0 {
                            assert(ws[i as int] == 0);
                            return Err(PoolError::InvalidWeights);
                        }
                        i = i + 1;
                    }
                    w
                },
            }
        } else {
            let mut c: Vec<u128> = Vec::new();
            let mut i: usize = 0;
            while i < n
                invariant
                    self.wf(),
                    n == self.reserves@.len(),
                    i <= n,
                    c@ == self.reserves@.take(i as int),
                decreases n - i,
            {
                c.push(self.reserves[i]);
                assert(c@ =~= self.reserves@.take(i + 1));
                i = i + 1;
            }
            assert(c@ =~= self.reserves@);
            c
        };
        assert(basis@ == self.add_basis(ws));
        assert(forall|j: int| 0 <= j < n ==> #[trigger] basis@[j] > 0);
        let max = vec_max(&basis);
        proof {
            lemma_seq_max(basis@);
            assert(basis@[0] > 0);
        }
        // the part of the deposit that stays with each outcome
        let mut rem: Vec<u128> = Vec::new();
        let mut i: usize = 0;
        while i < n
            invariant
                self.wf(),
                n == self.outcomes,
                basis@.len() == n,
                max == seq_max(basis@),
                max > 0,
                forall|j: int| 0 <= j < n ==> #[trigger] basis@[j] <= max,
                basis@ == self.add_basis(ws),
                seeding == (self.lp_supply == 0),
                seeding ==> weight_indication is Some && ws.len() == n && forall|j: int| 0 <= j < n ==> #[trigger] ws[j] > 0,
                i <= n,
                rem@.len() == i,
                forall|j: int| 0 <= j < i ==> #[trigger] rem@[j] == self.add_remaining(total_in, ws)[j],
                forall|j: int| 0 <= j < i ==> #[trigger] rem@[j] <= total_in,
            decreases n - i,
        {
            if seeding {
                rem.push(mul_div_floor(total_in, basis[i], max));
            } else {
                rem.push(mul_div_ceil(total_in, basis[i], max));
            }
            i = i + 1;
        }
        let ghost remaining = self.add_remaining(total_in, ws);
        assert(forall|j: int| 0 <= j < n ==> #[trigger] rem@[j] == remaining[j]);
        if seeding {
            let mut i: usize = 0;
            while i < n
                invariant
                    self.wf(),
                    *self == *old(self),
                    self.lp_supply == 0,
                    n == self.outcomes,
                    i <= n,
                    remaining.len() == n,
                    rem@.len() == n,
                    forall|j: int| 0 <= j < n ==> #[trigger] rem@[j] == remaining[j],
                    forall|j: int| 0 <= j < i ==> #[trigger] rem@[j] > 0,
                decreases n - i,
            {
                if rem[i] == 0 {
                    assert(remaining[i as int] == 0);
                    return Err(PoolError::AmountTooSmall);
                }
                i = i + 1;
            }
        }
        let minted: u128 = if seeding {
            total_in
        } else {
            match checked_mul_div(total_in, self.lp_supply, max) {
                Some(m) => {
                    if m == 0 {
                        return Err(PoolError::AmountTooSmall);
                    }
                    m
                },
                None => { return Err(PoolError::Overflow); },
            }
        };
        proof {
            if seeding {
                assert forall|j: int| 0 <= j < n implies #[trigger] remaining[j] > 0 by {
                    assert(rem@[j] > 0);
                }
                let k = choose|k: int| 0 <= k < n && basis@[k] == max;
                assert(remaining[k] == total_in) by (nonlinear_arith)
                    requires
                        remaining[k] == (total_in * basis@[k]) / (max as int),
                        basis@[k] == max,
                        max > 0,
                ;
            }
        }
        let (lp, withdrawn, mut shares) = self.holdings(sender);
        let mut new_reserves: Vec<u128> = Vec::new();
        let mut i: usize = 0;
        while i < n
            invariant
                self.wf(),
                *self == *old(self),
                n == self.outcomes,
                remaining == self.add_remaining(total_in, ws),
                remaining.len() == n,
                seeding == (self.lp_supply == 0),
                seeding ==> weight_indication is Some && ws.len() == n && forall|j: int| 0 <= j < n ==> #[trigger] ws[j] > 0,
                seeding ==> forall|j: int| 0 <= j < n ==> #[trigger] remaining[j] > 0,
                !seeding ==> minted > 0,
                minted == self.add_minted(total_in),
                rem@.len() == n,
                forall|j: int| 0 <= j < n ==> #[trigger] rem@[j] == remaining[j],
                forall|j: int| 0 <= j < n ==> #[trigger] rem@[j] <= total_in,
                forall|j: int| 0 <= j < i ==> #[trigger] self.reserves@[j] + remaining[j] <= u128::MAX,
                forall|j: int| 0 <= j < i ==> #[trigger] self.share_of(sender@, j) + (total_in - remaining[j]) <= u128::MAX,
                lp == self.lp_balance_of(sender@),
                withdrawn == self.withdrawn_of(sender@),
                shares@.len() == n,
                i <= n,
                new_reserves@.len() == i,
                forall|j: int| 0 <= j < i ==> #[trigger] new_reserves@[j] == self.reserves@[j] + remaining[j],
                forall|o: int| 0 <= o < n ==> #[trigger] shares@[o] == (if o < i {
                    self.share_of(sender@, o) + (total_in - remaining[o])
                } else {
                    self.share_of(sender@, o)
                }),
            decreases n - i,
        {
            let r_i = self.reserves[i];
            if r_i > u128::MAX - rem[i] {
                assert(self.reserves@[i as int] + remaining[i as int] > u128::MAX);
                return Err(PoolError::Overflow);
            }
            let back = total_in - rem[i];
            let cur = shares[i];
            if cur > u128::MAX - back {
                assert(self.share_of(sender@, i as int) + (total_in - remaining[i as int]) > u128::MAX);
                return Err(PoolError::Overflow);
            }
            new_reserves.push(r_i + rem[i]);
            shares.set(i, cur + back);
            i = i + 1;
        }
        if self.lp_supply > u128::MAX - minted {
            return Err(PoolError::Overflow);
        }
        let fw: u128 = if seeding {
            0
        } else {
            match checked_mul_div(self.fee_pool_weight, minted, self.lp_supply) {
                Some(f) => f,
                None => { return Err(PoolError::Overflow); },
            }
        };
        if self.fee_pool_weight > u128::MAX - fw || withdrawn > u128::MAX - fw {
            return Err(PoolError::Overflow);
        }
        proof {
            self.lemma_lp_balance_le_supply(sender@);
            assert(new_reserves@ =~= Seq::new(
                self.outcomes as nat,
                |i: int| (self.reserves@[i] + remaining[i]) as u128,
            ));
            assert forall|j: int| 0 <= j < n implies #[trigger] new_reserves@[j] > 0 by {
                if !seeding {
                    assert(self.reserves@[j] > 0);
                }
            }
        }
        self.reserves = new_reserves;
        self.fee_pool_weight = self.fee_pool_weight + fw;
        let ghost pre = *self;
        self.set_holdings(sender, lp + minted, withdrawn + fw, shares);
        proof {
            assert forall|b: Seq<char>| b != sender@ implies #[trigger] self.same_holdings(old(self), b) by {
                assert(self.same_holdings(&pre, b));
                assert(pre.ledger == old(self).ledger);
            }
        }
        proof {
            assert forall|k: int| 0 <= k < old(self).outcomes implies #[trigger] self.reserves@[k]
                * old(self).lp_supply >= old(self).reserves@[k] * self.lp_supply by {
                if seeding {
                    assert(old(self).reserves@[k] == 0);
                } else {
                    lemma_deposit_keeps_share(
                        old(self).reserves@[k] as int,
                        old(self).lp_supply as int,
                        total_in as int,
                        max as int,
                    );
                }
            }
        }
        Ok(minted)
    }

    /// Why the spot price of outcome `t` cannot be given, if it cannot.
    pub open spec fn spot_price_error(&self, t: u16) -> Option<PoolError> {
        let r = self.reserves@;
        let d = self.collateral_denomination as int;
        let n = self.outcomes as int;
        if t >= self.outcomes {
            Some(PoolError::InvalidOutcome)
        } else if self.lp_supply == 0 {
            Some(PoolError::NoLiquidity)
        } else if (exists|k: int| 0 <= k < n && !#[trigger] odds_fit(r, k, d, n)) || odds_sum(r, d, n)
            > u128::MAX {
            Some(PoolError::Overflow)
        } else if odds_sum(r, d, n) == 0 {
            Some(PoolError::PriceUndefined)
        } else {
            None
        }
    }

    /// The spot price of outcome `t` before fees, in units of the denomination: its odds weight
    /// over the sum of all odds weights. An outcome's odds weight is the product of the other
    /// reserves, so the scarcer an outcome's shares in the pool, the dearer they are.
    pub open spec fn spot_price_sans_fee_of(&self, t: u16) -> int {
        let r = self.reserves@;
        let d = self.collateral_denomination as int;
        let n = self.outcomes as int;
        mul_div_spec(d, odds_step(r, t as int, d, n), odds_sum(r, d, n))
    }

    fn odds_weight(&self, k: usize) -> (r: Option<u128>)
        requires
            self.wf(),
            k < self.outcomes,
        ensures
            match r {
                Some(w) => odds_fit(self.reserves@, k as int, self.collateral_denomination as int, self.outcomes as int)
                    && w == odds_step(self.reserves@, k as int, self.collateral_denomination as int, self.outcomes as int),
                None => !odds_fit(self.reserves@, k as int, self.collateral_denomination as int, self.outcomes as int),
            },
    {
        let d = self.collateral_denomination;
        let ghost r = self.reserves@;
        let mut w: u128 = d;
        let mut j: usize = 0;
        while j < self.reserves.len()
            invariant
                self.wf(),
                r == self.reserves@,
                d == self.collateral_denomination,
                j <= r.len(),
                w == odds_step(r, k as int, d as int, j as int),
                forall|m: int| 0 <= m <= j ==> #[trigger] odds_step(r, k as int, d as int, m) <= u128::MAX,
            decreases r.len() - j,
        {
            if j != k {
                match checked_mul_div(w, self.reserves[j], d) {
                    Some(x) => { w = x; },
                    None => {
                        assert(odds_step(r, k as int, d as int, j + 1) > u128::MAX);
                        return None;
                    },
                }
            }
            j = j + 1;
        }
        Some(w)
    }

    /// The spot price of `outcome` before fees.
    pub fn get_spot_price_sans_fee(&self, outcome: u16) -> (r: Result<u128, PoolError>)
        requires
            self.wf(),
        ensures
            match r {
                Ok(p) => self.spot_price_error(outcome) is None && p == self.spot_price_sans_fee_of(outcome)
                    && p <= self.collateral_denomination,
                Err(e) => self.spot_price_error(outcome) == Some(e),
            },
    {
        if outcome >= self.outcomes {
            return Err(PoolError::InvalidOutcome);
        }
        if self.lp_supply == 0 {
            return Err(PoolError::NoLiquidity);
        }
        let ghost r = self.reserves@;
        let ghost dd = self.collateral_denomination as int;
        let n = self.reserves.len();
        let mut sum: u128 = 0;
        let mut target: u128 = 0;
        let mut k: usize = 0;
        while k < n
            invariant
                self.wf(),
                self.lp_supply > 0,
                outcome < self.outcomes,
                r == self.reserves@,
                dd == self.collateral_denomination,
                n == self.outcomes,
                k <= n,
                forall|m: int| 0 <= m < k ==> #[trigger] odds_fit(r, m, dd, n as int),
                sum == odds_sum(r, dd, k as int),
                k > outcome ==> target == odds_step(r, outcome as int, dd, n as int),
            decreases n - k,
        {
            let w = match self.odds_weight(k) {
                Some(w) => w,
                None => {
                    assert(!odds_fit(r, k as int, dd, n as int));
                    return Err(PoolError::Overflow);
                },
            };
            if k == outcome as usize {
                target = w;
            }
            match sum.checked_add(w) {
                Some(x) => { sum = x; },
                None => {
                    proof {
                        lemma_odds_sum_grows(r, dd, k + 1, n as int);
                    }
                    return Err(PoolError::Overflow);
                },
            }
            k = k + 1;
        }
        if sum == 0 {
            return Err(PoolError::PriceUndefined);
        }
        proof {
            // the target's weight is one of the summands
            lemma_odds_part_le_sum(r, dd, outcome as int, n as int);
        }
        Ok(mul_div_floor(self.collateral_denomination, target, sum))
    }

    /// The spot price of outcome `t` with the fee added on: the fee-free price over one minus
    /// the fee rate.
    pub open spec fn spot_price_of(&self, t: u16) -> int {
        mul_div_spec(
            self.spot_price_sans_fee_of(t),
            self.collateral_denomination as int,
            self.collateral_denomination - self.swap_fee,
        )
    }

    /// Why the spot price with fee of outcome `t` cannot be given, if it cannot.
    pub open spec fn spot_price_with_fee_error(&self, t: u16) -> Option<PoolError> {
        if self.spot_price_error(t) is Some {
            self.spot_price_error(t)
        } else if self.swap_fee == self.collateral_denomination {
            Some(PoolError::PriceUndefined)
        } else if self.spot_price_of(t) > u128::MAX {
            Some(PoolError::Overflow)
        } else {
            None
        }
    }

    /// The spot price of `outcome` including the swap fee.
    pub fn get_spot_price(&self, outcome: u16) -> (r: Result<u128, PoolError>)
        requires
            self.wf(),
        ensures
            match r {
                Ok(p) => self.spot_price_with_fee_error(outcome) is None && p == self.spot_price_of(outcome),
                Err(e) => self.spot_price_with_fee_error(outcome) == Some(e),
            },
    {
        let sans = match self.get_spot_price_sans_fee(outcome) {
            Ok(p) => p,
            Err(e) => { return Err(e); },
        };
        if self.swap_fee == self.collateral_denomination {
            return Err(PoolError::PriceUndefined);
        }
        match checked_mul_div(sans, self.collateral_denomination, self.collateral_denomination - self.swap_fee) {
            Some(p) => Ok(p),
            None => Err(PoolError::Overflow),
        }
    }

    /// The effect of `sender` buying shares of `outcome_target` for `collateral_in`, with result `r`.
    pub open spec fn buy_post(
        &self,
        after: &Pool,
        sender: Seq<char>,
        collateral_in: u128,
        outcome_target: u16,
        min_shares_out: u128,
        r: Result<u128, PoolError>,
    ) -> bool {
        match r {
            Ok(v) => {
                let net = collateral_in - self.fee_on(collateral_in as int);
                &&& self.buy_trade_error(sender, collateral_in, outcome_target, min_shares_out) is None
                &&& v == self.buy_amount(collateral_in, outcome_target)
                &&& after.reserves@ == self.reserves_after_buy(outcome_target, net, v as int)
                &&& after.fee_pool_weight == self.fee_pool_weight + self.fee_on(collateral_in as int)
                &&& after.lp_supply == self.lp_supply
                &&& after.same_config(self)
                &&& after.share_of(sender, outcome_target as int) == self.share_of(sender, outcome_target as int) + v
                &&& forall|o: int| o != outcome_target ==> #[trigger] after.share_of(sender, o) == self.share_of(sender, o)
                &&& after.lp_balance_of(sender) == self.lp_balance_of(sender)
                &&& after.withdrawn_of(sender) == self.withdrawn_of(sender)
                &&& after.others_unchanged(self, sender)
            },
            Err(e) => self.buy_trade_error(sender, collateral_in, outcome_target, min_shares_out) == Some(e)
                && *after == *self,
        }
    }

    /// The effect of `sender` selling shares of `outcome_target` for `collateral_out`, with result `r`.
    pub open spec fn sell_post(
        &self,
        after: &Pool,
        sender: Seq<char>,
        collateral_out: u128,
        outcome_target: u16,
        max_shares_in: u128,
        r: Result<u128, PoolError>,
    ) -> bool {
        match r {
            Ok(fee) => {
                let sold = self.sell_amount(collateral_out, outcome_target);
                &&& self.sell_trade_error(sender, collateral_out, outcome_target, max_shares_in) is None
                &&& fee == self.fee_on(collateral_out as int)
                &&& after.reserves@ == self.reserves_after_sell(outcome_target, sold, collateral_out)
                &&& after.fee_pool_weight == self.fee_pool_weight + fee
                &&& after.lp_supply == self.lp_supply
                &&& after.same_config(self)
                &&& after.share_of(sender, outcome_target as int) == self.share_of(sender, outcome_target as int) - sold
                &&& forall|o: int| o != outcome_target ==> #[trigger] after.share_of(sender, o) == self.share_of(sender, o)
                &&& after.lp_balance_of(sender) == self.lp_balance_of(sender)
                &&& after.withdrawn_of(sender) == self.withdrawn_of(sender)
                &&& after.others_unchanged(self, sender)
            },
            Err(e) => self.sell_trade_error(sender, collateral_out, outcome_target, max_shares_in) == Some(e)
                && *after == *self,
        }
    }

    /// The effect of `sender` burning `lp_in` LP tokens, with result `r`.
    pub open spec fn exit_post(
        &self,
        after: &Pool,
        sender: Seq<char>,
        lp_in: u128,
        r: Result<u128, PoolError>,
    ) -> bool {
        match r {
            Ok(fees) => {
                let burnt_weight = self.exit_fee_weight(lp_in);
                &&& self.exit_error(sender, lp_in) is None
                &&& fees == self.fees_withdrawable_of(sender)
                &&& after.reserves@ == Seq::new(
                    self.outcomes as nat,
                    |i: int| (self.reserves@[i] - self.exit_part(lp_in, i)) as u128,
                )
                &&& after.fee_pool_weight == self.fee_pool_weight - burnt_weight
                &&& after.lp_supply == self.lp_supply - lp_in
                &&& after.same_config(self)
                &&& after.lp_balance_of(sender) == self.lp_balance_of(sender) - lp_in
                &&& after.withdrawn_of(sender) == sub_floor_zero(
                    self.withdrawn_of(sender) + fees,
                    burnt_weight,
                )
                &&& forall|o: int| 0 <= o < self.outcomes ==> #[trigger] after.share_of(sender, o)
                    == self.share_of(sender, o) + self.exit_part(lp_in, o)
                &&& after.others_unchanged(self, sender)
            },
            Err(e) => self.exit_error(sender, lp_in) == Some(e) && *after == *self,
        }
    }

    /// The effect of `sender` redeeming `to_burn` complete sets, with result `r`.
    pub open spec fn burn_post(
        &self,
        after: &Pool,
        sender: Seq<char>,
        to_burn: u128,
        r: Result<u128, PoolError>,
    ) -> bool {
        match r {
            Ok(v) => {
                &&& self.burn_error(sender, to_burn) is None
                &&& v == to_burn
                &&& after.reserves == self.reserves
                &&& after.fee_pool_weight == self.fee_pool_weight
                &&& after.lp_supply == self.lp_supply
                &&& after.same_config(self)
                &&& after.lp_balance_of(sender) == self.lp_balance_of(sender)
                &&& after.withdrawn_of(sender) == self.withdrawn_of(sender)
                &&& forall|o: int| 0 <= o < self.outcomes ==> #[trigger] after.share_of(sender, o)
                    == self.share_of(sender, o) - to_burn
                &&& after.others_unchanged(self, sender)
            },
            Err(e) => self.burn_error(sender, to_burn) == Some(e) && *after == *self,
        }
    }

    /// The effect of `sender` depositing `total_in`, with result `r`.
    pub open spec fn add_post(
        &self,
        after: &Pool,
        sender: Seq<char>,
        total_in: u128,
        weight_indication: Option<Vec<u128>>,
        r: Result<u128, PoolError>,
    ) -> bool {
        match r {
            Ok(minted) => {
                let rem = self.add_remaining(total_in, weights_seq(weight_indication));
                let fw = self.add_fee_weight(minted as int);
                &&& self.add_error(sender, total_in, weight_indication) is None
                &&& minted == self.add_minted(total_in)
                &&& minted > 0
                &&& after.reserves@ == Seq::new(
                    self.outcomes as nat,
                    |i: int| (self.reserves@[i] + rem[i]) as u128,
                )
                &&& after.lp_supply == self.lp_supply + minted
                &&& forall|i: int|
                    0 <= i < self.outcomes ==> #[trigger] after.reserves@[i] * self.lp_supply
                        >= self.reserves@[i] * after.lp_supply
                &&& after.fee_pool_weight == self.fee_pool_weight + fw
                &&& after.same_config(self)
                &&& after.lp_balance_of(sender) == self.lp_balance_of(sender) + minted
                &&& after.withdrawn_of(sender) == self.withdrawn_of(sender) + fw
                &&& forall|o: int| 0 <= o < self.outcomes ==> #[trigger] after.share_of(sender, o)
                    == self.share_of(sender, o) + (total_in - rem[o])
                &&& after.others_unchanged(self, sender)
            },
            Err(e) => self.add_error(sender, total_in, weight_indication) == Some(e)
                && *after == *self,
        }
    }

    /// The effect of paying `account` out under `payout_numerator`, with result `r`.
    pub open spec fn payout_post(
        &self,
        after: &Pool,
        account: Seq<char>,
        payout_numerator: Option<Vec<u128>>,
        r: u128,
    ) -> bool {
        match payout_numerator {
            Some(v) => {
                &&& r == self.payout_owed(account, v@)
                &&& after.reserves == self.reserves
                &&& after.fee_pool_weight == self.fee_pool_weight
                &&& after.lp_supply == self.lp_supply
                &&& after.same_config(self)
                &&& after.lp_balance_of(account) == self.lp_balance_of(account)
                &&& after.withdrawn_of(account) == self.withdrawn_of(account)
                &&& forall|o: int| #[trigger] after.share_of(account, o) == 0
                &&& after.payout_owed(account, v@) == 0
                &&& after.others_unchanged(self, account)
            },
            None => r == 0 && *after == *self,
        }
    }

    /// What `account` holds: LP tokens, withdrawn fees, and shares of each outcome.
    fn holdings(&self, account: &AccountId) -> (r: (u128, u128, Vec<u128>))
        requires
            self.ledger_wf(),
        ensures
            r.0 == self.lp_balance_of(account@),
            r.1 == self.withdrawn_of(account@),
            r.2@.len() == self.outcomes,
            forall|o: int| 0 <= o < self.outcomes ==> #[trigger] r.2@[o] == self.share_of(account@, o),
    {
        match self.find(account) {
            Some(i) => {
                let entry = &self.ledger[i];
                let mut shares: Vec<u128> = Vec::new();
                let mut k: usize = 0;
                while k < entry.shares.len()
                    invariant
                        self.ledger_wf(),
                        i < self.ledger@.len(),
                        index_of(self.ledger@, account@) == i,
                        *entry == self.ledger@[i as int],
                        k <= entry.shares@.len(),
                        shares@.len() == k,
                        forall|o: int| 0 <= o < k ==> #[trigger] shares@[o] == entry.shares@[o],
                    decreases entry.shares@.len() - k,
                {
                    shares.push(entry.shares[k]);
                    k = k + 1;
                }
                (entry.lp_balance, entry.withdrawn_fees, shares)
            },
            None => (0, 0, zeros(self.outcomes as usize)),
        }
    }

    /// Sets what `account` holds; the LP supply follows the change of its LP balance.
    fn set_holdings(&mut self, account: &AccountId, lp: u128, withdrawn: u128, shares: Vec<u128>)
        requires
            old(self).ledger_wf(),
            shares@.len() == old(self).outcomes,
            0 <= old(self).lp_supply - old(self).lp_balance_of(account@) + lp <= u128::MAX,
            old(self).lp_supply - old(self).lp_balance_of(account@) + lp > 0 ==> seq_all_positive(
                old(self).reserves@,
            ),
            old(self).lp_supply - old(self).lp_balance_of(account@) + lp == 0 ==> seq_all_zero(
                old(self).reserves@,
            ),
        ensures
            final(self).wf(),
            final(self).lp_supply == old(self).lp_supply - old(self).lp_balance_of(account@) + lp,
            final(self).reserves == old(self).reserves,
            final(self).fee_pool_weight == old(self).fee_pool_weight,
            final(self).same_config(old(self)),
            final(self).lp_balance_of(account@) == lp,
            final(self).withdrawn_of(account@) == withdrawn,
            forall|o: int| 0 <= o < old(self).outcomes ==> #[trigger] final(self).share_of(account@, o) == shares@[o],
            forall|o: int| !(0 <= o < old(self).outcomes) ==> #[trigger] final(self).share_of(account@, o) == 0,
            final(self).others_unchanged(old(self), account@),
    {
        let held = self.get_pool_token_balance(account);
        proof {
            let i = index_of(self.ledger@, account@);
            if i >= 0 {
                lemma_lp_entry_le_sum(self.ledger@, i);
            }
        }
        let new_supply = self.lp_supply - held + lp;
        let idx = self.entry_for(account);
        let ghost mid = *self;
        proof {
            lemma_lp_sum_nonneg(mid.ledger@);
            lemma_lp_entry_le_sum(mid.ledger@, idx as int);
        }
        self.ledger[idx].lp_balance = lp;
        self.ledger[idx].withdrawn_fees = withdrawn;
        self.ledger[idx].shares = shares;
        self.lp_supply = new_supply;
        proof {
            lemma_entry_frame(mid, *self, idx as int);
            lemma_lp_sum_update(mid.ledger@, idx as int, self.ledger@[idx as int]);
            assert(self.ledger@ =~= mid.ledger@.update(idx as int, self.ledger@[idx as int]));
            assert forall|b: Seq<char>| b != account@ implies #[trigger] self.same_holdings(old(self), b) by {
                assert(mid.same_holdings(old(self), b));
                assert(self.same_holdings(&mid, b));
            }
            assert(mid.same_holdings(old(self), account@));
            assert forall|i: int|
                0 <= i < self.ledger@.len() implies (#[trigger] self.ledger@[i]).shares@.len()
                == self.outcomes by {
                if i != idx {
                    assert(self.ledger@[i] == mid.ledger@[i]);
                }
            }
        }
    }

    fn find(&self, a: &AccountId) -> (r: Option<usize>)
        requires
            self.ledger_wf(),
        ensures
            match r {
                Some(i) => i < self.ledger@.len() && self.ledger@[i as int].account@ == a@ && index_of(
                    self.ledger@,
                    a@,
                ) == i,
                None => index_of(self.ledger@, a@) == -1 && forall|i: int|
                    0 <= i < self.ledger@.len() ==> #[trigger] self.ledger@[i].account@ != a@,
            },
    {
        let mut i: usize = 0;
        while i < self.ledger.len()
            invariant
                self.ledger_wf(),
                i <= self.ledger@.len(),
                forall|j: int| 0 <= j < i ==> #[trigger] self.ledger@[j].account@ != a@,
            decreases self.ledger@.len() - i,
        {
            if self.ledger[i].account == *a {
                proof {
                    lemma_index_of(self.ledger@, a@, i as int);
                }
                return Some(i);
            }
            i = i + 1;
        }
        None
    }

    /// LP tokens held by `account`.
    pub fn get_pool_token_balance(&self, account: &AccountId) -> (r: u128)
        requires
            self.ledger_wf(),
        ensures
            r == self.lp_balance_of(account@),
    {
        match self.find(account) {
            Some(i) => self.ledger[i].lp_balance,
            None => 0,
        }
    }

    /// Shares of `outcome` held by `account`.
    pub fn get_share_balance(&self, account: &AccountId, outcome: u16) -> (r: u128)
        requires
            self.ledger_wf(),
        ensures
            r == self.share_of(account@, outcome as int),
    {
        match self.find(account) {
            Some(i) => {
                if (outcome as usize) < self.ledger[i].shares.len() {
                    self.ledger[i].shares[outcome as usize]
                } else {
                    0
                }
            },
            None => 0,
        }
    }

    fn get_withdrawn_fees(&self, account: &AccountId) -> (r: u128)
        requires
            self.ledger_wf(),
        ensures
            r == self.withdrawn_of(account@),
    {
        match self.find(account) {
            Some(i) => self.ledger[i].withdrawn_fees,
            None => 0,
        }
    }

    /// Where `account` stands in the ledger; a fresh entry holding nothing is added if needed.
    fn entry_for(&mut self, account: &AccountId) -> (r: usize)
        requires
            old(self).ledger_wf(),
        ensures
            final(self).ledger_wf(),
            r < final(self).ledger@.len(),
            final(self).ledger@[r as int].account@ == account@,
            index_of(final(self).ledger@, account@) == r,
            final(self).same_config(old(self)),
            final(self).reserves == old(self).reserves,
            final(self).lp_supply == old(self).lp_supply,
            final(self).fee_pool_weight == old(self).fee_pool_weight,
            forall|b: Seq<char>| #[trigger] final(self).same_holdings(old(self), b),
    {
        match self.find(account) {
            Some(i) => i,
            None => {
                let ghost before = *self;
                let entry = LedgerEntry {
                    account: account.clone(),
                    lp_balance: 0,
                    withdrawn_fees: 0,
                    shares: zeros(self.outcomes as usize),
                };
                self.ledger.push(entry);
                let r = self.ledger.len() - 1;
                proof {
                    let s = self.ledger@;
                    lemma_lp_sum_push(before.ledger@, entry);
                    assert(s.drop_last() =~= before.ledger@);
                    lemma_index_of(s, account@, r as int);
                    assert forall|b: Seq<char>| #[trigger] self.same_holdings(&before, b) by {
                        if b != account@ {
                            if index_of(before.ledger@, b) >= 0 {
                                let j = index_of(before.ledger@, b);
                                assert(s[j] == before.ledger@[j]);
                                lemma_index_of(s, b, j);
                            } else {
                                assert forall|k: int| 0 <= k < s.len() implies #[trigger] s[k].account@
                                    != b by {
                                    if k < before.ledger@.len() {
                                        assert(s[k] == before.ledger@[k]);
                                    }
                                }
                                lemma_index_absent(s, b);
                            }
                        }
                    }
                }
                r
            },
        }
    }
}

/// A vector of `n` zeros.
pub fn zeros(n: usize) -> (r: Vec<u128>)
    ensures
        r@.len() == n,
        seq_all_zero(r@),
        forall|i: int| 0 <= i < n ==> #[trigger] r@[i] == 0,
{
    let mut v: Vec<u128> = Vec::new();
    let mut i: usize = 0;
    while i < n
        invariant
            i <= n,
            v@.len() == i,
            forall|j: int| 0 <= j < i ==> #[trigger] v@[j] == 0,
        decreases n - i,
    {
        v.push(0);
        i = i + 1;
    }
    v
}

/// The fee weight falls only when LP tokens are burnt: a purchase, a sale, a deposit, a
/// redemption of complete sets or a payout leaves it where it was or raises it.
pub proof fn lemma_fee_weight_falls_only_on_exit(
    before: Pool,
    after: Pool,
    sender: Seq<char>,
    amount: u128,
    outcome: u16,
    bound: u128,
    weights: Option<Vec<u128>>,
    numerator: Option<Vec<u128>>,
    r: Result<u128, PoolError>,
    paid: u128,
)
    requires
        before.wf(),
        before.buy_post(&after, sender, amount, outcome, bound, r) || before.sell_post(
            &after,
            sender,
            amount,
            outcome,
            bound,
            r,
        ) || before.add_post(&after, sender, amount, weights, r) || before.burn_post(
            &after,
            sender,
            amount,
            r,
        ) || before.payout_post(&after, sender, numerator, paid),
    ensures
        after.fee_pool_weight >= before.fee_pool_weight,
{
    if before.buy_post(&after, sender, amount, outcome, bound, r) && r is Ok {
        before.lemma_fee_at_most_amount(amount as int);
    }
    if before.sell_post(&after, sender, amount, outcome, bound, r) && r is Ok {
        before.lemma_fee_at_most_amount(amount as int);
    }
    if before.add_post(&after, sender, amount, weights, r) && r is Ok {
        if before.lp_supply > 0 {
            let m = before.add_minted(amount);
            assert(before.add_fee_weight(m) >= 0) by (nonlinear_arith)
                requires
                    before.add_fee_weight(m) == (before.fee_pool_weight * m) / (before.lp_supply as int),
                    m >= 0,
                    before.lp_supply > 0,
            ;
        }
    }
}

/// The fees an LP may withdraw never exceed its stake's share of the fee weight.
pub proof fn lemma_fees_within_share(p: Pool, a: Seq<char>)
    requires
        p.wf(),
        p.lp_supply > 0,
    ensures
        0 <= p.fees_withdrawable_of(a) <= mul_div_spec(
            p.fee_pool_weight as int,
            p.lp_balance_of(a),
            p.lp_supply as int,
        ),
{
    p.lemma_lp_balance_le_supply(a);
    let raw = mul_div_spec(p.fee_pool_weight as int, p.lp_balance_of(a), p.lp_supply as int);
    assert(raw >= 0) by (nonlinear_arith)
        requires
            raw == (p.fee_pool_weight * p.lp_balance_of(a)) / (p.lp_supply as int),
            p.lp_balance_of(a) >= 0,
            p.lp_supply > 0,
    ;
}

} // verus!
