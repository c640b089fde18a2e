//! Outcome descriptors, oracle answers, and the resolution of an answer into a payout vector.
use vstd::prelude::*;
use crate::math::{mul_div_floor, mul_div_spec};

verus! {

/// One bound of a scalar market: a magnitude with its sign, and the fixed-point multiplier the
/// magnitude is expressed in.
#[derive(Clone, Copy, Debug, PartialEq, Eq)]
pub struct NumberOutcomeTag {
    pub value: u128,
    pub multiplier: u128,
    pub negative: bool,
}

/// What an outcome stands for: a numeric bound (scalar markets) or a label (categorical ones).
#[derive(Clone, Debug)]
pub enum OutcomeTag {
    Number(NumberOutcomeTag),
    String(String),
}

/// A signed numeric answer delivered by the oracle.
#[derive(Clone, Copy, Debug, PartialEq, Eq)]
pub struct AnswerNumberType {
    pub value: u128,
    pub multiplier: u128,
    pub negative: bool,
}

/// The shape of an oracle answer.
#[derive(Clone, Debug)]
pub enum AnswerType {
    Number(AnswerNumberType),
    String(String),
}

/// A finalized oracle answer, or the verdict that the market is invalid.
#[derive(Clone, Debug)]
pub enum Outcome {
    Answer(AnswerType),
    Invalid,
}

/// Why an answer could not be turned into a payout vector.
#[derive(Clone, Copy, Debug, PartialEq, Eq)]
pub enum ResolutionError {
    /// A scalar market whose tags are not two numeric bounds with a lower below an upper whose
    /// distance fits in 128 bits.
    WrongOutcomeTags,
    /// A scalar market received a label.
    NumberExpected,
    /// A categorical market received a number.
    StringExpected,
    /// No tag of a categorical market carries the answered label.
    OutcomeNotFound,
}

/// The signed value of a magnitude and a sign (a negative zero is zero).
pub open spec fn signed(value: u128, negative: bool) -> int {
    if negative {
        -(value as int)
    } else {
        value as int
    }
}

pub open spec fn clamp(x: int, lo: int, hi: int) -> int {
    if x < lo {
        lo
    } else if x > hi {
        hi
    } else {
        x
    }
}

/// Two numeric tags that bound a scalar market: the lower strictly below the upper, with a
/// distance that fits in 128 bits.
pub open spec fn valid_scalar_bounds(lower: NumberOutcomeTag, upper: NumberOutcomeTag) -> bool {
    let lb = signed(lower.value, lower.negative);
    let ub = signed(upper.value, upper.negative);
    lb < ub && ub - lb <= u128::MAX
}

/// The share of the denomination that goes to the lower ("short") outcome: the distance of
/// the clamped answer to the upper bound, as a fraction of the range, rounded down.
pub open spec fn scalar_short_payout(lb: int, ub: int, answer: int, denomination: int) -> int {
    mul_div_spec(denomination, ub - clamp(answer, lb, ub), ub - lb)
}

/// The payout vector of a scalar market: the short payout for the lower outcome and the rest of
/// the denomination for the upper one.
pub open spec fn scalar_payout_spec(
    lower: NumberOutcomeTag,
    upper: NumberOutcomeTag,
    answer: AnswerNumberType,
    denomination: u128,
) -> Seq<int> {
    let short = scalar_short_payout(
        signed(lower.value, lower.negative),
        signed(upper.value, upper.negative),
        signed(answer.value, answer.negative),
        denomination as int,
    );
    seq![short, denomination - short]
}

/// Whether `tag` is a label equal to `label`.
pub open spec fn tag_matches(tag: OutcomeTag, label: Seq<char>) -> bool {
    match tag {
        OutcomeTag::String(s) => s@ == label,
        OutcomeTag::Number(_) => false,
    }
}

/// `i` is the first index of `tags` whose label is `label`.
pub open spec fn first_match(tags: Seq<OutcomeTag>, label: Seq<char>, i: int) -> bool {
    &&& 0 <= i < tags.len()
    &&& tag_matches(tags[i], label)
    &&& forall|j: int| 0 <= j < i ==> !tag_matches(#[trigger] tags[j], label)
}

/// The vector that gives the whole denomination to outcome `i` and nothing to the others.
pub open spec fn one_hot(len: nat, i: int, denomination: u128) -> Seq<int> {
    Seq::new(len, |k: int| if k == i { denomination as int } else { 0 })
}

pub open spec fn sum(s: Seq<int>) -> int
    decreases s.len(),
{
    if s.len() == 0 {
        0
    } else {
        sum(s.drop_last()) + s.last()
    }
}

/// The view of a payout vector as integers.
pub open spec fn as_ints(v: Seq<u128>) -> Seq<int> {
    Seq::new(v.len(), |i: int| v[i] as int)
}

/// Signed comparison of two magnitude/sign pairs.
fn signed_lt(a: u128, a_neg: bool, b: u128, b_neg: bool) -> (r: bool)
    ensures
        r == (signed(a, a_neg) < signed(b, b_neg)),
{
    if a_neg && b_neg {
        b < a
    } else if a_neg {
        a != 0 || b != 0
    } else if b_neg {
        false
    } else {
        a < b
    }
}

/// Distance from `lo` up to `hi`, both signed, where it is known to fit.
fn signed_distance(hi: u128, hi_neg: bool, lo: u128, lo_neg: bool) -> (r: u128)
    requires
        signed(lo, lo_neg) <= signed(hi, hi_neg),
        signed(hi, hi_neg) - signed(lo, lo_neg) <= u128::MAX,
    ensures
        r == signed(hi, hi_neg) - signed(lo, lo_neg),
{
    if lo_neg && hi_neg {
        lo - hi
    } else if lo_neg {
        hi + lo
    } else {
        hi - lo
    }
}

/// Payout vector of a scalar market whose bounds are valid: the answer is clamped into the
/// bound range and interpolated linearly.
pub fn scalar_payout(
    lower: &NumberOutcomeTag,
    upper: &NumberOutcomeTag,
    answer: &AnswerNumberType,
    denomination: u128,
) -> (r: Vec<u128>)
    requires
        valid_scalar_bounds(*lower, *upper),
    ensures
        as_ints(r@) == scalar_payout_spec(*lower, *upper, *answer, denomination),
        sum(as_ints(r@)) == denomination,
{
    let ghost lb = signed(lower.value, lower.negative);
    let ghost ub = signed(upper.value, upper.negative);
    let ghost ans = signed(answer.value, answer.negative);
    let range = signed_distance(upper.value, upper.negative, lower.value, lower.negative);
    // distance of the clamped answer below the upper bound
    let below_upper: u128 = if signed_lt(answer.value, answer.negative, lower.value, lower.negative) {
        range
    } else if signed_lt(upper.value, upper.negative, answer.value, answer.negative) {
        0
    } else {
        signed_distance(upper.value, upper.negative, answer.value, answer.negative)
    };
    assert(below_upper == ub - clamp(ans, lb, ub));
    let short = mul_div_floor(denomination, below_upper, range);
    let long = denomination - short;
    let r = vec![short, long];
    proof {
        assert(as_ints(r@) =~= scalar_payout_spec(*lower, *upper, *answer, denomination));
        assert(sum(as_ints(r@)) == denomination) by {
            let s = as_ints(r@);
            assert(s.drop_last().drop_last() =~= Seq::<int>::empty());
            let t = s.drop_last();
            assert(sum(t.drop_last()) == 0);
            assert(t.last() == s[0]);
            assert(sum(t) == s[0]);
        }
    }
    r
}

/// Payout vector of a categorical market: the whole denomination to the first outcome whose
/// label is the answer.
pub fn categorical_payout(tags: &Vec<OutcomeTag>, label: &String, denomination: u128) -> (r: Result<
    Vec<u128>,
    ResolutionError,
>)
    ensures
        match r {
            Ok(v) => exists|i: int|
                first_match(tags@, label@, i) && as_ints(v@) == one_hot(tags@.len(), i, denomination),
            Err(e) => e == ResolutionError::OutcomeNotFound && forall|i: int|
                0 <= i < tags@.len() ==> !tag_matches(#[trigger] tags@[i], label@),
        },
{
    let mut idx: usize = 0;
    while idx < tags.len()
        invariant
            idx <= tags@.len(),
            forall|j: int| 0 <= j < idx ==> !tag_matches(#[trigger] tags@[j], label@),
        decreases tags@.len() - idx,
    {
        let found = match &tags[idx] {
            OutcomeTag::String(s) => *s == *label,
            OutcomeTag::Number(_) => false,
        };
        if found {
            let mut v: Vec<u128> = Vec::new();
            let mut k: usize = 0;
            while k < tags.len()
                invariant
                    k <= tags@.len(),
                    v@.len() == k,
                    idx < tags@.len(),
                    forall|m: int| 0 <= m < k ==> #[trigger] v@[m] == (if m == idx { denomination } else { 0 }),
                decreases tags@.len() - k,
            {
                if k == idx {
                    v.push(denomination);
                } else {
                    v.push(0);
                }
                k = k + 1;
            }
            assert(first_match(tags@, label@, idx as int));
            assert(as_ints(v@) =~= one_hot(tags@.len(), idx as int, denomination));
            return Ok(v);
        }
        idx = idx + 1;
    }
    Err(ResolutionError::OutcomeNotFound)
}

/// Tags of a scalar market: exactly a lower and an upper numeric bound that are valid.
pub open spec fn scalar_tags_valid(tags: Seq<OutcomeTag>) -> bool {
    &&& tags.len() == 2
    &&& tags[0] is Number
    &&& tags[1] is Number
    &&& valid_scalar_bounds(tags[0]->Number_0, tags[1]->Number_0)
}

/// What resolving `outcome` yields, given the payout vector `r` as integers.
pub open spec fn resolves_to(
    outcome: Outcome,
    is_scalar: bool,
    tags: Seq<OutcomeTag>,
    denomination: u128,
    r: Result<Option<Seq<int>>, ResolutionError>,
) -> bool {
    match outcome {
        Outcome::Invalid => r == Ok::<Option<Seq<int>>, ResolutionError>(None),
        Outcome::Answer(answer) => if is_scalar {
            if !scalar_tags_valid(tags) {
                r == Err::<Option<Seq<int>>, ResolutionError>(ResolutionError::WrongOutcomeTags)
            } else {
                match answer {
                    AnswerType::String(_) => r == Err::<Option<Seq<int>>, ResolutionError>(
                        ResolutionError::NumberExpected,
                    ),
                    AnswerType::Number(n) => r == Ok::<Option<Seq<int>>, ResolutionError>(
                        Some(scalar_payout_spec(tags[0]->Number_0, tags[1]->Number_0, n, denomination)),
                    ),
                }
            }
        } else {
            match answer {
                AnswerType::Number(_) => r == Err::<Option<Seq<int>>, ResolutionError>(
                    ResolutionError::StringExpected,
                ),
                AnswerType::String(label) => if exists|i: int| first_match(tags, label@, i) {
                    exists|i: int|
                        first_match(tags, label@, i) && r == Ok::<Option<Seq<int>>, ResolutionError>(
                            Some(one_hot(tags.len(), i, denomination)),
                        )
                } else {
                    r == Err::<Option<Seq<int>>, ResolutionError>(ResolutionError::OutcomeNotFound)
                },
            }
        },
    }
}

/// The integer view of a resolution result.
pub open spec fn result_ints(r: Result<Option<Vec<u128>>, ResolutionError>) -> Result<
    Option<Seq<int>>,
    ResolutionError,
> {
    match r {
        Ok(Some(v)) => Ok(Some(as_ints(v@))),
        Ok(None) => Ok(None),
        Err(e) => Err(e),
    }
}

/// The whole denomination placed on one outcome sums to the denomination.
pub proof fn lemma_one_hot_sum(len: nat, i: int, denomination: u128)
    requires
        0 <= i < len,
    ensures
        sum(one_hot(len, i, denomination)) == denomination,
    decreases len,
{
    let s = one_hot(len, i, denomination);
    if len - 1 == i {
        lemma_zeros_sum((len - 1) as nat, denomination);
        assert(s.drop_last() =~= Seq::new((len - 1) as nat, |k: int| 0int));
    } else {
        lemma_one_hot_sum((len - 1) as nat, i, denomination);
        assert(s.drop_last() =~= one_hot((len - 1) as nat, i, denomination));
    }
}

proof fn lemma_zeros_sum(len: nat, denomination: u128)
    ensures
        sum(Seq::new(len, |k: int| 0int)) == 0,
    decreases len,
{
    if len > 0 {
        lemma_zeros_sum((len - 1) as nat, denomination);
        assert(Seq::new(len, |k: int| 0int).drop_last() =~= Seq::new((len - 1) as nat, |k: int| 0int));
    }
}

/// The payout vector an answer gives: `None` for an invalid market, otherwise the scalar or
/// categorical vector, which always sums to the denomination.
pub fn resolve_outcome(
    outcome: &Outcome,
    is_scalar: bool,
    tags: &Vec<OutcomeTag>,
    denomination: u128,
) -> (r: Result<Option<Vec<u128>>, ResolutionError>)
    ensures
        resolves_to(*outcome, is_scalar, tags@, denomination, result_ints(r)),
        r matches Ok(Some(v)) ==> sum(as_ints(v@)) == denomination && v@.len() == if is_scalar {
            2
        } else {
            tags@.len()
        },
{
    match outcome {
        Outcome::Invalid => Ok(None),
        Outcome::Answer(answer) => {
            if is_scalar {
                if tags.len() != 2 {
                    return Err(ResolutionError::WrongOutcomeTags);
                }
                let lower = match &tags[0] {
                    OutcomeTag::Number(n) => *n,
                    OutcomeTag::String(_) => { return Err(ResolutionError::WrongOutcomeTags); },
                };
                let upper = match &tags[1] {
                    OutcomeTag::Number(n) => *n,
                    OutcomeTag::String(_) => { return Err(ResolutionError::WrongOutcomeTags); },
                };
                if !signed_lt(lower.value, lower.negative, upper.value, upper.negative) {
                    return Err(ResolutionError::WrongOutcomeTags);
                }
                // the range must fit: only a negative lower bound with a non-negative upper one
                // can exceed 128 bits
                if lower.negative && !upper.negative && upper.value > u128::MAX - lower.value {
                    return Err(ResolutionError::WrongOutcomeTags);
                }
                let number = match answer {
                    AnswerType::Number(n) => *n,
                    AnswerType::String(_) => { return Err(ResolutionError::NumberExpected); },
                };
                Ok(Some(scalar_payout(&lower, &upper, &number, denomination)))
            } else {
                let label = match answer {
                    AnswerType::String(s) => s,
                    AnswerType::Number(_) => { return Err(ResolutionError::StringExpected); },
                };
                match categorical_payout(tags, label, denomination) {
                    Ok(v) => {
                        proof {
                            let i = choose|i: int|
                                first_match(tags@, label@, i) && as_ints(v@) == one_hot(
                                    tags@.len(),
                                    i,
                                    denomination,
                                );
                            lemma_one_hot_sum(tags@.len(), i, denomination);
                            assert(as_ints(v@).len() == v@.len());
                        }
                        Ok(Some(v))
                    },
                    Err(e) => Err(e),
                }
            }
        },
    }
}

} // verus!
