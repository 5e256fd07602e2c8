//! One period of redistribution at a given tax.
//!
//! Wealth above the soft limit is burned, then every player below the limit
//! receives a share of what the population is short of. A share grows with
//! the square root of the fortune it goes to, and no fortune counts for less
//! than the start fortune.

use crate::fixed::{
    div_floor, fixed_div, fixed_mul, fixed_sqrt, lemma_div_between, lemma_fixed_sqrt_bound,
    lemma_floor_sqrt_exists, lemma_product_bound, lemma_signed_product_bound, mul_fixed,
    sqrt_fixed, UNIT,
};
use crate::limits::{
    fortunes_in_range, fortunes_within_limits, ints, EconomyError, MAX_FORTUNE, MAX_TAX,
};
use vstd::prelude::*;

verus! {

/// What a fortune at or above the soft limit loses: the square root of its
/// excess, times the tax.
pub open spec fn burn(fortune: int, tax: int) -> int {
    fixed_mul(fixed_sqrt(fortune - UNIT), tax)
}

/// A fortune after the burn: unchanged below the soft limit.
pub open spec fn skim(fortune: int, tax: int) -> int {
    if fortune >= UNIT {
        fortune - burn(fortune, tax)
    } else {
        fortune
    }
}

/// All fortunes after the burn.
pub open spec fn skimmed(fortunes: Seq<int>, tax: int) -> Seq<int> {
    Seq::new(fortunes.len(), |i: int| skim(fortunes[i], tax))
}

/// What a fortune counts for when shares are weighed: itself, or the start
/// fortune where that is more.
pub open spec fn floored(fortune: int, start_fortune: int) -> int {
    if fortune < start_fortune {
        start_fortune
    } else {
        fortune
    }
}

/// The weight of a fortune below the soft limit: the square root of what it counts for.
pub open spec fn weight(fortune: int, start_fortune: int) -> int {
    fixed_sqrt(floored(fortune, start_fortune))
}

/// What the first `k` fortunes lack to the soft limit, summed over those below it.
pub open spec fn prefix_shortfall(fortunes: Seq<int>, k: int) -> int
    decreases k,
{
    if k <= 0 {
        0
    } else if fortunes[k - 1] < UNIT {
        prefix_shortfall(fortunes, k - 1) + (UNIT - fortunes[k - 1])
    } else {
        prefix_shortfall(fortunes, k - 1)
    }
}

/// What the population lacks to the soft limit, summed over the fortunes below it.
pub open spec fn shortfall(fortunes: Seq<int>) -> int {
    prefix_shortfall(fortunes, fortunes.len() as int)
}

/// The weights of those of the first `k` fortunes that are below the soft limit, summed.
pub open spec fn prefix_weights(fortunes: Seq<int>, start_fortune: int, k: int) -> int
    decreases k,
{
    if k <= 0 {
        0
    } else if fortunes[k - 1] < UNIT {
        prefix_weights(fortunes, start_fortune, k - 1) + weight(fortunes[k - 1], start_fortune)
    } else {
        prefix_weights(fortunes, start_fortune, k - 1)
    }
}

/// The weights of all fortunes below the soft limit, summed.
pub open spec fn weight_sum(fortunes: Seq<int>, start_fortune: int) -> int {
    prefix_weights(fortunes, start_fortune, fortunes.len() as int)
}

/// What a fortune below the soft limit receives: its part of the weights,
/// times the shortfall, times the tax.
pub open spec fn share(
    fortune: int,
    start_fortune: int,
    weights: int,
    distribute: int,
    tax: int,
) -> int {
    fixed_mul(fixed_mul(fixed_div(weight(fortune, start_fortune), weights), distribute), tax)
}

/// A fortune after the shares are handed out: unchanged at or above the soft limit.
pub open spec fn raise(
    fortune: int,
    start_fortune: int,
    weights: int,
    distribute: int,
    tax: int,
) -> int {
    if fortune < UNIT {
        fortune + share(fortune, start_fortune, weights, distribute, tax)
    } else {
        fortune
    }
}

/// All fortunes after one period: burned, then raised by their shares, where
/// weights and shortfall are taken after the burn.
pub open spec fn redistributed(fortunes: Seq<int>, tax: int, start_fortune: int) -> Seq<int> {
    let burned = skimmed(fortunes, tax);
    Seq::new(
        burned.len(),
        |i: int|
            raise(
                burned[i],
                start_fortune,
                weight_sum(burned, start_fortune),
                shortfall(burned),
                tax,
            ),
    )
}

/// Every fortune below the soft limit counts for a non-negative amount, so
/// that its weight is the root of a non-negative number.
pub open spec fn weights_defined(fortunes: Seq<int>, start_fortune: int) -> bool {
    forall|i: int|
        0 <= i < fortunes.len() && #[trigger] fortunes[i] < UNIT ==> floored(
            fortunes[i],
            start_fortune,
        ) >= 0
}

/// The shares are defined: after the burn every weight is, and where anything
/// is short the weights sum to more than zero.
pub open spec fn shares_defined(fortunes: Seq<int>, tax: int, start_fortune: int) -> bool {
    let burned = skimmed(fortunes, tax);
    &&& weights_defined(burned, start_fortune)
    &&& shortfall(burned) > 0 ==> weight_sum(burned, start_fortune) > 0
}

/// Fortunes, tax and start fortune are within the limits of exact computation.
pub open spec fn within_limits(fortunes: Seq<int>, tax: int, start_fortune: int) -> bool {
    &&& fortunes_within_limits(fortunes)
    &&& -MAX_TAX <= tax <= MAX_TAX
    &&& -MAX_FORTUNE <= start_fortune <= MAX_FORTUNE
}

/// What one period gives: the new fortunes, or why there are none.
pub open spec fn update_outcome(fortunes: Seq<int>, tax: int, start_fortune: int) -> Result<
    Seq<int>,
    EconomyError,
> {
    if !within_limits(fortunes, tax, start_fortune) {
        Err(EconomyError::OutOfRange)
    } else if !shares_defined(fortunes, tax, start_fortune) {
        Err(EconomyError::Degenerate)
    } else if !fortunes_within_limits(redistributed(fortunes, tax, start_fortune)) {
        Err(EconomyError::OutOfRange)
    } else {
        Ok(redistributed(fortunes, tax, start_fortune))
    }
}

/// The shortfall of a prefix is never negative.
proof fn lemma_prefix_shortfall_not_negative(fortunes: Seq<int>, k: int)
    requires
        0 <= k <= fortunes.len(),
    ensures
        prefix_shortfall(fortunes, k) >= 0,
    decreases k,
{
    if k > 0 {
        lemma_prefix_shortfall_not_negative(fortunes, k - 1);
    }
}

/// The shortfall of a prefix is at least what any one fortune of the prefix lacks.
proof fn lemma_prefix_shortfall_covers(fortunes: Seq<int>, i: int, k: int)
    requires
        0 <= i < k <= fortunes.len(),
        fortunes[i] < UNIT,
    ensures
        prefix_shortfall(fortunes, k) >= UNIT - fortunes[i],
    decreases k,
{
    if i < k - 1 {
        lemma_prefix_shortfall_covers(fortunes, i, k - 1);
    } else {
        lemma_prefix_shortfall_not_negative(fortunes, k - 1);
    }
}

/// The weight of a fortune that counts for a non-negative amount is not negative.
proof fn lemma_weight_not_negative(fortune: int, start_fortune: int)
    requires
        floored(fortune, start_fortune) >= 0,
    ensures
        weight(fortune, start_fortune) >= 0,
{
    assert(floored(fortune, start_fortune) * UNIT >= 0) by (nonlinear_arith)
        requires
            floored(fortune, start_fortune) >= 0,
            UNIT == 1_000_000,
    ;
    lemma_floor_sqrt_exists(floored(fortune, start_fortune) * UNIT);
}

/// Where every weight is defined, the weights of a prefix sum to no less than
/// zero and to no less than any one weight of the prefix.
proof fn lemma_prefix_weights_cover(fortunes: Seq<int>, start_fortune: int, i: int, k: int)
    requires
        0 <= i < k <= fortunes.len(),
        weights_defined(fortunes, start_fortune),
    ensures
        prefix_weights(fortunes, start_fortune, k) >= 0,
        fortunes[i] < UNIT ==> prefix_weights(fortunes, start_fortune, k) >= weight(
            fortunes[i],
            start_fortune,
        ),
    decreases k,
{
    lemma_prefix_weights_not_negative(fortunes, start_fortune, k - 1);
    if fortunes[k - 1] < UNIT {
        lemma_weight_not_negative(fortunes[k - 1], start_fortune);
    }
    if i < k - 1 {
        lemma_prefix_weights_cover(fortunes, start_fortune, i, k - 1);
    }
}

/// Where every weight is defined, the weights of a prefix sum to no less than zero.
proof fn lemma_prefix_weights_not_negative(fortunes: Seq<int>, start_fortune: int, k: int)
    requires
        0 <= k <= fortunes.len(),
        weights_defined(fortunes, start_fortune),
    ensures
        prefix_weights(fortunes, start_fortune, k) >= 0,
    decreases k,
{
    if k > 0 {
        lemma_prefix_weights_not_negative(fortunes, start_fortune, k - 1);
        if fortunes[k - 1] < UNIT {
            lemma_weight_not_negative(fortunes[k - 1], start_fortune);
        }
    }
}

/// The fortunes after one period at the given tax, or why there are none.
///
/// It is `OutOfRange` where the fortunes, the tax or the start fortune are
/// outside the limits, or a new fortune would be; it is `Degenerate` where a
/// share is undefined.
pub fn redistribute(fortunes: &Vec<i64>, tax: i64, start_fortune: i64) -> (r: Result<
    Vec<i64>,
    EconomyError,
>)
    ensures
        match r {
            Ok(next) => update_outcome(ints(fortunes@), tax as int, start_fortune as int) == Ok::<
                Seq<int>,
                EconomyError,
            >(ints(next@)),
            Err(e) => update_outcome(ints(fortunes@), tax as int, start_fortune as int) == Err::<
                Seq<int>,
                EconomyError,
            >(e),
        },
{
    if !fortunes_in_range(fortunes) || tax < -MAX_TAX || tax > MAX_TAX || start_fortune
        < -MAX_FORTUNE || start_fortune > MAX_FORTUNE {
        return Err(EconomyError::OutOfRange);
    }
    let ghost s = ints(fortunes@);
    let n: usize = fortunes.len();

    // Within the limits a root is at most 10^9 and a burn at most 10^15 in
    // magnitude, so the shortfall is at most 2 * 10^21 and a share at most
    // 2 * 10^27 in magnitude: every product below fits 128 bits.

    // Burn wealth above the soft limit.
    let mut burned: Vec<i64> = Vec::new();
    let mut i: usize = 0;
    while i < n
        invariant
            i <= n,
            n == fortunes.len(),
            s == ints(fortunes@),
            within_limits(s, tax as int, start_fortune as int),
            burned@.len() == i,
            forall|m: int|
                0 <= m < i ==> (#[trigger] burned@[m]) as int == skim(s[m], tax as int)
                    && -1_001_000_000_000_000 <= burned@[m] <= 1_001_000_000_000_000,
        decreases n - i,
    {
        let p: i64 = fortunes[i];
        assert(s[i as int] == p);
        let q: i64 = if p >= UNIT {
            let root: i64 = sqrt_fixed(p - UNIT);
            proof {
                lemma_fixed_sqrt_bound(p - UNIT);
                lemma_signed_product_bound(
                    root as int,
                    1_000_000_000,
                    tax as int,
                    1_000_000_000_000,
                );
                lemma_div_between(
                    root * tax,
                    UNIT as int,
                    -1_000_000_000_000_000,
                    1_000_000_000_000_000,
                );
            }
            let amount: i128 = mul_fixed(root as i128, tax as i128);
            (p as i128 - amount) as i64
        } else {
            p
        };
        burned.push(q);
        i += 1;
    }
    let ghost k = ints(burned@);

    // Weigh the fortunes below the soft limit and sum up what they lack.
    let mut distribute: i128 = 0;
    let mut weights: i128 = 0;
    let mut j: usize = 0;
    while j < n
        invariant
            j <= n,
            n == burned@.len(),
            n <= 1_000_000,
            s == ints(fortunes@),
            k == ints(burned@),
            k == skimmed(s, tax as int),
            within_limits(s, tax as int, start_fortune as int),
            forall|m: int|
                0 <= m < n ==> -1_001_000_000_000_000 <= #[trigger] burned@[m]
                    <= 1_001_000_000_000_000,
            distribute == prefix_shortfall(k, j as int),
            weights == prefix_weights(k, start_fortune as int, j as int),
            0 <= distribute <= j * 2_000_000_000_000_000,
            0 <= weights <= j * 1_000_000_000,
            forall|m: int|
                0 <= m < j && #[trigger] k[m] < UNIT ==> floored(k[m], start_fortune as int) >= 0,
        decreases n - j,
    {
        let p: i64 = burned[j];
        assert(k[j as int] == p);
        if p < UNIT {
            let counted: i64 = if p < start_fortune {
                start_fortune
            } else {
                p
            };
            if counted < 0 {
                return Err(EconomyError::Degenerate);
            }
            let w: i64 = sqrt_fixed(counted);
            proof {
                lemma_fixed_sqrt_bound(counted as int);
            }
            distribute = distribute + (UNIT - p) as i128;
            weights = weights + w as i128;
        }
        j += 1;
    }
    if distribute > 0 && weights == 0 {
        return Err(EconomyError::Degenerate);
    }

    // Hand out the shares.
    let ghost after = redistributed(s, tax as int, start_fortune as int);
    let mut raised: Vec<i64> = Vec::new();
    let mut i: usize = 0;
    while i < n
        invariant
            i <= n,
            n == burned@.len(),
            n == s.len(),
            n <= 1_000_000,
            s == ints(fortunes@),
            shares_defined(s, tax as int, start_fortune as int),
            k == ints(burned@),
            k == skimmed(s, tax as int),
            after == redistributed(s, tax as int, start_fortune as int),
            within_limits(s, tax as int, start_fortune as int),
            weights_defined(k, start_fortune as int),
            forall|m: int|
                0 <= m < n ==> -1_001_000_000_000_000 <= #[trigger] burned@[m]
                    <= 1_001_000_000_000_000,
            distribute == shortfall(k),
            weights == weight_sum(k, start_fortune as int),
            0 <= distribute <= 2_000_000_000_000_000_000_000,
            0 <= weights,
            distribute > 0 ==> weights > 0,
            raised@.len() == i,
            forall|m: int|
                0 <= m < i ==> (#[trigger] raised@[m]) as int == after[m] && -MAX_FORTUNE
                    <= raised@[m] <= MAX_FORTUNE,
        decreases n - i,
    {
        let p: i64 = burned[i];
        assert(k[i as int] == p);
        let v: i128 = if p < UNIT {
            let counted: i64 = if p < start_fortune {
                start_fortune
            } else {
                p
            };
            let w: i64 = sqrt_fixed(counted);
            proof {
                lemma_fixed_sqrt_bound(counted as int);
                lemma_prefix_shortfall_covers(k, i as int, n as int);
                lemma_prefix_weights_cover(k, start_fortune as int, i as int, n as int);
                assert(0 <= w * UNIT <= UNIT * weights) by (nonlinear_arith)
                    requires
                        0 <= w <= weights,
                        UNIT == 1_000_000,
                ;
                lemma_div_between(w * UNIT, weights as int, 0, UNIT as int);
            }
            let part: i128 = div_floor(w as i128 * UNIT as i128, weights);
            proof {
                lemma_product_bound(
                    part as int,
                    1_000_000,
                    distribute as int,
                    2_000_000_000_000_000_000_000,
                );
                lemma_div_between(
                    part * distribute,
                    UNIT as int,
                    0,
                    2_000_000_000_000_000_000_000,
                );
            }
            let gross: i128 = mul_fixed(part, distribute);
            proof {
                lemma_signed_product_bound(
                    gross as int,
                    2_000_000_000_000_000_000_000,
                    tax as int,
                    1_000_000_000_000,
                );
                lemma_div_between(
                    gross * tax,
                    UNIT as int,
                    -2_000_000_000_000_000_000_000_000_000,
                    2_000_000_000_000_000_000_000_000_000,
                );
            }
            let net: i128 = mul_fixed(gross, tax as i128);
            assert(net == share(
                p as int,
                start_fortune as int,
                weights as int,
                distribute as int,
                tax as int,
            ));
            p as i128 + net
        } else {
            p as i128
        };
        assert(v == after[i as int]);
        if v < -(MAX_FORTUNE as i128) || v > MAX_FORTUNE as i128 {
            return Err(EconomyError::OutOfRange);
        }
        raised.push(v as i64);
        i += 1;
    }
    assert(ints(raised@) =~= after);
    Ok(raised)
}

/// At a tax between zero and one the burn takes nothing below zero: a
/// fortune at or above the soft limit stays non-negative.
proof fn lemma_skim_not_negative(fortune: int, tax: int)
    requires
        0 <= fortune,
        0 <= tax <= UNIT,
    ensures
        0 <= skim(fortune, tax),
{
    if fortune >= UNIT {
        let excess: int = (fortune - UNIT) * UNIT;
        assert(0 <= excess <= fortune * fortune) by (nonlinear_arith)
            requires
                fortune >= UNIT,
                excess == (fortune - UNIT) * UNIT,
                UNIT == 1_000_000,
        ;
        lemma_floor_sqrt_exists(excess);
        let root: int = fixed_sqrt(fortune - UNIT);
        assert(root <= fortune) by (nonlinear_arith)
            requires
                0 <= root,
                0 <= fortune,
                root * root <= fortune * fortune,
        ;
        assert(0 <= root * tax <= root * UNIT) by (nonlinear_arith)
            requires
                0 <= root,
                0 <= tax <= UNIT,
        ;
        lemma_div_between(root * tax, UNIT as int, 0, root);
    }
}

/// At a tax that is not negative, a defined share is not negative.
proof fn lemma_share_not_negative(
    fortune: int,
    start_fortune: int,
    weights: int,
    distribute: int,
    tax: int,
)
    requires
        floored(fortune, start_fortune) >= 0,
        weights > 0,
        distribute >= 0,
        tax >= 0,
    ensures
        share(fortune, start_fortune, weights, distribute, tax) >= 0,
{
    let w: int = weight(fortune, start_fortune);
    lemma_weight_not_negative(fortune, start_fortune);
    assert(0 * weights <= w * UNIT) by (nonlinear_arith)
        requires
            0 <= w,
            UNIT == 1_000_000,
    ;
    let part: int = fixed_div(w, weights);
    assert(0 <= part) by {
        assert(w * UNIT <= (w * UNIT) * weights) by (nonlinear_arith)
            requires
                0 <= w * UNIT,
                weights > 0,
        ;
        lemma_div_between(w * UNIT, weights, 0, w * UNIT);
    }
    assert(0 * UNIT <= part * distribute <= (part * distribute) * UNIT) by (nonlinear_arith)
        requires
            0 <= part,
            0 <= distribute,
            UNIT == 1_000_000,
    ;
    lemma_div_between(part * distribute, UNIT as int, 0, part * distribute);
    let gross: int = fixed_mul(part, distribute);
    assert(0 * UNIT <= gross * tax <= (gross * tax) * UNIT) by (nonlinear_arith)
        requires
            0 <= gross,
            0 <= tax,
            UNIT == 1_000_000,
    ;
    lemma_div_between(gross * tax, UNIT as int, 0, gross * tax);
}

/// Redistribution at a tax between zero and one, with defined shares, leaves
/// no fortune negative that was not negative before.
pub proof fn lemma_redistributed_not_negative(
    fortunes: Seq<int>,
    tax: int,
    start_fortune: int,
    i: int,
)
    requires
        0 <= i < fortunes.len(),
        0 <= fortunes[i],
        0 <= tax <= UNIT,
        shares_defined(fortunes, tax, start_fortune),
    ensures
        0 <= redistributed(fortunes, tax, start_fortune)[i],
{
    let burned = skimmed(fortunes, tax);
    lemma_skim_not_negative(fortunes[i], tax);
    if burned[i] < UNIT {
        lemma_prefix_shortfall_covers(burned, i, burned.len() as int);
        lemma_share_not_negative(
            burned[i],
            start_fortune,
            weight_sum(burned, start_fortune),
            shortfall(burned),
            tax,
        );
    }
}

/// Redistribution treats equal fortunes alike, at any tax: two players with
/// the same fortune before have the same fortune after.
pub proof fn lemma_redistributed_alike(
    fortunes: Seq<int>,
    tax: int,
    start_fortune: int,
    i: int,
    j: int,
)
    requires
        0 <= i < fortunes.len(),
        0 <= j < fortunes.len(),
        fortunes[i] == fortunes[j],
    ensures
        redistributed(fortunes, tax, start_fortune)[i] == redistributed(
            fortunes,
            tax,
            start_fortune,
        )[j],
{
}

/// Redistribution keeps a population of identical fortunes identical, at any tax.
pub proof fn lemma_redistributed_keeps_symmetry(fortunes: Seq<int>, tax: int, start_fortune: int)
    requires
        forall|i: int, j: int|
            0 <= i < fortunes.len() && 0 <= j < fortunes.len() ==> fortunes[i] == fortunes[j],
    ensures
        forall|i: int, j: int|
            0 <= i < fortunes.len() && 0 <= j < fortunes.len() ==> redistributed(
                fortunes,
                tax,
                start_fortune,
            )[i] == redistributed(fortunes, tax, start_fortune)[j],
{
    let after = redistributed(fortunes, tax, start_fortune);
    assert forall|i: int, j: int|
        0 <= i < fortunes.len() && 0 <= j < fortunes.len() implies after[i] == after[j] by {
        lemma_redistributed_alike(fortunes, tax, start_fortune, i, j);
    }
}

} // verus!
