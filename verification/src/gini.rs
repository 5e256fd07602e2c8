//! The Gini coefficient of a population, from the mean absolute difference.

use crate::fixed::{
    div_floor, floor_div, lemma_div_between, lemma_product_bound, lemma_signed_product_bound, UNIT,
};
use crate::limits::{
    fortunes_in_range, fortunes_within_limits, ints, EconomyError, MAX_FORTUNE,
};
use vstd::prelude::*;

verus! {

/// The sum of the first `k` fortunes.
pub open spec fn prefix_total(fortunes: Seq<int>, k: int) -> int
    decreases k,
{
    if k <= 0 {
        0
    } else {
        prefix_total(fortunes, k - 1) + fortunes[k - 1]
    }
}

/// The sum of all fortunes.
pub open spec fn total(fortunes: Seq<int>) -> int {
    prefix_total(fortunes, fortunes.len() as int)
}

/// The absolute difference of two fortunes.
pub open spec fn gap(a: int, b: int) -> int {
    if a >= b {
        a - b
    } else {
        b - a
    }
}

/// The sum of the gaps between `x` and each of the first `k` fortunes.
pub open spec fn prefix_gaps(fortunes: Seq<int>, x: int, k: int) -> int
    decreases k,
{
    if k <= 0 {
        0
    } else {
        prefix_gaps(fortunes, x, k - 1) + gap(x, fortunes[k - 1])
    }
}

/// The sum of the gaps between `x` and every fortune.
pub open spec fn gaps(fortunes: Seq<int>, x: int) -> int {
    prefix_gaps(fortunes, x, fortunes.len() as int)
}

/// The sum of the gaps between each of the first `k` fortunes and every fortune.
pub open spec fn prefix_spread(fortunes: Seq<int>, k: int) -> int
    decreases k,
{
    if k <= 0 {
        0
    } else {
        prefix_spread(fortunes, k - 1) + gaps(fortunes, fortunes[k - 1])
    }
}

/// The sum of the gaps over all ordered pairs of players.
pub open spec fn spread(fortunes: Seq<int>) -> int {
    prefix_spread(fortunes, fortunes.len() as int)
}

/// Twice the number of players times the total wealth: what the spread is divided by.
pub open spec fn gini_divisor(fortunes: Seq<int>) -> int {
    2 * (fortunes.len() * total(fortunes))
}

/// The Gini coefficient as a fixed-point number, rounded down:
/// the spread over twice the number of players times the total wealth.
pub open spec fn gini_value(fortunes: Seq<int>) -> int {
    floor_div(spread(fortunes) * UNIT, gini_divisor(fortunes))
}

/// What measuring the Gini coefficient gives: the coefficient, or why there is none.
pub open spec fn gini_outcome(fortunes: Seq<int>) -> Result<int, EconomyError> {
    if !fortunes_within_limits(fortunes) {
        Err(EconomyError::OutOfRange)
    } else if gini_divisor(fortunes) == 0 {
        Err(EconomyError::Degenerate)
    } else if i64::MIN <= gini_value(fortunes) <= i64::MAX {
        Ok(gini_value(fortunes))
    } else {
        Err(EconomyError::OutOfRange)
    }
}

/// A sum of `k` fortunes of magnitude at most `bound` has magnitude at most `k * bound`.
proof fn lemma_prefix_total_bounds(fortunes: Seq<int>, k: int, bound: int)
    requires
        0 <= k <= fortunes.len(),
        forall|i: int| 0 <= i < fortunes.len() ==> -bound <= #[trigger] fortunes[i] <= bound,
    ensures
        -(k * bound) <= prefix_total(fortunes, k) <= k * bound,
    decreases k,
{
    if k > 0 {
        lemma_prefix_total_bounds(fortunes, k - 1, bound);
        assert((k - 1) * bound + bound == k * bound) by (nonlinear_arith);
    }
}

/// A sum of `k` gaps between values of magnitude at most `bound` lies between
/// zero and `k * 2 * bound`.
proof fn lemma_prefix_gaps_bounds(fortunes: Seq<int>, x: int, k: int, bound: int)
    requires
        0 <= k <= fortunes.len(),
        -bound <= x <= bound,
        forall|i: int| 0 <= i < fortunes.len() ==> -bound <= #[trigger] fortunes[i] <= bound,
    ensures
        0 <= prefix_gaps(fortunes, x, k) <= k * (2 * bound),
    decreases k,
{
    if k > 0 {
        lemma_prefix_gaps_bounds(fortunes, x, k - 1, bound);
        assert((k - 1) * (2 * bound) + 2 * bound == k * (2 * bound)) by (nonlinear_arith);
    }
}

/// The gaps of the first `k` rows sum to at most `k` full rows of widest gaps.
proof fn lemma_prefix_spread_bounds(fortunes: Seq<int>, k: int, bound: int)
    requires
        0 <= k <= fortunes.len(),
        forall|i: int| 0 <= i < fortunes.len() ==> -bound <= #[trigger] fortunes[i] <= bound,
    ensures
        0 <= prefix_spread(fortunes, k) <= k * (fortunes.len() * (2 * bound)),
    decreases k,
{
    let row: int = fortunes.len() * (2 * bound);
    if k > 0 {
        lemma_prefix_spread_bounds(fortunes, k - 1, bound);
        lemma_prefix_gaps_bounds(fortunes, fortunes[k - 1], fortunes.len() as int, bound);
        assert((k - 1) * row + row == k * row) by (nonlinear_arith);
    } else {
        assert(k * row == 0) by (nonlinear_arith)
            requires
                k == 0,
        ;
    }
}

/// The Gini coefficient of the fortunes, as a fixed-point number rounded down.
///
/// It is `OutOfRange` where the fortunes are outside the limits or the
/// coefficient does not fit the result, and `Degenerate` where the number of
/// players times the total wealth is zero.
pub fn gini_of(fortunes: &Vec<i64>) -> (r: Result<i64, EconomyError>)
    ensures
        match r {
            Ok(g) => gini_outcome(ints(fortunes@)) == Ok::<int, EconomyError>(g as int),
            Err(e) => gini_outcome(ints(fortunes@)) == Err::<int, EconomyError>(e),
        },
{
    if !fortunes_in_range(fortunes) {
        return Err(EconomyError::OutOfRange);
    }
    let ghost s = ints(fortunes@);
    let n: usize = fortunes.len();
    let mut sum: i128 = 0;
    let mut wealth: i128 = 0;
    let mut i: usize = 0;
    while i < n
        invariant
            i <= n,
            n == fortunes.len(),
            s == ints(fortunes@),
            fortunes_within_limits(s),
            sum == prefix_spread(s, i as int),
            wealth == prefix_total(s, i as int),
        decreases n - i,
    {
        let x: i64 = fortunes[i];
        let mut row: i128 = 0;
        let mut j: usize = 0;
        while j < n
            invariant
                j <= n,
                i < n,
                n == fortunes.len(),
                s == ints(fortunes@),
                fortunes_within_limits(s),
                x == s[i as int],
                row == prefix_gaps(s, x as int, j as int),
            decreases n - j,
        {
            proof {
                lemma_prefix_gaps_bounds(s, x as int, j as int, MAX_FORTUNE as int);
            }
            let y: i64 = fortunes[j];
            let d: i128 = if x >= y {
                x as i128 - y as i128
            } else {
                y as i128 - x as i128
            };
            row = row + d;
            j += 1;
        }
        proof {
            lemma_prefix_gaps_bounds(s, x as int, n as int, MAX_FORTUNE as int);
            lemma_prefix_spread_bounds(s, i as int, MAX_FORTUNE as int);
            lemma_prefix_total_bounds(s, i as int, MAX_FORTUNE as int);
            lemma_product_bound(
                i as int,
                1_000_000,
                n * 2_000_000_000_000,
                2_000_000_000_000_000_000,
            );
            lemma_product_bound(i as int, 1_000_000, 1_000_000_000_000, 1_000_000_000_000);
        }
        sum = sum + row;
        wealth = wealth + x as i128;
        i += 1;
    }
    proof {
        lemma_prefix_spread_bounds(s, n as int, MAX_FORTUNE as int);
        lemma_prefix_total_bounds(s, n as int, MAX_FORTUNE as int);
        lemma_product_bound(
            n as int,
            1_000_000,
            n * 2_000_000_000_000,
            2_000_000_000_000_000_000,
        );
        lemma_product_bound(n as int, 1_000_000, 1_000_000_000_000, 1_000_000_000_000);
        lemma_signed_product_bound(n as int, 1_000_000, wealth as int, 1_000_000_000_000_000_000);
    }
    let divisor: i128 = 2 * (n as i128 * wealth);
    if divisor == 0 {
        return Err(EconomyError::Degenerate);
    }
    let scaled: i128 = sum * (UNIT as i128);
    let g: i128 = if divisor > 0 {
        div_floor(scaled, divisor)
    } else {
        div_floor(-scaled, -divisor)
    };
    if g < i64::MIN as i128 || g > i64::MAX as i128 {
        return Err(EconomyError::OutOfRange);
    }
    Ok(g as i64)
}

/// The gaps between a non-negative `x` and `k` non-negative fortunes sum to
/// at most `k` times `x` plus those fortunes.
proof fn lemma_prefix_gaps_at_most_sums(fortunes: Seq<int>, x: int, k: int)
    requires
        0 <= k <= fortunes.len(),
        0 <= x,
        forall|i: int| 0 <= i < fortunes.len() ==> 0 <= #[trigger] fortunes[i],
    ensures
        0 <= prefix_gaps(fortunes, x, k) <= k * x + prefix_total(fortunes, k),
    decreases k,
{
    if k > 0 {
        lemma_prefix_gaps_at_most_sums(fortunes, x, k - 1);
        assert((k - 1) * x + x == k * x) by (nonlinear_arith);
    } else {
        assert(k * x == 0) by (nonlinear_arith)
            requires
                k == 0,
        ;
    }
}

/// The gaps of the first `k` rows of a non-negative population sum to at most
/// the number of players times the wealth of those rows, plus `k` times the
/// total wealth.
proof fn lemma_prefix_spread_at_most_sums(fortunes: Seq<int>, k: int)
    requires
        0 <= k <= fortunes.len(),
        forall|i: int| 0 <= i < fortunes.len() ==> 0 <= #[trigger] fortunes[i],
    ensures
        0 <= prefix_spread(fortunes, k) <= fortunes.len() * prefix_total(fortunes, k) + k * total(
            fortunes,
        ),
    decreases k,
{
    let n: int = fortunes.len() as int;
    let t: int = total(fortunes);
    if k > 0 {
        lemma_prefix_spread_at_most_sums(fortunes, k - 1);
        lemma_prefix_gaps_at_most_sums(fortunes, fortunes[k - 1], n);
        let before: int = prefix_total(fortunes, k - 1);
        let x: int = fortunes[k - 1];
        assert(n * before + (k - 1) * t + (n * x + t) == n * (before + x) + k * t)
            by (nonlinear_arith);
    } else {
        assert(n * 0 + k * t == 0) by (nonlinear_arith)
            requires
                k == 0,
        ;
    }
}

/// The Gini coefficient of a non-empty population of non-negative fortunes
/// with positive total wealth lies between zero and one, and inside the
/// limits it is what measuring gives.
pub proof fn lemma_gini_between_zero_and_one(fortunes: Seq<int>)
    requires
        fortunes.len() > 0,
        forall|i: int| 0 <= i < fortunes.len() ==> 0 <= #[trigger] fortunes[i],
        total(fortunes) > 0,
    ensures
        0 <= gini_value(fortunes) <= UNIT,
        fortunes_within_limits(fortunes) ==> gini_outcome(fortunes) == Ok::<int, EconomyError>(
            gini_value(fortunes),
        ),
{
    let n: int = fortunes.len() as int;
    let t: int = total(fortunes);
    let d: int = gini_divisor(fortunes);
    lemma_prefix_spread_at_most_sums(fortunes, n);
    assert(d > 0 && n * t + n * t == d) by (nonlinear_arith)
        requires
            n > 0,
            t > 0,
            d == 2 * (n * t),
    ;
    let a: int = spread(fortunes) * UNIT;
    assert(0 * d <= a && a <= UNIT * d) by (nonlinear_arith)
        requires
            0 <= spread(fortunes) <= d,
            a == spread(fortunes) * UNIT,
            UNIT == 1_000_000,
    ;
    lemma_div_between(a, d, 0, UNIT as int);
}

/// No gap separates `x` from fortunes that all equal `x`.
proof fn lemma_prefix_gaps_of_equal(fortunes: Seq<int>, x: int, k: int)
    requires
        0 <= k <= fortunes.len(),
        forall|i: int| 0 <= i < fortunes.len() ==> #[trigger] fortunes[i] == x,
    ensures
        prefix_gaps(fortunes, x, k) == 0,
    decreases k,
{
    if k > 0 {
        lemma_prefix_gaps_of_equal(fortunes, x, k - 1);
    }
}

/// A population of equal fortunes has no spread.
proof fn lemma_prefix_spread_of_equal(fortunes: Seq<int>, k: int)
    requires
        0 <= k <= fortunes.len(),
        forall|i: int, j: int|
            0 <= i < fortunes.len() && 0 <= j < fortunes.len() ==> fortunes[i] == fortunes[j],
    ensures
        prefix_spread(fortunes, k) == 0,
    decreases k,
{
    if k > 0 {
        lemma_prefix_spread_of_equal(fortunes, k - 1);
        lemma_prefix_gaps_of_equal(fortunes, fortunes[k - 1], fortunes.len() as int);
    }
}

/// The Gini coefficient of a population of equal fortunes is exactly zero,
/// wherever it is defined: where the number of players times the total
/// wealth is not zero.
pub proof fn lemma_gini_of_equal_fortunes(fortunes: Seq<int>)
    requires
        forall|i: int, j: int|
            0 <= i < fortunes.len() && 0 <= j < fortunes.len() ==> fortunes[i] == fortunes[j],
        gini_divisor(fortunes) != 0,
    ensures
        gini_value(fortunes) == 0,
        fortunes_within_limits(fortunes) ==> gini_outcome(fortunes) == Ok::<int, EconomyError>(0),
{
    lemma_prefix_spread_of_equal(fortunes, fortunes.len() as int);
    let d: int = gini_divisor(fortunes);
    if d > 0 {
        lemma_div_between(0, d, 0, 0);
    } else {
        lemma_div_between(0, -d, 0, 0);
    }
}

} // verus!
