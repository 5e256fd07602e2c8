//! The search for the tax that brings the Gini coefficient to a target.
//!
//! The search is a decaying perturbation search. It starts at a tax of zero
//! and moves the tax by a step that shrinks by the factor `smooth_target`
//! each round: down where a period at that tax would leave the Gini
//! coefficient below the target, up otherwise. It keeps no bracket around
//! the answer; it assumes that a higher tax tends to lower the coefficient.

use crate::economy::Economy;
use crate::fixed::{fixed_mul, lemma_div_below, lemma_signed_product_bound, mul_fixed, UNIT};
use crate::gini::{gini_of, gini_outcome};
use crate::limits::EconomyError;
use crate::redistribution::{redistribute, update_outcome};
use vstd::prelude::*;

verus! {

/// The step of the first round: one half.
pub const FIRST_STEP: i64 = 500_000;

/// The search ends when the step falls below this: one ten-thousandth.
pub const LAST_STEP: i64 = 100;

/// Whether a period at `tax` would leave the Gini coefficient below
/// `target_gini`. Where the period or the coefficient has no result, it
/// would not.
pub open spec fn below_target(
    fortunes: Seq<int>,
    start_fortune: int,
    tax: int,
    target_gini: int,
) -> bool {
    match update_outcome(fortunes, tax, start_fortune) {
        Ok(next) => match gini_outcome(next) {
            Ok(g) => target_gini - g > 0,
            Err(_) => false,
        },
        Err(_) => false,
    }
}

/// The tax that the search arrives at from the given tax and step.
///
/// A tax above one ends the search. Otherwise the tax moves by the step,
/// the step shrinks, and the search ends once the step is below `LAST_STEP`.
pub open spec fn searched_tax(
    fortunes: Seq<int>,
    start_fortune: int,
    target_gini: int,
    smooth_target: int,
    tax: int,
    step: int,
) -> int
    decreases step,
    when step > 0 && smooth_target < UNIT
{
    if tax > UNIT {
        tax
    } else {
        let moved = if below_target(fortunes, start_fortune, tax, target_gini) {
            tax - step
        } else {
            tax + step
        };
        let shrunk = fixed_mul(step, smooth_target);
        if shrunk < LAST_STEP {
            moved
        } else {
            proof {
                lemma_step_shrinks(step, smooth_target);
            }
            searched_tax(fortunes, start_fortune, target_gini, smooth_target, moved, shrunk)
        }
    }
}

/// The tax brought into the range from `min_tax` to one; one where `min_tax` is above one.
pub open spec fn clamped_tax(tax: int, min_tax: int) -> int {
    let raised = if tax < min_tax {
        min_tax
    } else {
        tax
    };
    if raised > UNIT {
        UNIT as int
    } else {
        raised
    }
}

/// The tax that solving for a target Gini coefficient sets.
pub open spec fn solved_tax(
    fortunes: Seq<int>,
    start_fortune: int,
    target_gini: int,
    smooth_target: int,
    min_tax: int,
) -> int {
    clamped_tax(
        searched_tax(fortunes, start_fortune, target_gini, smooth_target, 0, FIRST_STEP as int),
        min_tax,
    )
}

/// A positive step shrinks when it is multiplied by a factor below one.
pub proof fn lemma_step_shrinks(step: int, smooth_target: int)
    requires
        step > 0,
        smooth_target < UNIT,
    ensures
        fixed_mul(step, smooth_target) < step,
{
    assert(step * smooth_target < step * UNIT) by (nonlinear_arith)
        requires
            step > 0,
            smooth_target < UNIT,
    ;
    lemma_div_below(step * smooth_target, UNIT as int, step);
}

/// How far the tax can still move from a given step on: twice the sum of all steps to come.
spec fn reach(step: int) -> int {
    step * (step + 1)
}

/// A smaller step has a reach that is smaller by at least twice the step before it.
proof fn lemma_reach_shrinks(step: int, shrunk: int)
    by (nonlinear_arith)
    requires
        0 <= shrunk < step,
    ensures
        0 <= reach(shrunk) <= reach(step) - 2 * step,
{
}

impl Economy {
    /// Whether a period at `tax` would leave the Gini coefficient below
    /// `target_gini`. The economy itself does not change.
    pub fn falls_below(&self, tax: i64, target_gini: i64) -> (below: bool)
        ensures
            below == below_target(
                self@.players,
                self@.start_fortune,
                tax as int,
                target_gini as int,
            ),
    {
        match redistribute(&self.players, tax, self.start_fortune) {
            Ok(next) => match gini_of(&next) {
                Ok(g) => target_gini > g,
                Err(_) => false,
            },
            Err(_) => false,
        }
    }

    /// Searches for the tax that brings the Gini coefficient to the target,
    /// before it is brought into range. The economy itself does not change.
    pub fn search_tax(&self, target_gini: i64, smooth_target: i64) -> (tax: i64)
        requires
            smooth_target < UNIT,
        ensures
            tax == searched_tax(
                self@.players,
                self@.start_fortune,
                target_gini as int,
                smooth_target as int,
                0,
                FIRST_STEP as int,
            ),
    {
        let ghost goal = searched_tax(
            self@.players,
            self@.start_fortune,
            target_gini as int,
            smooth_target as int,
            0,
            FIRST_STEP as int,
        );
        let mut tax: i64 = 0;
        let mut step: i64 = FIRST_STEP;
        assert(reach(FIRST_STEP as int) == 250_000_500_000) by (nonlinear_arith);
        loop
            invariant_except_break
                0 < step <= FIRST_STEP,
                smooth_target < UNIT,
                reach(step as int) - 250_000_500_000 <= 2 * tax <= 250_000_500_000 - reach(
                    step as int,
                ),
                searched_tax(
                    self@.players,
                    self@.start_fortune,
                    target_gini as int,
                    smooth_target as int,
                    tax as int,
                    step as int,
                ) == goal,
            ensures
                tax == goal,
            decreases step,
        {
            if tax > UNIT {
                break;
            }
            let below: bool = self.falls_below(tax, target_gini);
            proof {
                lemma_step_shrinks(step as int, smooth_target as int);
                lemma_signed_product_bound(
                    step as int,
                    500_000,
                    smooth_target as int,
                    0x8000_0000_0000_0000,
                );
                lemma_reach_shrinks(step as int, step as int - 1);
            }
            if below {
                tax = tax - step;
            } else {
                tax = tax + step;
            }
            let shrunk: i128 = mul_fixed(step as i128, smooth_target as i128);
            if shrunk < LAST_STEP as i128 {
                break;
            }
            proof {
                lemma_reach_shrinks(step as int, shrunk as int);
            }
            step = shrunk as i64;
        }
        tax
    }

    /// Updates the economy using a target Gini coefficient.
    ///
    /// The tax is searched for on the economy as it stands, which the search
    /// does not change, then brought into the range from `min_tax` to one and
    /// set. One period at that tax follows; where it fails, the fortunes stay
    /// as they were.
    ///
    /// `smooth_target` is the factor by which the step shrinks each round: one
    /// half searches like a bisection, a factor nearer to one searches more
    /// slowly and relies less on the coefficient falling as the tax rises.
    /// `min_tax` is usually above zero, to keep the economy from settling at
    /// no tax.
    pub fn solve(&mut self, target_gini: i64, smooth_target: i64, min_tax: i64) -> (r: Result<
        (),
        EconomyError,
    >)
        requires
            smooth_target < UNIT,
        ensures
            final(self)@.tax == solved_tax(
                old(self)@.players,
                old(self)@.start_fortune,
                target_gini as int,
                smooth_target as int,
                min_tax as int,
            ),
            final(self).tax <= UNIT,
            min_tax <= UNIT ==> min_tax <= final(self).tax,
            final(self)@.start_fortune == old(self)@.start_fortune,
            final(self).players@.len() == old(self).players@.len(),
            match r {
                Ok(()) => update_outcome(
                    old(self)@.players,
                    final(self)@.tax,
                    old(self)@.start_fortune,
                ) == Ok::<Seq<int>, EconomyError>(final(self)@.players),
                Err(e) => update_outcome(
                    old(self)@.players,
                    final(self)@.tax,
                    old(self)@.start_fortune,
                ) == Err::<Seq<int>, EconomyError>(e) && final(self).players == old(self).players,
            },
    {
        let mut tax: i64 = self.search_tax(target_gini, smooth_target);
        if tax < min_tax {
            tax = min_tax;
        }
        if tax > UNIT {
            tax = UNIT;
        }
        self.tax = tax;
        self.update()
    }
}

} // verus!
