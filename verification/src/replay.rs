//! Sequences of calls on an economy, and what they lead to.
//!
//! Every operation has one result, fixed by the economy it starts from and
//! by its arguments. A sequence of calls therefore leads two economies that
//! start out alike to the same end.

use crate::economy::{after_transaction, after_update, Economy, EconomyModel};
use crate::limits::ints;
use vstd::prelude::*;

verus! {

/// A call that changes the fortunes of an economy.
pub enum Call {
    /// A transaction of `amount` from one player to another.
    Transaction { from: int, to: int, amount: int },
    /// One period at the fixed tax.
    Update,
}

/// The economy after one call.
pub open spec fn after_call(economy: EconomyModel, call: Call) -> EconomyModel {
    match call {
        Call::Transaction { from, to, amount } => after_transaction(economy, from, to, amount),
        Call::Update => after_update(economy),
    }
}

/// The economy after a sequence of calls, made in order.
pub open spec fn replayed(economy: EconomyModel, calls: Seq<Call>) -> EconomyModel
    decreases calls.len(),
{
    if calls.len() == 0 {
        economy
    } else {
        after_call(replayed(economy, calls.drop_last()), calls.last())
    }
}

/// Fortunes that are the same as mathematical integers are the same as stored.
pub proof fn lemma_stored_fortunes_are_determined(first: Seq<i64>, second: Seq<i64>)
    requires
        ints(first) == ints(second),
    ensures
        first == second,
{
    assert(first.len() == ints(first).len());
    assert(second.len() == ints(second).len());
    assert forall|i: int| 0 <= i < first.len() implies first[i] == second[i] by {
        assert(ints(first)[i] == first[i]);
        assert(ints(second)[i] == second[i]);
    }
}

/// Two economies with the same fortunes, tax and start fortune arrive at the
/// same fortunes, tax and start fortune after the same sequence of calls.
pub proof fn lemma_replay_is_deterministic(first: Economy, second: Economy, calls: Seq<Call>)
    requires
        first@.players =~= second@.players,
        first@.tax == second@.tax,
        first@.start_fortune == second@.start_fortune,
    ensures
        replayed(first@, calls) == replayed(second@, calls),
        replayed(first@, calls).players == replayed(second@, calls).players,
{
}

} // verus!
