//! The economy: the fortunes of its players, the tax and the start fortune.

use crate::fixed::UNIT;
use crate::gini::{gini_of, gini_outcome, prefix_total, total};
use crate::limits::{ints, EconomyError};
use crate::redistribution::{
    lemma_redistributed_keeps_symmetry, lemma_redistributed_not_negative, redistribute,
    update_outcome,
};
use vstd::prelude::*;

verus! {

/// Represents the whole economy.
///
/// Each player has a fortune counted in millionths of the soft limit, so that
/// `UNIT` stands for a fortune of one. A player is known by its index.
///
/// The tax tells how fast wealth above the soft limit is burned, and how much
/// each player below the soft limit receives per period.
///
/// The start fortune is given to new players.
#[derive(Debug)]
pub struct Economy {
    /// The fortunes of the players.
    pub players: Vec<i64>,
    /// The progressive tax factor, as a fixed-point number.
    pub tax: i64,
    /// The initial fortune. Should be in the range from zero to `UNIT`.
    pub start_fortune: i64,
}

/// The economy as mathematical values.
pub struct EconomyModel {
    /// The fortunes of the players, by index.
    pub players: Seq<int>,
    /// The tax.
    pub tax: int,
    /// The start fortune.
    pub start_fortune: int,
}

impl View for Economy {
    type V = EconomyModel;

    open spec fn view(&self) -> EconomyModel {
        EconomyModel {
            players: ints(self.players@),
            tax: self.tax as int,
            start_fortune: self.start_fortune as int,
        }
    }
}

impl Clone for Economy {
    /// A copy with the same fortunes, tax and start fortune.
    fn clone(&self) -> (copy: Self)
        ensures
            copy.players@ == self.players@,
            copy.tax == self.tax,
            copy.start_fortune == self.start_fortune,
            copy@ == self@,
    {
        Economy {
            players: self.players.clone(),
            tax: self.tax,
            start_fortune: self.start_fortune,
        }
    }
}

/// `m` is a fortune of the population, and no fortune is less.
pub open spec fn is_least(fortunes: Seq<int>, m: int) -> bool {
    &&& exists|i: int| 0 <= i < fortunes.len() && fortunes[i] == m
    &&& forall|i: int| 0 <= i < fortunes.len() ==> m <= fortunes[i]
}

/// `m` is a fortune of the population, and no fortune is greater.
pub open spec fn is_greatest(fortunes: Seq<int>, m: int) -> bool {
    &&& exists|i: int| 0 <= i < fortunes.len() && fortunes[i] == m
    &&& forall|i: int| 0 <= i < fortunes.len() ==> fortunes[i] <= m
}

/// The fortunes after `amount` has moved from one player to another.
pub open spec fn transferred(fortunes: Seq<int>, from: int, to: int, amount: int) -> Seq<int> {
    fortunes.update(to, fortunes[to] + amount).update(from, fortunes[from] - amount)
}

/// Whether a transfer is carried out: it goes to another player, it leaves
/// the sender with more than zero, and both new fortunes can be stored.
pub open spec fn transfer_commits(fortunes: Seq<int>, from: int, to: int, amount: int) -> bool {
    &&& from != to
    &&& 0 < fortunes[from] - amount <= i64::MAX
    &&& i64::MIN <= fortunes[to] + amount <= i64::MAX
}

/// Replacing one fortune changes the sum of a prefix by the difference, where
/// the prefix holds that fortune.
proof fn lemma_prefix_total_update(fortunes: Seq<int>, i: int, value: int, k: int)
    requires
        0 <= i < fortunes.len(),
        0 <= k <= fortunes.len(),
    ensures
        prefix_total(fortunes.update(i, value), k) == prefix_total(fortunes, k) + if i < k {
            value - fortunes[i]
        } else {
            0
        },
    decreases k,
{
    if k > 0 {
        lemma_prefix_total_update(fortunes, i, value, k - 1);
    }
}

/// A transfer between two different players leaves the total wealth
/// unchanged: the receiver gains the amount, the sender loses it, and no
/// other fortune changes.
pub proof fn lemma_transfer_conserves_total(fortunes: Seq<int>, from: int, to: int, amount: int)
    requires
        0 <= from < fortunes.len(),
        0 <= to < fortunes.len(),
        from != to,
    ensures
        total(transferred(fortunes, from, to, amount)) == total(fortunes),
        transferred(fortunes, from, to, amount)[to] == fortunes[to] + amount,
        transferred(fortunes, from, to, amount)[from] == fortunes[from] - amount,
        transferred(fortunes, from, to, amount).len() == fortunes.len(),
        forall|i: int|
            0 <= i < fortunes.len() && i != from && i != to ==> transferred(
                fortunes,
                from,
                to,
                amount,
            )[i] == fortunes[i],
{
    let n: int = fortunes.len() as int;
    let credited = fortunes.update(to, fortunes[to] + amount);
    lemma_prefix_total_update(fortunes, to, fortunes[to] + amount, n);
    lemma_prefix_total_update(credited, from, fortunes[from] - amount, n);
}

/// The economy after a transaction: the amount has moved where the transfer
/// is carried out, and nothing has changed where it is refused.
pub open spec fn after_transaction(
    economy: EconomyModel,
    from: int,
    to: int,
    amount: int,
) -> EconomyModel {
    if transfer_commits(economy.players, from, to, amount) {
        EconomyModel { players: transferred(economy.players, from, to, amount), ..economy }
    } else {
        economy
    }
}

/// A transaction leaves the total wealth unchanged, whether it is carried
/// out or refused. Where it is carried out, the receiver gains the amount,
/// the sender loses it, and no other fortune changes.
pub proof fn lemma_transaction_conserves_total(
    economy: EconomyModel,
    from: int,
    to: int,
    amount: int,
)
    requires
        0 <= from < economy.players.len(),
        0 <= to < economy.players.len(),
    ensures
        total(after_transaction(economy, from, to, amount).players) == total(economy.players),
        transfer_commits(economy.players, from, to, amount) ==> {
            let after = after_transaction(economy, from, to, amount).players;
            &&& after.len() == economy.players.len()
            &&& after[to] == economy.players[to] + amount
            &&& after[from] == economy.players[from] - amount
            &&& forall|i: int|
                0 <= i < after.len() && i != from && i != to ==> after[i] == economy.players[i]
        },
{
    if from != to {
        lemma_transfer_conserves_total(economy.players, from, to, amount);
    }
}

/// A transaction with oneself, or one that would not leave the sender more
/// than zero, changes nothing.
pub proof fn lemma_refused_transaction_changes_nothing(
    economy: EconomyModel,
    from: int,
    to: int,
    amount: int,
)
    requires
        from == to || economy.players[from] - amount <= 0,
    ensures
        !transfer_commits(economy.players, from, to, amount),
        after_transaction(economy, from, to, amount) == economy,
{
}

/// The economy after one period at its tax: the new fortunes where the
/// period has a result, and nothing changed where it has none.
pub open spec fn after_update(economy: EconomyModel) -> EconomyModel {
    match update_outcome(economy.players, economy.tax, economy.start_fortune) {
        Ok(next) => EconomyModel { players: next, ..economy },
        Err(_) => economy,
    }
}

/// A period at a tax from zero to one leaves no fortune negative that was
/// not negative before, whether the period has a result or not.
pub proof fn lemma_update_keeps_fortunes_non_negative(economy: EconomyModel, i: int)
    requires
        0 <= economy.tax <= UNIT,
        0 <= i < economy.players.len(),
        0 <= economy.players[i],
    ensures
        0 <= after_update(economy).players[i],
{
    if update_outcome(economy.players, economy.tax, economy.start_fortune) is Ok {
        lemma_redistributed_not_negative(
            economy.players,
            economy.tax,
            economy.start_fortune,
            i,
        );
    }
}

/// A period keeps a population of identical fortunes identical, at any tax,
/// whether the period has a result or not.
pub proof fn lemma_update_keeps_symmetry(economy: EconomyModel)
    requires
        forall|i: int, j: int|
            0 <= i < economy.players.len() && 0 <= j < economy.players.len()
                ==> economy.players[i] == economy.players[j],
    ensures
        after_update(economy).players.len() == economy.players.len(),
        forall|i: int, j: int|
            0 <= i < economy.players.len() && 0 <= j < economy.players.len() ==> after_update(
                economy,
            ).players[i] == after_update(economy).players[j],
{
    lemma_redistributed_keeps_symmetry(economy.players, economy.tax, economy.start_fortune);
}

impl Economy {
    /// Creates a new economy of `players` players, each with the start fortune.
    pub fn new(tax: i64, start_fortune: i64, players: usize) -> (economy: Economy)
        ensures
            economy.players@ == Seq::new(players as nat, |i: int| start_fortune),
            economy.tax == tax,
            economy.start_fortune == start_fortune,
            economy@.players == Seq::new(players as nat, |i: int| start_fortune as int),
    {
        let economy = Economy { players: vec![start_fortune; players], tax, start_fortune };
        economy
    }

    /// Adds a player with the start fortune to the economy, and returns its index.
    pub fn add_player(&mut self) -> (index: usize)
        ensures
            index == old(self).players@.len(),
            final(self).players@ == old(self).players@.push(old(self).start_fortune),
            final(self).tax == old(self).tax,
            final(self).start_fortune == old(self).start_fortune,
            final(self)@.players == old(self)@.players.push(old(self)@.start_fortune),
    {
        self.players.push(self.start_fortune);
        self.players.len() - 1
    }

    /// Finds the minimum and maximum fortune: both zero where there is no player.
    pub fn min_max(&self) -> (r: (i64, i64))
        ensures
            self@.players.len() == 0 ==> r.0 == 0 && r.1 == 0,
            self@.players.len() > 0 ==> is_least(self@.players, r.0 as int) && is_greatest(
                self@.players,
                r.1 as int,
            ),
    {
        let n: usize = self.players.len();
        if n == 0 {
            return (0, 0);
        }
        let ghost s = self@.players;
        let mut min: i64 = self.players[0];
        let mut max: i64 = self.players[0];
        let ghost mut at_min: int = 0;
        let ghost mut at_max: int = 0;
        let mut i: usize = 1;
        while i < n
            invariant
                1 <= i <= n,
                n == self.players@.len(),
                s == ints(self.players@),
                0 <= at_min < i && s[at_min] == min,
                0 <= at_max < i && s[at_max] == max,
                forall|k: int| 0 <= k < i ==> min <= #[trigger] s[k] <= max,
            decreases n - i,
        {
            let p: i64 = self.players[i];
            if p < min {
                min = p;
                proof {
                    at_min = i as int;
                }
            }
            if p > max {
                max = p;
                proof {
                    at_max = i as int;
                }
            }
            i += 1;
        }
        (min, max)
    }

    /// Finds the Gini coefficient, as a fixed-point number rounded down.
    ///
    /// It is `Degenerate` where there is no player or no total wealth, and
    /// `OutOfRange` outside the limits of exact computation.
    pub fn gini(&self) -> (r: Result<i64, EconomyError>)
        ensures
            match r {
                Ok(g) => gini_outcome(self@.players) == Ok::<int, EconomyError>(g as int),
                Err(e) => gini_outcome(self@.players) == Err::<int, EconomyError>(e),
            },
    {
        gini_of(&self.players)
    }

    /// Does a transaction between two players.
    ///
    /// The amount may be negative, which moves wealth the other way. The
    /// transaction is refused, and nothing changes, where both players are
    /// the same, where the sender would not keep more than zero, or where a
    /// new fortune could not be stored. Two different players must both be
    /// players of the economy.
    pub fn transaction(&mut self, from: usize, to: usize, amount: i64) -> (r: Result<(), ()>)
        requires
            from != to ==> from < old(self).players.len() && to < old(self).players.len(),
        ensures
            r is Ok <==> transfer_commits(
                old(self)@.players,
                from as int,
                to as int,
                amount as int,
            ),
            from == to ==> r is Err,
            old(self)@.players[from as int] - amount <= 0 ==> r is Err,
            r is Ok ==> final(self)@.players == transferred(
                old(self)@.players,
                from as int,
                to as int,
                amount as int,
            ),
            r is Ok ==> total(final(self)@.players) == total(old(self)@.players),
            r is Err ==> *final(self) == *old(self),
            final(self).players@.len() == old(self).players@.len(),
            final(self)@ == after_transaction(
                old(self)@,
                from as int,
                to as int,
                amount as int,
            ),
    {
        if from == to {
            return Err(());
        }
        let balance: i128 = self.players[from] as i128 - amount as i128;
        let credit: i128 = self.players[to] as i128 + amount as i128;
        if balance > 0 && balance <= i64::MAX as i128 && credit >= i64::MIN as i128 && credit
            <= i64::MAX as i128 {
            self.players[to] = credit as i64;
            self.players[from] = balance as i64;
            proof {
                assert(self@.players =~= transferred(
                    old(self)@.players,
                    from as int,
                    to as int,
                    amount as int,
                ));
                lemma_transfer_conserves_total(
                    old(self)@.players,
                    from as int,
                    to as int,
                    amount as int,
                );
            }
            Ok(())
        } else {
            Err(())
        }
    }

    /// Updates the economy using the fixed tax rate: one period of burning
    /// and redistribution. Where it fails, nothing changes.
    pub fn update(&mut self) -> (r: Result<(), EconomyError>)
        ensures
            match r {
                Ok(()) => update_outcome(
                    old(self)@.players,
                    old(self)@.tax,
                    old(self)@.start_fortune,
                ) == Ok::<Seq<int>, EconomyError>(final(self)@.players),
                Err(e) => update_outcome(
                    old(self)@.players,
                    old(self)@.tax,
                    old(self)@.start_fortune,
                ) == Err::<Seq<int>, EconomyError>(e) && *final(self) == *old(self),
            },
            final(self).players@.len() == old(self).players@.len(),
            final(self)@ == after_update(old(self)@),
    {
        match redistribute(&self.players, self.tax, self.start_fortune) {
            Ok(next) => {
                self.players = next;
                Ok(())
            },
            Err(e) => Err(e),
        }
    }
}

} // verus!
