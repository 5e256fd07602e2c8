//! The range inside which the economy computes exactly.
//!
//! Sums over all pairs of players and products of fortunes, weights and the
//! tax are formed in 128-bit integers. The limits below keep every such
//! intermediate value representable, so that inside them each result is the
//! exact one.

use vstd::prelude::*;

verus! {

/// The largest population that is measured or updated.
pub const MAX_PLAYERS: usize = 1_000_000;

/// The largest magnitude of a fortune that is measured or updated:
/// a million times the soft limit.
pub const MAX_FORTUNE: i64 = 1_000_000_000_000;

/// The largest magnitude of a tax that is applied.
pub const MAX_TAX: i64 = 1_000_000_000_000;

/// Why a computation on the economy has no result.
#[derive(Clone, Copy, Debug, PartialEq, Eq, Structural)]
pub enum EconomyError {
    /// A quantity lies outside the limits of exact computation.
    OutOfRange,
    /// The result is a division by zero or the root of a negative number.
    Degenerate,
}

/// At most `MAX_PLAYERS` fortunes, each of magnitude at most `MAX_FORTUNE`.
pub open spec fn fortunes_within_limits(fortunes: Seq<int>) -> bool {
    &&& fortunes.len() <= MAX_PLAYERS
    &&& forall|i: int|
        0 <= i < fortunes.len() ==> -MAX_FORTUNE <= #[trigger] fortunes[i] <= MAX_FORTUNE
}

/// The fortunes held in a vector, as mathematical integers.
pub open spec fn ints(values: Seq<i64>) -> Seq<int> {
    Seq::new(values.len(), |i: int| values[i] as int)
}

/// Whether the fortunes are within the limits of exact computation.
pub fn fortunes_in_range(fortunes: &Vec<i64>) -> (b: bool)
    ensures
        b == fortunes_within_limits(ints(fortunes@)),
{
    if fortunes.len() > MAX_PLAYERS {
        return false;
    }
    let mut i: usize = 0;
    while i < fortunes.len()
        invariant
            i <= fortunes.len(),
            fortunes.len() <= MAX_PLAYERS,
            forall|k: int|
                0 <= k < i ==> -MAX_FORTUNE <= #[trigger] ints(fortunes@)[k] <= MAX_FORTUNE,
        decreases fortunes.len() - i,
    {
        let p: i64 = fortunes[i];
        if p < -MAX_FORTUNE || p > MAX_FORTUNE {
            assert(ints(fortunes@)[i as int] == p);
            return false;
        }
        i += 1;
    }
    true
}

} // verus!
