//! A small virtual economy on exact fixed-point numbers.
//!
//! Every player holds a fortune, counted in millionths of the soft limit.
//! Players trade with each other, and at regular intervals wealth above the
//! soft limit is burned while the players below it receive a share of what
//! the economy is short of, either at a fixed tax or at a tax searched for a
//! target Gini coefficient.
//!
//! All quantities are integers, so every operation has one exact result, and
//! each contract states that result over mathematical integers.

pub mod economy;
pub mod fixed;
pub mod gini;
pub mod limits;
pub mod redistribution;
pub mod replay;
pub mod solver;
