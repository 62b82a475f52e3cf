//! A hierarchical budget: a tree of named accounts that holds and
//! redistributes money according to per-child allocation rules and
//! optional capacity limits.
//!
//! Amounts are integers counted in hundredths of a currency unit, so the
//! distribution tolerance of one hundredth is exactly one stored unit.

pub mod account;
pub mod date;
pub mod lemmas;
pub mod model;
