//! A calendar date carried by the mutating actions.
//!
//! The allocation and balance logic accepts a date with every monetary
//! action but does not consult it; it is reserved for future reporting.

use vstd::prelude::*;

verus! {

/// A plain year/month/day value. No arithmetic is done on it; actions
/// carry it through unchanged.
#[derive(Clone, Copy, PartialEq, Eq, Structural, Debug)]
pub struct Date {
    pub year: i32,
    pub month: u8,
    pub day: u8,
}

impl Date {
    pub fn new(year: i32, month: u8, day: u8) -> (r: Date)
        ensures
            r == (Date { year, month, day }),
    {
        Date { year, month, day }
    }
}

} // verus!
