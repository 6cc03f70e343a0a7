//! Theory 2: what a layer may spend.
//!
//! Budgets are denominated in **neighbour visits**, the same reproducible work
//! counter the v0.1 experiment used, so that a budget means the same thing on
//! every machine. How much poorer each child is than its host is set by a
//! fraction, which lives with the floating-point half of the model.

use vstd::prelude::*;

verus! {

/// What a layer may spend, in neighbour visits.
#[derive(Clone, Copy, Debug, PartialEq, Eq, PartialOrd, Ord, Structural)]
pub struct Budget {
    pub work: u64,
}

impl Budget {
    pub fn new(work: u64) -> (b: Self)
        ensures
            b.work == work,
    {
        Budget { work }
    }
}

} // verus!
