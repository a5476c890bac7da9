//! Exact ratios of counts.
use vstd::prelude::*;

verus! {

/// The exact quotient `num / den` of two counts. A zero denominator stands
/// for an undefined rate, which the caller shows as not-a-number.
#[derive(Clone, Copy, Debug, PartialEq, Eq, Structural)]
pub struct Ratio {
    pub num: u64,
    pub den: u64,
}

} // verus!
