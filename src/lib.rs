//! Statistics and classifier-evaluation toolkit: the verified core.
//!
//! Floating-point arithmetic stays with the caller; every quantity computed
//! here is a count, an index or an exact ratio of counts.
//!
//! - `text`: delimited text split into lines and fields, each field handed
//!   to a caller's parser.
//! - `confusion`: confusion matrices and per-class counts and rates.
//! - `sweep`: counts and rates of a binary classifier at rising thresholds.
//! - `features`: byte histograms and hashed token buckets.
//! - `summary`: quintile cut points, bucket histograms and the mode.
//! - `table`: the columns of a table of rows.
//! - `sampling`: which lines a random sample draws.
//! - `dump`: split nodes read out of a boosted-tree text dump.
//! - `ratio`: exact ratios of counts.
use vstd::prelude::*;

pub mod confusion;
pub mod dump;
pub mod features;
pub mod ratio;
pub mod sampling;
pub mod summary;
pub mod sweep;
pub mod table;
pub mod text;

verus! {

} // verus!
