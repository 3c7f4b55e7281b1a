//! Language statistics for a source tree: classification of files by
//! language, per-language totals, and an ordered report of shares.
use vstd::prelude::*;

pub mod aggregate;
pub mod category;
pub mod classify;
pub mod laws;
pub mod report;
pub mod scan;
pub mod text;

verus! {

} // verus!
