//! Search for a counterexample to the Collatz conjecture, built on a set of
//! merged closed integer intervals.
//!
//! `range_list` holds the interval set and `searcher` the search that
//! drives two of them. What their operations do is defined over plain
//! sequences of intervals in `interval`, `insertion`, `union` and
//! `ordering`, together with the laws that hold of them.

pub mod interval;
pub mod insertion;
pub mod union;
pub mod ordering;
pub mod range_list;
pub mod searcher;

pub use range_list::RangeList;
pub use searcher::{
    collatz_step, Checkpoint, CollatzSearcher, Outcome, StepReport, REPORT_INTERVAL,
};
