//! Online log-template learning: clusters free-text log lines by structure.
//!
//! A `LogFilters` value holds an append-only store of templates (each an
//! ordered sequence of slots, each slot a set of alternative tokens) together
//! with an inverted word index from token to the template ids containing it.
//! Each incoming line is tokenized, matched against the known templates with
//! an ordered, tolerance-bounded alignment, and either folded into the best
//! matching template or appended as a new one.

pub mod filters;
pub mod laws;
pub mod lemmas;
pub mod model;
pub mod sorting;
pub mod tokens;

use vstd::prelude::*;

verus! {

} // verus!
