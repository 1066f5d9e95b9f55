//! Search for optimal trees.

use vstd::prelude::*;

use crate::tasks::OptimizationTask;

pub mod exhaustive;

verus! {

/// What a search is about.
pub struct SolveContext<OT: OptimizationTask> {
    pub task: OT,
}

} // verus!
