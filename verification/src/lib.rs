//! Search for small decision trees.
//!
//! A decision tree of depth one or two is found by trying splits of the data. The search for depth
//! one and the one for depth two with a given split at the root are exhaustive; the search for
//! depth two without one, [`solve_d2`](search::exhaustive::solve_d2), is not. What is optimised
//! (the cost of a leaf, its label, the price of a branching node) is described by an
//! [`OptimizationTask`](tasks::OptimizationTask).
//!
//! - [`tasks`]: costs, cost sums and optimization tasks.
//! - [`model`]: data sets, views of them, and decision trees.
//! - [`search`]: the solvers.

pub mod model;
pub mod search;
pub mod tasks;
