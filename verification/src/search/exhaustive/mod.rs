//! Search for trees of depth one and two by trying splits of the data.
//!
//! [`solve_d1`] and, for a given split at the root, [`solve_left_right`] are exhaustive. [`solve_d2`]
//! is not: below the root, it leaves out some splits.

pub mod candidates;
pub mod depth_one;
pub mod depth_two;
pub mod depth_two_laws;
pub mod depth_two_results;
pub mod fenwick;
pub mod fixed_split_results;
pub mod laws;
pub mod left_right;
pub mod results;
pub mod schedules;
pub mod selection;
pub mod tracker;

pub use depth_one::solve_d1;
pub use depth_two::solve_d2;
pub use left_right::solve_left_right;
