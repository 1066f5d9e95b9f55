//! Data sets, views of them, and decision trees.

pub mod dataset;
pub mod dataview;
pub mod tree;
