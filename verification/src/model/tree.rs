//! Decision trees.

use std::sync::Arc;
use vstd::prelude::*;

use crate::tasks::{CostSum, OptimizationTask};

verus! {

/// Where a branching node splits its feature. The bounds are feature values as the data set holds
/// them; the place between them in the units of the raw data is up to whoever knows that scale.
#[derive(Clone, Copy, PartialEq, Eq, Debug, Structural)]
pub enum Threshold {
    /// Halfway between two neighbouring feature values of the view.
    Between { lower: i32, upper: i32 },
    /// At a possible split of the data view, by its index.
    PossibleSplit { index: usize },
}

/// A leaf: what it costs, and the label that it gives.
pub struct LeafNode<OT: OptimizationTask> {
    pub cost: OT::CostType,
    pub label: OT::LabelType,
}

/// A branching node. Instances up to the threshold belong to the left child, the others to the
/// right one.
pub struct BranchNode<OT: OptimizationTask> {
    pub cost: OT::CostType,
    pub split_feature: usize,
    pub split_threshold: Threshold,
    pub left_child: Arc<Tree<OT>>,
    pub right_child: Arc<Tree<OT>>,
}

/// A decision tree.
pub enum Tree<OT: OptimizationTask> {
    Leaf(LeafNode<OT>),
    Branch(BranchNode<OT>),
}

impl<OT: OptimizationTask> Clone for LeafNode<OT> {
    fn clone(&self) -> (r: Self)
        ensures
            r == *self,
    {
        LeafNode { cost: self.cost, label: self.label }
    }
}

/// The leaf that holds the part `ids` of `data`.
pub open spec fn leaf_of<OT: OptimizationTask>(
    data: Seq<OT::InstanceType>,
    ids: Set<int>,
) -> LeafNode<OT> {
    LeafNode {
        cost: OT::CostSumType::cost_of(data, ids),
        label: OT::CostSumType::label_of(data, ids),
    }
}

impl<OT: OptimizationTask> Tree<OT> {
    /// What the tree costs.
    pub open spec fn total(self) -> OT::CostType {
        match self {
            Tree::Leaf(leaf) => leaf.cost,
            Tree::Branch(branch) => branch.cost,
        }
    }

    /// The number of branching nodes on the longest way from the root to a leaf.
    pub open spec fn depth(self) -> nat
        decreases self,
    {
        match self {
            Tree::Leaf(_) => 0,
            Tree::Branch(branch) => {
                let left = branch.left_child.depth();
                let right = branch.right_child.depth();
                1 + if left < right {
                    right
                } else {
                    left
                }
            },
        }
    }

    /// What the tree costs.
    pub fn cost(&self) -> (r: OT::CostType)
        ensures
            r == self.total(),
            r == match *self {
                Tree::Leaf(leaf) => leaf.cost,
                Tree::Branch(branch) => branch.cost,
            },
    {
        match self {
            Tree::Leaf(leaf) => leaf.cost,
            Tree::Branch(branch) => branch.cost,
        }
    }
}

} // verus!
