//! The best split seen so far.

use std::sync::Arc;
use vstd::prelude::*;

use crate::model::tree::{leaf_of, BranchNode, LeafNode, Threshold, Tree};
use crate::tasks::{addable, plus, Cost, CostSum, OptimizationTask};

verus! {

/// A split into two leaves: on `feature`, between the values `lower` and `upper`.
pub struct Candidate<OT: OptimizationTask> {
    pub feature: usize,
    pub lower: i32,
    pub upper: i32,
    pub left: LeafNode<OT>,
    pub right: LeafNode<OT>,
}

impl<OT: OptimizationTask> Candidate<OT> {
    /// What the two leaves cost together.
    pub open spec fn leaf_cost(self) -> OT::CostType {
        plus(self.left.cost, self.right.cost)
    }

    /// What the tree with this split costs.
    pub open spec fn total(self, branching_cost: OT::CostType) -> OT::CostType {
        plus(self.leaf_cost(), branching_cost)
    }

    /// The cost of the split can be computed.
    pub open spec fn fits(self, branching_cost: OT::CostType) -> bool {
        &&& addable(self.left.cost, self.right.cost)
        &&& addable(self.leaf_cost(), branching_cost)
    }
}

/// The best tree of depth at most one that was seen so far.
pub struct D1ScoreTracker<OT: OptimizationTask> {
    pub leaf_cost: OT::CostType,
    pub feature: Option<usize>,
    pub threshold: Option<Threshold>,
    /// The left leaf is not an option as it is used to store the label in case there is no split.
    pub left_leaf: LeafNode<OT>,
    pub right_leaf: Option<LeafNode<OT>>,
}

impl<OT: OptimizationTask> Clone for D1ScoreTracker<OT> {
    fn clone(&self) -> (r: Self)
        ensures
            r == *self,
    {
        D1ScoreTracker {
            leaf_cost: self.leaf_cost,
            feature: self.feature,
            threshold: self.threshold,
            left_leaf: self.left_leaf.clone(),
            right_leaf: match &self.right_leaf {
                Some(leaf) => Some(leaf.clone()),
                None => None,
            },
        }
    }
}

impl<OT: OptimizationTask> D1ScoreTracker<OT> {
    /// The tracker that has seen no split yet of what `leaf` holds.
    pub open spec fn unsplit(leaf: LeafNode<OT>) -> Self {
        D1ScoreTracker {
            leaf_cost: leaf.cost,
            feature: None,
            threshold: None,
            left_leaf: leaf,
            right_leaf: None,
        }
    }

    /// The tracker whose best tree is the split `candidate`.
    pub open spec fn split(candidate: Candidate<OT>) -> Self {
        D1ScoreTracker {
            leaf_cost: candidate.leaf_cost(),
            feature: Some(candidate.feature),
            threshold: Some(
                Threshold::Between { lower: candidate.lower, upper: candidate.upper },
            ),
            left_leaf: candidate.left,
            right_leaf: Some(candidate.right),
        }
    }

    /// The cost of the best tree so far can be computed.
    pub open spec fn priced(self, branching_cost: OT::CostType) -> bool {
        self.feature is Some ==> addable(self.leaf_cost, branching_cost)
    }

    /// A split comes with its threshold and its right leaf, and its cost can be computed.
    pub open spec fn valid(self, branching_cost: OT::CostType) -> bool {
        &&& self.priced(branching_cost)
        &&& self.feature is Some ==> self.threshold is Some && self.right_leaf is Some
    }

    /// What [`total_cost`](D1ScoreTracker::total_cost) returns.
    pub open spec fn total(self, branching_cost: OT::CostType) -> OT::CostType {
        if self.feature is Some {
            plus(self.leaf_cost, branching_cost)
        } else {
            self.leaf_cost
        }
    }

    /// What [`is_optimal`](D1ScoreTracker::is_optimal) decides.
    pub open spec fn optimal(self, branching_cost: OT::CostType) -> bool {
        self.leaf_cost.zero_like() || (self.feature is None && self.leaf_cost.stays_within(
            branching_cost,
        ))
    }

    /// The tracker after one more candidate: the candidate takes over if it is strictly cheaper.
    pub open spec fn consider(
        self,
        branching_cost: OT::CostType,
        candidate: Candidate<OT>,
    ) -> Self {
        if candidate.total(branching_cost).undercuts(self.total(branching_cost)) {
            Self::split(candidate)
        } else {
            self
        }
    }

    /// The tree that the tracker stands for.
    pub open spec fn tree(self, branching_cost: OT::CostType) -> Tree<OT> {
        if self.feature is None {
            Tree::Leaf(
                LeafNode { cost: self.total(branching_cost), label: self.left_leaf.label },
            )
        } else {
            Tree::Branch(
                BranchNode {
                    cost: self.total(branching_cost),
                    split_feature: self.feature->0,
                    split_threshold: self.threshold->0,
                    left_child: Arc::new(Tree::Leaf(self.left_leaf)),
                    right_child: Arc::new(Tree::Leaf(self.right_leaf->0)),
                },
            )
        }
    }

    /// The tracker that has seen no split yet of what `costsum` sums up.
    pub fn new(costsum: &OT::CostSumType) -> (r: Self)
        ensures
            forall|data: Seq<OT::InstanceType>, ids: Set<int>| #[trigger]
                costsum.sums(data, ids) ==> r == Self::unsplit(leaf_of(data, ids)),
            forall|data: Seq<OT::InstanceType>, ids: Set<int>| #[trigger]
                costsum.sums(data, ids) ==> {
                    &&& r.leaf_cost == OT::CostSumType::cost_of(data, ids)
                    &&& r.left_leaf.cost == OT::CostSumType::cost_of(data, ids)
                    &&& r.left_leaf.label == OT::CostSumType::label_of(data, ids)
                },
            r.feature is None,
            r.threshold is None,
            r.right_leaf is None,
    {
        D1ScoreTracker {
            leaf_cost: costsum.cost(),
            feature: None,
            threshold: None,
            left_leaf: LeafNode { cost: costsum.cost(), label: costsum.label() },
            right_leaf: None,
        }
    }

    /// No split that is still to come can be strictly cheaper.
    pub fn is_optimal(&self, branching_cost: OT::CostType) -> (r: bool)
        ensures
            r == self.optimal(branching_cost),
            r == (self.leaf_cost.zero_like() || (self.feature is None
                && self.leaf_cost.stays_within(branching_cost))),
    {
        // If we do branch, then it is optimal if the cost after branching is zero. (Since we have
        // already excluded not branching)
        // If we do not branch (yet), this is optimal if branching cannot improve the cost.
        self.leaf_cost.is_zero() || (self.feature.is_none()
            && self.leaf_cost.less_or_not_much_greater_than(&branching_cost))
    }

    /// What the best tree so far costs.
    pub fn total_cost(&self, branching_cost: OT::CostType) -> (r: OT::CostType)
        requires
            self.priced(branching_cost),
        ensures
            r == self.total(branching_cost),
            r == if self.feature is Some {
                plus(self.leaf_cost, branching_cost)
            } else {
                self.leaf_cost
            },
    {
        if self.feature.is_some() {
            self.leaf_cost + branching_cost
        } else {
            self.leaf_cost
        }
    }

    /// Compares one more candidate with the best tree so far: a split on `feature` between two
    /// feature values, into the parts that the two sums are over.
    pub fn add_candidate(
        &mut self,
        branching_cost: OT::CostType,
        costsum_left: &OT::CostSumType,
        costsum_right: &OT::CostSumType,
        feature: usize,
        current_feature_value: i32,
        next_feature_value: i32,
    )
        requires
            old(self).priced(branching_cost),
            exists|data: Seq<OT::InstanceType>, left: Set<int>, right: Set<int>|
                #![trigger costsum_left.sums(data, left), costsum_right.sums(data, right)]
                costsum_left.sums(data, left) && costsum_right.sums(data, right) && (Candidate {
                    feature,
                    lower: current_feature_value,
                    upper: next_feature_value,
                    left: leaf_of::<OT>(data, left),
                    right: leaf_of::<OT>(data, right),
                }).fits(branching_cost),
        ensures
            final(self).priced(branching_cost),
            old(self).valid(branching_cost) ==> final(self).valid(branching_cost),
            forall|data: Seq<OT::InstanceType>, left: Set<int>, right: Set<int>|
                #![trigger costsum_left.sums(data, left), costsum_right.sums(data, right)]
                costsum_left.sums(data, left) && costsum_right.sums(data, right) ==> *final(self)
                    == old(self).consider(
                    branching_cost,
                    Candidate {
                        feature,
                        lower: current_feature_value,
                        upper: next_feature_value,
                        left: leaf_of::<OT>(data, left),
                        right: leaf_of::<OT>(data, right),
                    },
                ),
            forall|data: Seq<OT::InstanceType>, left: Set<int>, right: Set<int>|
                #![trigger costsum_left.sums(data, left), costsum_right.sums(data, right)]
                costsum_left.sums(data, left) && costsum_right.sums(data, right) ==> {
                    let left_cost = OT::CostSumType::cost_of(data, left);
                    let right_cost = OT::CostSumType::cost_of(data, right);
                    let leaf_cost = plus(left_cost, right_cost);
                    let best = if old(self).feature is Some {
                        plus(old(self).leaf_cost, branching_cost)
                    } else {
                        old(self).leaf_cost
                    };
                    if plus(leaf_cost, branching_cost).undercuts(best) {
                        &&& final(self).leaf_cost == leaf_cost
                        &&& final(self).feature == Some(feature)
                        &&& final(self).threshold == Some(
                            Threshold::Between {
                                lower: current_feature_value,
                                upper: next_feature_value,
                            },
                        )
                        &&& final(self).left_leaf.cost == left_cost
                        &&& final(self).left_leaf.label == OT::CostSumType::label_of(data, left)
                        &&& final(self).right_leaf is Some
                        &&& final(self).right_leaf->0.cost == right_cost
                        &&& final(self).right_leaf->0.label == OT::CostSumType::label_of(
                            data,
                            right,
                        )
                    } else {
                        *final(self) == *old(self)
                    }
                },
    {
        let cost_left = costsum_left.cost();
        let cost_right = costsum_right.cost();
        let leaf_cost = cost_left + cost_right;
        let total_cost = leaf_cost + branching_cost;

        if total_cost.strictly_less_than(&self.total_cost(branching_cost)) {
            self.leaf_cost = leaf_cost;
            self.feature = Some(feature);
            self.threshold = Some(
                Threshold::Between { lower: current_feature_value, upper: next_feature_value },
            );
            self.left_leaf = LeafNode { cost: cost_left, label: costsum_left.label() };
            self.right_leaf = Some(LeafNode { cost: cost_right, label: costsum_right.label() });
        }
    }

    /// The best tree so far.
    pub fn get_tree(self, branching_cost: OT::CostType) -> (r: Arc<Tree<OT>>)
        requires
            self.valid(branching_cost),
        ensures
            *r == self.tree(branching_cost),
            match *r {
                Tree::Leaf(leaf) => {
                    &&& self.feature is None
                    &&& leaf.cost == self.leaf_cost
                    &&& leaf.label == self.left_leaf.label
                },
                Tree::Branch(branch) => {
                    &&& self.feature == Some(branch.split_feature)
                    &&& self.threshold == Some(branch.split_threshold)
                    &&& branch.cost == plus(self.leaf_cost, branching_cost)
                    &&& *branch.left_child == Tree::<OT>::Leaf(self.left_leaf)
                    &&& *branch.right_child == Tree::<OT>::Leaf(self.right_leaf->0)
                },
            },
    {
        let cost = self.total_cost(branching_cost);
        let tree = if self.feature.is_none() {
            Tree::Leaf(LeafNode { cost, label: self.left_leaf.label })
        } else {
            Tree::Branch(
                BranchNode {
                    cost,
                    split_feature: self.feature.unwrap(),
                    split_threshold: self.threshold.unwrap(),
                    left_child: Arc::new(Tree::Leaf(self.left_leaf)),
                    right_child: Arc::new(Tree::Leaf(self.right_leaf.unwrap())),
                },
            )
        };

        Arc::new(tree)
    }
}

} // verus!
