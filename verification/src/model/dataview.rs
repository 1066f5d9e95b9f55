//! A view of a data set: some of its instances, in the order of each feature.

use vstd::prelude::*;

use crate::model::dataset::DataSet;
use crate::model::tree::{leaf_of, Threshold, Tree};
use crate::tasks::{countable, plus, CostSum, OptimizationTask};

verus! {

/// An instance and the value of some feature at it.
#[derive(Clone, Copy, PartialEq, Eq, Debug, Structural)]
pub struct FeatureValue {
    pub instance_id: usize,
    pub feature_value: i32,
}

/// A split that separates the values up to `feature_value` from the larger ones.
#[derive(Clone, Copy, PartialEq, Eq, Debug, Structural)]
pub struct PossibleSplit {
    pub feature_value: i32,
}

/// A part of a data set, with the instances listed in the order of each feature.
pub struct DataView<'a, OT: OptimizationTask> {
    pub dataset: &'a DataSet<OT::InstanceType>,
    /// The sum over all instances of the view.
    pub cost_summer: OT::CostSumType,
    /// For each feature, the instances of the view by increasing value of that feature.
    pub feature_instances: Vec<Vec<FeatureValue>>,
    /// For each feature, the splits that are worth trying, by increasing value.
    pub possible_split_values: Vec<Vec<PossibleSplit>>,
    pub extra_data: OT::ExtraDataviewData,
}

/// The instances that `entries` lists.
pub open spec fn entry_ids(entries: Seq<FeatureValue>) -> Set<int> {
    Set::new(|k: int| exists|p: int| 0 <= p < entries.len() && entries[p].instance_id == k)
}

/// `entries` lists every instance of `ids` once, and no other.
pub open spec fn lists(entries: Seq<FeatureValue>, ids: Set<int>) -> bool {
    &&& entry_ids(entries) == ids
    &&& forall|p: int, q: int|
        0 <= p < q < entries.len() ==> entries[p].instance_id != entries[q].instance_id
}

/// The entries whose instance lies in `part`, in the order in which they stand.
pub open spec fn entries_within(entries: Seq<FeatureValue>, part: Set<int>) -> Seq<FeatureValue>
    decreases entries.len(),
{
    if entries.len() == 0 {
        Seq::empty()
    } else {
        let before = entries_within(entries.drop_last(), part);
        if part.contains(entries.last().instance_id as int) {
            before.push(entries.last())
        } else {
            before
        }
    }
}

impl<'a, OT: OptimizationTask> DataView<'a, OT> {
    /// The instances of the whole data set.
    pub open spec fn data(&self) -> Seq<OT::InstanceType> {
        self.dataset.instances@
    }

    /// The instances of the view by increasing value of feature `f`.
    pub open spec fn entries(&self, f: int) -> Seq<FeatureValue> {
        self.feature_instances@[f]@
    }

    /// The possible splits of feature `f`.
    pub open spec fn splits(&self, f: int) -> Seq<PossibleSplit> {
        self.possible_split_values@[f]@
    }

    /// The instances of `part` whose value of feature `f` is at most `bound`.
    pub open spec fn up_to(&self, part: Set<int>, f: int, bound: int) -> Set<int> {
        Set::new(|k: int| part.contains(k) && self.dataset.value(f, k) <= bound)
    }

    /// The instances of `part` whose value of feature `f` is larger than `bound`.
    pub open spec fn beyond(&self, part: Set<int>, f: int, bound: int) -> Set<int> {
        Set::new(|k: int| part.contains(k) && self.dataset.value(f, k) > bound)
    }

    /// The list of feature `f` is sorted and agrees with the data set.
    pub open spec fn in_order(&self, f: int) -> bool {
        &&& forall|p: int|
            0 <= p < self.entries(f).len() ==> (#[trigger] self.entries(f)[p]).feature_value
                == self.dataset.value(f, self.entries(f)[p].instance_id as int)
        &&& forall|p: int, q: int|
            0 <= p <= q < self.entries(f).len() ==> self.entries(f)[p].feature_value
                <= self.entries(f)[q].feature_value
    }

    /// The view holds exactly the instances `ids`.
    pub open spec fn covers(&self, ids: Set<int>) -> bool {
        &&& self.cost_summer.sums(self.data(), ids)
        &&& forall|k: int| #[trigger] ids.contains(k) ==> 0 <= k < self.data().len()
        &&& forall|f: int|
            0 <= f < self.feature_instances@.len() ==> lists(#[trigger] self.entries(f), ids)
    }

    /// The instances that the view holds.
    pub open spec fn ids(&self) -> Set<int> {
        choose|ids: Set<int>| self.covers(ids)
    }

    /// The parts of the view belong together.
    pub open spec fn valid(&self) -> bool {
        &&& self.dataset.valid()
        &&& self.feature_instances@.len() == self.dataset.feature_values@.len()
        &&& self.possible_split_values@.len() == self.dataset.feature_values@.len()
        &&& exists|ids: Set<int>| self.covers(ids)
        &&& forall|f: int| 0 <= f < self.feature_instances@.len() ==> self.in_order(f)
    }

    /// The possible splits of feature `f` are listed by increasing value, between any two of them
    /// there is an instance, and there is one to the right of all of them.
    pub open spec fn splits_apart(&self, f: int) -> bool {
        let splits = self.splits(f);
        &&& forall|i: int, j: int|
            0 <= i < j < splits.len() ==> splits[i].feature_value < splits[j].feature_value
        &&& forall|i: int|
            0 <= i < splits.len() - 1 ==> exists|k: int|
                #![trigger self.ids().contains(k)]
                {
                    &&& self.ids().contains(k)
                    &&& (#[trigger] splits[i]).feature_value < self.dataset.value(f, k)
                        <= splits[i + 1].feature_value
                }
        &&& splits.len() > 0 ==> exists|k: int|
            #![trigger self.ids().contains(k)]
            self.ids().contains(k) && splits.last().feature_value < self.dataset.value(f, k)
    }

    /// The largest value of feature `f` on the left side of a threshold.
    pub open spec fn bound(&self, f: int, threshold: Threshold) -> int {
        match threshold {
            Threshold::Between { lower, .. } => lower as int,
            Threshold::PossibleSplit { index } => self.splits(f)[index as int].feature_value as int,
        }
    }

    /// The tree is made for the part `part` of the view: each leaf is the leaf of the instances
    /// that are led to it, and each branching node costs what its children cost and the price of
    /// branching.
    pub open spec fn fits_tree(
        &self,
        part: Set<int>,
        branching_cost: OT::CostType,
        tree: Tree<OT>,
    ) -> bool
        decreases tree,
    {
        match tree {
            Tree::Leaf(leaf) => leaf == leaf_of::<OT>(self.data(), part),
            Tree::Branch(branch) => {
                let f = branch.split_feature as int;
                let bound = self.bound(f, branch.split_threshold);
                &&& f < self.feature_instances@.len()
                &&& branch.cost == plus(
                    plus(branch.left_child.total(), branch.right_child.total()),
                    branching_cost,
                )
                &&& self.fits_tree(self.up_to(part, f, bound), branching_cost, *branch.left_child)
                &&& self.fits_tree(self.beyond(part, f, bound), branching_cost, *branch.right_child)
            },
        }
    }

    /// The data set is a list of instances, so their number is limited.
    pub proof fn lemma_countable(&self)
        ensures
            countable(self.data()),
    {
        assert(self.dataset.instances.len() == self.data().len());
    }

    /// The number of features.
    pub fn num_features(&self) -> (r: usize)
        ensures
            r == self.feature_instances@.len(),
    {
        self.feature_instances.len()
    }

    /// The instances of the view by increasing value of a feature.
    pub fn instances(&self, feature: usize) -> (r: &Vec<FeatureValue>)
        requires
            feature < self.feature_instances@.len(),
        ensures
            r@ == self.entries(feature as int),
    {
        &self.feature_instances[feature]
    }
}

} // verus!
