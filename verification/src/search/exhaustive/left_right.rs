//! Exhaustive search for a node with depth two, given a fixed feature split.
//!
//! The two sides of the split are searched for their best trees of depth one, feature by feature.
//! Any number of workers can share the features among them: each starts from
//! [`start`](LeftRightSearch::start), hands its features one by one to
//! [`visit_feature`](LeftRightSearch::visit_feature), and all that they have found is put together
//! by [`finish`](LeftRightSearch::finish). Once `visit_feature` returns true, that worker is done
//! with both sides, and the features that nobody has visited yet can be left out.

use std::sync::Arc;
use vstd::prelude::*;

use crate::model::dataview::{entries_within, entry_ids, lists, DataView, FeatureValue};
use crate::model::tree::{leaf_of, BranchNode, Threshold, Tree};
use crate::search::exhaustive::candidates::{
    consider_all, feature_candidates, join, lemma_boundary, lemma_feature_candidates_split,
    lemma_prefix_ids, lemma_step, lemma_tracked_cost, lemma_tracks, meets_optimum, node_fits,
    split_at, split_fits, splits_along, splits_fit, tracks, trees_fit,
};
use crate::search::exhaustive::tracker::D1ScoreTracker;
use crate::search::SolveContext;
use crate::tasks::{inside, Cost, CostSum, OptimizationTask};

verus! {

/// What one worker has found so far on the two sides.
pub struct LeftRightState<OT: OptimizationTask> {
    pub left_tracker: D1ScoreTracker<OT>,
    pub right_tracker: D1ScoreTracker<OT>,
    pub left_done: bool,
    pub right_done: bool,
}

impl<OT: OptimizationTask> Clone for LeftRightState<OT> {
    fn clone(&self) -> (r: Self)
        ensures
            r == *self,
    {
        LeftRightState {
            left_tracker: self.left_tracker.clone(),
            right_tracker: self.right_tracker.clone(),
            left_done: self.left_done,
            right_done: self.right_done,
        }
    }
}

/// A split at the root of a tree: possible split `index` of feature `feature` of a view.
pub struct RootSplit<'a, OT: OptimizationTask> {
    pub view: DataView<'a, OT>,
    pub branching_cost: OT::CostType,
    pub feature: usize,
    pub index: usize,
}

impl<'a, OT: OptimizationTask> RootSplit<'a, OT> {
    /// The largest feature value on the left side.
    pub open spec fn bound(self) -> i32 {
        self.view.splits(self.feature as int)[self.index as int].feature_value
    }

    /// The instances of the left side.
    pub open spec fn left_ids(self) -> Set<int> {
        self.view.up_to(self.view.ids(), self.feature as int, self.bound() as int)
    }

    /// The instances of the right side.
    pub open spec fn right_ids(self) -> Set<int> {
        self.view.beyond(self.view.ids(), self.feature as int, self.bound() as int)
    }

    /// The split exists, and the costs of its trees can be computed.
    pub open spec fn valid(self) -> bool {
        &&& self.view.valid()
        &&& self.feature < self.view.feature_instances@.len()
        &&& self.index < self.view.splits(self.feature as int).len()
        &&& trees_fit::<OT>(self.view.data(), self.view.ids(), self.branching_cost)
    }

    /// The left side as a leaf.
    pub open spec fn unsplit_left(self) -> D1ScoreTracker<OT> {
        D1ScoreTracker::unsplit(leaf_of(self.view.data(), self.left_ids()))
    }

    /// The right side as a leaf.
    pub open spec fn unsplit_right(self) -> D1ScoreTracker<OT> {
        D1ScoreTracker::unsplit(leaf_of(self.view.data(), self.right_ids()))
    }

    /// Splitting the left side cannot pay off.
    pub open spec fn left_done(self) -> bool {
        self.unsplit_left().optimal(self.branching_cost)
    }

    /// Splitting the right side cannot pay off.
    pub open spec fn right_done(self) -> bool {
        self.unsplit_right().optimal(self.branching_cost)
    }

    /// What a worker starts from: neither side is split.
    pub open spec fn initial(self) -> LeftRightState<OT> {
        LeftRightState {
            left_tracker: self.unsplit_left(),
            right_tracker: self.unsplit_right(),
            left_done: self.left_done(),
            right_done: self.right_done(),
        }
    }

    /// The trackers of the state stand for trees of the two sides.
    pub open spec fn on_both_sides(self, state: LeftRightState<OT>) -> bool {
        &&& tracks(self.view, self.left_ids(), self.branching_cost, state.left_tracker)
        &&& tracks(self.view, self.right_ids(), self.branching_cost, state.right_tracker)
    }

    /// The state of a worker after a visit of feature `f`: unless it is done with both sides, each
    /// side that was not done from the start is tried with all of its splits on that feature.
    pub open spec fn visited(self, state: LeftRightState<OT>, f: int) -> LeftRightState<OT> {
        let bc = self.branching_cost;
        let left = feature_candidates(self.view, self.left_ids(), f);
        let right = feature_candidates(self.view, self.right_ids(), f);
        if state.left_done && state.right_done {
            state
        } else {
            LeftRightState {
                left_tracker: if self.left_done() {
                    state.left_tracker
                } else {
                    consider_all(state.left_tracker, bc, left)
                },
                right_tracker: if self.right_done() {
                    state.right_tracker
                } else {
                    consider_all(state.right_tracker, bc, right)
                },
                left_done: state.left_done || (!self.left_done() && meets_optimum(
                    state.left_tracker,
                    bc,
                    left,
                )),
                right_done: state.right_done || (!self.right_done() && meets_optimum(
                    state.right_tracker,
                    bc,
                    right,
                )),
            }
        }
    }

    /// The state of a worker after visits of the features `order`, in that order.
    pub open spec fn after_visits(self, order: Seq<int>) -> LeftRightState<OT>
        decreases order.len(),
    {
        if order.len() == 0 {
            self.initial()
        } else {
            self.visited(self.after_visits(order.drop_last()), order.last())
        }
    }

    /// The best left tracker of several workers: a later one takes over where the best so far is
    /// not within what that one costs.
    pub open spec fn best_left(self, states: Seq<LeftRightState<OT>>) -> D1ScoreTracker<OT>
        decreases states.len(),
    {
        if states.len() == 0 {
            self.unsplit_left()
        } else {
            cheaper(
                self.branching_cost,
                self.best_left(states.drop_last()),
                states.last().left_tracker,
            )
        }
    }

    /// The best right tracker of several workers: a later one takes over where the best so far is
    /// not within what that one costs.
    pub open spec fn best_right(self, states: Seq<LeftRightState<OT>>) -> D1ScoreTracker<OT>
        decreases states.len(),
    {
        if states.len() == 0 {
            self.unsplit_right()
        } else {
            cheaper(
                self.branching_cost,
                self.best_right(states.drop_last()),
                states.last().right_tracker,
            )
        }
    }

    /// The tree that comes out of what several workers have found.
    pub open spec fn outcome(self, states: Seq<LeftRightState<OT>>) -> Tree<OT> {
        join(
            self.feature,
            self.index,
            self.best_left(states),
            self.best_right(states),
            self.branching_cost,
        )
    }
}

/// The first tracker, unless it is not within what the second one costs.
pub open spec fn cheaper<OT: OptimizationTask>(
    branching_cost: OT::CostType,
    first: D1ScoreTracker<OT>,
    second: D1ScoreTracker<OT>,
) -> D1ScoreTracker<OT> {
    if first.total(branching_cost).stays_within(second.total(branching_cost)) {
        first
    } else {
        second
    }
}

/// A search for the best tree with a given split at its root.
pub struct LeftRightSearch<'a, 'b, OT: OptimizationTask> {
    pub dataview: &'b DataView<'a, OT>,
    pub branching_cost: OT::CostType,
    pub feature: usize,
    pub split_index: usize,
    pub split_value: i32,
    /// The sum over the left side.
    pub total_left: OT::CostSumType,
    /// The sum over the right side.
    pub total_right: OT::CostSumType,
    /// Splitting the left side cannot pay off.
    pub left_done: bool,
    /// Splitting the right side cannot pay off.
    pub right_done: bool,
}

impl<'a, 'b, OT: OptimizationTask> LeftRightSearch<'a, 'b, OT> {
    /// The split that the search is about.
    pub open spec fn root(&self) -> RootSplit<'a, OT> {
        RootSplit {
            view: *self.dataview,
            branching_cost: self.branching_cost,
            feature: self.feature,
            index: self.split_index,
        }
    }

    /// The sums and flags are those of the two sides of the split.
    pub open spec fn valid(&self) -> bool {
        &&& self.root().valid()
        &&& self.split_value == self.root().bound()
        &&& self.total_left.sums(self.dataview.data(), self.root().left_ids())
        &&& self.total_right.sums(self.dataview.data(), self.root().right_ids())
        &&& self.left_done == self.root().left_done()
        &&& self.right_done == self.root().right_done()
    }

    /// Sums up the two sides of a possible split.
    pub fn new(
        dataview: &'b DataView<'a, OT>,
        context: &SolveContext<OT>,
        feature: usize,
        split_index: usize,
    ) -> (r: Self)
        requires
            dataview.valid(),
            feature < dataview.feature_instances@.len(),
            split_index < dataview.splits(feature as int).len(),
            trees_fit::<OT>(dataview.data(), dataview.ids(), context.task.price()),
        ensures
            r.valid(),
            r.root() == (RootSplit {
                view: *dataview,
                branching_cost: context.task.price(),
                feature,
                index: split_index,
            }),
    {
        let branching_cost = context.task.branching_cost();
        let ghost data = dataview.data();
        let ghost ids = dataview.ids();
        let ghost f = feature as int;
        assert(dataview.covers(ids));
        assert(dataview.in_order(f));

        let split_value = dataview.possible_split_values[feature][split_index].feature_value;
        let mut total_right = dataview.cost_summer.duplicate();

        let instances = dataview.instances(feature);
        let ghost entries = instances@;
        let ghost left = dataview.up_to(ids, f, split_value as int);
        let ghost right = dataview.beyond(ids, f, split_value as int);
        let mut p: usize = 0;
        proof {
            assert(ids.difference(entry_ids(entries.take(0))) =~= ids);
        }
        while p < instances.len()
            invariant
                dataview.valid(),
                dataview.covers(ids),
                dataview.in_order(f),
                f == feature,
                feature < dataview.feature_instances@.len(),
                data == dataview.data(),
                instances@ == entries,
                entries == dataview.entries(f),
                p <= entries.len(),
                forall|q: int|
                    0 <= q < p ==> (#[trigger] entries[q]).feature_value <= split_value,
                total_right.sums(data, ids.difference(entry_ids(entries.take(p as int)))),
            ensures
                p < entries.len() ==> entries[p as int].feature_value > split_value,
            decreases instances.len() - p,
        {
            let instance = instances[p];
            proof {
                lemma_step(*dataview, ids, ids, f, p as int);
                let seen = entry_ids(entries.take(p as int));
                let k = instance.instance_id as int;
                assert(seen.intersect(ids) =~= seen) by {
                    lemma_prefix_ids(*dataview, ids, f, p as int);
                }
                assert(inside(data, ids.difference(seen), k, data[k]));
                lemma_prefix_ids(*dataview, ids, f, p + 1);
                assert(entry_ids(entries.take(p + 1)).intersect(ids) =~= entry_ids(
                    entries.take(p + 1),
                ));
                assert(ids.difference(seen).remove(k) =~= ids.difference(
                    entry_ids(entries.take(p + 1)),
                ));
            }
            if dataview.dataset.feature_values[feature][instance.instance_id] > split_value {
                break;
            } else {
                total_right.subtract_instance(&dataview.dataset.instances[instance.instance_id]);
            }
            p += 1;
        }
        proof {
            lemma_prefix_up_to(*dataview, ids, f, p as int, split_value);
        }

        let mut total_left = dataview.cost_summer.duplicate();
        total_left.subtract_sum(&total_right);
        proof {
            assert(ids.difference(right) =~= left);
        }

        let left_tracker = D1ScoreTracker::<OT>::new(&total_left);
        let right_tracker = D1ScoreTracker::<OT>::new(&total_right);
        let left_done = left_tracker.is_optimal(branching_cost);
        let right_done = right_tracker.is_optimal(branching_cost);

        LeftRightSearch {
            dataview,
            branching_cost,
            feature,
            split_index,
            split_value,
            total_left,
            total_right,
            left_done,
            right_done,
        }
    }

    /// What a worker starts from.
    pub fn start(&self) -> (r: LeftRightState<OT>)
        requires
            self.valid(),
        ensures
            r == self.root().initial(),
            self.root().on_both_sides(r),
    {
        LeftRightState {
            left_tracker: D1ScoreTracker::new(&self.total_left),
            right_tracker: D1ScoreTracker::new(&self.total_right),
            left_done: self.left_done,
            right_done: self.right_done,
        }
    }

    /// Tries all splits of the two sides on one feature. Returns true if the worker was done with
    /// both sides before this visit, or both were done from the start; there is no need to visit
    /// other features then. A worker that gets done in the course of this visit returns true at its
    /// next one.
    pub fn visit_feature(&self, state: &mut LeftRightState<OT>, feature_2: usize) -> (r: bool)
        requires
            self.valid(),
            self.root().on_both_sides(*old(state)),
            feature_2 < self.dataview.feature_instances@.len(),
        ensures
            *final(state) == self.root().visited(*old(state), feature_2 as int),
            self.root().on_both_sides(*final(state)),
            r == (old(state).left_done && old(state).right_done || self.left_done
                && self.right_done),
    {
        if state.left_done && state.right_done {
            return true;
        }
        let dataview = self.dataview;
        let branching_cost = self.branching_cost;
        let left_done = self.left_done;
        let right_done = self.right_done;
        let ghost view = *self.dataview;
        let ghost before = *state;
        let ghost f = feature_2 as int;
        let ghost data = view.data();
        let ghost ids = view.ids();
        let ghost left = self.root().left_ids();
        let ghost right = self.root().right_ids();
        proof {
            assert(view.covers(ids));
            assert(view.in_order(f));
        }

        // init totals of the left left node and right left node to zero.
        let mut total_left_left = self.total_left.duplicate();
        total_left_left.subtract_sum(&self.total_left);
        let mut total_right_left = self.total_left.duplicate();
        total_right_left.subtract_sum(&self.total_left);

        let mut prev_left_feature_value: Option<i32> = None;
        let mut prev_right_feature_value: Option<i32> = None;

        let instances = dataview.instances(feature_2);
        let ghost entries = instances@;
        proof {
            assert(entry_ids(entries.take(0)).intersect(left) =~= left.difference(left));
            assert(entry_ids(entries.take(0)).intersect(right) =~= left.difference(left));
        }
        let mut p: usize = 0;
        while p < instances.len()
            invariant
                self.valid(),
                self.root().on_both_sides(before),
                view == *self.dataview,
                dataview == self.dataview,
                branching_cost == self.branching_cost,
                left_done == self.left_done,
                right_done == self.right_done,
                f == feature_2,
                0 <= f < view.feature_instances@.len(),
                data == view.data(),
                ids == view.ids(),
                left == self.root().left_ids(),
                right == self.root().right_ids(),
                view.covers(ids),
                view.in_order(f),
                instances@ == entries,
                entries == view.entries(f),
                p <= entries.len(),
                before == *old(state),
                !(before.left_done && before.right_done),
                total_left_left.sums(data, entry_ids(entries.take(p as int)).intersect(left)),
                total_right_left.sums(data, entry_ids(entries.take(p as int)).intersect(right)),
                prev_left_feature_value == last_value(entries_within(entries.take(p as int), left)),
                prev_right_feature_value == last_value(
                    entries_within(entries.take(p as int), right),
                ),
                state.left_tracker.valid(branching_cost),
                state.right_tracker.valid(branching_cost),
                ({
                    let found = splits_along(
                        view,
                        left,
                        f,
                        entries_within(entries.take(p as int), left),
                    );
                    &&& state.left_tracker == if left_done {
                        before.left_tracker
                    } else {
                        consider_all(before.left_tracker, branching_cost, found)
                    }
                    &&& state.left_done == (before.left_done || (!left_done && meets_optimum(
                        before.left_tracker,
                        branching_cost,
                        found,
                    )))
                }),
                ({
                    let found = splits_along(
                        view,
                        right,
                        f,
                        entries_within(entries.take(p as int), right),
                    );
                    &&& state.right_tracker == if right_done {
                        before.right_tracker
                    } else {
                        consider_all(before.right_tracker, branching_cost, found)
                    }
                    &&& state.right_done == (before.right_done || (!right_done && meets_optimum(
                        before.right_tracker,
                        branching_cost,
                        found,
                    )))
                }),
            decreases instances.len() - p,
        {
            if left_done && right_done {
                return true;
            }

            let instance = instances[p];
            let ghost k = instance.instance_id as int;
            proof {
                lemma_step(view, ids, left, f, p as int);
                lemma_step(view, ids, right, f, p as int);
            }
            let values = &dataview.dataset.feature_values[self.feature];
            let feature1_value = values[instance.instance_id];
            let feature2_value = instance.feature_value;
            if feature1_value <= self.split_value {
                let ghost within = entries_within(entries.take(p as int), left);
                let ghost seen = entry_ids(entries.take(p as int)).intersect(left);
                // Check if this is a point we can split at
                if let Some(prev_left_feature_value) = prev_left_feature_value {
                    if !left_done && prev_left_feature_value != feature2_value {
                        let mut total_left_right = self.total_left.duplicate();
                        total_left_right.subtract_sum(&total_left_left);
                        let ghost candidate = split_at(
                            view,
                            left,
                            f,
                            prev_left_feature_value,
                            feature2_value,
                        );
                        proof {
                            assert(split_fits::<OT>(
                                data,
                                seen,
                                left.difference(seen),
                                branching_cost,
                            ));
                            assert(candidate.fits(branching_cost));
                            let found = splits_along(view, left, f, within);
                            assert(found.push(candidate).drop_last() =~= found);
                        }
                        state.left_tracker.add_candidate(
                            branching_cost,
                            &total_left_left,
                            &total_left_right,
                            feature_2,
                            prev_left_feature_value,
                            feature2_value,
                        );
                        state.left_done = state.left_done || state.left_tracker.is_optimal(
                            branching_cost,
                        );
                    }
                }
                total_left_left.add_instance(&dataview.dataset.instances[instance.instance_id]);
                prev_left_feature_value = Some(feature2_value);
            } else {
                let ghost within = entries_within(entries.take(p as int), right);
                let ghost seen = entry_ids(entries.take(p as int)).intersect(right);
                // Check if this is a point we can split at
                if let Some(prev_right_feature_value) = prev_right_feature_value {
                    if !right_done && prev_right_feature_value != feature2_value {
                        let mut total_right_right = self.total_right.duplicate();
                        total_right_right.subtract_sum(&total_right_left);
                        let ghost candidate = split_at(
                            view,
                            right,
                            f,
                            prev_right_feature_value,
                            feature2_value,
                        );
                        proof {
                            assert(split_fits::<OT>(
                                data,
                                seen,
                                right.difference(seen),
                                branching_cost,
                            ));
                            assert(candidate.fits(branching_cost));
                            let found = splits_along(view, right, f, within);
                            assert(found.push(candidate).drop_last() =~= found);
                        }
                        state.right_tracker.add_candidate(
                            branching_cost,
                            &total_right_left,
                            &total_right_right,
                            feature_2,
                            prev_right_feature_value,
                            feature2_value,
                        );
                        state.right_done = state.right_done || state.right_tracker.is_optimal(
                            branching_cost,
                        );
                    }
                }
                total_right_left.add_instance(&dataview.dataset.instances[instance.instance_id]);
                prev_right_feature_value = Some(feature2_value);
            }
            p += 1;
        }
        proof {
            assert(entries.take(p as int) == entries);
            self.root().lemma_visited(before, f);
        }

        left_done && right_done
    }

    /// Puts together what several workers have found.
    pub fn finish(&self, states: &Vec<LeftRightState<OT>>) -> (r: Arc<Tree<OT>>)
        requires
            self.valid(),
            forall|w: int|
                0 <= w < states@.len() ==> self.root().on_both_sides(#[trigger] states@[w]),
        ensures
            *r == self.root().outcome(states@),
            match *r {
                Tree::Leaf(_) => false,
                Tree::Branch(branch) => {
                    &&& branch.split_feature == self.feature
                    &&& branch.split_threshold == (Threshold::PossibleSplit {
                        index: self.split_index,
                    })
                },
            },
    {
        let branching_cost = self.branching_cost;
        let ghost root = self.root();
        let mut left_tracker = D1ScoreTracker::<OT>::new(&self.total_left);
        let mut right_tracker = D1ScoreTracker::<OT>::new(&self.total_right);
        let mut w: usize = 0;
        proof {
            assert(states@.take(0) =~= Seq::empty());
        }
        while w < states.len()
            invariant
                self.valid(),
                root == self.root(),
                branching_cost == self.branching_cost,
                forall|v: int|
                    0 <= v < states@.len() ==> root.on_both_sides(#[trigger] states@[v]),
                w <= states@.len(),
                left_tracker == root.best_left(states@.take(w as int)),
                right_tracker == root.best_right(states@.take(w as int)),
            decreases states.len() - w,
        {
            let state = &states[w];
            proof {
                root.lemma_best(states@.take(w as int));
                assert(root.on_both_sides(states@[w as int]));
                assert(states@.take(w + 1).drop_last() == states@.take(w as int));
                assert(states@.take(w + 1).last() == *state);
            }
            if !left_tracker.total_cost(branching_cost).less_or_not_much_greater_than(
                &state.left_tracker.total_cost(branching_cost),
            ) {
                left_tracker = state.left_tracker.clone();
            }
            if !right_tracker.total_cost(branching_cost).less_or_not_much_greater_than(
                &state.right_tracker.total_cost(branching_cost),
            ) {
                right_tracker = state.right_tracker.clone();
            }
            w += 1;
        }
        proof {
            assert(states@.take(w as int) == states@);
            root.lemma_best(states@);
            lemma_join_fits(
                root.view,
                root.left_ids(),
                root.right_ids(),
                branching_cost,
                left_tracker,
                right_tracker,
            );
        }

        let cost = left_tracker.total_cost(branching_cost) + right_tracker.total_cost(
            branching_cost,
        ) + branching_cost;

        Arc::new(
            Tree::Branch(
                BranchNode {
                    cost,
                    split_feature: self.feature,
                    split_threshold: Threshold::PossibleSplit { index: self.split_index },
                    left_child: left_tracker.get_tree(branching_cost),
                    right_child: right_tracker.get_tree(branching_cost),
                },
            ),
        )
    }
}

/// The features `0..n`, in that order.
pub open spec fn in_order_of_features(n: int) -> Seq<int> {
    Seq::new(n as nat, |f: int| f)
}

/// Exhaustive search for a node with depth two, given a fixed feature split. One worker visits the
/// features one after the other.
pub fn solve_left_right<OT: OptimizationTask>(
    dataview: &DataView<OT>,
    context: &SolveContext<OT>,
    feature: usize,
    split_index: usize,
) -> (r: Arc<Tree<OT>>)
    requires
        dataview.valid(),
        feature < dataview.feature_instances@.len(),
        split_index < dataview.splits(feature as int).len(),
        trees_fit::<OT>(dataview.data(), dataview.ids(), context.task.price()),
    ensures
        ({
            let root = RootSplit {
                view: *dataview,
                branching_cost: context.task.price(),
                feature,
                index: split_index,
            };
            let order = in_order_of_features(dataview.feature_instances@.len() as int);
            *r == root.outcome(seq![root.after_visits(order)])
        }),
        match *r {
            Tree::Leaf(_) => false,
            Tree::Branch(branch) => {
                &&& branch.split_feature == feature
                &&& branch.split_threshold == (Threshold::PossibleSplit { index: split_index })
            },
        },
{
    let search = LeftRightSearch::new(dataview, context, feature, split_index);
    let ghost root = search.root();
    let ghost n = dataview.feature_instances@.len() as int;
    let num_features = dataview.num_features();
    let mut state = search.start();
    let mut done = false;
    let mut feature_2: usize = 0;
    proof {
        assert(in_order_of_features(0) =~= Seq::empty());
    }
    while feature_2 < num_features && !done
        invariant
            search.valid(),
            root == search.root(),
            num_features == n,
            n == search.dataview.feature_instances@.len(),
            feature_2 <= num_features,
            root.on_both_sides(state),
            state == root.after_visits(in_order_of_features(feature_2 as int)),
            root.left_done() && root.right_done() ==> state.left_done && state.right_done,
            done ==> state.left_done && state.right_done,
        decreases num_features - feature_2,
    {
        let ghost before = state;
        done = search.visit_feature(&mut state, feature_2);
        feature_2 += 1;
        proof {
            let order = in_order_of_features(feature_2 as int);
            assert(order.drop_last() =~= in_order_of_features(feature_2 - 1));
            assert(order.last() == feature_2 - 1);
        }
    }
    proof {
        lemma_rest_is_idle(root, feature_2 as int, n);
    }
    let mut states: Vec<LeftRightState<OT>> = Vec::new();
    states.push(state);
    assert(states@ =~= seq![state]);
    search.finish(&states)
}

/// A worker that is done with both sides does not change any more.
proof fn lemma_rest_is_idle<OT: OptimizationTask>(root: RootSplit<OT>, f: int, n: int)
    requires
        0 <= f <= n,
        f < n ==> {
            let state = root.after_visits(in_order_of_features(f));
            state.left_done && state.right_done
        },
    ensures
        root.after_visits(in_order_of_features(n)) == root.after_visits(in_order_of_features(f)),
    decreases n,
{
    if f < n {
        lemma_rest_is_idle(root, f, n - 1);
        assert(in_order_of_features(n).drop_last() =~= in_order_of_features(n - 1));
    }
}

/// The cost of a node over two trackers can be computed.
pub proof fn lemma_join_fits<OT: OptimizationTask>(
    view: DataView<OT>,
    left: Set<int>,
    right: Set<int>,
    branching_cost: OT::CostType,
    left_tracker: D1ScoreTracker<OT>,
    right_tracker: D1ScoreTracker<OT>,
)
    requires
        left.subset_of(view.ids()),
        right.subset_of(view.ids()),
        left.disjoint(right),
        trees_fit::<OT>(view.data(), view.ids(), branching_cost),
        tracks(view, left, branching_cost, left_tracker),
        tracks(view, right, branching_cost, right_tracker),
    ensures
        node_fits(
            left_tracker.total(branching_cost),
            right_tracker.total(branching_cost),
            branching_cost,
        ),
{
    lemma_tracked_cost(view, left, branching_cost, left_tracker);
    lemma_tracked_cost(view, right, branching_cost, right_tracker);
}

/// The value of the last entry, if there is one.
pub open spec fn last_value(entries: Seq<FeatureValue>) -> Option<i32> {
    if entries.len() == 0 {
        None
    } else {
        Some(entries.last().feature_value)
    }
}

impl<'a, OT: OptimizationTask> RootSplit<'a, OT> {
    /// A visit keeps the trackers on their sides.
    pub proof fn lemma_visited(self, state: LeftRightState<OT>, f: int)
        requires
            self.valid(),
            self.on_both_sides(state),
            0 <= f < self.view.feature_instances@.len(),
        ensures
            self.on_both_sides(self.visited(state, f)),
    {
        let bc = self.branching_cost;
        lemma_feature_tracks(self.view, self.left_ids(), bc, state.left_tracker, f);
        lemma_feature_tracks(self.view, self.right_ids(), bc, state.right_tracker, f);
    }

    /// The best trackers of several workers stand for trees of the two sides.
    pub proof fn lemma_best(self, states: Seq<LeftRightState<OT>>)
        requires
            self.valid(),
            forall|w: int| 0 <= w < states.len() ==> self.on_both_sides(#[trigger] states[w]),
        ensures
            tracks(self.view, self.left_ids(), self.branching_cost, self.best_left(states)),
            tracks(self.view, self.right_ids(), self.branching_cost, self.best_right(states)),
        decreases states.len(),
    {
        if states.len() > 0 {
            assert(self.on_both_sides(states[states.len() - 1]));
            assert forall|w: int| 0 <= w < states.drop_last().len() implies self.on_both_sides(
                #[trigger] states.drop_last()[w],
            ) by {
                assert(self.on_both_sides(states[w]));
            }
            self.lemma_best(states.drop_last());
        }
    }
}

/// Considering the splits of one feature keeps a tracker on its part.
proof fn lemma_feature_tracks<OT: OptimizationTask>(
    view: DataView<OT>,
    part: Set<int>,
    branching_cost: OT::CostType,
    tracker: D1ScoreTracker<OT>,
    f: int,
)
    requires
        part.subset_of(view.ids()),
        splits_fit::<OT>(view.data(), view.ids(), branching_cost),
        tracks(view, part, branching_cost, tracker),
        0 <= f < view.feature_instances@.len(),
    ensures
        tracks(
            view,
            part,
            branching_cost,
            consider_all(tracker, branching_cost, feature_candidates(view, part, f)),
        ),
{
    lemma_feature_candidates_split(view, part, f);
    lemma_tracks(view, part, branching_cost, tracker, feature_candidates(view, part, f));
}

/// The entries up to a bound are the instances whose value is at most that bound.
proof fn lemma_prefix_up_to<OT: OptimizationTask>(
    view: DataView<OT>,
    ids: Set<int>,
    f: int,
    p: int,
    bound: i32,
)
    requires
        view.covers(ids),
        view.in_order(f),
        0 <= f < view.feature_instances@.len(),
        0 <= p <= view.entries(f).len(),
        forall|q: int| 0 <= q < p ==> (#[trigger] view.entries(f)[q]).feature_value <= bound,
        p < view.entries(f).len() ==> view.entries(f)[p].feature_value > bound,
    ensures
        ids.difference(entry_ids(view.entries(f).take(p))) == view.beyond(ids, f, bound as int),
{
    let entries = view.entries(f);
    assert(lists(view.entries(f), ids));
    if p < entries.len() {
        lemma_boundary(view, ids, ids, f, p, bound);
    } else {
        assert(entries.take(p) == entries);
        assert forall|k: int| ids.contains(k) implies view.dataset.value(f, k) <= bound by {
            assert(entry_ids(entries).contains(k));
            let q = choose|q: int| 0 <= q < entries.len() && entries[q].instance_id == k;
            assert(entries[q].feature_value <= bound);
        }
        assert(ids.difference(entry_ids(entries)) =~= view.beyond(ids, f, bound as int));
    }
}

} // verus!
