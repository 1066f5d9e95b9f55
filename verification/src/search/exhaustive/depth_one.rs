//! Exhaustive search for a node with depth one.

use std::sync::Arc;
use vstd::prelude::*;

use crate::model::dataview::{entry_ids, lists, DataView};
use crate::model::tree::{leaf_of, Tree};
use crate::search::exhaustive::candidates::{
    all_candidates, lemma_all_candidates_prefix, lemma_boundary, lemma_entries_within_all,
    lemma_entry_ids_push, lemma_scan_optimal, lemma_splits_along_prefix, scan, split_at, split_fits,
    splits_along, splits_fit,
};
use crate::search::exhaustive::tracker::{Candidate, D1ScoreTracker};
use crate::search::SolveContext;
use crate::tasks::{outside, CostSum, OptimizationTask};

verus! {

/// The tree that the search finds: the best of a leaf and all splits, tried feature by feature and
/// by increasing value, until nothing can be better.
pub open spec fn d1_tree<OT: OptimizationTask>(
    view: DataView<OT>,
    branching_cost: OT::CostType,
) -> Tree<OT> {
    scan(
        D1ScoreTracker::unsplit(leaf_of(view.data(), view.ids())),
        branching_cost,
        all_candidates(view, view.ids(), view.feature_instances@.len() as int),
    ).tree(branching_cost)
}

/// Exhaustive search for a node with depth one.
pub fn solve_d1<OT: OptimizationTask>(
    dataview: &DataView<OT>,
    context: &SolveContext<OT>,
) -> (r: Arc<Tree<OT>>)
    requires
        dataview.valid(),
        splits_fit::<OT>(dataview.data(), dataview.ids(), context.task.price()),
    ensures
        *r == d1_tree(*dataview, context.task.price()),
{
    let branching_cost = context.task.branching_cost();
    let ghost data = dataview.data();
    let ghost ids = dataview.ids();
    let ghost n = dataview.feature_instances@.len() as int;
    let ghost unsplit = D1ScoreTracker::unsplit(leaf_of::<OT>(data, ids));
    let ghost all = all_candidates(*dataview, ids, n);
    assert(dataview.covers(ids));

    let mut tracker = D1ScoreTracker::<OT>::new(&dataview.cost_summer);
    assert(tracker == unsplit);
    assert(all_candidates(*dataview, ids, 0) == Seq::<Candidate<OT>>::empty());

    if tracker.is_optimal(branching_cost) {
        proof {
            lemma_all_candidates_prefix(*dataview, ids, 0, n);
            lemma_scan_optimal(unsplit, branching_cost, all_candidates(*dataview, ids, 0), all);
        }
        return tracker.get_tree(branching_cost);
    }

    let num_features = dataview.num_features();
    let mut feature: usize = 0;
    while feature < num_features
        invariant
            dataview.valid(),
            num_features == n,
            n == dataview.feature_instances@.len(),
            branching_cost == context.task.price(),
            data == dataview.data(),
            ids == dataview.ids(),
            unsplit == D1ScoreTracker::unsplit(leaf_of::<OT>(data, ids)),
            all == all_candidates(*dataview, ids, n),
            splits_fit::<OT>(data, ids, branching_cost),
            dataview.covers(ids),
            feature <= num_features,
            tracker.valid(branching_cost),
            !tracker.optimal(branching_cost),
            tracker == scan(
                unsplit,
                branching_cost,
                all_candidates(*dataview, ids, feature as int),
            ),
        decreases num_features - feature,
    {
        // init total of the left node to zero.
        let mut total_left = dataview.cost_summer.duplicate();
        total_left.subtract_sum(&dataview.cost_summer);

        let mut prev_feature_value: Option<i32> = None;

        let instances = dataview.instances(feature);
        let ghost entries = instances@;
        let ghost seen = all_candidates(*dataview, ids, feature as int);
        proof {
            assert(lists(dataview.entries(feature as int), ids));
            assert(entry_ids(entries.take(0)) =~= ids.difference(ids));
            assert(seen + splits_along(*dataview, ids, feature as int, entries.take(0)) == seen);
        }
        let mut p: usize = 0;
        while p < instances.len()
            invariant
                dataview.valid(),
                n == dataview.feature_instances@.len(),
                branching_cost == context.task.price(),
                data == dataview.data(),
                ids == dataview.ids(),
                unsplit == D1ScoreTracker::unsplit(leaf_of::<OT>(data, ids)),
                all == all_candidates(*dataview, ids, n),
                splits_fit::<OT>(data, ids, branching_cost),
                dataview.covers(ids),
                feature < n,
                instances@ == entries,
                entries == dataview.entries(feature as int),
                seen == all_candidates(*dataview, ids, feature as int),
                p <= entries.len(),
                prev_feature_value == (if p == 0 {
                    None
                } else {
                    Some(entries[p - 1].feature_value)
                }),
                total_left.sums(data, entry_ids(entries.take(p as int))),
                tracker.valid(branching_cost),
                !tracker.optimal(branching_cost),
                tracker == scan(
                    unsplit,
                    branching_cost,
                    seen + splits_along(*dataview, ids, feature as int, entries.take(p as int)),
                ),
            decreases instances.len() - p,
        {
            let instance = instances[p];
            let feature_value = instance.feature_value;
            let ghost before = entries.take(p as int);
            let ghost after = entries.take(p + 1);
            let ghost left = entry_ids(before);
            let ghost right = ids.difference(left);
            proof {
                assert(lists(dataview.entries(feature as int), ids));
                assert(after == before.push(instance));
                assert(after.drop_last() == before);
                assert(entry_ids(entries).contains(instance.instance_id as int));
                assert(left.subset_of(ids)) by {
                    assert forall|k: int| left.contains(k) implies ids.contains(k) by {
                        let q = choose|q: int| 0 <= q < before.len() && before[q].instance_id == k;
                        assert(entries[q].instance_id == k);
                    }
                }
                lemma_entry_ids_push(before, instance);
            }
            // Check if this is a point we can split at
            if let Some(prev_feature_value) = prev_feature_value {
                if prev_feature_value != feature_value {
                    let mut total_right = dataview.cost_summer.duplicate();
                    total_right.subtract_sum(&total_left);
                    let ghost candidate = split_at(
                        *dataview,
                        ids,
                        feature as int,
                        prev_feature_value,
                        feature_value,
                    );
                    proof {
                        assert(dataview.in_order(feature as int));
                        assert forall|q: int| 0 <= q < p implies (
                        #[trigger] dataview.entries(feature as int)[q]).feature_value
                            <= prev_feature_value by {
                            assert(entries[q].feature_value <= entries[p - 1].feature_value);
                        }
                        assert(entries[p - 1].feature_value <= entries[p as int].feature_value);
                        lemma_boundary(
                            *dataview,
                            ids,
                            ids,
                            feature as int,
                            p as int,
                            prev_feature_value,
                        );
                        assert(left.intersect(ids) =~= left);
                        assert(split_fits::<OT>(data, left, right, branching_cost));
                        assert(candidate.fits(branching_cost));
                    }
                    tracker.add_candidate(
                        branching_cost,
                        &total_left,
                        &total_right,
                        feature,
                        prev_feature_value,
                        feature_value,
                    );
                    proof {
                        let old_found = seen + splits_along(*dataview, ids, feature as int, before);
                        let found = seen + splits_along(*dataview, ids, feature as int, after);
                        assert(found == old_found.push(candidate));
                        assert(found.drop_last() == old_found);
                    }
                    if tracker.is_optimal(branching_cost) {
                        proof {
                            let found = seen + splits_along(*dataview, ids, feature as int, after);
                            lemma_splits_along_prefix(
                                *dataview,
                                ids,
                                feature as int,
                                entries,
                                p + 1,
                            );
                            lemma_entries_within_all(entries, ids);
                            lemma_all_candidates_prefix(*dataview, ids, feature + 1, n);
                            assert(found.is_prefix_of(
                                all_candidates(*dataview, ids, feature + 1),
                            ));
                            assert(found.is_prefix_of(all));
                            lemma_scan_optimal(unsplit, branching_cost, found, all);
                        }
                        return tracker.get_tree(branching_cost);
                    }
                }
            }
            proof {
                let k = instance.instance_id as int;
                assert(outside(data, left, k, data[k])) by {
                    dataview.lemma_countable();
                    if left.contains(k) {
                        let q = choose|q: int|
                            0 <= q < before.len() && before[q].instance_id == instance.instance_id;
                        assert(entries[q].instance_id == entries[p as int].instance_id);
                    }
                }
            }
            total_left.add_instance(&dataview.dataset.instances[instance.instance_id]);
            prev_feature_value = Some(feature_value);
            p += 1;
        }
        proof {
            assert(entries.take(p as int) == entries);
            lemma_entries_within_all(entries, ids);
        }
        feature += 1;
    }

    tracker.get_tree(branching_cost)
}

} // verus!
