//! Search for a node with depth two.

use core::ops::Range;
use std::collections::HashMap;
use std::sync::Arc;
use vstd::prelude::*;

use crate::model::dataview::{entry_ids, lists, DataView, FeatureValue, PossibleSplit};
use crate::model::tree::{leaf_of, BranchNode, LeafNode, Threshold, Tree};
use crate::search::exhaustive::candidates::{
    all_split, consider_all, join, lemma_boundary, lemma_entry_ids_push, lemma_prefix_ids,
    lemma_tracks, real_split, split_at, split_fits, splits_fit, splits_part, tracks, trees_fit,
};
use crate::search::exhaustive::fenwick::{
    fenwick_prefix_sum, fenwick_update, filed, holds, lemma_filed_beyond, lemma_holds_nothing,
};
use crate::search::exhaustive::left_right::{lemma_join_fits, RootSplit};
use crate::search::exhaustive::tracker::{Candidate, D1ScoreTracker};
use crate::search::SolveContext;
use crate::tasks::{outside, Cost, CostSum, OptimizationTask};

verus! {

broadcast use vstd::std_specs::hash::group_hash_axioms;

/// The splits of `part` on feature `f` that a walk along `entries`, which need not all lie in the
/// part, tries: one wherever the value changes right after an entry of the part, unless nothing of
/// the part is left on the other side of that place.
pub open spec fn changes_along<OT: OptimizationTask>(
    view: DataView<OT>,
    part: Set<int>,
    f: int,
    entries: Seq<FeatureValue>,
) -> Seq<Candidate<OT>>
    decreases entries.len(),
{
    if entries.len() < 2 {
        Seq::empty()
    } else {
        let before = entries.drop_last();
        let found = changes_along(view, part, f, before);
        let (lower, upper) = (before.last().feature_value, entries.last().feature_value);
        if lower != upper && part.contains(before.last().instance_id as int) && real_split(
            view,
            part,
            f,
            lower as int,
        ) {
            found.push(split_at(view, part, f, lower, upper))
        } else {
            found
        }
    }
}

/// The splits of `part` that are tried on the first `n` features, as far as these have possible
/// splits at all.
pub open spec fn changes<OT: OptimizationTask>(
    view: DataView<OT>,
    part: Set<int>,
    n: int,
) -> Seq<Candidate<OT>>
    decreases n,
{
    if n <= 0 {
        Seq::empty()
    } else if view.splits(n - 1).len() == 0 {
        changes(view, part, n - 1)
    } else {
        changes(view, part, n - 1) + changes_along(view, part, n - 1, view.entries(n - 1))
    }
}

/// What is found for `part`.
pub open spec fn best_side<OT: OptimizationTask>(
    view: DataView<OT>,
    part: Set<int>,
    branching_cost: OT::CostType,
) -> D1ScoreTracker<OT> {
    consider_all(
        D1ScoreTracker::unsplit(leaf_of(view.data(), part)),
        branching_cost,
        changes(view, part, view.feature_instances@.len() as int),
    )
}

/// What is found for the two sides of a split at the root.
pub open spec fn best_below<OT: OptimizationTask>(root: RootSplit<OT>) -> Tree<OT> {
    join(
        root.feature,
        root.index,
        best_side(root.view, root.left_ids(), root.branching_cost),
        best_side(root.view, root.right_ids(), root.branching_cost),
        root.branching_cost,
    )
}

/// The best tree after all possible splits of the features before `f` and the first `i` of feature
/// `f` have been tried at the root: a later one takes over where it is strictly cheaper. A split
/// that leaves nothing on one side is not tried.
pub open spec fn best_tree<OT: OptimizationTask>(
    view: DataView<OT>,
    branching_cost: OT::CostType,
    f: int,
    i: int,
) -> Tree<OT>
    decreases f, i,
{
    if i > 0 {
        let best = best_tree(view, branching_cost, f, i - 1);
        let next = best_below(
            RootSplit { view, branching_cost, feature: f as usize, index: (i - 1) as usize },
        );
        let bound = view.splits(f)[i - 1].feature_value as int;
        if real_split(view, view.ids(), f, bound) && next.total().undercuts(best.total()) {
            next
        } else {
            best
        }
    } else if f > 0 {
        best_tree(view, branching_cost, f - 1, view.splits(f - 1).len() as int)
    } else {
        Tree::Leaf(leaf_of(view.data(), view.ids()))
    }
}

/// The number of splits whose value is less than `v`, which is the first split that has `v` on its
/// left side.
spec fn slot(splits: Seq<PossibleSplit>, v: int) -> int
    decreases splits.len(),
{
    if splits.len() == 0 {
        0
    } else {
        slot(splits.drop_last(), v) + if splits.last().feature_value < v {
            1int
        } else {
            0
        }
    }
}

/// The splits are in order, so those with a smaller value come first.
proof fn lemma_slot(splits: Seq<PossibleSplit>, v: int)
    requires
        forall|i: int, j: int|
            0 <= i < j < splits.len() ==> splits[i].feature_value < splits[j].feature_value,
    ensures
        0 <= slot(splits, v) <= splits.len(),
        forall|i: int|
            0 <= i < splits.len() ==> (slot(splits, v) <= i <==> v
                <= (#[trigger] splits[i]).feature_value),
    decreases splits.len(),
{
    if splits.len() > 0 {
        let rest = splits.drop_last();
        lemma_slot(rest, v);
        assert forall|i: int| 0 <= i < splits.len() implies (slot(splits, v) <= i <==> v
            <= (#[trigger] splits[i]).feature_value) by {
            let last = splits.len() - 1;
            if i < last {
                assert(rest[i] == splits[i]);
                assert(splits[i].feature_value < splits[last].feature_value);
            } else {
                if v <= splits[last].feature_value {
                } else {
                    // All earlier splits are smaller still.
                    if slot(rest, v) < rest.len() {
                        let j = slot(rest, v);
                        assert(v <= rest[j].feature_value);
                        assert(splits[j].feature_value < splits[last].feature_value);
                    }
                }
            }
        }
        if v > splits.last().feature_value && slot(rest, v) < rest.len() {
            let j = slot(rest, v);
            assert(v <= rest[j].feature_value);
            assert(splits[j].feature_value < splits[splits.len() - 1].feature_value);
        }
    }
}

/// The sum over the left side of each possible split of feature `f1`, and a lookup from the values
/// of that feature to the first split that has them on its left side.
fn left_totals<OT: OptimizationTask>(dataview: &DataView<OT>, f1: usize) -> (r: (
    Vec<OT::CostSumType>,
    HashMap<i32, usize>,
))
    requires
        dataview.valid(),
        f1 < dataview.feature_instances@.len(),
        dataview.splits(f1 as int).len() > 0,
        dataview.splits_apart(f1 as int),
    ensures
        r.0@.len() == dataview.splits(f1 as int).len(),
        forall|i: int|
            0 <= i < r.0@.len() ==> (#[trigger] r.0@[i]).sums(
                dataview.data(),
                dataview.up_to(
                    dataview.ids(),
                    f1 as int,
                    dataview.splits(f1 as int)[i].feature_value as int,
                ),
            ),
        forall|k: int| #[trigger]
            dataview.ids().contains(k) ==> {
                let v = dataview.dataset.value(f1 as int, k);
                r.1@.contains_key(v) && r.1@[v] == slot(dataview.splits(f1 as int), v as int)
            },
{
    let ghost f = f1 as int;
    let ghost data = dataview.data();
    let ghost ids = dataview.ids();
    let ghost splits = dataview.splits(f);
    assert(dataview.covers(ids));
    assert(dataview.in_order(f));
    assert(lists(dataview.entries(f), ids));

    let possible_splits = &dataview.possible_split_values[f1];
    let n_splits = possible_splits.len();
    let mut lookup: HashMap<i32, usize> = HashMap::with_capacity(n_splits);
    let mut totals_left: Vec<OT::CostSumType> = Vec::with_capacity(n_splits);
    let mut temp_total = dataview.cost_summer.duplicate();
    temp_total.clear();

    let mut cur_i: usize = 0;
    let instances = dataview.instances(f1);
    let ghost entries = instances@;
    proof {
        assert(entry_ids(entries.take(0)) =~= Set::empty());
    }
    let mut p: usize = 0;
    while p < instances.len()
        invariant
            dataview.valid(),
            dataview.covers(ids),
            dataview.in_order(f),
            dataview.splits_apart(f),
            lists(entries, ids),
            f == f1,
            f1 < dataview.feature_instances@.len(),
            data == dataview.data(),
            ids == dataview.ids(),
            splits == dataview.splits(f),
            possible_splits@ == splits,
            n_splits == splits.len(),
            instances@ == entries,
            entries == dataview.entries(f),
            p <= entries.len(),
            cur_i <= n_splits,
            totals_left@.len() == cur_i,
            p == 0 ==> cur_i == 0,
            forall|i: int|
                0 <= i < cur_i ==> (#[trigger] totals_left@[i]).sums(
                    data,
                    dataview.up_to(ids, f, splits[i].feature_value as int),
                ),
            temp_total.sums(data, entry_ids(entries.take(p as int))),
            p > 0 ==> forall|j: int|
                0 <= j < cur_i ==> (#[trigger] splits[j]).feature_value < entries[p
                    - 1].feature_value,
            cur_i < n_splits ==> forall|q: int|
                0 <= q < p ==> (#[trigger] entries[q]).feature_value
                    <= splits[cur_i as int].feature_value,
            forall|q: int|
                0 <= q < p ==> {
                    let v = (#[trigger] entries[q]).feature_value;
                    lookup@.contains_key(v) && lookup@[v] == slot(splits, v as int)
                },
        decreases instances.len() - p,
    {
        let instance = instances[p];
        let ghost v = instance.feature_value;
        let ghost before = entries.take(p as int);
        let ghost old_i = cur_i;
        proof {
            if p > 0 {
                assert(entries[p - 1].feature_value <= entries[p as int].feature_value);
            }
        }
        if cur_i < n_splits && instance.feature_value > possible_splits[cur_i].feature_value {
            // Note: this is not skipped at the end, because it is guaranteed that there will be
            // one more instance that is to the right of any possible split, otherwise the split is
            // useless and would be excluded.
            proof {
                let bound = splits[cur_i as int].feature_value;
                lemma_boundary(*dataview, ids, ids, f, p as int, bound);
                assert(entry_ids(before).intersect(ids) =~= entry_ids(before)) by {
                    lemma_prefix_ids(*dataview, ids, f, p as int);
                }
            }
            totals_left.push(temp_total.duplicate());
            cur_i += 1;
        }
        proof {
            assert forall|j: int| 0 <= j < cur_i implies (#[trigger] splits[j]).feature_value < v by {
                if j < old_i && p > 0 {
                    assert(splits[j].feature_value < entries[p - 1].feature_value);
                }
            }
            if cur_i < n_splits {
                if cur_i > old_i {
                    // Some instance lies between the two splits, and it is still to come.
                    let i = old_i as int;
                    assert(splits[i].feature_value < splits[i + 1].feature_value);
                    let k = choose|k: int|
                        #![trigger dataview.ids().contains(k)]
                        {
                            &&& dataview.ids().contains(k)
                            &&& splits[i].feature_value < dataview.dataset.value(f, k)
                                <= splits[i + 1].feature_value
                        };
                    assert(entry_ids(entries).contains(k));
                    let q = choose|q: int| 0 <= q < entries.len() && entries[q].instance_id == k;
                    assert(entries[q].feature_value == dataview.dataset.value(f, k));
                    assert(q >= p);
                    assert(entries[p as int].feature_value <= entries[q].feature_value);
                    assert forall|q: int| 0 <= q < p implies (
                    #[trigger] entries[q]).feature_value <= splits[cur_i as int].feature_value by {
                        assert(entries[q].feature_value <= entries[p as int].feature_value);
                    }
                }
                assert(v <= splits[cur_i as int].feature_value);
            }
            lemma_slot(splits, v as int);
            let s = slot(splits, v as int);
            if s < cur_i {
                assert(v <= splits[s].feature_value);
            }
            assert(s == cur_i);
            lemma_entry_ids_push(before, instance);
            assert(entries.take(p + 1) == before.push(instance));
            lemma_prefix_fresh(*dataview, ids, f, p as int);
        }
        // Update cumulative total
        temp_total.add_instance(&dataview.dataset.instances[instance.instance_id]);
        lookup.insert(instance.feature_value, cur_i);
        p += 1;
    }
    proof {
        if cur_i < n_splits {
            let k = choose|k: int|
                #![trigger dataview.ids().contains(k)]
                dataview.ids().contains(k) && splits.last().feature_value < dataview.dataset.value(
                    f,
                    k,
                );
            assert(entry_ids(entries).contains(k));
            let q = choose|q: int| 0 <= q < entries.len() && entries[q].instance_id == k;
            assert(entries[q].feature_value <= splits[cur_i as int].feature_value);
            if cur_i < n_splits - 1 {
                assert(splits[cur_i as int].feature_value < splits[n_splits - 1].feature_value);
            }
            assert(false);
        }
        assert forall|k: int| #[trigger] ids.contains(k) implies {
            let v = dataview.dataset.value(f, k);
            lookup@.contains_key(v) && lookup@[v] == slot(splits, v as int)
        } by {
            assert(entry_ids(entries).contains(k));
            let q = choose|q: int| 0 <= q < entries.len() && entries[q].instance_id == k;
            assert(entries[q].feature_value == dataview.dataset.value(f, k));
        }
    }
    (totals_left, lookup)
}

/// Where entry `i` stands in a tree of `len` entries.
pub open spec fn tree_index(reverse: bool, len: int, i: int) -> int {
    if reverse {
        len - 1 - i
    } else {
        i
    }
}

/// The candidate that is tried for the part `total`: it is split into `left` and the rest.
pub open spec fn prefix_candidate<OT: OptimizationTask>(
    data: Seq<OT::InstanceType>,
    total: Set<int>,
    left: Set<int>,
    feature: usize,
    lower: i32,
    upper: i32,
) -> Candidate<OT> {
    Candidate {
        feature,
        lower,
        upper,
        left: leaf_of(data, left),
        right: leaf_of(data, total.difference(left)),
    }
}

/// For each entry, what the tree of `len` entries sums up until there.
pub open spec fn prefix_parts(
    reverse: bool,
    len: int,
    seen: Set<int>,
    slots: spec_fn(int) -> int,
) -> spec_fn(int) -> Set<int> {
    |i: int| filed(seen, slots, 0, tree_index(reverse, len, i))
}

/// [`update_lowest_cost`] can try to split the part `total` into `left` and the rest.
pub open spec fn can_try<OT: OptimizationTask>(
    branching_cost: OT::CostType,
    best: D1ScoreTracker<OT>,
    costsum: OT::CostSumType,
    data: Seq<OT::InstanceType>,
    total: Set<int>,
    left: Set<int>,
) -> bool {
    &&& costsum.sums(data, total)
    &&& best.priced(branching_cost)
    &&& left.subset_of(total)
    &&& split_fits::<OT>(data, left, total.difference(left), branching_cost)
}

/// The current bests after one more split was tried below each split at the root that `range`
/// selects: the part `parts(i)` was split into `lefts(i)` and the rest.
pub open spec fn after_attempt<OT: OptimizationTask>(
    best: Seq<D1ScoreTracker<OT>>,
    branching_cost: OT::CostType,
    range: Range<usize>,
    data: Seq<OT::InstanceType>,
    parts: spec_fn(int) -> Set<int>,
    lefts: spec_fn(int) -> Set<int>,
    feature: usize,
    lower: i32,
    upper: i32,
) -> Seq<D1ScoreTracker<OT>> {
    Seq::new(
        best.len(),
        |i: int|
            if range.start <= i < range.end {
                best[i].consider(
                    branching_cost,
                    prefix_candidate(data, parts(i), lefts(i), feature, lower, upper),
                )
            } else {
                best[i]
            },
    )
}

/// What an attempt to split once more below each split at the root that `range` selects does: it
/// turns the current bests `best` into `best_after`, and uses up the sums `scratch`, which become
/// `scratch_after`. If nothing is selected, nothing changes.
pub open spec fn attempted<OT: OptimizationTask>(
    best: Seq<D1ScoreTracker<OT>>,
    scratch: (OT::CostSumType, OT::CostSumType),
    best_after: Seq<D1ScoreTracker<OT>>,
    scratch_after: (OT::CostSumType, OT::CostSumType),
    branching_cost: OT::CostType,
    range: Range<usize>,
    data: Seq<OT::InstanceType>,
    parts: spec_fn(int) -> Set<int>,
    lefts: spec_fn(int) -> Set<int>,
    feature: usize,
    lower: i32,
    upper: i32,
) -> bool {
    &&& best_after == after_attempt(
        best,
        branching_cost,
        range,
        data,
        parts,
        lefts,
        feature,
        lower,
        upper,
    )
    &&& range.start >= range.end ==> best_after == best && scratch_after == scratch
}

/// Tries one more split below each split at the root that `range` selects.
///
/// `totals[i]` is the sum over the part `parts(i)`, and `totals_left` the Fenwick tree of the
/// instances `seen`, filed under `slots`; it is indexed in reverse if `reverse_fenwick` is set.
#[allow(clippy::too_many_arguments)]
pub fn update_lowest_cost<OT: OptimizationTask>(
    branching_cost: OT::CostType,
    best: &mut Vec<D1ScoreTracker<OT>>,  // Current bests
    range: Range<usize>,  // The range to update
    totals: &Vec<OT::CostSumType>,  // Normal vector of total costs
    totals_left: &Vec<OT::CostSumType>,  // Fenwick tree of left costs
    reverse_fenwick: bool,  // True if the tree indexing is inverted due to it being a suffix tree
    feature: usize,
    current_feature_value: i32,
    next_feature_value: i32,
    total_left: &mut OT::CostSumType,  // Can be any costsum, for preventing allocations
    total_right: &mut OT::CostSumType,  // Can be any costsum, for preventing allocations
    Ghost(data): Ghost<Seq<OT::InstanceType>>,
    Ghost(parts): Ghost<spec_fn(int) -> Set<int>>,
    Ghost(seen): Ghost<Set<int>>,
    Ghost(slots): Ghost<spec_fn(int) -> int>,
)
    requires
        range.end <= old(best)@.len(),
        range.end <= totals@.len(),
        range.end <= totals_left@.len(),
        holds::<OT::LabelType, OT::InstanceType, OT::CostType, OT::CostSumType>(
            totals_left@,
            data,
            seen,
            slots,
        ),
        forall|i: int|
            range.start <= i < range.end ==> #[trigger] can_try(
                branching_cost,
                old(best)@[i],
                totals@[i],
                data,
                parts(i),
                prefix_parts(reverse_fenwick, totals_left@.len() as int, seen, slots)(i),
            ),
    ensures
        attempted(
            old(best)@,
            (*old(total_left), *old(total_right)),
            final(best)@,
            (*final(total_left), *final(total_right)),
            branching_cost,
            range,
            data,
            parts,
            prefix_parts(reverse_fenwick, totals_left@.len() as int, seen, slots),
            feature,
            current_feature_value,
            next_feature_value,
        ),
        forall|i: int|
            0 <= i < old(best)@.len() && old(best)@[i].valid(branching_cost) ==> (
            #[trigger] final(best)@[i]).valid(branching_cost),
{
    let ghost before = best@;
    let ghost lefts = prefix_parts(reverse_fenwick, totals_left@.len() as int, seen, slots);
    let mut i: usize = range.start;
    while i < range.end
        invariant
            range.start <= i,
            range.start < range.end ==> i <= range.end,
            range.start >= range.end ==> {
                &&& i == range.start
                &&& *total_left == *old(total_left)
                &&& *total_right == *old(total_right)
            },
            range.end <= best@.len(),
            before == old(best)@,
            best@.len() == before.len(),
            range.end <= totals@.len(),
            range.end <= totals_left@.len(),
            lefts == prefix_parts(reverse_fenwick, totals_left@.len() as int, seen, slots),
            holds::<OT::LabelType, OT::InstanceType, OT::CostType, OT::CostSumType>(
                totals_left@,
                data,
                seen,
                slots,
            ),
            forall|i: int|
                range.start <= i < range.end ==> #[trigger] can_try(
                    branching_cost,
                    before[i],
                    totals@[i],
                    data,
                    parts(i),
                    lefts(i),
                ),
            forall|j: int|
                0 <= j < before.len() ==> #[trigger] best@[j] == if range.start <= j < i {
                    before[j].consider(
                        branching_cost,
                        prefix_candidate(
                            data,
                            parts(j),
                            lefts(j),
                            feature,
                            current_feature_value,
                            next_feature_value,
                        ),
                    )
                } else {
                    before[j]
                },
            forall|j: int|
                0 <= j < before.len() && before[j].valid(branching_cost) ==> (
                #[trigger] best@[j]).valid(branching_cost),
        decreases range.end - i,
    {
        total_left.clear();
        let fenwick_idx = if reverse_fenwick {
            totals_left.len() - 1 - i
        } else {
            i
        };
        let ghost left = filed(seen, slots, 0, fenwick_idx as int);
        let ghost part = parts(i as int);
        proof {
            assert(total_left.sums(data, Set::empty()));
        }
        fenwick_prefix_sum(totals_left, fenwick_idx, total_left);
        proof {
            assert(Set::<int>::empty().union(left) =~= left);
            assert(can_try(
                branching_cost,
                before[i as int],
                totals@[i as int],
                data,
                part,
                lefts(i as int),
            ));
        }
        *total_right = totals[i].duplicate();
        total_right.subtract_sum(total_left);
        proof {
            assert(prefix_candidate::<OT>(
                data,
                part,
                left,
                feature,
                current_feature_value,
                next_feature_value,
            ).fits(branching_cost));
            assert(best@[i as int] == before[i as int]);
        }
        best[i].add_candidate(
            branching_cost,
            total_left,
            total_right,
            feature,
            current_feature_value,
            next_feature_value,
        );
        i += 1;
    }
    proof {
        assert(best@ =~= after_attempt(
            before,
            branching_cost,
            range,
            data,
            parts,
            lefts,
            feature,
            current_feature_value,
            next_feature_value,
        ));
        if range.start >= range.end {
            assert(best@ =~= before);
        }
    }
}

/// The left side of each possible split of feature `f`.
spec fn left_parts<OT: OptimizationTask>(view: DataView<OT>, f: int) -> spec_fn(int) -> Set<int> {
    |i: int| view.up_to(view.ids(), f, view.splits(f)[i].feature_value as int)
}

/// The right side of each possible split of feature `f`.
spec fn right_parts<OT: OptimizationTask>(view: DataView<OT>, f: int) -> spec_fn(int) -> Set<int> {
    |i: int| view.beyond(view.ids(), f, view.splits(f)[i].feature_value as int)
}

/// Files an instance under the first possible split of feature `f` that has it on its left side.
spec fn left_slots<OT: OptimizationTask>(view: DataView<OT>, f: int) -> spec_fn(int) -> int {
    |k: int| slot(view.splits(f), view.dataset.value(f, k) as int)
}

/// Files an instance under the last possible split of feature `f` that has it on its right side,
/// counted from the end.
spec fn right_slots<OT: OptimizationTask>(view: DataView<OT>, f: int) -> spec_fn(int) -> int {
    |k: int| view.splits(f).len() - slot(view.splits(f), view.dataset.value(f, k) as int)
}

/// What is filed until split `i` is what lies on the respective side of it.
proof fn lemma_filed<OT: OptimizationTask>(view: DataView<OT>, f: int, seen: Set<int>, i: int)
    requires
        view.splits_apart(f),
        0 <= i < view.splits(f).len(),
        seen.subset_of(view.ids()),
    ensures
        filed(seen, left_slots(view, f), 0, i) == seen.intersect(left_parts(view, f)(i)),
        filed(seen, right_slots(view, f), 0, view.splits(f).len() - 1 - i) == seen.intersect(
            right_parts(view, f)(i),
        ),
{
    assert forall|k: int| seen.contains(k) implies {
        let s = slot(view.splits(f), view.dataset.value(f, k) as int);
        &&& 0 <= s <= view.splits(f).len()
        &&& s <= i <==> view.dataset.value(f, k) <= view.splits(f)[i].feature_value
    } by {
        lemma_slot(view.splits(f), view.dataset.value(f, k) as int);
    }
    assert(filed(seen, left_slots(view, f), 0, i) =~= seen.intersect(left_parts(view, f)(i)));
    assert(filed(seen, right_slots(view, f), 0, view.splits(f).len() - 1 - i) =~= seen.intersect(
        right_parts(view, f)(i),
    ));
}

/// The candidate that is tried for `part` where the value changes before entry `p`.
proof fn lemma_change<OT: OptimizationTask>(
    view: DataView<OT>,
    branching_cost: OT::CostType,
    part: Set<int>,
    f: int,
    p: int,
)
    requires
        view.valid(),
        view.covers(view.ids()),
        part.subset_of(view.ids()),
        splits_fit::<OT>(view.data(), view.ids(), branching_cost),
        0 <= f < view.feature_instances@.len(),
        0 < p < view.entries(f).len(),
        view.entries(f)[p - 1].feature_value != view.entries(f)[p].feature_value,
    ensures
        ({
            let seen = entry_ids(view.entries(f).take(p)).intersect(part);
            let (lower, upper) = (
                view.entries(f)[p - 1].feature_value,
                view.entries(f)[p].feature_value,
            );
            &&& seen.subset_of(part)
            &&& split_fits::<OT>(view.data(), seen, part.difference(seen), branching_cost)
            &&& prefix_candidate::<OT>(view.data(), part, seen, f as usize, lower, upper)
                == split_at(view, part, f, lower, upper)
        }),
{
    let ids = view.ids();
    let entries = view.entries(f);
    let seen = entry_ids(entries.take(p)).intersect(part);
    let lower = entries[p - 1].feature_value;
    assert(view.in_order(f));
    assert(lists(view.entries(f), ids));
    assert(entries[p - 1].feature_value <= entries[p].feature_value);
    assert forall|q: int|
        0 <= q < p && part.contains(view.entries(f)[q].instance_id as int) implies (
    #[trigger] view.entries(f)[q]).feature_value <= lower by {
        assert(entries[q].feature_value <= entries[p - 1].feature_value);
    }
    lemma_boundary(view, ids, part, f, p, lower);
    assert(part.difference(seen) =~= part.difference(entry_ids(entries.take(p))));
}

/// Where the value changes before entry `p` and right after an entry of the part, something of the
/// part is left beyond that place exactly if one of the entries to come lies in the part.
proof fn lemma_ahead<OT: OptimizationTask>(view: DataView<OT>, part: Set<int>, f: int, p: int)
    requires
        view.valid(),
        view.covers(view.ids()),
        part.subset_of(view.ids()),
        0 <= f < view.feature_instances@.len(),
        0 < p < view.entries(f).len(),
        view.entries(f)[p - 1].feature_value != view.entries(f)[p].feature_value,
        part.contains(view.entries(f)[p - 1].instance_id as int),
    ensures
        real_split(view, part, f, view.entries(f)[p - 1].feature_value as int) <==> exists|q: int|
            p <= q < view.entries(f).len() && part.contains(
                (#[trigger] view.entries(f)[q]).instance_id as int,
            ),
{
    let entries = view.entries(f);
    let lower = entries[p - 1].feature_value as int;
    let last = entries[p - 1].instance_id as int;
    assert(view.in_order(f));
    assert(lists(view.entries(f), view.ids()));
    assert(entries[p - 1].feature_value <= entries[p].feature_value);
    assert(view.up_to(part, f, lower).contains(last));
    if real_split(view, part, f, lower) {
        let k = choose|k: int| view.beyond(part, f, lower).contains(k);
        assert(entry_ids(entries).contains(k));
        let q = choose|q: int| 0 <= q < entries.len() && entries[q].instance_id == k;
        assert(entries[q].feature_value == view.dataset.value(f, k));
        if q < p {
            assert(entries[q].feature_value <= entries[p - 1].feature_value);
        }
        assert(part.contains(view.entries(f)[q].instance_id as int));
    }
    if exists|q: int|
        p <= q < entries.len() && part.contains(
            (#[trigger] view.entries(f)[q]).instance_id as int,
        ) {
        let q = choose|q: int|
            p <= q < entries.len() && part.contains(
                (#[trigger] view.entries(f)[q]).instance_id as int,
            );
        assert(entries[p].feature_value <= entries[q].feature_value);
        assert(view.beyond(part, f, lower).contains(entries[q].instance_id as int));
    }
}

/// The slot under which entry `q` of the list of feature `f` is filed with respect to feature `g`.
spec fn entry_slot<OT: OptimizationTask>(view: DataView<OT>, g: int, f: int, q: int) -> int {
    slot(view.splits(g), view.dataset.value(g, view.entries(f)[q].instance_id as int) as int)
}

/// The slots of the entries from `p` on lie between `low` and `high`, and both occur.
spec fn slots_from<OT: OptimizationTask>(
    view: DataView<OT>,
    g: int,
    f: int,
    p: int,
    low: int,
    high: int,
) -> bool {
    &&& forall|q: int|
        p <= q < view.entries(f).len() ==> low <= #[trigger] entry_slot(view, g, f, q) <= high
    &&& exists|q: int| p <= q < view.entries(f).len() && #[trigger] entry_slot(view, g, f, q) == low
    &&& exists|q: int|
        p <= q < view.entries(f).len() && #[trigger] entry_slot(view, g, f, q) == high
}

/// Which sides of the possible splits of feature `g` can be split right before entry `p`, where the
/// value changes.
proof fn lemma_sides_ahead<OT: OptimizationTask>(
    view: DataView<OT>,
    g: int,
    f: int,
    p: int,
    i: int,
    low: int,
    high: int,
)
    requires
        view.valid(),
        view.covers(view.ids()),
        view.splits_apart(g),
        0 <= g < view.feature_instances@.len(),
        0 <= f < view.feature_instances@.len(),
        0 < p < view.entries(f).len(),
        view.entries(f)[p - 1].feature_value != view.entries(f)[p].feature_value,
        0 <= i < view.splits(g).len(),
        slots_from(view, g, f, p, low, high),
    ensures
        ({
            let last = view.entries(f)[p - 1].instance_id as int;
            let lower = view.entries(f)[p - 1].feature_value as int;
            let first = entry_slot(view, g, f, p - 1);
            let left = left_parts(view, g)(i);
            let right = right_parts(view, g)(i);
            &&& left.contains(last) && real_split(view, left, f, lower) <==> first <= i && low <= i
            &&& right.contains(last) && real_split(view, right, f, lower) <==> i < first && i < high
        }),
{
    let ids = view.ids();
    let left = left_parts(view, g)(i);
    let right = right_parts(view, g)(i);
    assert(lists(view.entries(f), ids));
    assert forall|q: int| 0 <= q < view.entries(f).len() implies {
        let k = (#[trigger] view.entries(f)[q]).instance_id as int;
        &&& left.contains(k) <==> entry_slot(view, g, f, q) <= i
        &&& right.contains(k) <==> i < entry_slot(view, g, f, q)
    } by {
        let k = view.entries(f)[q].instance_id as int;
        assert(entry_ids(view.entries(f)).contains(k));
        lemma_slot(view.splits(g), view.dataset.value(g, k) as int);
    }
    let last = view.entries(f)[p - 1].instance_id as int;
    let a = choose|q: int|
        p <= q < view.entries(f).len() && #[trigger] entry_slot(view, g, f, q) == low;
    let b = choose|q: int|
        p <= q < view.entries(f).len() && #[trigger] entry_slot(view, g, f, q) == high;
    let entry_a = view.entries(f)[a];
    let entry_b = view.entries(f)[b];
    if left.contains(last) {
        lemma_ahead(view, left, f, p);
        if real_split(view, left, f, view.entries(f)[p - 1].feature_value as int) {
            let q = choose|q: int|
                p <= q < view.entries(f).len() && left.contains(
                    (#[trigger] view.entries(f)[q]).instance_id as int,
                );
            assert(low <= entry_slot(view, g, f, q));
        }
    }
    if right.contains(last) {
        lemma_ahead(view, right, f, p);
        if real_split(view, right, f, view.entries(f)[p - 1].feature_value as int) {
            let q = choose|q: int|
                p <= q < view.entries(f).len() && right.contains(
                    (#[trigger] view.entries(f)[q]).instance_id as int,
                );
            assert(entry_slot(view, g, f, q) <= high);
        }
    }
}

/// For each entry of the list of feature `f2`, the smallest and the largest slot of the entries
/// from there on.
fn slots_ahead<OT: OptimizationTask>(
    dataview: &DataView<OT>,
    f1: usize,
    f2: usize,
    lookup: &HashMap<i32, usize>,
) -> (r: (Vec<usize>, Vec<usize>))
    requires
        dataview.valid(),
        f1 < dataview.feature_instances@.len(),
        f2 < dataview.feature_instances@.len(),
        forall|k: int| #[trigger]
            dataview.ids().contains(k) ==> {
                let v = dataview.dataset.value(f1 as int, k);
                lookup@.contains_key(v) && lookup@[v] == slot(
                    dataview.splits(f1 as int),
                    v as int,
                )
            },
    ensures
        r.0@.len() == dataview.entries(f2 as int).len(),
        r.1@.len() == dataview.entries(f2 as int).len(),
        forall|p: int|
            0 <= p < r.0@.len() ==> slots_from(
                *dataview,
                f1 as int,
                f2 as int,
                p,
                #[trigger] r.0@[p] as int,
                r.1@[p] as int,
            ),
{
    let ghost view = *dataview;
    let ghost g = f1 as int;
    let ghost f = f2 as int;
    let instances = dataview.instances(f2);
    let n = instances.len();
    let mut smallest: Vec<usize> = Vec::with_capacity(n);
    let mut largest: Vec<usize> = Vec::with_capacity(n);
    assert(view.covers(view.ids()));
    assert(lists(view.entries(f), view.ids()));
    let mut j: usize = 0;
    while j < n
        invariant
            j <= n,
            smallest@.len() == j,
            largest@.len() == j,
        decreases n - j,
    {
        smallest.push(0);
        largest.push(0);
        j += 1;
    }
    let mut p: usize = n;
    while p > 0
        invariant
            view == *dataview,
            view.valid(),
            view.covers(view.ids()),
            lists(view.entries(f), view.ids()),
            g == f1,
            f == f2,
            0 <= g < view.feature_instances@.len(),
            0 <= f < view.feature_instances@.len(),
            instances@ == view.entries(f),
            n == instances@.len(),
            forall|k: int| #[trigger]
                view.ids().contains(k) ==> {
                    let v = view.dataset.value(g, k);
                    lookup@.contains_key(v) && lookup@[v] == slot(view.splits(g), v as int)
                },
            p <= n,
            smallest@.len() == n,
            largest@.len() == n,
            forall|q: int|
                p <= q < n ==> slots_from(
                    view,
                    g,
                    f,
                    q,
                    #[trigger] smallest@[q] as int,
                    largest@[q] as int,
                ),
        decreases p,
    {
        p -= 1;
        let instance = instances[p];
        proof {
            lemma_prefix_fresh(view, view.ids(), f, p as int);
        }
        let value = dataview.dataset.feature_values[f1][instance.instance_id];
        let own = *lookup.get(&value).unwrap();
        let (mut low, mut high) = (own, own);
        if p + 1 < n {
            assert(slots_from(
                view,
                g,
                f,
                p + 1,
                smallest@[p + 1] as int,
                largest@[p + 1] as int,
            ));
            if smallest[p + 1] < low {
                low = smallest[p + 1];
            }
            if largest[p + 1] > high {
                high = largest[p + 1];
            }
        }
        let ghost smallest_before = smallest@;
        let ghost largest_before = largest@;
        smallest.set(p, low);
        largest.set(p, high);
        proof {
            assert(entry_slot(view, g, f, p as int) == own);
            assert(slots_from(view, g, f, p as int, low as int, high as int));
            assert forall|q: int| p <= q < n implies slots_from(
                view,
                g,
                f,
                q,
                #[trigger] smallest@[q] as int,
                largest@[q] as int,
            ) by {
                if q > p {
                    assert(smallest@[q] == smallest_before[q]);
                    assert(largest@[q] == largest_before[q]);
                }
            }
        }
    }
    (smallest, largest)
}

/// Tries the splits on feature `f2` below each possible split of feature `f1`.
#[allow(clippy::too_many_arguments)]
fn try_second_feature<OT: OptimizationTask>(
    dataview: &DataView<OT>,
    branching_cost: OT::CostType,
    f1: usize,
    f2: usize,
    lookup: &HashMap<i32, usize>,
    totals_left: &Vec<OT::CostSumType>,
    totals_right: &Vec<OT::CostSumType>,
    best_left: &mut Vec<D1ScoreTracker<OT>>,
    best_right: &mut Vec<D1ScoreTracker<OT>>,
)
    requires
        dataview.valid(),
        f1 < dataview.feature_instances@.len(),
        f2 < dataview.feature_instances@.len(),
        dataview.splits_apart(f1 as int),
        splits_fit::<OT>(dataview.data(), dataview.ids(), branching_cost),
        totals_left@.len() == dataview.splits(f1 as int).len(),
        totals_right@.len() == dataview.splits(f1 as int).len(),
        old(best_left)@.len() == dataview.splits(f1 as int).len(),
        old(best_right)@.len() == dataview.splits(f1 as int).len(),
        forall|i: int|
            0 <= i < totals_left@.len() ==> (#[trigger] totals_left@[i]).sums(
                dataview.data(),
                left_parts(*dataview, f1 as int)(i),
            ),
        forall|i: int|
            0 <= i < totals_right@.len() ==> (#[trigger] totals_right@[i]).sums(
                dataview.data(),
                right_parts(*dataview, f1 as int)(i),
            ),
        forall|i: int|
            0 <= i < totals_left@.len() ==> (#[trigger] old(best_left)@[i]).valid(branching_cost),
        forall|i: int|
            0 <= i < totals_left@.len() ==> (#[trigger] old(best_right)@[i]).valid(branching_cost),
        forall|k: int| #[trigger]
            dataview.ids().contains(k) ==> {
                let v = dataview.dataset.value(f1 as int, k);
                lookup@.contains_key(v) && lookup@[v] == slot(
                    dataview.splits(f1 as int),
                    v as int,
                )
            },
    ensures
        final(best_left)@.len() == old(best_left)@.len(),
        final(best_right)@.len() == old(best_right)@.len(),
        forall|i: int|
            0 <= i < old(best_left)@.len() ==> {
                &&& (#[trigger] final(best_left)@[i]).valid(branching_cost)
                &&& final(best_left)@[i] == consider_all(
                    old(best_left)@[i],
                    branching_cost,
                    changes_along(
                        *dataview,
                        left_parts(*dataview, f1 as int)(i),
                        f2 as int,
                        dataview.entries(f2 as int),
                    ),
                )
            },
        forall|i: int|
            0 <= i < old(best_right)@.len() ==> {
                &&& (#[trigger] final(best_right)@[i]).valid(branching_cost)
                &&& final(best_right)@[i] == consider_all(
                    old(best_right)@[i],
                    branching_cost,
                    changes_along(
                        *dataview,
                        right_parts(*dataview, f1 as int)(i),
                        f2 as int,
                        dataview.entries(f2 as int),
                    ),
                )
            },
{
    let ghost view = *dataview;
    let ghost data = view.data();
    let ghost ids = view.ids();
    let ghost f = f2 as int;
    let ghost g = f1 as int;
    let ghost left_start = best_left@;
    let ghost right_start = best_right@;
    let ghost lefts = left_parts(view, g);
    let ghost rights = right_parts(view, g);
    let n_splits = totals_left.len();
    proof {
        assert(view.covers(ids));
        assert(lists(view.entries(f), ids));
    }

    // These arrays do not directly contain the totals at the ith, but are instead fenwick trees.
    // Because of this, totals_right_left is indexed reversed.
    let mut temp_total = dataview.cost_summer.duplicate();
    temp_total.clear();  // Used to clone zeros
    let mut totals_left_left: Vec<OT::CostSumType> = Vec::with_capacity(n_splits);
    let mut totals_right_left: Vec<OT::CostSumType> = Vec::with_capacity(n_splits);
    let mut j: usize = 0;
    while j < n_splits
        invariant
            j <= n_splits,
            totals_left_left@.len() == j,
            totals_right_left@.len() == j,
            temp_total.sums(data, Set::empty()),
            forall|i: int|
                0 <= i < j ==> (#[trigger] totals_left_left@[i]).sums(data, Set::empty()),
            forall|i: int|
                0 <= i < j ==> (#[trigger] totals_right_left@[i]).sums(data, Set::empty()),
        decreases n_splits - j,
    {
        totals_left_left.push(temp_total.duplicate());
        totals_right_left.push(temp_total.duplicate());
        j += 1;
    }

    let mut temp_total2 = temp_total.duplicate();
    let (smallest_ahead, largest_ahead) = slots_ahead(dataview, f1, f2, lookup);

    // It is possible that for the left and the right side and different i's the previous is
    // different. The places of the splits then possibly have less spacing between the features.
    let mut previous: Option<(i32, i32)> = None;
    let instances = dataview.instances(f2);
    let ghost entries = instances@;
    proof {
        let none = entry_ids(entries.take(0));
        assert(none =~= Set::empty());
        dataview.lemma_countable();
        lemma_holds_nothing::<OT::LabelType, OT::InstanceType, OT::CostType, OT::CostSumType>(
            totals_left_left@,
            data,
            left_slots(view, g),
        );
        lemma_holds_nothing::<OT::LabelType, OT::InstanceType, OT::CostType, OT::CostSumType>(
            totals_right_left@,
            data,
            right_slots(view, g),
        );
    }
    let mut p: usize = 0;
    while p < instances.len()
        invariant
            view == *dataview,
            view.valid(),
            view.covers(ids),
            view.splits_apart(g),
            lists(view.entries(f), ids),
            data == view.data(),
            ids == view.ids(),
            f == f2,
            g == f1,
            0 <= f < view.feature_instances@.len(),
            0 <= g < view.feature_instances@.len(),
            lefts == left_parts(view, g),
            rights == right_parts(view, g),
            splits_fit::<OT>(data, ids, branching_cost),
            n_splits == view.splits(g).len(),
            totals_left@.len() == n_splits,
            totals_right@.len() == n_splits,
            totals_left_left@.len() == n_splits,
            totals_right_left@.len() == n_splits,
            best_left@.len() == n_splits,
            best_right@.len() == n_splits,
            left_start.len() == n_splits,
            right_start.len() == n_splits,
            forall|i: int|
                0 <= i < n_splits ==> (#[trigger] totals_left@[i]).sums(data, lefts(i)),
            forall|i: int|
                0 <= i < n_splits ==> (#[trigger] totals_right@[i]).sums(data, rights(i)),
            forall|k: int| #[trigger]
                ids.contains(k) ==> {
                    let v = view.dataset.value(g, k);
                    lookup@.contains_key(v) && lookup@[v] == slot(view.splits(g), v as int)
                },
            instances@ == entries,
            entries == view.entries(f),
            smallest_ahead@.len() == entries.len(),
            largest_ahead@.len() == entries.len(),
            forall|q: int|
                0 <= q < entries.len() ==> slots_from(
                    view,
                    g,
                    f,
                    q,
                    #[trigger] smallest_ahead@[q] as int,
                    largest_ahead@[q] as int,
                ),
            p <= entries.len(),
            previous == (if p == 0 {
                None
            } else {
                Some(
                    (
                        view.dataset.value(g, entries[p - 1].instance_id as int),
                        entries[p - 1].feature_value,
                    ),
                )
            }),
            holds::<OT::LabelType, OT::InstanceType, OT::CostType, OT::CostSumType>(
                totals_left_left@,
                data,
                entry_ids(entries.take(p as int)),
                left_slots(view, g),
            ),
            holds::<OT::LabelType, OT::InstanceType, OT::CostType, OT::CostSumType>(
                totals_right_left@,
                data,
                entry_ids(entries.take(p as int)),
                right_slots(view, g),
            ),
            forall|i: int|
                0 <= i < n_splits ==> {
                    &&& (#[trigger] best_left@[i]).valid(branching_cost)
                    &&& best_left@[i] == consider_all(
                        left_start[i],
                        branching_cost,
                        changes_along(view, lefts(i), f, entries.take(p as int)),
                    )
                },
            forall|i: int|
                0 <= i < n_splits ==> {
                    &&& (#[trigger] best_right@[i]).valid(branching_cost)
                    &&& best_right@[i] == consider_all(
                        right_start[i],
                        branching_cost,
                        changes_along(view, rights(i), f, entries.take(p as int)),
                    )
                },
        decreases instances.len() - p,
    {
        let fv = instances[p];
        let ghost seen = entry_ids(entries.take(p as int));
        let ghost k = fv.instance_id as int;
        proof {
            assert(entries.take(p + 1).drop_last() == entries.take(p as int));
            assert(entries.take(p + 1).last() == fv);
            lemma_prefix_ids(view, ids, f, p as int);
            lemma_prefix_fresh(view, ids, f, p as int);
        }
        // Check if we can split here.
        if let Some((prev_feature_value_1, prev_feature_value_2)) = previous {
            if prev_feature_value_2 != fv.feature_value {
                let ghost last = entries[p - 1].instance_id as int;
                proof {
                    lemma_prefix_fresh(view, ids, f, p - 1);
                    lemma_slot(view.splits(g), prev_feature_value_1 as int);
                }
                let first_split_idx_that_includes_it = *lookup.get(&prev_feature_value_1).unwrap();
                // Empty splits are not allowed: something of a side has to be left beyond this
                // point.
                let first_left = if smallest_ahead[p] > first_split_idx_that_includes_it {
                    smallest_ahead[p]
                } else {
                    first_split_idx_that_includes_it
                };
                let end_right = if largest_ahead[p] < first_split_idx_that_includes_it {
                    largest_ahead[p]
                } else {
                    first_split_idx_that_includes_it
                };
                let ghost first = first_split_idx_that_includes_it as int;
                let ghost lefts_before = best_left@;
                let ghost rights_before = best_right@;
                proof {
                    assert forall|i: int| 0 <= i < n_splits implies {
                        &&& #[trigger] lefts(i).subset_of(ids)
                        &&& rights(i).subset_of(ids)
                        &&& lefts(i).contains(last) <==> first <= i
                        &&& rights(i).contains(last) <==> i < first
                        &&& lefts(i).contains(last) && real_split(
                            view,
                            lefts(i),
                            f,
                            prev_feature_value_2 as int,
                        ) <==> first_left <= i
                        &&& rights(i).contains(last) && real_split(
                            view,
                            rights(i),
                            f,
                            prev_feature_value_2 as int,
                        ) <==> i < end_right
                        &&& filed(seen, left_slots(view, g), 0, i) == seen.intersect(lefts(i))
                        &&& filed(seen, right_slots(view, g), 0, n_splits - 1 - i)
                            == seen.intersect(rights(i))
                    } by {
                        lemma_filed(view, g, seen, i);
                        assert(slots_from(
                            view,
                            g,
                            f,
                            p as int,
                            smallest_ahead@[p as int] as int,
                            largest_ahead@[p as int] as int,
                        ));
                        lemma_sides_ahead(
                            view,
                            g,
                            f,
                            p as int,
                            i,
                            smallest_ahead@[p as int] as int,
                            largest_ahead@[p as int] as int,
                        );
                    }
                    assert forall|i: int| first_left <= i < n_splits implies #[trigger] can_try(
                        branching_cost,
                        best_left@[i],
                        totals_left@[i],
                        data,
                        lefts(i),
                        prefix_parts(
                            false,
                            totals_left_left@.len() as int,
                            seen,
                            left_slots(view, g),
                        )(i),
                    ) by {
                        assert(lefts(i).subset_of(ids));
                        lemma_change(view, branching_cost, lefts(i), f, p as int);
                    }
                    assert forall|i: int| 0 <= i < end_right implies #[trigger] can_try(
                        branching_cost,
                        best_right@[i],
                        totals_right@[i],
                        data,
                        rights(i),
                        prefix_parts(
                            true,
                            totals_right_left@.len() as int,
                            seen,
                            right_slots(view, g),
                        )(i),
                    ) by {
                        assert(lefts(i).subset_of(ids));
                        lemma_change(view, branching_cost, rights(i), f, p as int);
                    }
                }

                // Check if any updated value results in the best tree. We do this before adding the
                // value of the current instance so that we can check if this is a valid splitting
                // point.
                update_lowest_cost(
                    branching_cost,
                    best_left,
                    first_left..n_splits,
                    totals_left,
                    &totals_left_left,
                    false,
                    f2,
                    prev_feature_value_2,  // May not be the previous in the current split, see above
                    fv.feature_value,
                    &mut temp_total,
                    &mut temp_total2,
                    Ghost(data),
                    Ghost(lefts),
                    Ghost(seen),
                    Ghost(left_slots(view, g)),
                );
                update_lowest_cost(
                    branching_cost,
                    best_right,
                    0..end_right,
                    totals_right,
                    &totals_right_left,
                    true,
                    f2,
                    prev_feature_value_2,  // May not be the previous in the current split, see above
                    fv.feature_value,
                    &mut temp_total,
                    &mut temp_total2,
                    Ghost(data),
                    Ghost(rights),
                    Ghost(seen),
                    Ghost(right_slots(view, g)),
                );
                proof {
                    assert forall|i: int| 0 <= i < n_splits implies {
                        &&& (#[trigger] best_left@[i]).valid(branching_cost)
                        &&& best_left@[i] == consider_all(
                            left_start[i],
                            branching_cost,
                            changes_along(view, lefts(i), f, entries.take(p + 1)),
                        )
                    } by {
                        assert(lefts(i).subset_of(ids));
                        lemma_change(view, branching_cost, lefts(i), f, p as int);
                        assert(lefts_before[i].valid(branching_cost));
                        let found = changes_along(view, lefts(i), f, entries.take(p as int));
                        let next = split_at(
                            view,
                            lefts(i),
                            f,
                            prev_feature_value_2,
                            fv.feature_value,
                        );
                        assert(found.push(next).drop_last() =~= found);
                    }
                    assert forall|i: int| 0 <= i < n_splits implies {
                        &&& (#[trigger] best_right@[i]).valid(branching_cost)
                        &&& best_right@[i] == consider_all(
                            right_start[i],
                            branching_cost,
                            changes_along(view, rights(i), f, entries.take(p + 1)),
                        )
                    } by {
                        assert(lefts(i).subset_of(ids));
                        lemma_change(view, branching_cost, rights(i), f, p as int);
                        assert(rights_before[i].valid(branching_cost));
                        let found = changes_along(view, rights(i), f, entries.take(p as int));
                        let next = split_at(
                            view,
                            rights(i),
                            f,
                            prev_feature_value_2,
                            fv.feature_value,
                        );
                        assert(found.push(next).drop_last() =~= found);
                    }
                }
            }
        }

        let feature_value_1 = dataview.dataset.feature_values[f1][fv.instance_id];
        previous = Some((feature_value_1, fv.feature_value));

        let instance = &dataview.dataset.instances[fv.instance_id];
        proof {
            lemma_slot(view.splits(g), feature_value_1 as int);
        }
        let first_split_idx_that_includes_it = *lookup.get(&feature_value_1).unwrap();

        // Update all possible feature splits in the root with this instance.
        // Take for example the first instance in f2 order. Say f1 = 3 for this instance.
        // Now this instance will fall on the left-left side for all feature tests greater or equal
        // than 3. And it will fall on the right-left side for all feature tests smaller than 3.

        // If it is n_splits, it is never on the left side.
        if first_split_idx_that_includes_it < n_splits {
            // Add this instance value to all left-left totals of possible splits f1 <= x where
            // feature_value_1 <= x (x >= feature_value_1)
            assert(left_slots(view, g)(k) == first_split_idx_that_includes_it);
            fenwick_update::<OT::LabelType, OT::InstanceType, OT::CostType, OT::CostSumType>(
                &mut totals_left_left,
                first_split_idx_that_includes_it,
                instance,
            );
        } else {
            proof {
                lemma_filed_beyond::<OT::LabelType, OT::InstanceType, OT::CostType, OT::CostSumType>(
                    totals_left_left@,
                    data,
                    seen,
                    left_slots(view, g),
                    k,
                );
            }
        }

        // If it is 0, it is never on the right side.
        if first_split_idx_that_includes_it > 0 {
            // Add this instance value to all right-left totals of possible splits f1 <= x where
            // feature_value_1 > x (x < feature_value_1)
            // We index reversed, because we want the suffix sum. Fenwick trees store the prefix
            // sum.
            let reversed_idx = (n_splits - 1) - (first_split_idx_that_includes_it - 1);
            assert(right_slots(view, g)(k) == reversed_idx);
            fenwick_update::<OT::LabelType, OT::InstanceType, OT::CostType, OT::CostSumType>(
                &mut totals_right_left,
                reversed_idx,
                instance,
            );
        } else {
            proof {
                lemma_filed_beyond::<OT::LabelType, OT::InstanceType, OT::CostType, OT::CostSumType>(
                    totals_right_left@,
                    data,
                    seen,
                    right_slots(view, g),
                    k,
                );
            }
        }
        proof {
            lemma_entry_ids_push(entries.take(p as int), fv);
            assert(entries.take(p + 1) == entries.take(p as int).push(fv));
        }
        p += 1;
    }
    assert(entries.take(p as int) == entries);
}

/// Every split that is tried for a part is a split of that part.
pub proof fn lemma_changes_split<OT: OptimizationTask>(view: DataView<OT>, part: Set<int>, n: int)
    requires
        0 <= n <= view.feature_instances@.len(),
    ensures
        all_split(view, part, changes(view, part, n)),
    decreases n,
{
    if n > 0 {
        lemma_changes_split(view, part, n - 1);
        lemma_changes_along_split(view, part, n - 1, view.entries(n - 1));
    }
}

/// Every split that is tried for a part on one feature is a split of that part.
proof fn lemma_changes_along_split<OT: OptimizationTask>(
    view: DataView<OT>,
    part: Set<int>,
    f: int,
    entries: Seq<FeatureValue>,
)
    requires
        0 <= f < view.feature_instances@.len(),
    ensures
        all_split(view, part, changes_along(view, part, f, entries)),
    decreases entries.len(),
{
    if entries.len() >= 2 {
        let before = entries.drop_last();
        lemma_changes_along_split(view, part, f, before);
        let (lower, upper) = (before.last().feature_value, entries.last().feature_value);
        assert(splits_part(view, part, split_at(view, part, f, lower, upper)));
    }
}

/// What is found for a part stands for a tree of that part.
pub proof fn lemma_best_side<OT: OptimizationTask>(
    view: DataView<OT>,
    part: Set<int>,
    branching_cost: OT::CostType,
)
    requires
        part.subset_of(view.ids()),
        splits_fit::<OT>(view.data(), view.ids(), branching_cost),
    ensures
        tracks(view, part, branching_cost, best_side(view, part, branching_cost)),
{
    let n = view.feature_instances@.len() as int;
    lemma_changes_split(view, part, n);
    lemma_tracks(
        view,
        part,
        branching_cost,
        D1ScoreTracker::unsplit(leaf_of(view.data(), part)),
        changes(view, part, n),
    );
}

/// Considering some candidates and then some more is considering all of them.
pub proof fn lemma_consider_all_add<OT: OptimizationTask>(
    tracker: D1ScoreTracker<OT>,
    branching_cost: OT::CostType,
    first: Seq<Candidate<OT>>,
    second: Seq<Candidate<OT>>,
)
    ensures
        consider_all(tracker, branching_cost, first + second) == consider_all(
            consider_all(tracker, branching_cost, first),
            branching_cost,
            second,
        ),
    decreases second.len(),
{
    if second.len() > 0 {
        lemma_consider_all_add(tracker, branching_cost, first, second.drop_last());
        assert((first + second).drop_last() =~= first + second.drop_last());
    } else {
        assert(first + second =~= first);
    }
}

/// What is found below each possible split of feature `f1`: for its left side, and for its right
/// side.
fn best_sides<OT: OptimizationTask>(
    dataview: &DataView<OT>,
    branching_cost: OT::CostType,
    f1: usize,
) -> (r: (Vec<D1ScoreTracker<OT>>, Vec<D1ScoreTracker<OT>>))
    requires
        dataview.valid(),
        f1 < dataview.feature_instances@.len(),
        dataview.splits(f1 as int).len() > 0,
        dataview.splits_apart(f1 as int),
        splits_fit::<OT>(dataview.data(), dataview.ids(), branching_cost),
    ensures
        r.0@.len() == dataview.splits(f1 as int).len(),
        r.1@.len() == dataview.splits(f1 as int).len(),
        forall|i: int|
            0 <= i < r.0@.len() ==> #[trigger] r.0@[i] == best_side(
                *dataview,
                left_parts(*dataview, f1 as int)(i),
                branching_cost,
            ),
        forall|i: int|
            0 <= i < r.1@.len() ==> #[trigger] r.1@[i] == best_side(
                *dataview,
                right_parts(*dataview, f1 as int)(i),
                branching_cost,
            ),
{
    let ghost view = *dataview;
    let ghost data = view.data();
    let ghost ids = view.ids();
    let ghost g = f1 as int;
    let ghost lefts = left_parts(view, g);
    let ghost rights = right_parts(view, g);
    assert(view.covers(ids));

    let n_features = dataview.num_features();
    let (totals_left, lookup) = left_totals(dataview, f1);
    let n_splits = totals_left.len();

    let mut totals_right: Vec<OT::CostSumType> = Vec::with_capacity(n_splits);
    let mut best_left: Vec<D1ScoreTracker<OT>> = Vec::with_capacity(n_splits);
    let mut best_right: Vec<D1ScoreTracker<OT>> = Vec::with_capacity(n_splits);
    let mut i: usize = 0;
    while i < n_splits
        invariant
            view == *dataview,
            view.covers(ids),
            data == view.data(),
            ids == view.ids(),
            g == f1,
            lefts == left_parts(view, g),
            rights == right_parts(view, g),
            n_splits == totals_left@.len(),
            n_splits == view.splits(g).len(),
            forall|j: int|
                0 <= j < n_splits ==> (#[trigger] totals_left@[j]).sums(
                    data,
                    view.up_to(ids, g, view.splits(g)[j].feature_value as int),
                ),
            i <= n_splits,
            totals_right@.len() == i,
            best_left@.len() == i,
            best_right@.len() == i,
            forall|j: int| 0 <= j < i ==> (#[trigger] totals_right@[j]).sums(data, rights(j)),
            forall|j: int|
                0 <= j < i ==> #[trigger] best_left@[j] == D1ScoreTracker::unsplit(
                    leaf_of::<OT>(data, lefts(j)),
                ),
            forall|j: int|
                0 <= j < i ==> #[trigger] best_right@[j] == D1ScoreTracker::unsplit(
                    leaf_of::<OT>(data, rights(j)),
                ),
        decreases n_splits - i,
    {
        let mut total_right = dataview.cost_summer.duplicate();
        proof {
            assert(totals_left@[i as int].sums(data, lefts(i as int)));
            assert(ids.difference(lefts(i as int)) =~= rights(i as int));
        }
        total_right.subtract_sum(&totals_left[i]);
        best_left.push(D1ScoreTracker::new(&totals_left[i]));
        best_right.push(D1ScoreTracker::new(&total_right));
        totals_right.push(total_right);
        i += 1;
    }

    let mut f2: usize = 0;
    while f2 < n_features
        invariant
            view == *dataview,
            view.valid(),
            view.splits_apart(g),
            data == view.data(),
            ids == view.ids(),
            g == f1,
            0 <= g < n_features,
            n_features == view.feature_instances@.len(),
            lefts == left_parts(view, g),
            rights == right_parts(view, g),
            splits_fit::<OT>(data, ids, branching_cost),
            n_splits == view.splits(g).len(),
            totals_left@.len() == n_splits,
            totals_right@.len() == n_splits,
            best_left@.len() == n_splits,
            best_right@.len() == n_splits,
            forall|j: int|
                0 <= j < n_splits ==> (#[trigger] totals_left@[j]).sums(data, lefts(j)),
            forall|j: int|
                0 <= j < n_splits ==> (#[trigger] totals_right@[j]).sums(data, rights(j)),
            forall|k: int| #[trigger]
                ids.contains(k) ==> {
                    let v = view.dataset.value(g, k);
                    lookup@.contains_key(v) && lookup@[v] == slot(view.splits(g), v as int)
                },
            f2 <= n_features,
            forall|j: int|
                0 <= j < n_splits ==> {
                    &&& (#[trigger] best_left@[j]).valid(branching_cost)
                    &&& best_left@[j] == consider_all(
                        D1ScoreTracker::unsplit(leaf_of::<OT>(data, lefts(j))),
                        branching_cost,
                        changes(view, lefts(j), f2 as int),
                    )
                },
            forall|j: int|
                0 <= j < n_splits ==> {
                    &&& (#[trigger] best_right@[j]).valid(branching_cost)
                    &&& best_right@[j] == consider_all(
                        D1ScoreTracker::unsplit(leaf_of::<OT>(data, rights(j))),
                        branching_cost,
                        changes(view, rights(j), f2 as int),
                    )
                },
        decreases n_features - f2,
    {
        if dataview.possible_split_values[f2].len() > 0 {
            let ghost lefts_before = best_left@;
            let ghost rights_before = best_right@;
            try_second_feature(
                dataview,
                branching_cost,
                f1,
                f2,
                &lookup,
                &totals_left,
                &totals_right,
                &mut best_left,
                &mut best_right,
            );
            proof {
                assert forall|j: int| 0 <= j < n_splits implies {
                    &&& (#[trigger] best_left@[j]).valid(branching_cost)
                    &&& best_left@[j] == consider_all(
                        D1ScoreTracker::unsplit(leaf_of::<OT>(data, lefts(j))),
                        branching_cost,
                        changes(view, lefts(j), f2 + 1),
                    )
                } by {
                    assert(lefts_before[j].valid(branching_cost));
                    lemma_consider_all_add(
                        D1ScoreTracker::unsplit(leaf_of::<OT>(data, lefts(j))),
                        branching_cost,
                        changes(view, lefts(j), f2 as int),
                        changes_along(view, lefts(j), f2 as int, view.entries(f2 as int)),
                    );
                }
                assert forall|j: int| 0 <= j < n_splits implies {
                    &&& (#[trigger] best_right@[j]).valid(branching_cost)
                    &&& best_right@[j] == consider_all(
                        D1ScoreTracker::unsplit(leaf_of::<OT>(data, rights(j))),
                        branching_cost,
                        changes(view, rights(j), f2 + 1),
                    )
                } by {
                    assert(rights_before[j].valid(branching_cost));
                    lemma_consider_all_add(
                        D1ScoreTracker::unsplit(leaf_of::<OT>(data, rights(j))),
                        branching_cost,
                        changes(view, rights(j), f2 as int),
                        changes_along(view, rights(j), f2 as int, view.entries(f2 as int)),
                    );
                }
            }
        }
        f2 += 1;
    }
    (best_left, best_right)
}

/// Search for a node with depth two.
///
/// This is not exhaustive: below the root, only those splits of a side are tried that come right
/// after one of its instances, in the order of all instances of the view. Splits that leave nothing
/// on one side are not allowed.
pub fn solve_d2<OT: OptimizationTask>(
    dataview: &DataView<OT>,
    context: &SolveContext<OT>,
) -> (r: Arc<Tree<OT>>)
    requires
        dataview.valid(),
        forall|f: int|
            0 <= f < dataview.feature_instances@.len() ==> #[trigger] dataview.splits_apart(f),
        trees_fit::<OT>(dataview.data(), dataview.ids(), context.task.price()),
    ensures
        *r == best_tree(
            *dataview,
            context.task.price(),
            dataview.feature_instances@.len() as int,
            0,
        ),
        match *r {
            Tree::Leaf(_) => true,
            Tree::Branch(branch) => {
                &&& branch.split_feature < dataview.feature_instances@.len()
                &&& branch.split_threshold matches Threshold::PossibleSplit { index } && index
                    < dataview.possible_split_values@[branch.split_feature as int]@.len()
            },
        },
{
    let n_features = dataview.num_features();
    let branching_cost = context.task.branching_cost();
    let ghost view = *dataview;
    assert(view.covers(view.ids()));

    let mut best = Arc::new(
        Tree::Leaf(
            LeafNode {
                cost: dataview.cost_summer.cost(),
                label: dataview.cost_summer.label(),
            },
        ),
    );

    let mut f1: usize = 0;
    while f1 < n_features
        invariant
            view == *dataview,
            view.valid(),
            n_features == view.feature_instances@.len(),
            forall|f: int|
                0 <= f < view.feature_instances@.len() ==> #[trigger] view.splits_apart(f),
            trees_fit::<OT>(view.data(), view.ids(), branching_cost),
            f1 <= n_features,
            *best == best_tree(view, branching_cost, f1 as int, 0),
            match *best {
                Tree::Leaf(_) => true,
                Tree::Branch(branch) => {
                    &&& branch.split_feature < view.feature_instances@.len()
                    &&& branch.split_threshold matches Threshold::PossibleSplit { index } && index
                        < view.possible_split_values@[branch.split_feature as int]@.len()
                },
            },
        decreases n_features - f1,
    {
        let n_splits = dataview.possible_split_values[f1].len();
        if n_splits > 0 {
            assert(view.splits_apart(f1 as int));
            let (best_left, best_right) = best_sides(dataview, branching_cost, f1);
            let mut i: usize = 0;
            while i < n_splits
                invariant
                    view == *dataview,
                    view.valid(),
                    n_features == view.feature_instances@.len(),
                    f1 < n_features,
                    view.splits_apart(f1 as int),
                    n_splits == view.splits(f1 as int).len(),
                    trees_fit::<OT>(view.data(), view.ids(), branching_cost),
                    best_left@.len() == n_splits,
                    best_right@.len() == n_splits,
                    forall|j: int|
                        0 <= j < n_splits ==> #[trigger] best_left@[j] == best_side(
                            view,
                            left_parts(view, f1 as int)(j),
                            branching_cost,
                        ),
                    forall|j: int|
                        0 <= j < n_splits ==> #[trigger] best_right@[j] == best_side(
                            view,
                            right_parts(view, f1 as int)(j),
                            branching_cost,
                        ),
                    i <= n_splits,
                    *best == best_tree(view, branching_cost, f1 as int, i as int),
                    match *best {
                        Tree::Leaf(_) => true,
                        Tree::Branch(branch) => {
                            &&& branch.split_feature < view.feature_instances@.len()
                            &&& branch.split_threshold matches Threshold::PossibleSplit { index } && index
                                < view.possible_split_values@[branch.split_feature as int]@.len()
                        },
                    },
                decreases n_splits - i,
            {
                let left = &best_left[i];
                let right = &best_right[i];
                proof {
                    let root = RootSplit { view, branching_cost, feature: f1, index: i };
                    assert(root.left_ids() == left_parts(view, f1 as int)(i as int));
                    assert(root.right_ids() == right_parts(view, f1 as int)(i as int));
                    lemma_root_split(view, f1 as int, i as int);
                    lemma_best_side(view, root.left_ids(), branching_cost);
                    lemma_best_side(view, root.right_ids(), branching_cost);
                    lemma_join_fits(
                        view,
                        root.left_ids(),
                        root.right_ids(),
                        branching_cost,
                        *left,
                        *right,
                    );
                }
                // Empty splits are not allowed.
                let some_left = dataview.instances(f1)[0].feature_value
                    <= dataview.possible_split_values[f1][i].feature_value;
                let ith_cost = left.total_cost(branching_cost) + right.total_cost(branching_cost)
                    + branching_cost;
                if some_left && ith_cost.strictly_less_than(&best.cost()) {
                    best = Arc::new(
                        Tree::Branch(
                            BranchNode {
                                cost: ith_cost,
                                split_feature: f1,
                                split_threshold: Threshold::PossibleSplit { index: i },
                                left_child: left.clone().get_tree(branching_cost),
                                right_child: right.clone().get_tree(branching_cost),
                            },
                        ),
                    );
                }
                i += 1;
            }
        }
        f1 += 1;
    }

    best
}

/// A possible split leaves something on either side exactly if the smallest value is on its left.
proof fn lemma_root_split<OT: OptimizationTask>(view: DataView<OT>, f: int, i: int)
    requires
        view.valid(),
        view.splits_apart(f),
        0 <= f < view.feature_instances@.len(),
        0 <= i < view.splits(f).len(),
    ensures
        view.entries(f).len() > 0,
        real_split(view, view.ids(), f, view.splits(f)[i].feature_value as int)
            <==> view.entries(f)[0].feature_value <= view.splits(f)[i].feature_value,
{
    let ids = view.ids();
    let splits = view.splits(f);
    let entries = view.entries(f);
    let bound = splits[i].feature_value as int;
    assert(view.covers(ids));
    assert(view.in_order(f));
    assert(lists(view.entries(f), ids));
    let k = choose|k: int|
        #![trigger view.ids().contains(k)]
        view.ids().contains(k) && splits.last().feature_value < view.dataset.value(f, k);
    assert(entry_ids(entries).contains(k));
    if i < splits.len() - 1 {
        assert(splits[i].feature_value < splits[splits.len() - 1].feature_value);
    }
    assert(view.beyond(ids, f, bound).contains(k));
    if real_split(view, ids, f, bound) {
        let low = choose|k: int| view.up_to(ids, f, bound).contains(k);
        assert(entry_ids(entries).contains(low));
        let q = choose|q: int| 0 <= q < entries.len() && entries[q].instance_id == low;
        assert(entries[q].feature_value == view.dataset.value(f, low));
        assert(entries[0].feature_value <= entries[q].feature_value);
    }
    if entries[0].feature_value <= bound {
        let low = entries[0].instance_id as int;
        assert(entry_ids(entries).contains(low));
        assert(view.up_to(ids, f, bound).contains(low));
    }
}

/// The next entry is an instance of the view that the entries before it do not list.
proof fn lemma_prefix_fresh<OT: OptimizationTask>(view: DataView<OT>, ids: Set<int>, f: int, p: int)
    requires
        view.covers(ids),
        lists(view.entries(f), ids),
        0 <= p < view.entries(f).len(),
    ensures
        ids.contains(view.entries(f)[p].instance_id as int),
        outside(
            view.data(),
            entry_ids(view.entries(f).take(p)),
            view.entries(f)[p].instance_id as int,
            view.data()[view.entries(f)[p].instance_id as int],
        ),
{
    let entries = view.entries(f);
    let before = entries.take(p);
    let k = entries[p].instance_id as int;
    assert(entry_ids(entries).contains(k));
    view.lemma_countable();
    if entry_ids(before).contains(k) {
        let q = choose|q: int| 0 <= q < before.len() && before[q].instance_id == k;
        assert(entries[q].instance_id == entries[p].instance_id);
    }
}

} // verus!
