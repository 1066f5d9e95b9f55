//! What holds of the search for a node with depth two.

use core::ops::Range;
use vstd::prelude::*;

use crate::model::dataview::{entry_ids, lists, DataView, FeatureValue};
use crate::model::tree::{leaf_of, Tree};
use crate::search::exhaustive::candidates::{
    real_split, split_at, split_fits, splits_fit, splits_part, trees_fit,
};
use crate::search::exhaustive::depth_two::{
    attempted, best_below, best_side, best_tree, changes, changes_along, lemma_best_side,
};
use crate::search::exhaustive::laws::{
    all_real, all_snug, between_neighbours, consider_all_is_unbeaten, lemma_leaf_unbeaten,
    lemma_no_dearer, lemma_stays_snug, lemma_stays_solid, neighbour_candidate, neighbours,
    no_dearer, no_empty_sides, possible_costs, real_candidate, side_cost,
    snug_is_between_neighbours, solid_has_no_empty_sides, split_cost, tracker_fits, tree_costs,
    unbeaten,
};
use crate::search::exhaustive::left_right::RootSplit;
use crate::search::exhaustive::schedules::{
    after_schedule, costs_possible, finished, lemma_better_sides, lemma_nodes_fit, lemma_unbeaten,
    outcome_is_optimal,
};
use crate::search::exhaustive::tracker::{Candidate, D1ScoreTracker};
use crate::tasks::{
    addable, additive_costs, exact_costs, ordered_costs, plus, sound_costs, Cost, CostSum,
    OptimizationTask,
};

verus! {

/// What is tried below a split at the root is a tree of depth at most two that is made for the view.
pub proof fn below_fits<OT: OptimizationTask>(root: RootSplit<OT>)
    requires
        root.valid(),
    ensures
        root.view.fits_tree(root.view.ids(), root.branching_cost, best_below(root)),
        best_below(root).depth() <= 2,
{
    let view = root.view;
    let bc = root.branching_cost;
    lemma_best_side(view, root.left_ids(), bc);
    lemma_best_side(view, root.right_ids(), bc);
    tracker_fits(view, root.left_ids(), bc, best_side(view, root.left_ids(), bc));
    tracker_fits(view, root.right_ids(), bc, best_side(view, root.right_ids(), bc));
}

/// The search for a node with depth two finds a tree of depth at most two that is made for the view.
pub proof fn d2_fits<OT: OptimizationTask>(
    view: DataView<OT>,
    branching_cost: OT::CostType,
    f: int,
    i: int,
)
    requires
        view.valid(),
        trees_fit::<OT>(view.data(), view.ids(), branching_cost),
        0 <= f <= view.feature_instances@.len(),
        f < view.feature_instances@.len() ==> 0 <= i <= view.splits(f).len(),
        f == view.feature_instances@.len() ==> i == 0,
    ensures
        view.fits_tree(view.ids(), branching_cost, best_tree(view, branching_cost, f, i)),
        best_tree(view, branching_cost, f, i).depth() <= 2,
    decreases f, i,
{
    assert(view.feature_instances.len() == view.feature_instances@.len());
    if i > 0 {
        d2_fits(view, branching_cost, f, i - 1);
        assert(view.possible_split_values@[f].len() == view.splits(f).len());
        let root = RootSplit {
            view,
            branching_cost,
            feature: f as usize,
            index: (i - 1) as usize,
        };
        below_fits(root);
    } else if f > 0 {
        d2_fits(view, branching_cost, f - 1, view.splits(f - 1).len() as int);
    }
}

/// The split at the root was tried: it is one of a feature before `f`, or one of the first `i` of
/// feature `f`, and leaves something on either side.
pub open spec fn tried<OT: OptimizationTask>(
    view: DataView<OT>,
    f: int,
    i: int,
    feature: int,
    index: int,
) -> bool {
    &&& {
        ||| 0 <= feature < f && 0 <= index < view.splits(feature).len()
        ||| feature == f && 0 <= index < i
    }
    &&& real_split(
        view,
        view.ids(),
        feature,
        view.splits(feature)[index].feature_value as int,
    )
}

/// The search for a node with depth two keeps the best of what it tries: neither the leaf nor what
/// it tries below any possible split is strictly cheaper than the tree that it finds.
pub proof fn d2_is_best_of_tried<OT: OptimizationTask>(
    view: DataView<OT>,
    branching_cost: OT::CostType,
    f: int,
    i: int,
)
    requires
        ordered_costs::<OT::CostType>(),
        0 <= f,
        0 <= i,
    ensures
        ({
            let total = best_tree(view, branching_cost, f, i).total();
            &&& !OT::CostSumType::cost_of(view.data(), view.ids()).undercuts(total)
            &&& forall|feature: int, index: int| #[trigger]
                tried(view, f, i, feature, index) ==> !best_below(
                    RootSplit {
                        view,
                        branching_cost,
                        feature: feature as usize,
                        index: index as usize,
                    },
                ).total().undercuts(total)
        }),
    decreases f, i,
{
    let total = best_tree(view, branching_cost, f, i).total();
    let leaf = OT::CostSumType::cost_of(view.data(), view.ids());
    assert(!total.undercuts(total));
    if i > 0 {
        d2_is_best_of_tried(view, branching_cost, f, i - 1);
        let before = best_tree(view, branching_cost, f, i - 1).total();
        let next = best_below(
            RootSplit { view, branching_cost, feature: f as usize, index: (i - 1) as usize },
        ).total();
        assert(!next.undercuts(next));
        assert(no_dearer(total, before));
        lemma_no_dearer(total, before, leaf);
        assert forall|feature: int, index: int| #[trigger]
            tried(view, f, i, feature, index) implies !best_below(
            RootSplit { view, branching_cost, feature: feature as usize, index: index as usize },
        ).total().undercuts(total) by {
            let cost = best_below(
                RootSplit {
                    view,
                    branching_cost,
                    feature: feature as usize,
                    index: index as usize,
                },
            ).total();
            if tried(view, f, i - 1, feature, index) {
                lemma_no_dearer(total, before, cost);
            } else {
                assert(cost == next);
            }
        }
    } else if f > 0 {
        let n = view.splits(f - 1).len() as int;
        d2_is_best_of_tried(view, branching_cost, f - 1, n);
        assert forall|feature: int, index: int| #[trigger]
            tried(view, f, i, feature, index) implies !best_below(
            RootSplit { view, branching_cost, feature: feature as usize, index: index as usize },
        ).total().undercuts(total) by {
            assert(tried(view, f - 1, n, feature, index));
        }
    }
}

/// What is found for a side is the best of what is tried for it: it costs what the leaf costs or is
/// strictly cheaper, and none of the splits that are tried is strictly cheaper than it.
pub proof fn side_is_best_of_tried<OT: OptimizationTask>(
    view: DataView<OT>,
    part: Set<int>,
    branching_cost: OT::CostType,
)
    requires
        ordered_costs::<OT::CostType>(),
    ensures
        ({
            let total = best_side(view, part, branching_cost).total(branching_cost);
            let candidates = changes(view, part, view.feature_instances@.len() as int);
            &&& no_dearer(total, OT::CostSumType::cost_of(view.data(), part))
            &&& forall|j: int|
                0 <= j < candidates.len() ==> !(#[trigger] candidates[j]).total(
                    branching_cost,
                ).undercuts(total)
        }),
{
    let unsplit = D1ScoreTracker::unsplit(leaf_of::<OT>(view.data(), part));
    consider_all_is_unbeaten(
        unsplit,
        branching_cost,
        changes(view, part, view.feature_instances@.len() as int),
    );
}

/// The result is the leaf, or strictly cheaper than it.
pub proof fn d2_is_the_leaf_or_cheaper<OT: OptimizationTask>(
    view: DataView<OT>,
    branching_cost: OT::CostType,
    f: int,
    i: int,
)
    requires
        ordered_costs::<OT::CostType>(),
        0 <= f,
        0 <= i,
    ensures
        ({
            let tree = best_tree(view, branching_cost, f, i);
            let leaf = leaf_of::<OT>(view.data(), view.ids());
            tree == Tree::Leaf(leaf) || tree.total().undercuts(leaf.cost)
        }),
    decreases f, i,
{
    if i > 0 {
        d2_is_the_leaf_or_cheaper(view, branching_cost, f, i - 1);
        let leaf = leaf_of::<OT>(view.data(), view.ids());
        let before = best_tree(view, branching_cost, f, i - 1);
        let after = best_tree(view, branching_cost, f, i);
        if after != before && before != Tree::Leaf(leaf) {
            assert(after.total().undercuts(before.total()));
            assert(before.total().undercuts(leaf.cost));
        }
    } else if f > 0 {
        d2_is_the_leaf_or_cheaper(view, branching_cost, f - 1, view.splits(f - 1).len() as int);
    }
}

/// Every split that is tried for a part leaves something on either side.
pub proof fn changes_are_real<OT: OptimizationTask>(view: DataView<OT>, part: Set<int>, n: int)
    requires
        0 <= n <= view.feature_instances@.len(),
    ensures
        all_real(view, part, changes(view, part, n)),
    decreases n,
{
    if n > 0 {
        changes_are_real(view, part, n - 1);
        lemma_changes_along_real(view, part, n - 1, view.entries(n - 1));
    }
}

proof fn lemma_changes_along_real<OT: OptimizationTask>(
    view: DataView<OT>,
    part: Set<int>,
    f: int,
    entries: Seq<FeatureValue>,
)
    ensures
        all_real(view, part, changes_along(view, part, f, entries)),
    decreases entries.len(),
{
    if entries.len() >= 2 {
        let before = entries.drop_last();
        lemma_changes_along_real(view, part, f, before);
        let (lower, upper) = (before.last().feature_value, entries.last().feature_value);
        let next = split_at(view, part, f, lower, upper);
        if real_split(view, part, f, lower as int) {
            assert(real_candidate(view, part, next));
        }
    }
}

/// What is found for a side has no empty sides.
pub proof fn side_has_no_empty_sides<OT: OptimizationTask>(
    view: DataView<OT>,
    part: Set<int>,
    branching_cost: OT::CostType,
)
    ensures
        no_empty_sides(view, part, best_side(view, part, branching_cost).tree(branching_cost)),
{
    let n = view.feature_instances@.len() as int;
    changes_are_real(view, part, n);
    lemma_stays_solid(
        view,
        part,
        branching_cost,
        D1ScoreTracker::unsplit(leaf_of::<OT>(view.data(), part)),
        changes(view, part, n),
    );
    solid_has_no_empty_sides(
        view,
        part,
        branching_cost,
        best_side(view, part, branching_cost),
    );
}

/// Empty splits are not allowed: the tree that the search for a node with depth two finds has no
/// empty sides, neither at its root nor below.
pub proof fn d2_has_no_empty_sides<OT: OptimizationTask>(
    view: DataView<OT>,
    branching_cost: OT::CostType,
    f: int,
    i: int,
)
    requires
        view.valid(),
        0 <= f <= view.feature_instances@.len(),
        f < view.feature_instances@.len() ==> 0 <= i <= view.splits(f).len(),
        f == view.feature_instances@.len() ==> i == 0,
    ensures
        no_empty_sides(view, view.ids(), best_tree(view, branching_cost, f, i)),
    decreases f, i,
{
    assert(view.feature_instances.len() == view.feature_instances@.len());
    if i > 0 {
        d2_has_no_empty_sides(view, branching_cost, f, i - 1);
        assert(view.possible_split_values@[f].len() == view.splits(f).len());
        let root = RootSplit {
            view,
            branching_cost,
            feature: f as usize,
            index: (i - 1) as usize,
        };
        side_has_no_empty_sides(view, root.left_ids(), branching_cost);
        side_has_no_empty_sides(view, root.right_ids(), branching_cost);
        if real_split(view, view.ids(), f, view.splits(f)[i - 1].feature_value as int) {
            assert(no_empty_sides(view, view.ids(), best_below(root)));
        }
    } else if f > 0 {
        d2_has_no_empty_sides(view, branching_cost, f - 1, view.splits(f - 1).len() as int);
    }
}

/// What the attempts hold in their scratch sums before never reaches the current bests: two attempts
/// that differ in nothing but their scratch sums come to the same bests.
pub proof fn scratch_sums_do_not_matter<OT: OptimizationTask>(
    best: Seq<D1ScoreTracker<OT>>,
    scratch: (OT::CostSumType, OT::CostSumType),
    best_after: Seq<D1ScoreTracker<OT>>,
    scratch_after: (OT::CostSumType, OT::CostSumType),
    other_scratch: (OT::CostSumType, OT::CostSumType),
    other_best_after: Seq<D1ScoreTracker<OT>>,
    other_scratch_after: (OT::CostSumType, OT::CostSumType),
    branching_cost: OT::CostType,
    range: Range<usize>,
    data: Seq<OT::InstanceType>,
    parts: spec_fn(int) -> Set<int>,
    lefts: spec_fn(int) -> Set<int>,
    feature: usize,
    lower: i32,
    upper: i32,
)
    requires
        attempted(
            best,
            scratch,
            best_after,
            scratch_after,
            branching_cost,
            range,
            data,
            parts,
            lefts,
            feature,
            lower,
            upper,
        ),
        attempted(
            best,
            other_scratch,
            other_best_after,
            other_scratch_after,
            branching_cost,
            range,
            data,
            parts,
            lefts,
            feature,
            lower,
            upper,
        ),
    ensures
        best_after == other_best_after,
{
}

/// Nothing is lost by leaving out empty splits: a split that is strictly cheaper than the leaf leaves
/// something on either side.
pub proof fn only_real_splits_pay<OT: OptimizationTask>(
    view: DataView<OT>,
    part: Set<int>,
    branching_cost: OT::CostType,
    candidate: Candidate<OT>,
)
    requires
        sound_costs::<OT::CostType>(),
        part.subset_of(view.ids()),
        splits_fit::<OT>(view.data(), view.ids(), branching_cost),
        possible_costs::<OT>(view.data(), view.ids(), branching_cost),
        splits_part(view, part, candidate),
        candidate.total(branching_cost).undercuts(OT::CostSumType::cost_of(view.data(), part)),
    ensures
        real_candidate(view, part, candidate),
{
    let (f, lower, upper) = choose|f: int, lower: i32, upper: i32|
        0 <= f < view.feature_instances@.len() && candidate == #[trigger] split_at(
            view,
            part,
            f,
            lower,
            upper,
        );
    let data = view.data();
    let left = view.up_to(part, f, lower as int);
    let right = view.beyond(part, f, lower as int);
    assert(split_fits::<OT>(data, left, right, branching_cost));
    let a = OT::CostSumType::cost_of(data, left);
    let b = OT::CostSumType::cost_of(data, right);
    let leaves = plus(a, b);
    assert(addable(a, b) && addable(leaves, branching_cost));
    let leaf = OT::CostSumType::cost_of(data, part);
    assert(a.possible() && b.possible() && leaf.possible());
    assert(leaves.possible());
    assert(plus(leaves, branching_cost).undercuts(leaf));
    assert(plus(a, b).undercuts(leaf));
    assert(a.undercuts(leaf) && b.undercuts(leaf));
    if !real_split(view, part, f, lower as int) {
        assert forall|k: int| part.contains(k) implies left.contains(k) || right.contains(k) by {}
        if exists|k: int| left.contains(k) {
            assert(forall|k: int| !right.contains(k));
            assert(left =~= part);
        } else {
            assert(right =~= part);
        }
    }
}

/// For a given split at the root, the exhaustive search of its two sides does at least as well as
/// what the search for a node with depth two tries below it: where costs are exact and the workers
/// may stop, the latter is not strictly cheaper.
pub proof fn exhaustive_sides_do_as_well<OT: OptimizationTask>(
    root: RootSplit<OT>,
    orders: Seq<Seq<int>>,
)
    requires
        root.valid(),
        exact_costs::<OT::CostType>(),
        costs_possible(root),
        finished(root, orders),
    ensures
        !best_below(root).total().undercuts(root.outcome(after_schedule(root, orders)).total()),
{
    lemma_side_cost(root.view, root.left_ids(), root.branching_cost);
    lemma_side_cost(root.view, root.right_ids(), root.branching_cost);
    let left = best_side(root.view, root.left_ids(), root.branching_cost);
    let right = best_side(root.view, root.right_ids(), root.branching_cost);
    outcome_is_optimal(
        root,
        orders,
        left.total(root.branching_cost),
        right.total(root.branching_cost),
    );
}

/// A tree of depth one does not beat the search for a node with depth two: no possible split that
/// was tried at the root is, with leaves on its two sides, strictly cheaper.
pub proof fn d2_is_not_beaten_by_depth_one<OT: OptimizationTask>(
    view: DataView<OT>,
    branching_cost: OT::CostType,
    f: int,
    i: int,
    feature: int,
    index: int,
)
    requires
        view.valid(),
        trees_fit::<OT>(view.data(), view.ids(), branching_cost),
        additive_costs::<OT::CostType>(),
        0 <= f <= view.feature_instances@.len(),
        f < view.feature_instances@.len() ==> 0 <= i <= view.splits(f).len(),
        f == view.feature_instances@.len() ==> i == 0,
        tried(view, f, i, feature, index),
    ensures
        !split_cost(
            view,
            view.ids(),
            branching_cost,
            feature,
            view.splits(feature)[index].feature_value as int,
        ).undercuts(best_tree(view, branching_cost, f, i).total()),
{
    assert(view.feature_instances.len() == view.feature_instances@.len());
    assert(view.possible_split_values@[feature].len() == view.splits(feature).len());
    let root = RootSplit {
        view,
        branching_cost,
        feature: feature as usize,
        index: index as usize,
    };
    let left = OT::CostSumType::cost_of(view.data(), root.left_ids());
    let right = OT::CostSumType::cost_of(view.data(), root.right_ids());
    let l = best_side(view, root.left_ids(), branching_cost).total(branching_cost);
    let r = best_side(view, root.right_ids(), branching_cost).total(branching_cost);
    side_is_best_of_tried(view, root.left_ids(), branching_cost);
    side_is_best_of_tried(view, root.right_ids(), branching_cost);
    lemma_side_cost(view, root.left_ids(), branching_cost);
    lemma_side_cost(view, root.right_ids(), branching_cost);
    lemma_nodes_fit(root, left, right);
    lemma_nodes_fit(root, l, right);
    lemma_nodes_fit(root, l, r);
    assert(no_dearer(plus(l, right), plus(left, right)));
    assert(no_dearer(plus(l, r), plus(l, right)));
    assert(no_dearer(plus(l, r), plus(left, right)));
    let cost = plus(plus(left, right), branching_cost);
    let below = best_below(root).total();
    assert(no_dearer(below, cost));
    d2_is_best_of_tried(view, branching_cost, f, i);
    let total = best_tree(view, branching_cost, f, i).total();
    assert(!below.undercuts(total));
    if cost.undercuts(total) {
        assert(below.undercuts(total));
    }
}

/// No two instances of the view have the same value of feature `f`.
pub open spec fn values_differ<OT: OptimizationTask>(view: DataView<OT>, f: int) -> bool {
    forall|p: int, q: int|
        0 <= p < q < view.entries(f).len() ==> view.entries(f)[p].feature_value != view.entries(
            f,
        )[q].feature_value
}

/// No two instances of the view have the same value of any feature, and every feature has possible
/// splits.
pub open spec fn all_values_differ<OT: OptimizationTask>(view: DataView<OT>) -> bool {
    forall|f: int|
        0 <= f < view.feature_instances@.len() ==> #[trigger] values_differ(view, f)
            && view.splits(f).len() > 0
}

/// Where the values of a feature differ, the search of a side is exhaustive on that feature: if it
/// has possible splits at all, no split of the side on it that leaves something on either side is
/// strictly cheaper than what is found.
pub proof fn side_is_exhaustive_where_values_differ<OT: OptimizationTask>(
    view: DataView<OT>,
    part: Set<int>,
    branching_cost: OT::CostType,
    f: int,
    bound: int,
)
    requires
        view.valid(),
        ordered_costs::<OT::CostType>(),
        part.subset_of(view.ids()),
        real_split(view, part, f, bound),
        values_differ(view, f),
        view.splits(f).len() > 0,
    ensures
        !split_cost(view, part, branching_cost, f, bound).undercuts(
            best_side(view, part, branching_cost).total(branching_cost),
        ),
{
    let n = view.feature_instances@.len() as int;
    let ids = view.ids();
    let entries = view.entries(f);
    assert(view.covers(ids));
    assert(view.in_order(f));
    assert(lists(view.entries(f), ids));
    let low = choose|k: int| view.up_to(part, f, bound).contains(k);
    let high = choose|k: int| view.beyond(part, f, bound).contains(k);
    assert(entry_ids(entries).contains(low) && entry_ids(entries).contains(high));
    let q = choose|q: int| 0 <= q < entries.len() && entries[q].instance_id == low;
    let r = choose|r: int| 0 <= r < entries.len() && entries[r].instance_id == high;
    assert(entries[q].feature_value == view.dataset.value(f, low));
    assert(entries[r].feature_value == view.dataset.value(f, high));
    let a = lemma_last_up_to(view, part, f, bound, q, entries.len() as int);
    if r <= a {
        assert(entries[r].feature_value <= entries[a].feature_value);
    }
    let lower = entries[a].feature_value;
    let upper = entries[a + 1].feature_value;
    let last = entries[a].instance_id as int;
    assert(lower == view.dataset.value(f, last));
    assert forall|k: int| #[trigger] part.contains(k) implies (view.dataset.value(f, k) <= lower
        <==> view.dataset.value(f, k) <= bound) by {
        assert(entry_ids(entries).contains(k));
        let s = choose|s: int| 0 <= s < entries.len() && entries[s].instance_id == k;
        assert(entries[s].feature_value == view.dataset.value(f, k));
        if view.dataset.value(f, k) <= bound && s <= a {
            assert(entries[s].feature_value <= entries[a].feature_value);
        }
    }
    assert(view.up_to(part, f, lower as int) =~= view.up_to(part, f, bound));
    assert(view.beyond(part, f, lower as int) =~= view.beyond(part, f, bound));
    assert(real_split(view, part, f, lower as int));
    let next = split_at(view, part, f, lower, upper);
    assert(entries.take(entries.len() as int) =~= entries);
    let j = lemma_change_met(view, part, f, a + 1, entries.len() as int);
    let m = lemma_change_among_all(view, part, f, n, j);
    side_is_best_of_tried(view, part, branching_cost);
    assert(changes(view, part, n)[m] == next);
    assert(next.total(branching_cost) == split_cost(view, part, branching_cost, f, bound));
}

/// The last of the first `m` entries that lies in the part and on the left side of the bound.
proof fn lemma_last_up_to<OT: OptimizationTask>(
    view: DataView<OT>,
    part: Set<int>,
    f: int,
    bound: int,
    q: int,
    m: int,
) -> (a: int)
    requires
        0 <= q < m <= view.entries(f).len(),
        part.contains(view.entries(f)[q].instance_id as int),
        view.entries(f)[q].feature_value <= bound,
    ensures
        q <= a < m,
        part.contains(view.entries(f)[a].instance_id as int),
        view.entries(f)[a].feature_value <= bound,
        forall|s: int|
            a < s < m && part.contains((#[trigger] view.entries(f)[s]).instance_id as int)
                ==> view.entries(f)[s].feature_value > bound,
    decreases m,
{
    let last = view.entries(f)[m - 1];
    if part.contains(last.instance_id as int) && last.feature_value <= bound {
        m - 1
    } else {
        lemma_last_up_to(view, part, f, bound, q, m - 1)
    }
}

/// A change of the value right after an entry of the part is met, if something of the part is left.
pub proof fn lemma_change_met<OT: OptimizationTask>(
    view: DataView<OT>,
    part: Set<int>,
    f: int,
    p: int,
    m: int,
) -> (j: int)
    requires
        0 < p < m <= view.entries(f).len(),
        view.entries(f)[p - 1].feature_value != view.entries(f)[p].feature_value,
        part.contains(view.entries(f)[p - 1].instance_id as int),
        real_split(view, part, f, view.entries(f)[p - 1].feature_value as int),
    ensures
        ({
            let found = changes_along(view, part, f, view.entries(f).take(m));
            &&& 0 <= j < found.len()
            &&& found[j] == split_at(
                view,
                part,
                f,
                view.entries(f)[p - 1].feature_value,
                view.entries(f)[p].feature_value,
            )
        }),
    decreases m,
{
    let entries = view.entries(f).take(m);
    assert(entries.drop_last() =~= view.entries(f).take(m - 1));
    let found = changes_along(view, part, f, entries.drop_last());
    if p < m - 1 {
        lemma_change_met(view, part, f, p, m - 1)
    } else {
        found.len() as int
    }
}

/// What is tried on one feature is among what is tried on all.
pub proof fn lemma_change_among_all<OT: OptimizationTask>(
    view: DataView<OT>,
    part: Set<int>,
    f: int,
    n: int,
    j: int,
) -> (m: int)
    requires
        0 <= f < n,
        view.splits(f).len() > 0,
        0 <= j < changes_along(view, part, f, view.entries(f)).len(),
    ensures
        0 <= m < changes(view, part, n).len(),
        changes(view, part, n)[m] == changes_along(view, part, f, view.entries(f))[j],
    decreases n,
{
    if f == n - 1 {
        changes(view, part, n - 1).len() + j
    } else {
        lemma_change_among_all(view, part, f, n - 1, j)
    }
}

/// Where the values of every feature differ, the search for a node with depth two is exhaustive
/// below each possible split: if costs are exact and every feature has possible splits, put below a
/// split that was tried any two trees of depth at most one that are made for its sides and have no
/// empty sides themselves, and the whole is not strictly cheaper than the tree that is found.
pub proof fn d2_is_optimal_where_values_differ<OT: OptimizationTask>(
    view: DataView<OT>,
    branching_cost: OT::CostType,
    f: int,
    i: int,
    feature: int,
    index: int,
    left: Tree<OT>,
    right: Tree<OT>,
)
    requires
        view.valid(),
        trees_fit::<OT>(view.data(), view.ids(), branching_cost),
        exact_costs::<OT::CostType>(),
        possible_costs::<OT>(view.data(), view.ids(), branching_cost),
        all_values_differ(view),
        0 <= f <= view.feature_instances@.len(),
        f < view.feature_instances@.len() ==> 0 <= i <= view.splits(f).len(),
        f == view.feature_instances@.len() ==> i == 0,
        tried(view, f, i, feature, index),
        left.depth() <= 1,
        right.depth() <= 1,
        ({
            let bound = view.splits(feature)[index].feature_value as int;
            let left_ids = view.up_to(view.ids(), feature, bound);
            let right_ids = view.beyond(view.ids(), feature, bound);
            &&& view.fits_tree(left_ids, branching_cost, left)
            &&& view.fits_tree(right_ids, branching_cost, right)
            &&& no_empty_sides(view, left_ids, left)
            &&& no_empty_sides(view, right_ids, right)
        }),
    ensures
        !plus(plus(left.total(), right.total()), branching_cost).undercuts(
            best_tree(view, branching_cost, f, i).total(),
        ),
{
    assert(view.feature_instances.len() == view.feature_instances@.len());
    assert(view.possible_split_values@[feature].len() == view.splits(feature).len());
    let root = RootSplit {
        view,
        branching_cost,
        feature: feature as usize,
        index: index as usize,
    };
    let l = best_side(view, root.left_ids(), branching_cost).total(branching_cost);
    let r = best_side(view, root.right_ids(), branching_cost).total(branching_cost);
    lemma_side_unbeaten(view, root.left_ids(), branching_cost);
    lemma_side_unbeaten(view, root.right_ids(), branching_cost);
    lemma_side_cost(view, root.left_ids(), branching_cost);
    lemma_side_cost(view, root.right_ids(), branching_cost);
    tree_costs(view, root.left_ids(), branching_cost, left);
    tree_costs(view, root.right_ids(), branching_cost, right);
    lemma_unbeaten(view, root.left_ids(), branching_cost, l, left.total());
    lemma_unbeaten(view, root.right_ids(), branching_cost, r, right.total());
    lemma_better_sides(root, left.total(), right.total(), l, r);
    d2_is_best_of_tried(view, branching_cost, f, i);
    let cost = plus(plus(left.total(), right.total()), branching_cost);
    let below = best_below(root).total();
    let total = best_tree(view, branching_cost, f, i).total();
    assert(!cost.undercuts(below) && !below.undercuts(total));
    if cost.undercuts(total) {
        assert(cost.undercuts(below) || below.undercuts(total));
    }
}

/// Where the values of every feature differ, nothing beats what is found for a side.
proof fn lemma_side_unbeaten<OT: OptimizationTask>(
    view: DataView<OT>,
    part: Set<int>,
    branching_cost: OT::CostType,
)
    requires
        view.valid(),
        ordered_costs::<OT::CostType>(),
        part.subset_of(view.ids()),
        all_values_differ(view),
    ensures
        unbeaten(
            view,
            part,
            branching_cost,
            best_side(view, part, branching_cost).total(branching_cost),
        ),
{
    let total = best_side(view, part, branching_cost).total(branching_cost);
    side_is_best_of_tried(view, part, branching_cost);
    lemma_leaf_unbeaten(OT::CostSumType::cost_of(view.data(), part), total);
    assert forall|f: int, bound: int| real_split(view, part, f, bound) implies !(
    #[trigger] split_cost(view, part, branching_cost, f, bound)).undercuts(total) by {
        assert(values_differ(view, f));
        side_is_exhaustive_where_values_differ(view, part, branching_cost, f, bound);
    }
}

/// Below the root, the search for a node with depth two splits halfway between two values that both
/// occur in the view, with none in between. They need not both occur in the side that is split.
pub proof fn sides_split_between_neighbours<OT: OptimizationTask>(
    view: DataView<OT>,
    part: Set<int>,
    branching_cost: OT::CostType,
)
    requires
        view.valid(),
    ensures
        between_neighbours(
            view,
            view.ids(),
            best_side(view, part, branching_cost).tree(branching_cost),
        ),
{
    let n = view.feature_instances@.len() as int;
    let ids = view.ids();
    lemma_changes_snug(view, part, n);
    lemma_stays_snug(
        view,
        part,
        ids,
        branching_cost,
        D1ScoreTracker::unsplit(leaf_of::<OT>(view.data(), part)),
        changes(view, part, n),
    );
    snug_is_between_neighbours(
        view,
        part,
        ids,
        branching_cost,
        best_side(view, part, branching_cost),
    );
}

proof fn lemma_changes_snug<OT: OptimizationTask>(view: DataView<OT>, part: Set<int>, n: int)
    requires
        view.valid(),
        0 <= n <= view.feature_instances@.len(),
    ensures
        all_snug(view, part, view.ids(), changes(view, part, n)),
    decreases n,
{
    if n > 0 {
        let entries = view.entries(n - 1);
        lemma_changes_snug(view, part, n - 1);
        lemma_changes_along_snug(view, part, n - 1, entries.len() as int);
        assert(entries.take(entries.len() as int) =~= entries);
    }
}

proof fn lemma_changes_along_snug<OT: OptimizationTask>(
    view: DataView<OT>,
    part: Set<int>,
    f: int,
    p: int,
)
    requires
        view.valid(),
        0 <= f < view.feature_instances@.len(),
        0 <= p <= view.entries(f).len(),
    ensures
        all_snug(
            view,
            part,
            view.ids(),
            changes_along(view, part, f, view.entries(f).take(p)),
        ),
    decreases p,
{
    let ids = view.ids();
    let entries = view.entries(f);
    if p >= 2 {
        lemma_changes_along_snug(view, part, f, p - 1);
        assert(entries.take(p).drop_last() =~= entries.take(p - 1));
        assert(view.covers(ids));
        assert(view.in_order(f));
        assert(lists(view.entries(f), ids));
        let (lower, upper) = (entries[p - 2].feature_value, entries[p - 1].feature_value);
        if lower != upper {
            assert(entries[p - 2].feature_value <= entries[p - 1].feature_value);
            let low = entries[p - 2].instance_id as int;
            let high = entries[p - 1].instance_id as int;
            assert(entry_ids(entries).contains(low) && entry_ids(entries).contains(high));
            assert(ids.contains(low) && ids.contains(high));
            assert(view.dataset.value(f, low) == lower && view.dataset.value(f, high) == upper);
            assert forall|k: int| #[trigger] ids.contains(k) implies view.dataset.value(f, k)
                <= lower || upper <= view.dataset.value(f, k) by {
                assert(entry_ids(entries).contains(k));
                let q = choose|q: int| 0 <= q < entries.len() && entries[q].instance_id == k;
                assert(entries[q].feature_value == view.dataset.value(f, k));
                if q >= p - 1 {
                    assert(entries[p - 1].feature_value <= entries[q].feature_value);
                } else {
                    assert(entries[q].feature_value <= entries[p - 2].feature_value);
                }
            }
            assert(neighbours(view, ids, f, lower, upper));
            assert(neighbour_candidate(view, part, ids, split_at(view, part, f, lower, upper)));
        }
    }
}

/// What is found for a side costs what a leaf or a split of that side costs.
pub proof fn lemma_side_cost<OT: OptimizationTask>(
    view: DataView<OT>,
    part: Set<int>,
    branching_cost: OT::CostType,
)
    requires
        view.valid(),
        part.subset_of(view.ids()),
        splits_fit::<OT>(view.data(), view.ids(), branching_cost),
    ensures
        side_cost(
            view,
            part,
            branching_cost,
            best_side(view, part, branching_cost).total(branching_cost),
        ),
{
    let found = best_side(view, part, branching_cost);
    lemma_best_side(view, part, branching_cost);
    tracker_fits(view, part, branching_cost, found);
    side_has_no_empty_sides(view, part, branching_cost);
    tree_costs(view, part, branching_cost, found.tree(branching_cost));
}

} // verus!
