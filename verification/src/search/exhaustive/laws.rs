//! What the searches find is what they are meant to find.

use vstd::prelude::*;

use crate::model::dataview::{entries_within, entry_ids, lists, DataView, FeatureValue};
use crate::model::tree::{leaf_of, Threshold, Tree};
use crate::search::exhaustive::candidates::{
    all_candidates, all_split, consider_all, feature_candidates, lemma_all_candidates_split,
    lemma_feature_among_all, lemma_last_within, lemma_split_fits, lemma_step, lemma_tracks,
    meets_optimum, one_split_cost, real_split, scan, split_at, splits_along, splits_fit,
    splits_part, tracks,
};
use crate::search::exhaustive::depth_one::d1_tree;
use crate::search::exhaustive::tracker::{Candidate, D1ScoreTracker};
use crate::tasks::{addable, ordered_costs, plus, sound_costs, Cost, CostSum, OptimizationTask};

verus! {

/// `after` is `before`, or strictly less.
pub open spec fn no_dearer<C: Cost>(after: C, before: C) -> bool {
    after == before || after.undercuts(before)
}

/// What does not beat a cost does not beat a better one either.
pub proof fn lemma_no_dearer<C: Cost>(after: C, before: C, other: C)
    requires
        ordered_costs::<C>(),
        no_dearer(after, before),
        !other.undercuts(before),
    ensures
        !other.undercuts(after),
{
    if after != before && other.undercuts(after) {
        assert(after.undercuts(before));
        assert(other.undercuts(before));
    }
}

/// A tracker never gets more expensive, nor does it end up above the candidate.
pub proof fn considering_pays_off<OT: OptimizationTask>(
    tracker: D1ScoreTracker<OT>,
    branching_cost: OT::CostType,
    candidate: Candidate<OT>,
)
    requires
        ordered_costs::<OT::CostType>(),
    ensures
        ({
            let after = tracker.consider(branching_cost, candidate).total(branching_cost);
            &&& no_dearer(after, tracker.total(branching_cost))
            &&& !candidate.total(branching_cost).undercuts(after)
        }),
{
    let new_total = candidate.total(branching_cost);
    assert(!new_total.undercuts(new_total));
}

/// The cost of the candidate can be computed, and is made up of possible costs.
pub open spec fn sane<OT: OptimizationTask>(
    candidate: Candidate<OT>,
    branching_cost: OT::CostType,
) -> bool {
    &&& candidate.fits(branching_cost)
    &&& candidate.left.cost.possible()
    &&& candidate.right.cost.possible()
}

/// The costs of all the candidates can be computed, and are made up of possible costs.
pub open spec fn all_sane<OT: OptimizationTask>(
    candidates: Seq<Candidate<OT>>,
    branching_cost: OT::CostType,
) -> bool {
    forall|j: int| 0 <= j < candidates.len() ==> sane(#[trigger] candidates[j], branching_cost)
}

/// The cost of the tracker can be computed, and is made up of possible costs.
pub open spec fn sane_tracker<OT: OptimizationTask>(
    tracker: D1ScoreTracker<OT>,
    branching_cost: OT::CostType,
) -> bool {
    &&& tracker.valid(branching_cost)
    &&& tracker.leaf_cost.possible()
}

/// No split beats a tracker that is optimal.
pub proof fn optimal_is_unbeaten<OT: OptimizationTask>(
    tracker: D1ScoreTracker<OT>,
    branching_cost: OT::CostType,
    candidate: Candidate<OT>,
)
    requires
        sound_costs::<OT::CostType>(),
        branching_cost.possible(),
        sane_tracker(tracker, branching_cost),
        tracker.optimal(branching_cost),
        sane(candidate, branching_cost),
    ensures
        !candidate.total(branching_cost).undercuts(tracker.total(branching_cost)),
{
    let leaf = tracker.leaf_cost;
    let other = candidate.leaf_cost();
    let total = candidate.total(branching_cost);
    assert(addable(candidate.left.cost, candidate.right.cost));
    assert(other.possible());
    if total.undercuts(tracker.total(branching_cost)) {
        if tracker.feature is Some {
            assert(plus(other, branching_cost).undercuts(plus(leaf, branching_cost)));
            assert(other.undercuts(leaf));
        } else {
            assert(plus(other, branching_cost).undercuts(leaf));
            assert(other.undercuts(leaf) && branching_cost.undercuts(leaf));
        }
    }
}

/// Considering a candidate of possible costs leaves a tracker with possible costs.
proof fn lemma_consider_sane<OT: OptimizationTask>(
    tracker: D1ScoreTracker<OT>,
    branching_cost: OT::CostType,
    candidate: Candidate<OT>,
)
    requires
        sound_costs::<OT::CostType>(),
        sane_tracker(tracker, branching_cost),
        sane(candidate, branching_cost),
    ensures
        sane_tracker(tracker.consider(branching_cost, candidate), branching_cost),
{
    assert(addable(candidate.left.cost, candidate.right.cost));
}

/// Neither where the tracker comes from nor any of the candidates beats what a scan ends with, also
/// where it stops early.
pub proof fn scan_is_unbeaten<OT: OptimizationTask>(
    tracker: D1ScoreTracker<OT>,
    branching_cost: OT::CostType,
    candidates: Seq<Candidate<OT>>,
)
    requires
        sound_costs::<OT::CostType>(),
        branching_cost.possible(),
        sane_tracker(tracker, branching_cost),
        all_sane(candidates, branching_cost),
    ensures
        ({
            let found = scan(tracker, branching_cost, candidates);
            &&& sane_tracker(found, branching_cost)
            &&& no_dearer(found.total(branching_cost), tracker.total(branching_cost))
            &&& forall|j: int|
                0 <= j < candidates.len() ==> !(#[trigger] candidates[j]).total(
                    branching_cost,
                ).undercuts(found.total(branching_cost))
        }),
    decreases candidates.len(),
{
    let found = scan(tracker, branching_cost, candidates);
    if candidates.len() > 0 {
        let rest = candidates.drop_last();
        assert forall|j: int| 0 <= j < rest.len() implies sane(
            #[trigger] rest[j],
            branching_cost,
        ) by {
            assert(rest[j] == candidates[j]);
        }
        scan_is_unbeaten(tracker, branching_cost, rest);
        let before = scan(tracker, branching_cost, rest);
        let last = candidates.last();
        assert(last == candidates[candidates.len() - 1]);
        if before.optimal(branching_cost) {
            optimal_is_unbeaten(before, branching_cost, last);
        } else {
            considering_pays_off(before, branching_cost, last);
            lemma_consider_sane(before, branching_cost, last);
        }
        let b = before.total(branching_cost);
        let a = found.total(branching_cost);
        assert(no_dearer(a, b));
        assert forall|j: int| 0 <= j < candidates.len() implies !(#[trigger] candidates[j]).total(
            branching_cost,
        ).undercuts(a) by {
            if j < rest.len() {
                assert(rest[j] == candidates[j]);
                lemma_no_dearer(a, b, rest[j].total(branching_cost));
            }
        }
    }
}

/// Neither where the tracker comes from nor any of the candidates beats what considering all of
/// them ends with.
pub proof fn consider_all_is_unbeaten<OT: OptimizationTask>(
    tracker: D1ScoreTracker<OT>,
    branching_cost: OT::CostType,
    candidates: Seq<Candidate<OT>>,
)
    requires
        ordered_costs::<OT::CostType>(),
    ensures
        ({
            let found = consider_all(tracker, branching_cost, candidates);
            &&& no_dearer(found.total(branching_cost), tracker.total(branching_cost))
            &&& forall|j: int|
                0 <= j < candidates.len() ==> !(#[trigger] candidates[j]).total(
                    branching_cost,
                ).undercuts(found.total(branching_cost))
        }),
    decreases candidates.len(),
{
    let found = consider_all(tracker, branching_cost, candidates);
    if candidates.len() > 0 {
        let rest = candidates.drop_last();
        consider_all_is_unbeaten(tracker, branching_cost, rest);
        let before = consider_all(tracker, branching_cost, rest);
        let last = candidates.last();
        assert(last == candidates[candidates.len() - 1]);
        considering_pays_off(before, branching_cost, last);
        let b = before.total(branching_cost);
        let a = found.total(branching_cost);
        assert forall|j: int| 0 <= j < candidates.len() implies !(#[trigger] candidates[j]).total(
            branching_cost,
        ).undercuts(a) by {
            if j < rest.len() {
                assert(rest[j] == candidates[j]);
                lemma_no_dearer(a, b, rest[j].total(branching_cost));
            }
        }
    }
}

/// Once an optimum was met, no split beats the tracker any more.
pub proof fn met_optimum_is_unbeaten<OT: OptimizationTask>(
    tracker: D1ScoreTracker<OT>,
    branching_cost: OT::CostType,
    candidates: Seq<Candidate<OT>>,
    candidate: Candidate<OT>,
)
    requires
        sound_costs::<OT::CostType>(),
        branching_cost.possible(),
        sane_tracker(tracker, branching_cost),
        all_sane(candidates, branching_cost),
        meets_optimum(tracker, branching_cost, candidates),
        sane(candidate, branching_cost),
    ensures
        !candidate.total(branching_cost).undercuts(
            consider_all(tracker, branching_cost, candidates).total(branching_cost),
        ),
    decreases candidates.len(),
{
    let found = consider_all(tracker, branching_cost, candidates);
    let rest = candidates.drop_last();
    assert forall|j: int| 0 <= j < rest.len() implies sane(#[trigger] rest[j], branching_cost) by {
        assert(rest[j] == candidates[j]);
    }
    if found.optimal(branching_cost) {
        lemma_consider_all_sane(tracker, branching_cost, candidates);
        optimal_is_unbeaten(found, branching_cost, candidate);
    } else {
        met_optimum_is_unbeaten(tracker, branching_cost, rest, candidate);
        let before = consider_all(tracker, branching_cost, rest);
        considering_pays_off(before, branching_cost, candidates.last());
        lemma_no_dearer(
            found.total(branching_cost),
            before.total(branching_cost),
            candidate.total(branching_cost),
        );
    }
}

/// Considering candidates of possible costs leaves a tracker with possible costs.
pub proof fn lemma_consider_all_sane<OT: OptimizationTask>(
    tracker: D1ScoreTracker<OT>,
    branching_cost: OT::CostType,
    candidates: Seq<Candidate<OT>>,
)
    requires
        sound_costs::<OT::CostType>(),
        sane_tracker(tracker, branching_cost),
        all_sane(candidates, branching_cost),
    ensures
        sane_tracker(consider_all(tracker, branching_cost, candidates), branching_cost),
    decreases candidates.len(),
{
    if candidates.len() > 0 {
        let rest = candidates.drop_last();
        assert forall|j: int| 0 <= j < rest.len() implies sane(
            #[trigger] rest[j],
            branching_cost,
        ) by {
            assert(rest[j] == candidates[j]);
        }
        lemma_consider_all_sane(tracker, branching_cost, rest);
        assert(candidates.last() == candidates[candidates.len() - 1]);
        lemma_consider_sane(
            consider_all(tracker, branching_cost, rest),
            branching_cost,
            candidates.last(),
        );
    }
}

/// The price of branching and the cost of every part of `ids` are possible costs.
pub open spec fn possible_costs<OT: OptimizationTask>(
    data: Seq<OT::InstanceType>,
    ids: Set<int>,
    branching_cost: OT::CostType,
) -> bool {
    &&& branching_cost.possible()
    &&& forall|part: Set<int>|
        part.subset_of(ids) ==> (#[trigger] OT::CostSumType::cost_of(data, part)).possible()
}

/// The costs of splits of a part can be computed, and are made up of possible costs.
pub proof fn lemma_splits_sane<OT: OptimizationTask>(
    view: DataView<OT>,
    part: Set<int>,
    branching_cost: OT::CostType,
    candidates: Seq<Candidate<OT>>,
)
    requires
        part.subset_of(view.ids()),
        splits_fit::<OT>(view.data(), view.ids(), branching_cost),
        possible_costs::<OT>(view.data(), view.ids(), branching_cost),
        all_split(view, part, candidates),
    ensures
        all_sane(candidates, branching_cost),
{
    assert forall|j: int| 0 <= j < candidates.len() implies sane(
        #[trigger] candidates[j],
        branching_cost,
    ) by {
        lemma_split_sane(view, part, branching_cost, candidates[j]);
    }
}

/// The cost of a split of a part can be computed, and is made up of possible costs.
pub proof fn lemma_split_sane<OT: OptimizationTask>(
    view: DataView<OT>,
    part: Set<int>,
    branching_cost: OT::CostType,
    candidate: Candidate<OT>,
)
    requires
        part.subset_of(view.ids()),
        splits_fit::<OT>(view.data(), view.ids(), branching_cost),
        possible_costs::<OT>(view.data(), view.ids(), branching_cost),
        splits_part(view, part, candidate),
    ensures
        sane(candidate, branching_cost),
{
    lemma_split_fits(view, part, branching_cost, candidate);
    let (f, lower, upper) = choose|f: int, lower: i32, upper: i32|
        0 <= f < view.feature_instances@.len() && candidate == #[trigger] split_at(
            view,
            part,
            f,
            lower,
            upper,
        );
    assert(view.up_to(part, f, lower as int).subset_of(view.ids()));
    assert(view.beyond(part, f, lower as int).subset_of(view.ids()));
}

/// A tracker only ever takes over candidates that it was given.
pub proof fn found_among_candidates<OT: OptimizationTask>(
    tracker: D1ScoreTracker<OT>,
    branching_cost: OT::CostType,
    candidates: Seq<Candidate<OT>>,
)
    ensures
        comes_from(tracker, candidates, consider_all(tracker, branching_cost, candidates)),
        comes_from(tracker, candidates, scan(tracker, branching_cost, candidates)),
    decreases candidates.len(),
{
    if candidates.len() > 0 {
        let rest = candidates.drop_last();
        found_among_candidates(tracker, branching_cost, rest);
        lemma_comes_from_more(tracker, candidates, consider_all(tracker, branching_cost, rest));
        lemma_comes_from_more(tracker, candidates, scan(tracker, branching_cost, rest));
        assert(candidates.last() == candidates[candidates.len() - 1]);
    }
}

/// The tracker `found` is `tracker`, or stands for one of the candidates.
pub open spec fn comes_from<OT: OptimizationTask>(
    tracker: D1ScoreTracker<OT>,
    candidates: Seq<Candidate<OT>>,
    found: D1ScoreTracker<OT>,
) -> bool {
    found == tracker || exists|j: int|
        0 <= j < candidates.len() && found == D1ScoreTracker::split(#[trigger] candidates[j])
}

proof fn lemma_comes_from_more<OT: OptimizationTask>(
    tracker: D1ScoreTracker<OT>,
    candidates: Seq<Candidate<OT>>,
    found: D1ScoreTracker<OT>,
)
    requires
        candidates.len() > 0,
        comes_from(tracker, candidates.drop_last(), found),
    ensures
        comes_from(tracker, candidates, found),
{
    let rest = candidates.drop_last();
    if found != tracker {
        let j = choose|j: int|
            0 <= j < rest.len() && found == D1ScoreTracker::split(#[trigger] rest[j]);
        assert(rest[j] == candidates[j]);
    }
}

/// What it costs to split the part at the bound on feature `f`.
pub open spec fn split_cost<OT: OptimizationTask>(
    view: DataView<OT>,
    part: Set<int>,
    branching_cost: OT::CostType,
    f: int,
    bound: int,
) -> OT::CostType {
    one_split_cost::<OT>(
        view.data(),
        view.up_to(part, f, bound),
        view.beyond(part, f, bound),
        branching_cost,
    )
}

/// The candidate divides the part like the bound on feature `f` does.
pub open spec fn divides<OT: OptimizationTask>(
    view: DataView<OT>,
    part: Set<int>,
    f: int,
    bound: int,
    candidate: Candidate<OT>,
) -> bool {
    &&& candidate.feature == f
    &&& candidate.lower <= bound < candidate.upper
    &&& candidate.left == leaf_of::<OT>(view.data(), view.up_to(part, f, bound))
    &&& candidate.right == leaf_of::<OT>(view.data(), view.beyond(part, f, bound))
}

/// No tree of depth at most one for the part is strictly cheaper than `cost`: neither a leaf nor a
/// split that leaves something on both sides.
pub open spec fn unbeaten<OT: OptimizationTask>(
    view: DataView<OT>,
    part: Set<int>,
    branching_cost: OT::CostType,
    cost: OT::CostType,
) -> bool {
    &&& !OT::CostSumType::cost_of(view.data(), part).undercuts(cost)
    &&& forall|f: int, bound: int|
        real_split(view, part, f, bound) ==> !(#[trigger] split_cost(
            view,
            part,
            branching_cost,
            f,
            bound,
        )).undercuts(cost)
}

/// `cost` is what a leaf for the part costs, or a split of it that leaves something on both sides.
pub open spec fn side_cost<OT: OptimizationTask>(
    view: DataView<OT>,
    part: Set<int>,
    branching_cost: OT::CostType,
    cost: OT::CostType,
) -> bool {
    ||| cost == OT::CostSumType::cost_of(view.data(), part)
    ||| exists|f: int, bound: int|
        real_split(view, part, f, bound) && cost == #[trigger] split_cost(
            view,
            part,
            branching_cost,
            f,
            bound,
        )
}

/// Every branching node of a tree for the part leaves something on either side.
pub open spec fn no_empty_sides<OT: OptimizationTask>(
    view: DataView<OT>,
    part: Set<int>,
    tree: Tree<OT>,
) -> bool
    decreases tree,
{
    match tree {
        Tree::Leaf(_) => true,
        Tree::Branch(branch) => {
            let f = branch.split_feature as int;
            let bound = view.bound(f, branch.split_threshold);
            &&& real_split(view, part, f, bound)
            &&& no_empty_sides(view, view.up_to(part, f, bound), *branch.left_child)
            &&& no_empty_sides(view, view.beyond(part, f, bound), *branch.right_child)
        },
    }
}

/// A tree of depth at most one that is made for the part and has no empty sides costs what a leaf
/// or a split of the part costs.
pub proof fn tree_costs<OT: OptimizationTask>(
    view: DataView<OT>,
    part: Set<int>,
    branching_cost: OT::CostType,
    tree: Tree<OT>,
)
    requires
        view.fits_tree(part, branching_cost, tree),
        no_empty_sides(view, part, tree),
        tree.depth() <= 1,
    ensures
        side_cost(view, part, branching_cost, tree.total()),
{
    reveal_with_fuel(DataView::fits_tree, 2);
    reveal_with_fuel(Tree::depth, 2);
    match tree {
        Tree::Leaf(_) => {},
        Tree::Branch(branch) => {
            let f = branch.split_feature as int;
            let bound = view.bound(f, branch.split_threshold);
            assert(*branch.left_child is Leaf && *branch.right_child is Leaf);
            assert(tree.total() == split_cost(view, part, branching_cost, f, bound));
        },
    }
}

/// The walk along feature `f` meets every split of the part: wherever a bound leaves something of
/// the part on either side, one of the candidates divides the part in the same way.
pub proof fn every_split_is_met<OT: OptimizationTask>(
    view: DataView<OT>,
    part: Set<int>,
    f: int,
    bound: int,
)
    requires
        view.valid(),
        part.subset_of(view.ids()),
        real_split(view, part, f, bound),
    ensures
        exists|j: int|
            0 <= j < feature_candidates(view, part, f).len() && divides(
                view,
                part,
                f,
                bound,
                #[trigger] feature_candidates(view, part, f)[j],
            ),
{
    let entries = view.entries(f);
    let ids = view.ids();
    assert(view.covers(ids));
    assert(lists(view.entries(f), ids));
    assert(view.in_order(f));
    assert(entries.take(entries.len() as int) == entries);
    let low = choose|k: int| view.up_to(part, f, bound).contains(k);
    let high = choose|k: int| view.beyond(part, f, bound).contains(k);
    assert(entry_ids(entries).contains(low) && entry_ids(entries).contains(high));
    let q = choose|q: int| 0 <= q < entries.len() && entries[q].instance_id == low;
    let r = choose|r: int| 0 <= r < entries.len() && entries[r].instance_id == high;
    assert(entries[q].feature_value == view.dataset.value(f, low));
    assert(entries[r].feature_value == view.dataset.value(f, high));
    lemma_split_met(view, part, f, bound, entries.len() as int, q, r);
    let found = feature_candidates(view, part, f);
    let j = choose|j: int|
        0 <= j < found.len() && divides(view, part, f, bound, #[trigger] found[j]);
    assert(divides(view, part, f, bound, feature_candidates(view, part, f)[j]));
}

/// The walk has met the split by the time that it has seen both sides.
proof fn lemma_split_met<OT: OptimizationTask>(
    view: DataView<OT>,
    part: Set<int>,
    f: int,
    bound: int,
    p: int,
    q: int,
    r: int,
)
    requires
        view.valid(),
        part.subset_of(view.ids()),
        0 <= f < view.feature_instances@.len(),
        0 <= q < p <= view.entries(f).len(),
        0 <= r < p,
        part.contains(view.entries(f)[q].instance_id as int),
        part.contains(view.entries(f)[r].instance_id as int),
        view.entries(f)[q].feature_value <= bound < view.entries(f)[r].feature_value,
    ensures
        ({
            let found = splits_along(view, part, f, entries_within(view.entries(f).take(p), part));
            exists|j: int|
                0 <= j < found.len() && divides(view, part, f, bound, #[trigger] found[j])
        }),
    decreases p,
{
    let entries = view.entries(f);
    let ids = view.ids();
    assert(view.covers(ids));
    assert(view.in_order(f));
    lemma_step(view, ids, part, f, p - 1);
    let entry = entries[p - 1];
    let within = entries_within(entries.take(p - 1), part);
    let found = splits_along(view, part, f, within);
    let after = splits_along(view, part, f, entries_within(entries.take(p), part));
    assert(entries[q].feature_value < entries[r].feature_value);
    if r <= q {
        assert(entries[r].feature_value <= entries[q].feature_value);
    }
    if r < p - 1 {
        lemma_split_met(view, part, f, bound, p - 1, q, r);
        let j = choose|j: int|
            0 <= j < found.len() && divides(view, part, f, bound, #[trigger] found[j]);
        assert(after[j] == found[j]);
    } else {
        // The last entry lies beyond the bound.
        lemma_last_within(view, part, f, p - 1);
        assert(!part.contains(entries[q].instance_id as int) || within.len() > 0);
        let lower = within.last().feature_value;
        assert(entries[q].feature_value <= lower);
        let s = choose|s: int|
            0 <= s < p - 1 && (#[trigger] view.entries(f)[s]).feature_value == lower && part.contains(
                view.entries(f)[s].instance_id as int,
            );
        if lower > bound {
            lemma_split_met(view, part, f, bound, p - 1, q, s);
            let j = choose|j: int|
                0 <= j < found.len() && divides(view, part, f, bound, #[trigger] found[j]);
            assert(after[j] == found[j]);
        } else {
            let c = split_at(view, part, f, lower, entry.feature_value);
            assert(after == found.push(c));
            assert(after[found.len() as int] == c);
            assert(view.feature_instances.len() == view.feature_instances@.len());
            let seen = entry_ids(entries.take(p - 1));
            assert forall|k: int| part.contains(k) implies (view.dataset.value(f, k) <= lower
                <==> view.dataset.value(f, k) <= bound) by {
                if lower < view.dataset.value(f, k) <= bound {
                    assert(lists(view.entries(f), ids));
                    assert(entry_ids(entries).contains(k));
                    let t = choose|t: int| 0 <= t < entries.len() && entries[t].instance_id == k;
                    assert(entries[t].feature_value == view.dataset.value(f, k));
                    if t < p - 1 {
                        assert(entries[t].feature_value <= lower);
                    } else {
                        assert(entries[p - 1].feature_value <= entries[t].feature_value);
                    }
                }
            }
            assert(view.up_to(part, f, lower as int) =~= view.up_to(part, f, bound));
            assert(view.beyond(part, f, lower as int) =~= view.beyond(part, f, bound));
        }
    }
}

/// The candidate splits the part on some feature, and leaves something on either side.
pub open spec fn real_candidate<OT: OptimizationTask>(
    view: DataView<OT>,
    part: Set<int>,
    candidate: Candidate<OT>,
) -> bool {
    exists|f: int, lower: i32, upper: i32|
        real_split(view, part, f, lower as int) && candidate == #[trigger] split_at(
            view,
            part,
            f,
            lower,
            upper,
        )
}

/// Every split that the walk along feature `f` meets leaves something on either side.
pub proof fn every_met_split_is_real<OT: OptimizationTask>(
    view: DataView<OT>,
    part: Set<int>,
    f: int,
    j: int,
)
    requires
        view.valid(),
        part.subset_of(view.ids()),
        0 <= f < view.feature_instances@.len(),
        0 <= j < feature_candidates(view, part, f).len(),
    ensures
        real_candidate(view, part, feature_candidates(view, part, f)[j]),
{
    let entries = view.entries(f);
    assert(entries.take(entries.len() as int) == entries);
    lemma_met_split(view, part, f, entries.len() as int, j);
}

/// Of the instances `around`, some have the value `lower` of feature `f` and some the larger value
/// `upper`, and none has a value in between.
pub open spec fn neighbours<OT: OptimizationTask>(
    view: DataView<OT>,
    around: Set<int>,
    f: int,
    lower: i32,
    upper: i32,
) -> bool {
    &&& 0 <= f < view.feature_instances@.len()
    &&& lower < upper
    &&& exists|k: int| #[trigger] around.contains(k) && view.dataset.value(f, k) == lower
    &&& exists|k: int| #[trigger] around.contains(k) && view.dataset.value(f, k) == upper
    &&& forall|k: int| #[trigger]
        around.contains(k) ==> view.dataset.value(f, k) <= lower || upper <= view.dataset.value(
            f,
            k,
        )
}

/// The candidate splits the part between two values that are neighbours among the instances
/// `around`.
pub open spec fn neighbour_candidate<OT: OptimizationTask>(
    view: DataView<OT>,
    part: Set<int>,
    around: Set<int>,
    candidate: Candidate<OT>,
) -> bool {
    exists|f: int, lower: i32, upper: i32|
        neighbours(view, around, f, lower, upper) && candidate == #[trigger] split_at(
            view,
            part,
            f,
            lower,
            upper,
        )
}

/// Every split that the walk along feature `f` meets lies between two values that are neighbours in
/// the part.
pub proof fn every_met_split_is_between_neighbours<OT: OptimizationTask>(
    view: DataView<OT>,
    part: Set<int>,
    f: int,
    j: int,
)
    requires
        view.valid(),
        part.subset_of(view.ids()),
        0 <= f < view.feature_instances@.len(),
        0 <= j < feature_candidates(view, part, f).len(),
    ensures
        neighbour_candidate(view, part, part, feature_candidates(view, part, f)[j]),
{
    let entries = view.entries(f);
    assert(entries.take(entries.len() as int) == entries);
    lemma_met_split(view, part, f, entries.len() as int, j);
}

proof fn lemma_met_split<OT: OptimizationTask>(
    view: DataView<OT>,
    part: Set<int>,
    f: int,
    p: int,
    j: int,
)
    requires
        view.valid(),
        part.subset_of(view.ids()),
        0 <= f < view.feature_instances@.len(),
        0 <= p <= view.entries(f).len(),
        0 <= j < splits_along(
            view,
            part,
            f,
            entries_within(view.entries(f).take(p), part),
        ).len(),
    ensures
        real_candidate(
            view,
            part,
            splits_along(view, part, f, entries_within(view.entries(f).take(p), part))[j],
        ),
        neighbour_candidate(
            view,
            part,
            part,
            splits_along(view, part, f, entries_within(view.entries(f).take(p), part))[j],
        ),
    decreases p,
{
    let entries = view.entries(f);
    let ids = view.ids();
    assert(view.covers(ids));
    assert(view.in_order(f));
    assert(lists(view.entries(f), ids));
    if p > 0 {
        lemma_step(view, ids, part, f, p - 1);
        let entry = entries[p - 1];
        let within = entries_within(entries.take(p - 1), part);
        let found = splits_along(view, part, f, within);
        let after = splits_along(view, part, f, entries_within(entries.take(p), part));
        if j < found.len() {
            lemma_met_split(view, part, f, p - 1, j);
            assert(after[j] == found[j]);
        } else {
            let lower = within.last().feature_value;
            let upper = entry.feature_value;
            lemma_last_within(view, part, f, p - 1);
            let s = choose|s: int|
                0 <= s < p - 1 && (#[trigger] view.entries(f)[s]).feature_value == lower
                    && part.contains(view.entries(f)[s].instance_id as int);
            assert(entries[s].feature_value <= entries[p - 1].feature_value);
            let low = entries[s].instance_id as int;
            let high = entry.instance_id as int;
            assert(entries[s].feature_value == view.dataset.value(f, low));
            assert(entries[p - 1].feature_value == view.dataset.value(f, high));
            assert(view.up_to(part, f, lower as int).contains(low));
            assert(view.beyond(part, f, lower as int).contains(high));
            assert(after[j] == split_at(view, part, f, lower, upper));
            assert(part.contains(low) && part.contains(high));
            assert forall|k: int| #[trigger] part.contains(k) implies view.dataset.value(f, k)
                <= lower || upper <= view.dataset.value(f, k) by {
                assert(entry_ids(entries).contains(k));
                let q = choose|q: int| 0 <= q < entries.len() && entries[q].instance_id == k;
                assert(entries[q].feature_value == view.dataset.value(f, k));
                if q >= p - 1 {
                    assert(entries[p - 1].feature_value <= entries[q].feature_value);
                }
            }
            assert(neighbours(view, part, f, lower, upper));
        }
    } else {
        assert(entries.take(0) == Seq::<FeatureValue>::empty());
    }
}

/// A tracker on a part stands for a tree that is made for that part.
pub proof fn tracker_fits<OT: OptimizationTask>(
    view: DataView<OT>,
    part: Set<int>,
    branching_cost: OT::CostType,
    tracker: D1ScoreTracker<OT>,
)
    requires
        view.valid(),
        tracks(view, part, branching_cost, tracker),
    ensures
        view.fits_tree(part, branching_cost, tracker.tree(branching_cost)),
        tracker.tree(branching_cost).depth() <= 1,
        tracker.tree(branching_cost).total() == tracker.total(branching_cost),
{
    let tree = tracker.tree(branching_cost);
    reveal_with_fuel(DataView::fits_tree, 2);
    reveal_with_fuel(Tree::depth, 2);
    if tracker != D1ScoreTracker::unsplit(leaf_of::<OT>(view.data(), part)) {
        let (f, lower, upper) = choose|f: int, lower: i32, upper: i32|
            0 <= f < view.feature_instances@.len() && tracker == D1ScoreTracker::split(
                #[trigger] split_at(view, part, f, lower, upper),
            );
        assert(view.feature_instances.len() == view.feature_instances@.len());
    }
}

/// The tracker is not split, or holds a split of the part that leaves something on either side.
pub open spec fn solid<OT: OptimizationTask>(
    view: DataView<OT>,
    part: Set<int>,
    tracker: D1ScoreTracker<OT>,
) -> bool {
    ||| tracker == D1ScoreTracker::unsplit(leaf_of::<OT>(view.data(), part))
    ||| exists|candidate: Candidate<OT>| #[trigger]
        real_candidate(view, part, candidate) && tracker == D1ScoreTracker::split(candidate)
}

/// A tracker that is not split, or holds a split that leaves something on either side, stands for a
/// tree without empty sides.
pub proof fn solid_has_no_empty_sides<OT: OptimizationTask>(
    view: DataView<OT>,
    part: Set<int>,
    branching_cost: OT::CostType,
    tracker: D1ScoreTracker<OT>,
)
    requires
        solid(view, part, tracker),
    ensures
        no_empty_sides(view, part, tracker.tree(branching_cost)),
{
    reveal_with_fuel(no_empty_sides, 2);
    if tracker != D1ScoreTracker::unsplit(leaf_of::<OT>(view.data(), part)) {
        let candidate = choose|candidate: Candidate<OT>| #[trigger]
            real_candidate(view, part, candidate) && tracker == D1ScoreTracker::split(candidate);
        let (f, lower, upper) = choose|f: int, lower: i32, upper: i32|
            real_split(view, part, f, lower as int) && candidate == #[trigger] split_at(
                view,
                part,
                f,
                lower,
                upper,
            );
        assert(view.feature_instances.len() == view.feature_instances@.len());
    }
}

/// All the candidates leave something on either side.
pub open spec fn all_real<OT: OptimizationTask>(
    view: DataView<OT>,
    part: Set<int>,
    candidates: Seq<Candidate<OT>>,
) -> bool {
    forall|j: int|
        0 <= j < candidates.len() ==> real_candidate(view, part, #[trigger] candidates[j])
}

/// Considering splits that leave something on either side brings in no other ones.
pub proof fn lemma_stays_solid<OT: OptimizationTask>(
    view: DataView<OT>,
    part: Set<int>,
    branching_cost: OT::CostType,
    tracker: D1ScoreTracker<OT>,
    candidates: Seq<Candidate<OT>>,
)
    requires
        solid(view, part, tracker),
        all_real(view, part, candidates),
    ensures
        solid(view, part, consider_all(tracker, branching_cost, candidates)),
        solid(view, part, scan(tracker, branching_cost, candidates)),
{
    found_among_candidates(tracker, branching_cost, candidates);
    let all = consider_all(tracker, branching_cost, candidates);
    if all != tracker {
        let j = choose|j: int|
            0 <= j < candidates.len() && all == D1ScoreTracker::split(#[trigger] candidates[j]);
        assert(real_candidate(view, part, candidates[j]));
    }
    let some = scan(tracker, branching_cost, candidates);
    if some != tracker {
        let j = choose|j: int|
            0 <= j < candidates.len() && some == D1ScoreTracker::split(#[trigger] candidates[j]);
        assert(real_candidate(view, part, candidates[j]));
    }
}

/// The tracker is not split, or holds a split of the part between two values that are neighbours
/// among the instances `around`.
pub open spec fn snug<OT: OptimizationTask>(
    view: DataView<OT>,
    part: Set<int>,
    around: Set<int>,
    tracker: D1ScoreTracker<OT>,
) -> bool {
    ||| tracker == D1ScoreTracker::unsplit(leaf_of::<OT>(view.data(), part))
    ||| exists|candidate: Candidate<OT>| #[trigger]
        neighbour_candidate(view, part, around, candidate) && tracker == D1ScoreTracker::split(
            candidate,
        )
}

/// All the candidates split the part between two values that are neighbours among the instances
/// `around`.
pub open spec fn all_snug<OT: OptimizationTask>(
    view: DataView<OT>,
    part: Set<int>,
    around: Set<int>,
    candidates: Seq<Candidate<OT>>,
) -> bool {
    forall|j: int|
        0 <= j < candidates.len() ==> neighbour_candidate(
            view,
            part,
            around,
            #[trigger] candidates[j],
        )
}

/// Considering splits between neighbours brings in no other ones.
pub proof fn lemma_stays_snug<OT: OptimizationTask>(
    view: DataView<OT>,
    part: Set<int>,
    around: Set<int>,
    branching_cost: OT::CostType,
    tracker: D1ScoreTracker<OT>,
    candidates: Seq<Candidate<OT>>,
)
    requires
        snug(view, part, around, tracker),
        all_snug(view, part, around, candidates),
    ensures
        snug(view, part, around, consider_all(tracker, branching_cost, candidates)),
        snug(view, part, around, scan(tracker, branching_cost, candidates)),
{
    found_among_candidates(tracker, branching_cost, candidates);
    let all = consider_all(tracker, branching_cost, candidates);
    if all != tracker {
        let j = choose|j: int|
            0 <= j < candidates.len() && all == D1ScoreTracker::split(#[trigger] candidates[j]);
        assert(neighbour_candidate(view, part, around, candidates[j]));
    }
    let some = scan(tracker, branching_cost, candidates);
    if some != tracker {
        let j = choose|j: int|
            0 <= j < candidates.len() && some == D1ScoreTracker::split(#[trigger] candidates[j]);
        assert(neighbour_candidate(view, part, around, candidates[j]));
    }
}

/// The tree is a leaf, or its threshold lies between two values that are neighbours among the
/// instances `around`.
pub open spec fn between_neighbours<OT: OptimizationTask>(
    view: DataView<OT>,
    around: Set<int>,
    tree: Tree<OT>,
) -> bool {
    match tree {
        Tree::Leaf(_) => true,
        Tree::Branch(branch) => match branch.split_threshold {
            Threshold::Between { lower, upper } => neighbours(
                view,
                around,
                branch.split_feature as int,
                lower,
                upper,
            ),
            Threshold::PossibleSplit { .. } => false,
        },
    }
}

/// A tracker that is not split, or holds a split between neighbours, stands for such a tree.
pub proof fn snug_is_between_neighbours<OT: OptimizationTask>(
    view: DataView<OT>,
    part: Set<int>,
    around: Set<int>,
    branching_cost: OT::CostType,
    tracker: D1ScoreTracker<OT>,
)
    requires
        snug(view, part, around, tracker),
    ensures
        between_neighbours(view, around, tracker.tree(branching_cost)),
{
    if tracker != D1ScoreTracker::unsplit(leaf_of::<OT>(view.data(), part)) {
        let candidate = choose|candidate: Candidate<OT>| #[trigger]
            neighbour_candidate(view, part, around, candidate) && tracker == D1ScoreTracker::split(
                candidate,
            );
        let (f, lower, upper) = choose|f: int, lower: i32, upper: i32|
            neighbours(view, around, f, lower, upper) && candidate == #[trigger] split_at(
                view,
                part,
                f,
                lower,
                upper,
            );
        assert(view.feature_instances.len() == view.feature_instances@.len());
    }
}

/// Every split of a part on the first features leaves something on either side, and lies between
/// two values that are neighbours in the part.
pub proof fn lemma_all_candidates_real<OT: OptimizationTask>(view: DataView<OT>, part: Set<int>, n: int)
    requires
        view.valid(),
        part.subset_of(view.ids()),
        0 <= n <= view.feature_instances@.len(),
    ensures
        all_real(view, part, all_candidates(view, part, n)),
        all_snug(view, part, part, all_candidates(view, part, n)),
    decreases n,
{
    if n > 0 {
        lemma_all_candidates_real(view, part, n - 1);
        let before = all_candidates(view, part, n - 1);
        let all = all_candidates(view, part, n);
        assert forall|j: int| 0 <= j < all.len() implies real_candidate(
            view,
            part,
            #[trigger] all[j],
        ) by {
            if j < before.len() {
                assert(all[j] == before[j]);
            } else {
                every_met_split_is_real(view, part, n - 1, j - before.len());
            }
        }
        assert forall|j: int| 0 <= j < all.len() implies neighbour_candidate(
            view,
            part,
            part,
            #[trigger] all[j],
        ) by {
            if j < before.len() {
                assert(all[j] == before[j]);
            } else {
                every_met_split_is_between_neighbours(view, part, n - 1, j - before.len());
            }
        }
    }
}

/// The search for a node with depth one finds a tree of depth at most one that is made for the view
/// and has no empty sides.
pub proof fn d1_fits<OT: OptimizationTask>(view: DataView<OT>, branching_cost: OT::CostType)
    requires
        view.valid(),
        splits_fit::<OT>(view.data(), view.ids(), branching_cost),
    ensures
        view.fits_tree(view.ids(), branching_cost, d1_tree(view, branching_cost)),
        no_empty_sides(view, view.ids(), d1_tree(view, branching_cost)),
        d1_tree(view, branching_cost).depth() <= 1,
{
    let n = view.feature_instances@.len() as int;
    let unsplit = D1ScoreTracker::unsplit(leaf_of::<OT>(view.data(), view.ids()));
    let all = all_candidates(view, view.ids(), n);
    let found = scan(unsplit, branching_cost, all);
    lemma_all_candidates_split(view, view.ids(), n);
    lemma_tracks(view, view.ids(), branching_cost, unsplit, all);
    tracker_fits(view, view.ids(), branching_cost, found);
    lemma_all_candidates_real(view, view.ids(), n);
    lemma_stays_solid(view, view.ids(), branching_cost, unsplit, all);
    solid_has_no_empty_sides(view, view.ids(), branching_cost, found);
}

/// The search for a node with depth one splits halfway between two values that both occur in the
/// view, with none in between.
pub proof fn d1_splits_between_neighbours<OT: OptimizationTask>(
    view: DataView<OT>,
    branching_cost: OT::CostType,
)
    requires
        view.valid(),
    ensures
        between_neighbours(view, view.ids(), d1_tree(view, branching_cost)),
{
    let n = view.feature_instances@.len() as int;
    let unsplit = D1ScoreTracker::unsplit(leaf_of::<OT>(view.data(), view.ids()));
    let all = all_candidates(view, view.ids(), n);
    lemma_all_candidates_real(view, view.ids(), n);
    lemma_stays_snug(view, view.ids(), view.ids(), branching_cost, unsplit, all);
    snug_is_between_neighbours(
        view,
        view.ids(),
        view.ids(),
        branching_cost,
        scan(unsplit, branching_cost, all),
    );
}

/// The search for a node with depth one finds the leaf, or a tree that is strictly cheaper than it.
pub proof fn d1_is_the_leaf_or_cheaper<OT: OptimizationTask>(
    view: DataView<OT>,
    branching_cost: OT::CostType,
)
    requires
        ordered_costs::<OT::CostType>(),
    ensures
        ({
            let tree = d1_tree(view, branching_cost);
            let leaf = leaf_of::<OT>(view.data(), view.ids());
            tree == Tree::Leaf(leaf) || tree.total().undercuts(leaf.cost)
        }),
{
    let unsplit = D1ScoreTracker::unsplit(leaf_of::<OT>(view.data(), view.ids()));
    lemma_scan_cheaper(
        unsplit,
        branching_cost,
        all_candidates(view, view.ids(), view.feature_instances@.len() as int),
    );
}

/// A scan ends with the tracker that it starts from, or with a strictly cheaper one.
pub proof fn lemma_scan_cheaper<OT: OptimizationTask>(
    tracker: D1ScoreTracker<OT>,
    branching_cost: OT::CostType,
    candidates: Seq<Candidate<OT>>,
)
    requires
        ordered_costs::<OT::CostType>(),
    ensures
        ({
            let found = scan(tracker, branching_cost, candidates);
            found == tracker || found.total(branching_cost).undercuts(tracker.total(branching_cost))
        }),
    decreases candidates.len(),
{
    if candidates.len() > 0 {
        lemma_scan_cheaper(tracker, branching_cost, candidates.drop_last());
        let before = scan(tracker, branching_cost, candidates.drop_last());
        let found = scan(tracker, branching_cost, candidates);
        if found != before && before != tracker {
            assert(found.total(branching_cost).undercuts(before.total(branching_cost)));
        }
    }
}

/// Where a search comes from does not beat what it ends with.
pub proof fn lemma_leaf_unbeaten<C: Cost>(before: C, after: C)
    requires
        ordered_costs::<C>(),
        no_dearer(after, before),
    ensures
        !before.undercuts(after),
{
    assert(!before.undercuts(before));
    lemma_no_dearer(after, before, before);
}

/// The search for a node with depth one is exhaustive: neither a leaf nor any split that leaves
/// something on both sides is strictly cheaper than the tree that it finds, nor is any other tree
/// of depth at most one that is made for the view and has no empty sides.
pub proof fn d1_is_optimal<OT: OptimizationTask>(view: DataView<OT>, branching_cost: OT::CostType)
    requires
        view.valid(),
        splits_fit::<OT>(view.data(), view.ids(), branching_cost),
        sound_costs::<OT::CostType>(),
        possible_costs::<OT>(view.data(), view.ids(), branching_cost),
    ensures
        unbeaten(view, view.ids(), branching_cost, d1_tree(view, branching_cost).total()),
        forall|tree: Tree<OT>| #[trigger]
            view.fits_tree(view.ids(), branching_cost, tree) && no_empty_sides(
                view,
                view.ids(),
                tree,
            ) && tree.depth() <= 1 ==> !tree.total().undercuts(
                d1_tree(view, branching_cost).total(),
            ),
{
    let ids = view.ids();
    let n = view.feature_instances@.len() as int;
    let unsplit = D1ScoreTracker::unsplit(leaf_of::<OT>(view.data(), ids));
    let all = all_candidates(view, ids, n);
    lemma_all_candidates_split(view, ids, n);
    lemma_splits_sane(view, ids, branching_cost, all);
    assert(OT::CostSumType::cost_of(view.data(), ids).possible());
    scan_is_unbeaten(unsplit, branching_cost, all);
    let found = scan(unsplit, branching_cost, all);
    lemma_leaf_unbeaten(unsplit.total(branching_cost), found.total(branching_cost));
    assert forall|f: int, bound: int| real_split(view, ids, f, bound) implies !(
    #[trigger] split_cost(view, ids, branching_cost, f, bound)).undercuts(
        found.total(branching_cost),
    ) by {
        every_split_is_met(view, ids, f, bound);
        let j = choose|j: int|
            0 <= j < feature_candidates(view, ids, f).len() && divides(
                view,
                ids,
                f,
                bound,
                #[trigger] feature_candidates(view, ids, f)[j],
            );
        lemma_feature_among_all(view, ids, f, n, j);
        let i = choose|i: int|
            0 <= i < all_candidates(view, ids, n).len() && #[trigger] all_candidates(
                view,
                ids,
                n,
            )[i] == feature_candidates(view, ids, f)[j];
        assert(all[i].total(branching_cost) == split_cost(view, ids, branching_cost, f, bound));
    }
    assert(unbeaten(view, ids, branching_cost, found.total(branching_cost)));
    assert forall|tree: Tree<OT>| #[trigger]
        view.fits_tree(ids, branching_cost, tree) && no_empty_sides(view, ids, tree) && tree.depth()
            <= 1 implies !tree.total().undercuts(found.total(branching_cost)) by {
        tree_costs(view, ids, branching_cost, tree);
    }
}

} // verus!
