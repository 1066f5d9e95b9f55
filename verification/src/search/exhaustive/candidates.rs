//! The splits that a search tries, and what is left of them in the end.

use std::sync::Arc;
use vstd::prelude::*;

use crate::model::dataview::{entries_within, entry_ids, lists, DataView, FeatureValue};
use crate::model::tree::{leaf_of, BranchNode, Threshold, Tree};
use crate::search::exhaustive::tracker::{Candidate, D1ScoreTracker};
use crate::tasks::{addable, outside, plus, Cost, CostSum, OptimizationTask};

verus! {

/// The split of the part `part` of a view on feature `f` between the values `lower` and `upper`:
/// what is at most `lower` belongs to the left leaf, the rest to the right one.
pub open spec fn split_at<OT: OptimizationTask>(
    view: DataView<OT>,
    part: Set<int>,
    f: int,
    lower: i32,
    upper: i32,
) -> Candidate<OT> {
    Candidate {
        feature: f as usize,
        lower,
        upper,
        left: leaf_of(view.data(), view.up_to(part, f, lower as int)),
        right: leaf_of(view.data(), view.beyond(part, f, lower as int)),
    }
}

/// The bound on feature `f` leaves something of the part on either side.
pub open spec fn real_split<OT: OptimizationTask>(
    view: DataView<OT>,
    part: Set<int>,
    f: int,
    bound: int,
) -> bool {
    &&& 0 <= f < view.feature_instances@.len()
    &&& exists|k: int| view.up_to(part, f, bound).contains(k)
    &&& exists|k: int| view.beyond(part, f, bound).contains(k)
}

/// The splits of `part` on feature `f` that a walk along `entries` meets: one wherever the value
/// changes from one entry to the next.
pub open spec fn splits_along<OT: OptimizationTask>(
    view: DataView<OT>,
    part: Set<int>,
    f: int,
    entries: Seq<FeatureValue>,
) -> Seq<Candidate<OT>>
    decreases entries.len(),
{
    if entries.len() < 2 {
        Seq::empty()
    } else {
        let before = entries.drop_last();
        let found = splits_along(view, part, f, before);
        let (lower, upper) = (before.last().feature_value, entries.last().feature_value);
        if lower != upper {
            found.push(split_at(view, part, f, lower, upper))
        } else {
            found
        }
    }
}

/// The splits of the part `part` of a view on feature `f`.
pub open spec fn feature_candidates<OT: OptimizationTask>(
    view: DataView<OT>,
    part: Set<int>,
    f: int,
) -> Seq<Candidate<OT>> {
    splits_along(view, part, f, entries_within(view.entries(f), part))
}

/// The splits of the part `part` of a view on the first `n` features, feature by feature.
pub open spec fn all_candidates<OT: OptimizationTask>(
    view: DataView<OT>,
    part: Set<int>,
    n: int,
) -> Seq<Candidate<OT>>
    decreases n,
{
    if n <= 0 {
        Seq::empty()
    } else {
        all_candidates(view, part, n - 1) + feature_candidates(view, part, n - 1)
    }
}

/// The tracker after all `candidates`, in their order.
pub open spec fn consider_all<OT: OptimizationTask>(
    tracker: D1ScoreTracker<OT>,
    branching_cost: OT::CostType,
    candidates: Seq<Candidate<OT>>,
) -> D1ScoreTracker<OT>
    decreases candidates.len(),
{
    if candidates.len() == 0 {
        tracker
    } else {
        consider_all(tracker, branching_cost, candidates.drop_last()).consider(
            branching_cost,
            candidates.last(),
        )
    }
}

/// The tracker after the `candidates`, in their order, up to the first moment at which it is
/// optimal.
pub open spec fn scan<OT: OptimizationTask>(
    tracker: D1ScoreTracker<OT>,
    branching_cost: OT::CostType,
    candidates: Seq<Candidate<OT>>,
) -> D1ScoreTracker<OT>
    decreases candidates.len(),
{
    if candidates.len() == 0 {
        tracker
    } else {
        let before = scan(tracker, branching_cost, candidates.drop_last());
        if before.optimal(branching_cost) {
            before
        } else {
            before.consider(branching_cost, candidates.last())
        }
    }
}

/// The tracker is optimal after some of the `candidates`, considered in their order.
pub open spec fn meets_optimum<OT: OptimizationTask>(
    tracker: D1ScoreTracker<OT>,
    branching_cost: OT::CostType,
    candidates: Seq<Candidate<OT>>,
) -> bool
    decreases candidates.len(),
{
    candidates.len() > 0 && (meets_optimum(tracker, branching_cost, candidates.drop_last())
        || consider_all(tracker, branching_cost, candidates).optimal(branching_cost))
}

/// The tracker stands for a tree of depth at most one for the part `part` of a view: a leaf, or a
/// split of the part.
pub open spec fn tracks<OT: OptimizationTask>(
    view: DataView<OT>,
    part: Set<int>,
    branching_cost: OT::CostType,
    tracker: D1ScoreTracker<OT>,
) -> bool {
    &&& tracker.valid(branching_cost)
    &&& {
        ||| tracker == D1ScoreTracker::unsplit(leaf_of::<OT>(view.data(), part))
        ||| exists|f: int, lower: i32, upper: i32|
            {
                &&& 0 <= f < view.feature_instances@.len()
                &&& tracker == D1ScoreTracker::split(
                    #[trigger] split_at(view, part, f, lower, upper),
                )
            }
    }
}

/// The tree that splits at a possible split of feature `f` into what the two trackers stand for.
pub open spec fn join<OT: OptimizationTask>(
    f: usize,
    index: usize,
    left: D1ScoreTracker<OT>,
    right: D1ScoreTracker<OT>,
    branching_cost: OT::CostType,
) -> Tree<OT> {
    Tree::Branch(
        BranchNode {
            cost: plus(
                plus(left.total(branching_cost), right.total(branching_cost)),
                branching_cost,
            ),
            split_feature: f,
            split_threshold: Threshold::PossibleSplit { index },
            left_child: Arc::new(left.tree(branching_cost)),
            right_child: Arc::new(right.tree(branching_cost)),
        },
    )
}

/// The cost of the split into `left` and `right` can be computed.
pub open spec fn split_fits<OT: OptimizationTask>(
    data: Seq<OT::InstanceType>,
    left: Set<int>,
    right: Set<int>,
    branching_cost: OT::CostType,
) -> bool {
    let left_cost = OT::CostSumType::cost_of(data, left);
    let right_cost = OT::CostSumType::cost_of(data, right);
    &&& addable(left_cost, right_cost)
    &&& addable(plus(left_cost, right_cost), branching_cost)
}

/// The cost of every split of a part of `ids` can be computed.
pub open spec fn splits_fit<OT: OptimizationTask>(
    data: Seq<OT::InstanceType>,
    ids: Set<int>,
    branching_cost: OT::CostType,
) -> bool {
    forall|left: Set<int>, right: Set<int>|
        left.subset_of(ids) && right.subset_of(ids) && left.disjoint(right)
            ==> #[trigger] split_fits::<OT>(data, left, right, branching_cost)
}

/// `cost` is the cost of a tree of depth at most one for `part`.
pub open spec fn shallow_tree_cost<OT: OptimizationTask>(
    data: Seq<OT::InstanceType>,
    part: Set<int>,
    branching_cost: OT::CostType,
    cost: OT::CostType,
) -> bool {
    ||| cost == OT::CostSumType::cost_of(data, part)
    ||| exists|left: Set<int>, right: Set<int>|
        {
            &&& left.subset_of(part)
            &&& right.subset_of(part)
            &&& left.disjoint(right)
            &&& cost == #[trigger] one_split_cost::<OT>(data, left, right, branching_cost)
        }
}

/// The cost of a branching node whose leaves hold `left` and `right`.
pub open spec fn one_split_cost<OT: OptimizationTask>(
    data: Seq<OT::InstanceType>,
    left: Set<int>,
    right: Set<int>,
    branching_cost: OT::CostType,
) -> OT::CostType {
    plus(
        plus(OT::CostSumType::cost_of(data, left), OT::CostSumType::cost_of(data, right)),
        branching_cost,
    )
}

/// The cost of a branching node over two subtrees can be computed.
pub open spec fn node_fits<C: Cost>(left: C, right: C, branching_cost: C) -> bool {
    &&& addable(left, right)
    &&& addable(plus(left, right), branching_cost)
}

/// The cost of every tree of depth at most two for a part of `ids` can be computed.
pub open spec fn trees_fit<OT: OptimizationTask>(
    data: Seq<OT::InstanceType>,
    ids: Set<int>,
    branching_cost: OT::CostType,
) -> bool {
    &&& splits_fit::<OT>(data, ids, branching_cost)
    &&& forall|left: Set<int>, right: Set<int>, a: OT::CostType, b: OT::CostType|
        #![trigger
            shallow_tree_cost::<OT>(data, left, branching_cost, a),
            shallow_tree_cost::<OT>(data, right, branching_cost, b)
        ]
        left.subset_of(ids) && right.subset_of(ids) && left.disjoint(right)
            && shallow_tree_cost::<OT>(data, left, branching_cost, a)
            && shallow_tree_cost::<OT>(data, right, branching_cost, b) ==> node_fits(
            a,
            b,
            branching_cost,
        )
}

/// Adding an entry adds its instance.
pub proof fn lemma_entry_ids_push(entries: Seq<FeatureValue>, entry: FeatureValue)
    ensures
        entry_ids(entries.push(entry)) == entry_ids(entries).insert(entry.instance_id as int),
{
    let after = entries.push(entry);
    assert forall|k: int| entry_ids(after).contains(k) <==> entry_ids(entries).insert(
        entry.instance_id as int,
    ).contains(k) by {
        if entry_ids(after).contains(k) {
            let p = choose|p: int| 0 <= p < after.len() && after[p].instance_id == k;
            if p < entries.len() {
                assert(entries[p].instance_id == k);
            }
        }
        if entry_ids(entries).contains(k) {
            let p = choose|p: int| 0 <= p < entries.len() && entries[p].instance_id == k;
            assert(after[p].instance_id == k);
        }
        assert(after[entries.len() as int] == entry);
    }
    assert(entry_ids(after) =~= entry_ids(entries).insert(entry.instance_id as int));
}

/// If all entries lie in `part`, none is left out.
pub proof fn lemma_entries_within_all(entries: Seq<FeatureValue>, part: Set<int>)
    requires
        forall|p: int|
            0 <= p < entries.len() ==> part.contains(#[trigger] entries[p].instance_id as int),
    ensures
        entries_within(entries, part) == entries,
    decreases entries.len(),
{
    if entries.len() > 0 {
        lemma_entries_within_all(entries.drop_last(), part);
        assert(entries == entries.drop_last().push(entries.last()));
    } else {
        assert(entries_within(entries, part) =~= entries);
    }
}

/// The instances of the first entries belong to the view.
pub proof fn lemma_prefix_ids<OT: OptimizationTask>(view: DataView<OT>, ids: Set<int>, f: int, p: int)
    requires
        lists(view.entries(f), ids),
        0 <= p <= view.entries(f).len(),
    ensures
        entry_ids(view.entries(f).take(p)).subset_of(ids),
{
    let entries = view.entries(f);
    assert forall|k: int| entry_ids(entries.take(p)).contains(k) implies ids.contains(k) by {
        let q = choose|q: int| 0 <= q < entries.take(p).len() && entries.take(p)[q].instance_id == k;
        assert(entries[q].instance_id == k);
        assert(entry_ids(entries).contains(k));
    }
}

/// What comes before a change of the value is what is at most the value before it.
pub proof fn lemma_boundary<OT: OptimizationTask>(
    view: DataView<OT>,
    ids: Set<int>,
    part: Set<int>,
    f: int,
    p: int,
    lower: i32,
)
    requires
        lists(view.entries(f), ids),
        view.in_order(f),
        part.subset_of(ids),
        0 <= p < view.entries(f).len(),
        lower < view.entries(f)[p].feature_value,
        forall|q: int|
            0 <= q < p && part.contains(view.entries(f)[q].instance_id as int) ==> (
            #[trigger] view.entries(f)[q]).feature_value <= lower,
    ensures
        entry_ids(view.entries(f).take(p)).intersect(part) == view.up_to(part, f, lower as int),
        part.difference(entry_ids(view.entries(f).take(p))) == view.beyond(part, f, lower as int),
{
    let entries = view.entries(f);
    let before = entries.take(p);
    assert forall|k: int| part.contains(k) implies (entry_ids(before).contains(k)
        <==> view.dataset.value(f, k) <= lower) by {
        assert(entry_ids(entries).contains(k));
        let q = choose|q: int| 0 <= q < entries.len() && entries[q].instance_id == k;
        assert(entries[q].feature_value == view.dataset.value(f, k));
        if q < p {
            assert(before[q].instance_id == k);
        } else {
            assert(entries[p].feature_value <= entries[q].feature_value);
            if entry_ids(before).contains(k) {
                let r = choose|r: int| 0 <= r < before.len() && before[r].instance_id == k;
                assert(entries[r].instance_id == entries[q].instance_id);
            }
        }
    }
    assert(entry_ids(before).intersect(part) =~= view.up_to(part, f, lower as int));
    assert(part.difference(entry_ids(before)) =~= view.beyond(part, f, lower as int));
}

/// The last entry of `part` among the first `p` has the largest value of them.
pub proof fn lemma_last_within<OT: OptimizationTask>(
    view: DataView<OT>,
    part: Set<int>,
    f: int,
    p: int,
)
    requires
        view.in_order(f),
        0 <= p <= view.entries(f).len(),
    ensures
        entries_within(view.entries(f).take(p), part).len() == 0 ==> forall|q: int|
            0 <= q < p ==> !part.contains((#[trigger] view.entries(f)[q]).instance_id as int),
        entries_within(view.entries(f).take(p), part).len() > 0 ==> {
            let last = entries_within(view.entries(f).take(p), part).last().feature_value;
            &&& exists|q: int|
                0 <= q < p && (#[trigger] view.entries(f)[q]).feature_value == last
                    && part.contains(view.entries(f)[q].instance_id as int)
            &&& forall|q: int|
                0 <= q < p && part.contains(view.entries(f)[q].instance_id as int) ==> (
                #[trigger] view.entries(f)[q]).feature_value <= last
        },
    decreases p,
{
    let entries = view.entries(f);
    if p > 0 {
        lemma_last_within(view, part, f, p - 1);
        assert(entries.take(p).drop_last() == entries.take(p - 1));
        assert(entries.take(p).last() == entries[p - 1]);
    }
}

/// One step of a walk along the entries of feature `f`, as `part` sees it.
pub proof fn lemma_step<OT: OptimizationTask>(
    view: DataView<OT>,
    ids: Set<int>,
    part: Set<int>,
    f: int,
    p: int,
)
    requires
        view.covers(ids),
        view.in_order(f),
        part.subset_of(ids),
        0 <= f < view.feature_instances@.len(),
        0 <= p < view.entries(f).len(),
    ensures
        ({
            let entry = view.entries(f)[p];
            let k = entry.instance_id as int;
            let seen = entry_ids(view.entries(f).take(p)).intersect(part);
            let within = entries_within(view.entries(f).take(p), part);
            let seen_after = entry_ids(view.entries(f).take(p + 1)).intersect(part);
            let within_after = entries_within(view.entries(f).take(p + 1), part);
            let (lower, upper) = (within.last().feature_value, entry.feature_value);
            let found = splits_along(view, part, f, within);
            &&& ids.contains(k)
            &&& seen.subset_of(part)
            &&& part.contains(k) ==> {
                &&& outside(view.data(), seen, k, view.data()[k])
                &&& seen_after == seen.insert(k)
                &&& within_after == within.push(entry)
                &&& splits_along(view, part, f, within_after) == if within.len() > 0 && lower
                    != upper {
                    found.push(split_at(view, part, f, lower, upper))
                } else {
                    found
                }
                &&& within.len() > 0 && lower != upper ==> {
                    &&& seen == view.up_to(part, f, lower as int)
                    &&& part.difference(seen) == view.beyond(part, f, lower as int)
                }
            }
            &&& !part.contains(k) ==> {
                &&& seen_after == seen
                &&& within_after == within
            }
        }),
{
    let entries = view.entries(f);
    let entry = entries[p];
    let k = entry.instance_id as int;
    let before = entries.take(p);
    let after = entries.take(p + 1);
    let seen = entry_ids(before).intersect(part);
    let within = entries_within(before, part);
    assert(lists(view.entries(f), ids));
    assert(entry_ids(entries).contains(k));
    assert(after == before.push(entry));
    assert(after.drop_last() == before);
    lemma_entry_ids_push(before, entry);
    view.lemma_countable();
    if part.contains(k) {
        if entry_ids(before).contains(k) {
            let q = choose|q: int| 0 <= q < before.len() && before[q].instance_id == k;
            assert(entries[q].instance_id == entries[p].instance_id);
        }
        assert(entry_ids(after).intersect(part) =~= seen.insert(k));
        assert(within.push(entry).drop_last() =~= within);
        if within.len() > 0 && within.last().feature_value != entry.feature_value {
            let lower = within.last().feature_value;
            lemma_last_within(view, part, f, p);
            let q = choose|q: int| 0 <= q < p && (#[trigger] view.entries(f)[q]).feature_value == lower;
            assert(entries[q].feature_value <= entries[p].feature_value);
            lemma_boundary(view, ids, part, f, p, lower);
            assert(part.difference(seen) =~= part.difference(entry_ids(before)));
        }
    } else {
        assert(entry_ids(after).intersect(part) =~= seen);
    }
}

/// Every split that a walk meets is a split of the part on the feature.
pub proof fn lemma_splits_along_shape<OT: OptimizationTask>(
    view: DataView<OT>,
    part: Set<int>,
    f: int,
    entries: Seq<FeatureValue>,
    j: int,
)
    requires
        0 <= j < splits_along(view, part, f, entries).len(),
    ensures
        exists|lower: i32, upper: i32|
            splits_along(view, part, f, entries)[j] == #[trigger] split_at(
                view,
                part,
                f,
                lower,
                upper,
            ),
    decreases entries.len(),
{
    let before = entries.drop_last();
    if j < splits_along(view, part, f, before).len() {
        lemma_splits_along_shape(view, part, f, before, j);
    } else {
        let (lower, upper) = (before.last().feature_value, entries.last().feature_value);
        assert(splits_along(view, part, f, entries)[j] == split_at(view, part, f, lower, upper));
    }
}

/// All the candidates are splits of the part.
pub open spec fn all_split<OT: OptimizationTask>(
    view: DataView<OT>,
    part: Set<int>,
    candidates: Seq<Candidate<OT>>,
) -> bool {
    forall|j: int|
        0 <= j < candidates.len() ==> splits_part(view, part, #[trigger] candidates[j])
}

/// The candidate is a split of the part on some feature.
pub open spec fn splits_part<OT: OptimizationTask>(
    view: DataView<OT>,
    part: Set<int>,
    candidate: Candidate<OT>,
) -> bool {
    exists|f: int, lower: i32, upper: i32|
        0 <= f < view.feature_instances@.len() && candidate == #[trigger] split_at(
            view,
            part,
            f,
            lower,
            upper,
        )
}

/// The cost of a split of the part can be computed.
pub proof fn lemma_split_fits<OT: OptimizationTask>(
    view: DataView<OT>,
    part: Set<int>,
    branching_cost: OT::CostType,
    candidate: Candidate<OT>,
)
    requires
        part.subset_of(view.ids()),
        splits_fit::<OT>(view.data(), view.ids(), branching_cost),
        splits_part(view, part, candidate),
    ensures
        candidate.fits(branching_cost),
{
    let (f, lower, upper) = choose|f: int, lower: i32, upper: i32|
        0 <= f < view.feature_instances@.len() && candidate == #[trigger] split_at(
            view,
            part,
            f,
            lower,
            upper,
        );
    let left = view.up_to(part, f, lower as int);
    let right = view.beyond(part, f, lower as int);
    assert(split_fits::<OT>(view.data(), left, right, branching_cost));
}

/// Considering a split of the part keeps a tracker on that part.
pub proof fn lemma_consider_tracks<OT: OptimizationTask>(
    view: DataView<OT>,
    part: Set<int>,
    branching_cost: OT::CostType,
    tracker: D1ScoreTracker<OT>,
    candidate: Candidate<OT>,
)
    requires
        part.subset_of(view.ids()),
        splits_fit::<OT>(view.data(), view.ids(), branching_cost),
        tracks(view, part, branching_cost, tracker),
        splits_part(view, part, candidate),
    ensures
        tracks(view, part, branching_cost, tracker.consider(branching_cost, candidate)),
{
    lemma_split_fits(view, part, branching_cost, candidate);
}

/// Considering splits of the part keeps a tracker on that part.
pub proof fn lemma_tracks<OT: OptimizationTask>(
    view: DataView<OT>,
    part: Set<int>,
    branching_cost: OT::CostType,
    tracker: D1ScoreTracker<OT>,
    candidates: Seq<Candidate<OT>>,
)
    requires
        part.subset_of(view.ids()),
        splits_fit::<OT>(view.data(), view.ids(), branching_cost),
        tracks(view, part, branching_cost, tracker),
        all_split(view, part, candidates),
    ensures
        tracks(view, part, branching_cost, consider_all(tracker, branching_cost, candidates)),
        tracks(view, part, branching_cost, scan(tracker, branching_cost, candidates)),
    decreases candidates.len(),
{
    if candidates.len() > 0 {
        let rest = candidates.drop_last();
        assert forall|j: int| 0 <= j < rest.len() implies splits_part(
            view,
            part,
            #[trigger] rest[j],
        ) by {
            assert(rest[j] == candidates[j]);
        }
        lemma_tracks(view, part, branching_cost, tracker, rest);
        let last = candidates.last();
        assert(last == candidates[candidates.len() - 1]);
        lemma_consider_tracks(
            view,
            part,
            branching_cost,
            consider_all(tracker, branching_cost, rest),
            last,
        );
        lemma_consider_tracks(
            view,
            part,
            branching_cost,
            scan(tracker, branching_cost, rest),
            last,
        );
    }
}

/// The candidates of a feature are splits of the part.
pub proof fn lemma_feature_candidates_split<OT: OptimizationTask>(
    view: DataView<OT>,
    part: Set<int>,
    f: int,
)
    requires
        0 <= f < view.feature_instances@.len(),
    ensures
        all_split(view, part, feature_candidates(view, part, f)),
{
    let candidates = feature_candidates(view, part, f);
    assert forall|j: int| 0 <= j < candidates.len() implies splits_part(
        view,
        part,
        #[trigger] candidates[j],
    ) by {
        lemma_splits_along_shape(view, part, f, entries_within(view.entries(f), part), j);
        let (lower, upper) = choose|lower: i32, upper: i32|
            candidates[j] == #[trigger] split_at(view, part, f, lower, upper);
        assert(candidates[j] == split_at(view, part, f, lower, upper));
    }
}

/// The candidates of the first features are splits of the part.
pub proof fn lemma_all_candidates_split<OT: OptimizationTask>(
    view: DataView<OT>,
    part: Set<int>,
    n: int,
)
    requires
        0 <= n <= view.feature_instances@.len(),
    ensures
        all_split(view, part, all_candidates(view, part, n)),
    decreases n,
{
    if n > 0 {
        lemma_all_candidates_split(view, part, n - 1);
        lemma_feature_candidates_split(view, part, n - 1);
    }
}

/// The candidates of a feature are among those of all features.
pub proof fn lemma_feature_among_all<OT: OptimizationTask>(
    view: DataView<OT>,
    part: Set<int>,
    f: int,
    n: int,
    j: int,
)
    requires
        0 <= f < n,
        0 <= j < feature_candidates(view, part, f).len(),
    ensures
        exists|i: int|
            0 <= i < all_candidates(view, part, n).len() && #[trigger] all_candidates(
                view,
                part,
                n,
            )[i] == feature_candidates(view, part, f)[j],
{
    lemma_all_candidates_prefix(view, part, f + 1, n);
    let i = all_candidates(view, part, f).len() + j;
    assert(all_candidates(view, part, f + 1)[i] == feature_candidates(view, part, f)[j]);
    assert(all_candidates(view, part, n)[i] == feature_candidates(view, part, f)[j]);
}

/// What a tracker on a part costs is the cost of a tree of depth at most one for that part.
pub proof fn lemma_tracked_cost<OT: OptimizationTask>(
    view: DataView<OT>,
    part: Set<int>,
    branching_cost: OT::CostType,
    tracker: D1ScoreTracker<OT>,
)
    requires
        tracks(view, part, branching_cost, tracker),
    ensures
        shallow_tree_cost::<OT>(
            view.data(),
            part,
            branching_cost,
            tracker.total(branching_cost),
        ),
{
    if tracker != D1ScoreTracker::unsplit(leaf_of::<OT>(view.data(), part)) {
        let (f, lower, upper) = choose|f: int, lower: i32, upper: i32|
            0 <= f < view.feature_instances@.len() && tracker == D1ScoreTracker::split(
                #[trigger] split_at(view, part, f, lower, upper),
            );
        let left = view.up_to(part, f, lower as int);
        let right = view.beyond(part, f, lower as int);
        assert(tracker.total(branching_cost) == one_split_cost::<OT>(
            view.data(),
            left,
            right,
            branching_cost,
        ));
    }
}

/// The splits met early on are the first ones.
pub proof fn lemma_splits_along_prefix<OT: OptimizationTask>(
    view: DataView<OT>,
    part: Set<int>,
    f: int,
    entries: Seq<FeatureValue>,
    p: int,
)
    requires
        0 <= p <= entries.len(),
    ensures
        splits_along(view, part, f, entries.take(p)).is_prefix_of(
            splits_along(view, part, f, entries),
        ),
    decreases entries.len(),
{
    if p < entries.len() {
        lemma_splits_along_prefix(view, part, f, entries.drop_last(), p);
        assert(entries.drop_last().take(p) == entries.take(p));
    } else {
        assert(entries.take(p) == entries);
    }
}

/// The splits on the first features are the first ones.
pub proof fn lemma_all_candidates_prefix<OT: OptimizationTask>(
    view: DataView<OT>,
    part: Set<int>,
    f: int,
    n: int,
)
    requires
        0 <= f <= n,
    ensures
        all_candidates(view, part, f).is_prefix_of(all_candidates(view, part, n)),
    decreases n,
{
    if f < n {
        lemma_all_candidates_prefix(view, part, f, n - 1);
    }
}

/// Once the tracker is optimal, the rest of the candidates does not matter.
pub proof fn lemma_scan_optimal<OT: OptimizationTask>(
    tracker: D1ScoreTracker<OT>,
    branching_cost: OT::CostType,
    first: Seq<Candidate<OT>>,
    all: Seq<Candidate<OT>>,
)
    requires
        first.is_prefix_of(all),
        scan(tracker, branching_cost, first).optimal(branching_cost),
    ensures
        scan(tracker, branching_cost, all) == scan(tracker, branching_cost, first),
    decreases all.len(),
{
    if first.len() < all.len() {
        assert(first.is_prefix_of(all.drop_last()));
        lemma_scan_optimal(tracker, branching_cost, first, all.drop_last());
    } else {
        assert(first == all);
    }
}

} // verus!
