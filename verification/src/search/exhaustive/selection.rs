//! Which of several splits is kept.

use vstd::prelude::*;

use crate::model::dataview::{entries_within, lists, DataView};
use crate::search::exhaustive::candidates::{
    all_candidates, consider_all, feature_candidates, lemma_last_within, lemma_step, scan,
    splits_along,
};
use crate::search::exhaustive::laws::{consider_all_is_unbeaten, no_dearer};
use crate::search::exhaustive::tracker::{Candidate, D1ScoreTracker};
use crate::tasks::{exact_costs, ordered_costs, Cost, CostSum, OptimizationTask};

verus! {

/// The first split comes before the second one: on an earlier feature, or on the same feature at a
/// smaller value.
pub open spec fn precedes(f: int, lower: int, g: int, upper: int) -> bool {
    f < g || (f == g && lower < upper)
}

/// The candidates stand in the order of their features, and of their values on each feature.
pub open spec fn in_turn<OT: OptimizationTask>(candidates: Seq<Candidate<OT>>) -> bool {
    forall|i: int, j: int|
        0 <= i < j < candidates.len() ==> precedes(
            (#[trigger] candidates[i]).feature as int,
            candidates[i].lower as int,
            (#[trigger] candidates[j]).feature as int,
            candidates[j].lower as int,
        )
}

/// Which candidate a tracker ends up with: the one at the returned index, or none if that is
/// negative.
pub proof fn lemma_picked<OT: OptimizationTask>(
    tracker: D1ScoreTracker<OT>,
    branching_cost: OT::CostType,
    candidates: Seq<Candidate<OT>>,
) -> (j: int)
    requires
        ordered_costs::<OT::CostType>(),
    ensures
        ({
            let found = consider_all(tracker, branching_cost, candidates);
            let total = found.total(branching_cost);
            &&& j < candidates.len()
            &&& j < 0 ==> found == tracker
            &&& j >= 0 ==> {
                &&& found == D1ScoreTracker::split(candidates[j])
                &&& total.undercuts(tracker.total(branching_cost))
            }
            &&& exact_costs::<OT::CostType>() ==> forall|i: int|
                0 <= i < j ==> total.undercuts(
                    (#[trigger] candidates[i]).total(branching_cost),
                )
        }),
    decreases candidates.len(),
{
    if candidates.len() == 0 {
        -1
    } else {
        let rest = candidates.drop_last();
        let last = candidates.last();
        let before = consider_all(tracker, branching_cost, rest);
        let k = lemma_picked(tracker, branching_cost, rest);
        consider_all_is_unbeaten(tracker, branching_cost, rest);
        let b = before.total(branching_cost);
        let c = last.total(branching_cost);
        if c.undercuts(b) {
            assert(no_dearer(b, tracker.total(branching_cost)));
            if exact_costs::<OT::CostType>() {
                assert forall|i: int| 0 <= i < candidates.len() - 1 implies c.undercuts(
                    (#[trigger] candidates[i]).total(branching_cost),
                ) by {
                    assert(rest[i] == candidates[i]);
                    let other = rest[i].total(branching_cost);
                    assert(c.undercuts(other) || other.undercuts(b));
                }
            }
            candidates.len() - 1
        } else {
            if exact_costs::<OT::CostType>() {
                assert forall|i: int| 0 <= i < k implies b.undercuts(
                    (#[trigger] candidates[i]).total(branching_cost),
                ) by {
                    assert(rest[i] == candidates[i]);
                }
            }
            k
        }
    }
}

/// A scan considers the first candidates, up to the returned number: all of them, or as many as it
/// takes to be optimal.
pub proof fn lemma_scan_stops<OT: OptimizationTask>(
    tracker: D1ScoreTracker<OT>,
    branching_cost: OT::CostType,
    candidates: Seq<Candidate<OT>>,
) -> (m: int)
    ensures
        0 <= m <= candidates.len(),
        scan(tracker, branching_cost, candidates) == consider_all(
            tracker,
            branching_cost,
            candidates.take(m),
        ),
        m < candidates.len() ==> scan(tracker, branching_cost, candidates).optimal(branching_cost),
        tracker.optimal(branching_cost) ==> m == 0,
    decreases candidates.len(),
{
    if candidates.len() == 0 {
        assert(candidates.take(0) =~= candidates);
        0
    } else {
        let rest = candidates.drop_last();
        let m = lemma_scan_stops(tracker, branching_cost, rest);
        assert(rest.take(m) =~= candidates.take(m));
        let before = scan(tracker, branching_cost, rest);
        if before.optimal(branching_cost) {
            m
        } else {
            assert(m == rest.len());
            assert(candidates.take(candidates.len() as int) =~= candidates);
            assert(candidates.take(m) =~= rest);
            if tracker.optimal(branching_cost) {
                assert(candidates.take(0) =~= Seq::empty());
                assert(before == tracker);
            }
            candidates.len() as int
        }
    }
}

/// The splits that a walk along a feature meets stand in order.
proof fn lemma_walk_in_turn<OT: OptimizationTask>(
    view: DataView<OT>,
    part: Set<int>,
    f: int,
    p: int,
)
    requires
        view.valid(),
        part.subset_of(view.ids()),
        0 <= f < view.feature_instances@.len(),
        0 <= p <= view.entries(f).len(),
    ensures
        ({
            let within = entries_within(view.entries(f).take(p), part);
            let found = splits_along(view, part, f, within);
            &&& in_turn(found)
            &&& forall|j: int|
                0 <= j < found.len() ==> {
                    &&& (#[trigger] found[j]).feature == f
                    &&& within.len() > 0
                    &&& found[j].lower < within.last().feature_value
                }
        }),
    decreases p,
{
    let entries = view.entries(f);
    let ids = view.ids();
    assert(view.covers(ids));
    assert(view.in_order(f));
    assert(lists(view.entries(f), ids));
    assert(view.feature_instances.len() == view.feature_instances@.len());
    if p > 0 {
        lemma_walk_in_turn(view, part, f, p - 1);
        lemma_step(view, ids, part, f, p - 1);
        let entry = entries[p - 1];
        let within = entries_within(entries.take(p - 1), part);
        let found = splits_along(view, part, f, within);
        let within_after = entries_within(entries.take(p), part);
        let after = splits_along(view, part, f, within_after);
        lemma_last_within(view, part, f, p - 1);
        if part.contains(entry.instance_id as int) && within.len() > 0 {
            let lower = within.last().feature_value;
            let s = choose|s: int|
                0 <= s < p - 1 && (#[trigger] view.entries(f)[s]).feature_value == lower
                    && part.contains(view.entries(f)[s].instance_id as int);
            assert(entries[s].feature_value <= entries[p - 1].feature_value);
            assert forall|j: int| 0 <= j < after.len() implies {
                &&& (#[trigger] after[j]).feature == f
                &&& after[j].lower < within_after.last().feature_value
            } by {
                if j < found.len() {
                    assert(after[j] == found[j]);
                }
            }
            assert forall|i: int, j: int| 0 <= i < j < after.len() implies precedes(
                (#[trigger] after[i]).feature as int,
                after[i].lower as int,
                (#[trigger] after[j]).feature as int,
                after[j].lower as int,
            ) by {
                assert(after[i] == found[i]);
                if j < found.len() {
                    assert(after[j] == found[j]);
                }
            }
        }
    } else {
        assert(entries.take(0) =~= Seq::empty());
    }
}

/// The splits of a part on one feature stand in order.
pub proof fn lemma_feature_in_turn<OT: OptimizationTask>(view: DataView<OT>, part: Set<int>, f: int)
    requires
        view.valid(),
        part.subset_of(view.ids()),
        0 <= f < view.feature_instances@.len(),
    ensures
        in_turn(feature_candidates(view, part, f)),
        forall|j: int|
            0 <= j < feature_candidates(view, part, f).len() ==> (#[trigger] feature_candidates(
                view,
                part,
                f,
            )[j]).feature == f,
{
    let entries = view.entries(f);
    assert(entries.take(entries.len() as int) =~= entries);
    lemma_walk_in_turn(view, part, f, entries.len() as int);
}

/// The splits of a part stand in order.
pub proof fn lemma_all_in_turn<OT: OptimizationTask>(view: DataView<OT>, part: Set<int>, n: int)
    requires
        view.valid(),
        part.subset_of(view.ids()),
        0 <= n <= view.feature_instances@.len(),
    ensures
        in_turn(all_candidates(view, part, n)),
        forall|j: int|
            0 <= j < all_candidates(view, part, n).len() ==> (#[trigger] all_candidates(
                view,
                part,
                n,
            )[j]).feature < n,
    decreases n,
{
    if n > 0 {
        lemma_all_in_turn(view, part, n - 1);
        lemma_feature_in_turn(view, part, n - 1);
        let before = all_candidates(view, part, n - 1);
        let more = feature_candidates(view, part, n - 1);
        let all = all_candidates(view, part, n);
        assert forall|j: int| 0 <= j < all.len() implies {
            &&& (#[trigger] all[j]).feature < n
            &&& j < before.len() ==> all[j] == before[j]
            &&& j >= before.len() ==> all[j] == more[j - before.len()]
        } by {}
        assert forall|i: int, j: int| 0 <= i < j < all.len() implies precedes(
            (#[trigger] all[i]).feature as int,
            all[i].lower as int,
            (#[trigger] all[j]).feature as int,
            all[j].lower as int,
        ) by {
            if j < before.len() {
                assert(all[i] == before[i] && all[j] == before[j]);
            } else if i < before.len() {
                assert(all[i] == before[i]);
                assert(all[j] == more[j - before.len()]);
            } else {
                assert(all[i] == more[i - before.len()]);
                assert(all[j] == more[j - before.len()]);
            }
        }
    }
}

} // verus!
