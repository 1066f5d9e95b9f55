//! However the features are shared out among workers, the search below a split at the root finds a
//! best tree.

use vstd::prelude::*;

use crate::model::dataview::DataView;
use crate::model::tree::{leaf_of, Tree};
use crate::search::exhaustive::candidates::{
    consider_all, feature_candidates, lemma_feature_candidates_split, meets_optimum, node_fits,
    one_split_cost, real_split, shallow_tree_cost, split_fits, splits_part,
};
use crate::search::exhaustive::laws::{
    between_neighbours, consider_all_is_unbeaten, divides, every_met_split_is_between_neighbours,
    every_met_split_is_real, every_split_is_met, lemma_consider_all_sane, lemma_leaf_unbeaten,
    lemma_no_dearer, lemma_split_sane, lemma_splits_sane, lemma_stays_snug, lemma_stays_solid,
    met_optimum_is_unbeaten, neighbour_candidate, no_dearer, no_empty_sides, optimal_is_unbeaten,
    possible_costs, real_candidate, sane_tracker, side_cost, snug, snug_is_between_neighbours,
    solid, solid_has_no_empty_sides, split_cost, tracker_fits, tree_costs, unbeaten,
};
use crate::search::exhaustive::left_right::{
    cheaper, in_order_of_features, LeftRightState, RootSplit,
};
use crate::search::exhaustive::tracker::{Candidate, D1ScoreTracker};
use crate::tasks::{
    addable, exact_costs, ordered_costs, plus, sound_costs, Cost, CostSum, OptimizationTask,
};

verus! {

/// What the workers have found after each has visited its features: worker `w` those of
/// `orders[w]`, in that order.
pub open spec fn after_schedule<OT: OptimizationTask>(
    root: RootSplit<OT>,
    orders: Seq<Seq<int>>,
) -> Seq<LeftRightState<OT>> {
    Seq::new(orders.len(), |w: int| root.after_visits(orders[w]))
}

/// The price of branching and the cost of every part of the view are possible costs.
pub open spec fn costs_possible<OT: OptimizationTask>(root: RootSplit<OT>) -> bool {
    possible_costs::<OT>(root.view.data(), root.view.ids(), root.branching_cost)
}

/// Some worker visits the feature.
pub open spec fn visited_by_someone(orders: Seq<Seq<int>>, feature: int) -> bool {
    exists|w: int| 0 <= w < orders.len() && #[trigger] orders[w].contains(feature)
}

/// Only features of the view are visited.
pub open spec fn within_features<OT: OptimizationTask>(
    root: RootSplit<OT>,
    orders: Seq<Seq<int>>,
) -> bool {
    forall|w: int, j: int|
        0 <= w < orders.len() && 0 <= j < orders[w].len() ==> 0 <= #[trigger] orders[w][j]
            < root.view.feature_instances@.len()
}

/// The workers may stop: they only visited features of the view, and between them all of these, or
/// else one of them was done with both sides.
pub open spec fn finished<OT: OptimizationTask>(
    root: RootSplit<OT>,
    orders: Seq<Seq<int>>,
) -> bool {
    let n = root.view.feature_instances@.len();
    &&& within_features(root, orders)
    &&& {
        ||| forall|f: int| 0 <= f < n ==> #[trigger] visited_by_someone(orders, f)
        ||| exists|w: int|
            {
                let state = #[trigger] root.after_visits(orders[w]);
                0 <= w < orders.len() && state.left_done && state.right_done
            }
    }
}

/// What is known of one side after visits of the features `order`.
pub open spec fn explored<OT: OptimizationTask>(
    view: DataView<OT>,
    part: Set<int>,
    branching_cost: OT::CostType,
    order: Seq<int>,
    tracker: D1ScoreTracker<OT>,
    done: bool,
) -> bool {
    let total = tracker.total(branching_cost);
    &&& sane_tracker(tracker, branching_cost)
    &&& no_dearer(total, OT::CostSumType::cost_of(view.data(), part))
    &&& done ==> forall|c: Candidate<OT>| #[trigger]
        splits_part(view, part, c) ==> !c.total(branching_cost).undercuts(total)
    &&& forall|f: int, j: int|
        order.contains(f) && 0 <= j < feature_candidates(view, part, f).len() ==> !(
        #[trigger] feature_candidates(view, part, f)[j]).total(branching_cost).undercuts(total)
}

/// One visit that tries the candidates of feature `f`.
proof fn lemma_explore<OT: OptimizationTask>(
    root: RootSplit<OT>,
    part: Set<int>,
    order: Seq<int>,
    f: int,
    tracker: D1ScoreTracker<OT>,
    done: bool,
)
    requires
        root.valid(),
        sound_costs::<OT::CostType>(),
        costs_possible(root),
        part.subset_of(root.view.ids()),
        0 <= f < root.view.feature_instances@.len(),
        explored(root.view, part, root.branching_cost, order, tracker, done),
    ensures
        done ==> explored(root.view, part, root.branching_cost, order.push(f), tracker, done),
        ({
            let bc = root.branching_cost;
            let found = feature_candidates(root.view, part, f);
            explored(
                root.view,
                part,
                bc,
                order.push(f),
                consider_all(tracker, bc, found),
                done || meets_optimum(tracker, bc, found),
            )
        }),
{
    let view = root.view;
    let bc = root.branching_cost;
    let found = feature_candidates(view, part, f);
    let after = consider_all(tracker, bc, found);
    let b = tracker.total(bc);
    let a = after.total(bc);
    let leaf = OT::CostSumType::cost_of(view.data(), part);
    let more = order.push(f);
    lemma_feature_candidates_split(view, part, f);
    assert forall|g: int| more.contains(g) implies order.contains(g) || g == f by {
        let j = choose|j: int| 0 <= j < more.len() && more[j] == g;
        if j < order.len() {
            assert(order[j] == g);
        }
    }
    if done {
        assert forall|g: int, j: int|
            more.contains(g) && 0 <= j < feature_candidates(view, part, g).len() implies !(
        #[trigger] feature_candidates(view, part, g)[j]).total(bc).undercuts(b) by {
            if g == f {
                assert(splits_part(view, part, found[j]));
            }
        }
    }
    lemma_splits_sane(view, part, bc, found);
    lemma_consider_all_sane(tracker, bc, found);
    consider_all_is_unbeaten(tracker, bc, found);
    assert(no_dearer(a, leaf));
    assert forall|g: int, j: int|
        more.contains(g) && 0 <= j < feature_candidates(view, part, g).len() implies !(
    #[trigger] feature_candidates(view, part, g)[j]).total(bc).undercuts(a) by {
        if g == f {
            assert(!found[j].total(bc).undercuts(a));
        } else {
            lemma_no_dearer(a, b, feature_candidates(view, part, g)[j].total(bc));
        }
    }
    if done || meets_optimum(tracker, bc, found) {
        assert forall|c: Candidate<OT>| #[trigger] splits_part(view, part, c) implies !c.total(
            bc,
        ).undercuts(a) by {
            if done {
                lemma_no_dearer(a, b, c.total(bc));
            } else {
                lemma_split_sane(view, part, bc, c);
                met_optimum_is_unbeaten(tracker, bc, found, c);
            }
        }
    }
}

/// What a worker has found after its visits.
pub proof fn lemma_worker<OT: OptimizationTask>(root: RootSplit<OT>, order: Seq<int>)
    requires
        root.valid(),
        sound_costs::<OT::CostType>(),
        costs_possible(root),
        forall|j: int|
            0 <= j < order.len() ==> 0 <= #[trigger] order[j]
                < root.view.feature_instances@.len(),
    ensures
        ({
            let state = root.after_visits(order);
            let bc = root.branching_cost;
            &&& explored(
                root.view,
                root.left_ids(),
                bc,
                order,
                state.left_tracker,
                state.left_done,
            )
            &&& explored(
                root.view,
                root.right_ids(),
                bc,
                order,
                state.right_tracker,
                state.right_done,
            )
        }),
    decreases order.len(),
{
    done_worker_may_stop(root, order);
    if order.len() == 0 {
        lemma_start(root, root.left_ids(), order, root.unsplit_left());
        lemma_start(root, root.right_ids(), order, root.unsplit_right());
    } else {
        let rest = order.drop_last();
        let f = order.last();
        assert forall|j: int| 0 <= j < rest.len() implies 0 <= #[trigger] rest[j]
            < root.view.feature_instances@.len() by {
            assert(rest[j] == order[j]);
        }
        lemma_worker(root, rest);
        let before = root.after_visits(rest);
        done_worker_may_stop(root, rest);
        assert(rest.push(f) =~= order);
        lemma_explore(root, root.left_ids(), rest, f, before.left_tracker, before.left_done);
        lemma_explore(root, root.right_ids(), rest, f, before.right_tracker, before.right_done);
    }
}

/// A side that has not been split yet.
proof fn lemma_start<OT: OptimizationTask>(
    root: RootSplit<OT>,
    part: Set<int>,
    order: Seq<int>,
    tracker: D1ScoreTracker<OT>,
)
    requires
        root.valid(),
        sound_costs::<OT::CostType>(),
        costs_possible(root),
        part.subset_of(root.view.ids()),
        order.len() == 0,
        tracker == D1ScoreTracker::unsplit(leaf_of::<OT>(root.view.data(), part)),
    ensures
        explored(
            root.view,
            part,
            root.branching_cost,
            order,
            tracker,
            tracker.optimal(root.branching_cost),
        ),
{
    let bc = root.branching_cost;
    let total = tracker.total(bc);
    assert(OT::CostSumType::cost_of(root.view.data(), part).possible());
    if tracker.optimal(bc) {
        assert forall|c: Candidate<OT>| #[trigger] splits_part(root.view, part, c) implies !c.total(
            bc,
        ).undercuts(total) by {
            lemma_split_sane(root.view, part, bc, c);
            optimal_is_unbeaten(tracker, bc, c);
        }
    }
}

/// What was explored in full is unbeaten.
pub proof fn lemma_explored<OT: OptimizationTask>(
    root: RootSplit<OT>,
    part: Set<int>,
    order: Seq<int>,
    tracker: D1ScoreTracker<OT>,
    done: bool,
    f: int,
    bound: int,
)
    requires
        root.valid(),
        part.subset_of(root.view.ids()),
        explored(root.view, part, root.branching_cost, order, tracker, done),
        done || order.contains(f),
        real_split(root.view, part, f, bound),
    ensures
        !split_cost(root.view, part, root.branching_cost, f, bound).undercuts(
            tracker.total(root.branching_cost),
        ),
{
    let view = root.view;
    let bc = root.branching_cost;
    every_split_is_met(view, part, f, bound);
    let found = feature_candidates(view, part, f);
    let j = choose|j: int|
        0 <= j < feature_candidates(view, part, f).len() && divides(
            view,
            part,
            f,
            bound,
            #[trigger] feature_candidates(view, part, f)[j],
        );
    assert(found[j].total(bc) == split_cost(view, part, bc, f, bound));
    lemma_feature_candidates_split(view, part, f);
    assert(splits_part(view, part, found[j]));
}

/// Of what several workers found for a side, nothing beats what is kept, nor does the unsplit side.
pub proof fn best_worker_is_kept<OT: OptimizationTask>(
    root: RootSplit<OT>,
    states: Seq<LeftRightState<OT>>,
)
    requires
        ordered_costs::<OT::CostType>(),
    ensures
        ({
            let bc = root.branching_cost;
            let left = root.best_left(states).total(bc);
            let right = root.best_right(states).total(bc);
            &&& no_dearer(left, root.unsplit_left().total(bc))
            &&& no_dearer(right, root.unsplit_right().total(bc))
            &&& forall|w: int|
                0 <= w < states.len() ==> {
                    &&& !(#[trigger] states[w]).left_tracker.total(bc).undercuts(left)
                    &&& !states[w].right_tracker.total(bc).undercuts(right)
                }
        }),
    decreases states.len(),
{
    let bc = root.branching_cost;
    let left = root.best_left(states).total(bc);
    let right = root.best_right(states).total(bc);
    if states.len() > 0 {
        let rest = states.drop_last();
        best_worker_is_kept(root, rest);
        let last = states[states.len() - 1];
        assert(states.last() == last);
        lemma_cheaper(bc, root.best_left(rest), last.left_tracker);
        lemma_cheaper(bc, root.best_right(rest), last.right_tracker);
        assert forall|w: int| 0 <= w < states.len() implies {
            &&& !(#[trigger] states[w]).left_tracker.total(bc).undercuts(left)
            &&& !states[w].right_tracker.total(bc).undercuts(right)
        } by {
            if w < rest.len() {
                assert(rest[w] == states[w]);
                lemma_no_dearer(
                    left,
                    root.best_left(rest).total(bc),
                    states[w].left_tracker.total(bc),
                );
                lemma_no_dearer(
                    right,
                    root.best_right(rest).total(bc),
                    states[w].right_tracker.total(bc),
                );
            }
        }
    }
}

proof fn lemma_cheaper<OT: OptimizationTask>(
    branching_cost: OT::CostType,
    first: D1ScoreTracker<OT>,
    second: D1ScoreTracker<OT>,
)
    requires
        ordered_costs::<OT::CostType>(),
    ensures
        ({
            let total = cheaper(branching_cost, first, second).total(branching_cost);
            &&& no_dearer(total, first.total(branching_cost))
            &&& !second.total(branching_cost).undercuts(total)
        }),
{
    let b = second.total(branching_cost);
    assert(!b.undercuts(b));
}

/// Some worker has visited the feature or is done with both sides.
spec fn settled<OT: OptimizationTask>(
    root: RootSplit<OT>,
    orders: Seq<Seq<int>>,
    f: int,
) -> bool {
    exists|w: int|
        {
            let state = #[trigger] root.after_visits(orders[w]);
            &&& 0 <= w < orders.len()
            &&& orders[w].contains(f) || (state.left_done && state.right_done)
        }
}

/// What was found on the two sides are trees of theirs, without empty sides and split between
/// neighbouring values.
pub open spec fn sound<OT: OptimizationTask>(root: RootSplit<OT>, state: LeftRightState<OT>) -> bool {
    &&& root.on_both_sides(state)
    &&& solid(root.view, root.left_ids(), state.left_tracker)
    &&& solid(root.view, root.right_ids(), state.right_tracker)
    &&& snug(root.view, root.left_ids(), root.left_ids(), state.left_tracker)
    &&& snug(root.view, root.right_ids(), root.right_ids(), state.right_tracker)
}

/// What a worker finds is sound.
pub proof fn lemma_sound<OT: OptimizationTask>(root: RootSplit<OT>, order: Seq<int>)
    requires
        root.valid(),
        forall|j: int|
            0 <= j < order.len() ==> 0 <= #[trigger] order[j]
                < root.view.feature_instances@.len(),
    ensures
        sound(root, root.after_visits(order)),
    decreases order.len(),
{
    if order.len() > 0 {
        let rest = order.drop_last();
        let f = order.last();
        assert forall|j: int| 0 <= j < rest.len() implies 0 <= #[trigger] rest[j]
            < root.view.feature_instances@.len() by {
            assert(rest[j] == order[j]);
        }
        lemma_sound(root, rest);
        let before = root.after_visits(rest);
        root.lemma_visited(before, f);
        lemma_feature_stays_solid(root, root.left_ids(), before.left_tracker, f);
        lemma_feature_stays_solid(root, root.right_ids(), before.right_tracker, f);
    }
}

/// The splits of a feature bring in no empty sides, and lie between neighbouring values.
proof fn lemma_feature_stays_solid<OT: OptimizationTask>(
    root: RootSplit<OT>,
    part: Set<int>,
    tracker: D1ScoreTracker<OT>,
    f: int,
)
    requires
        root.valid(),
        part.subset_of(root.view.ids()),
        solid(root.view, part, tracker),
        snug(root.view, part, part, tracker),
        0 <= f < root.view.feature_instances@.len(),
    ensures
        solid(
            root.view,
            part,
            consider_all(tracker, root.branching_cost, feature_candidates(root.view, part, f)),
        ),
        snug(
            root.view,
            part,
            part,
            consider_all(tracker, root.branching_cost, feature_candidates(root.view, part, f)),
        ),
{
    let found = feature_candidates(root.view, part, f);
    assert forall|j: int| 0 <= j < found.len() implies real_candidate(
        root.view,
        part,
        #[trigger] found[j],
    ) by {
        every_met_split_is_real(root.view, part, f, j);
    }
    assert forall|j: int| 0 <= j < found.len() implies neighbour_candidate(
        root.view,
        part,
        part,
        #[trigger] found[j],
    ) by {
        every_met_split_is_between_neighbours(root.view, part, f, j);
    }
    lemma_stays_solid(root.view, part, root.branching_cost, tracker, found);
    lemma_stays_snug(root.view, part, part, root.branching_cost, tracker, found);
}

/// The best of what several workers find is sound.
pub proof fn lemma_best_is_sound<OT: OptimizationTask>(
    root: RootSplit<OT>,
    states: Seq<LeftRightState<OT>>,
)
    requires
        forall|w: int| 0 <= w < states.len() ==> sound(root, #[trigger] states[w]),
    ensures
        solid(root.view, root.left_ids(), root.best_left(states)),
        solid(root.view, root.right_ids(), root.best_right(states)),
        snug(root.view, root.left_ids(), root.left_ids(), root.best_left(states)),
        snug(root.view, root.right_ids(), root.right_ids(), root.best_right(states)),
    decreases states.len(),
{
    if states.len() > 0 {
        let rest = states.drop_last();
        assert forall|w: int| 0 <= w < rest.len() implies sound(root, #[trigger] rest[w]) by {
            assert(rest[w] == states[w]);
        }
        lemma_best_is_sound(root, rest);
        assert(sound(root, states[states.len() - 1]));
    }
}

/// The best of what several workers find is split between neighbouring values of the side.
pub proof fn lemma_best_is_snug<OT: OptimizationTask>(root: RootSplit<OT>, orders: Seq<Seq<int>>)
    requires
        root.valid(),
        within_features(root, orders),
    ensures
        ({
            let states = after_schedule(root, orders);
            &&& snug(root.view, root.left_ids(), root.left_ids(), root.best_left(states))
            &&& snug(root.view, root.right_ids(), root.right_ids(), root.best_right(states))
        }),
{
    let states = after_schedule(root, orders);
    assert forall|w: int| 0 <= w < states.len() implies sound(root, #[trigger] states[w]) by {
        assert forall|j: int| 0 <= j < orders[w].len() implies 0 <= #[trigger] orders[w][j]
            < root.view.feature_instances@.len() by {}
        lemma_sound(root, orders[w]);
    }
    lemma_best_is_sound(root, states);
}

/// The best of what several workers find stands for trees of the two sides, without empty sides and
/// split between neighbouring values.
proof fn lemma_side_trees<OT: OptimizationTask>(root: RootSplit<OT>, orders: Seq<Seq<int>>)
    requires
        root.valid(),
        within_features(root, orders),
    ensures
        ({
            let states = after_schedule(root, orders);
            let bc = root.branching_cost;
            let left = root.best_left(states);
            let right = root.best_right(states);
            &&& root.view.fits_tree(root.left_ids(), bc, left.tree(bc))
            &&& root.view.fits_tree(root.right_ids(), bc, right.tree(bc))
            &&& no_empty_sides(root.view, root.left_ids(), left.tree(bc))
            &&& no_empty_sides(root.view, root.right_ids(), right.tree(bc))
            &&& between_neighbours(root.view, root.left_ids(), left.tree(bc))
            &&& between_neighbours(root.view, root.right_ids(), right.tree(bc))
            &&& left.tree(bc).depth() <= 1
            &&& right.tree(bc).depth() <= 1
            &&& left.tree(bc).total() == left.total(bc)
            &&& right.tree(bc).total() == right.total(bc)
        }),
{
    let view = root.view;
    let states = after_schedule(root, orders);
    let bc = root.branching_cost;
    assert forall|w: int| 0 <= w < states.len() implies sound(root, #[trigger] states[w]) by {
        assert forall|j: int| 0 <= j < orders[w].len() implies 0 <= #[trigger] orders[w][j]
            < view.feature_instances@.len() by {}
        lemma_sound(root, orders[w]);
    }
    root.lemma_best(states);
    lemma_best_is_sound(root, states);
    tracker_fits(view, root.left_ids(), bc, root.best_left(states));
    tracker_fits(view, root.right_ids(), bc, root.best_right(states));
    solid_has_no_empty_sides(view, root.left_ids(), bc, root.best_left(states));
    solid_has_no_empty_sides(view, root.right_ids(), bc, root.best_right(states));
    let (left, right) = (root.left_ids(), root.right_ids());
    snug_is_between_neighbours(view, left, left, bc, root.best_left(states));
    snug_is_between_neighbours(view, right, right, bc, root.best_right(states));
}

/// However the work is shared out and wherever it stops, what comes out is a tree of depth at most
/// two that is made for the view. Below the root, it has no empty sides, and splits a side halfway
/// between two values that both occur in that side, with none in between.
pub proof fn outcome_fits<OT: OptimizationTask>(root: RootSplit<OT>, orders: Seq<Seq<int>>)
    requires
        root.valid(),
        within_features(root, orders),
    ensures
        ({
            let states = after_schedule(root, orders);
            let bc = root.branching_cost;
            let tree = root.outcome(states);
            let left = root.best_left(states).tree(bc);
            let right = root.best_right(states).tree(bc);
            &&& root.view.fits_tree(root.view.ids(), bc, tree)
            &&& tree.depth() <= 2
            &&& no_empty_sides(root.view, root.left_ids(), left)
            &&& no_empty_sides(root.view, root.right_ids(), right)
            &&& between_neighbours(root.view, root.left_ids(), left)
            &&& between_neighbours(root.view, root.right_ids(), right)
        }),
{
    lemma_side_trees(root, orders);
    let tree = root.outcome(after_schedule(root, orders));
    assert(root.view.fits_tree(root.view.ids(), root.branching_cost, tree));
    assert(tree.depth() <= 2);
}

/// For each feature, some worker has visited it or is done.
proof fn lemma_settled<OT: OptimizationTask>(root: RootSplit<OT>, orders: Seq<Seq<int>>, f: int)
    requires
        finished(root, orders),
        0 <= f < root.view.feature_instances@.len(),
    ensures
        settled(root, orders, f),
{
    if visited_by_someone(orders, f) {
        let w = choose|w: int| 0 <= w < orders.len() && #[trigger] orders[w].contains(f);
        let state = root.after_visits(orders[w]);
    } else {
        let w = choose|w: int|
            {
                let state = #[trigger] root.after_visits(orders[w]);
                0 <= w < orders.len() && state.left_done && state.right_done
            };
        let state = root.after_visits(orders[w]);
    }
}

/// Some worker found a tree for the left side that the split does not beat.
spec fn left_found<OT: OptimizationTask>(
    root: RootSplit<OT>,
    orders: Seq<Seq<int>>,
    cost: OT::CostType,
) -> bool {
    exists|w: int|
        0 <= w < orders.len() && !cost.undercuts(
            (#[trigger] root.after_visits(orders[w])).left_tracker.total(root.branching_cost),
        )
}

/// Some worker found a tree for the right side that the split does not beat.
spec fn right_found<OT: OptimizationTask>(
    root: RootSplit<OT>,
    orders: Seq<Seq<int>>,
    cost: OT::CostType,
) -> bool {
    exists|w: int|
        0 <= w < orders.len() && !cost.undercuts(
            (#[trigger] root.after_visits(orders[w])).right_tracker.total(root.branching_cost),
        )
}

/// Every split of a side fails to beat what some worker found for that side.
proof fn lemma_found<OT: OptimizationTask>(
    root: RootSplit<OT>,
    orders: Seq<Seq<int>>,
    f: int,
    bound: int,
)
    requires
        root.valid(),
        sound_costs::<OT::CostType>(),
        costs_possible(root),
        finished(root, orders),
    ensures
        ({
            let bc = root.branching_cost;
            let (left, right) = (root.left_ids(), root.right_ids());
            &&& real_split(root.view, left, f, bound) ==> left_found(
                root,
                orders,
                split_cost(root.view, left, bc, f, bound),
            )
            &&& real_split(root.view, right, f, bound) ==> right_found(
                root,
                orders,
                split_cost(root.view, right, bc, f, bound),
            )
        }),
{
    let n = root.view.feature_instances@.len();
    let (left, right) = (root.left_ids(), root.right_ids());
    if real_split(root.view, left, f, bound) || real_split(root.view, right, f, bound) {
        lemma_settled(root, orders, f);
        let w = choose|w: int|
            {
                let state = #[trigger] root.after_visits(orders[w]);
                &&& 0 <= w < orders.len()
                &&& orders[w].contains(f) || (state.left_done && state.right_done)
            };
        let state = root.after_visits(orders[w]);
        assert forall|j: int| 0 <= j < orders[w].len() implies 0 <= #[trigger] orders[w][j] < n by {
        }
        lemma_worker(root, orders[w]);
        if real_split(root.view, left, f, bound) {
            lemma_explored(root, left, orders[w], state.left_tracker, state.left_done, f, bound);
        }
        if real_split(root.view, right, f, bound) {
            lemma_explored(root, right, orders[w], state.right_tracker, state.right_done, f, bound);
        }
    }
}

/// The search below a split at the root is exhaustive on both sides: where one worker may stop, no
/// tree of depth at most one for a side is strictly cheaper than the one that it found.
pub proof fn one_worker_is_optimal<OT: OptimizationTask>(root: RootSplit<OT>, order: Seq<int>)
    requires
        root.valid(),
        sound_costs::<OT::CostType>(),
        costs_possible(root),
        finished(root, seq![order]),
    ensures
        ({
            let states = after_schedule(root, seq![order]);
            let bc = root.branching_cost;
            let left = root.best_left(states).total(bc);
            let right = root.best_right(states).total(bc);
            &&& unbeaten(root.view, root.left_ids(), bc, left)
            &&& unbeaten(root.view, root.right_ids(), bc, right)
        }),
{
    let view = root.view;
    let n = view.feature_instances@.len();
    let orders = seq![order];
    let states = after_schedule(root, orders);
    let state = root.after_visits(order);
    let bc = root.branching_cost;
    let left = root.best_left(states).total(bc);
    let right = root.best_right(states).total(bc);
    assert forall|j: int| 0 <= j < order.len() implies 0 <= #[trigger] order[j] < n by {
        assert(orders[0][j] == order[j]);
    }
    lemma_worker(root, order);
    assert(states.drop_last() =~= Seq::empty());
    assert(states.last() == state);
    assert(root.best_left(states.drop_last()) == root.unsplit_left());
    assert(root.best_right(states.drop_last()) == root.unsplit_right());
    assert(left == state.left_tracker.total(bc));
    assert(right == state.right_tracker.total(bc));
    lemma_leaf_unbeaten(root.unsplit_left().total(bc), left);
    lemma_leaf_unbeaten(root.unsplit_right().total(bc), right);
    assert forall|f: int, bound: int| real_split(view, root.left_ids(), f, bound) implies !(
    #[trigger] split_cost(view, root.left_ids(), bc, f, bound)).undercuts(left) by {
        lemma_found(root, orders, f, bound);
    }
    assert forall|f: int, bound: int| real_split(view, root.right_ids(), f, bound) implies !(
    #[trigger] split_cost(view, root.right_ids(), bc, f, bound)).undercuts(right) by {
        lemma_found(root, orders, f, bound);
    }
}

/// The search below a split at the root is exhaustive on both sides: where costs are exact and the
/// workers may stop, no tree of depth at most one for a side is strictly cheaper than the one that
/// is kept for it.
pub proof fn sides_are_optimal<OT: OptimizationTask>(root: RootSplit<OT>, orders: Seq<Seq<int>>)
    requires
        root.valid(),
        exact_costs::<OT::CostType>(),
        costs_possible(root),
        finished(root, orders),
    ensures
        ({
            let states = after_schedule(root, orders);
            let bc = root.branching_cost;
            let left = root.best_left(states).total(bc);
            let right = root.best_right(states).total(bc);
            &&& unbeaten(root.view, root.left_ids(), bc, left)
            &&& unbeaten(root.view, root.right_ids(), bc, right)
        }),
{
    let view = root.view;
    let states = after_schedule(root, orders);
    let bc = root.branching_cost;
    let left = root.best_left(states).total(bc);
    let right = root.best_right(states).total(bc);
    best_worker_is_kept(root, states);
    lemma_leaf_unbeaten(root.unsplit_left().total(bc), left);
    lemma_leaf_unbeaten(root.unsplit_right().total(bc), right);
    assert forall|f: int, bound: int| real_split(view, root.left_ids(), f, bound) implies !(
    #[trigger] split_cost(view, root.left_ids(), bc, f, bound)).undercuts(left) by {
        lemma_found(root, orders, f, bound);
        let c = split_cost(view, root.left_ids(), bc, f, bound);
        let w = choose|w: int|
            0 <= w < orders.len() && !c.undercuts(
                (#[trigger] root.after_visits(orders[w])).left_tracker.total(bc),
            );
        let t = states[w].left_tracker.total(bc);
        if c.undercuts(left) {
            assert(c.undercuts(t) || t.undercuts(left));
        }
    }
    assert forall|f: int, bound: int| real_split(view, root.right_ids(), f, bound) implies !(
    #[trigger] split_cost(view, root.right_ids(), bc, f, bound)).undercuts(right) by {
        lemma_found(root, orders, f, bound);
        let c = split_cost(view, root.right_ids(), bc, f, bound);
        let w = choose|w: int|
            0 <= w < orders.len() && !c.undercuts(
                (#[trigger] root.after_visits(orders[w])).right_tracker.total(bc),
            );
        let t = states[w].right_tracker.total(bc);
        if c.undercuts(right) {
            assert(c.undercuts(t) || t.undercuts(right));
        }
    }
}

/// What is kept for a side costs what a leaf or a split of that side costs.
pub proof fn sides_are_trees<OT: OptimizationTask>(root: RootSplit<OT>, orders: Seq<Seq<int>>)
    requires
        root.valid(),
        within_features(root, orders),
    ensures
        ({
            let states = after_schedule(root, orders);
            let bc = root.branching_cost;
            &&& side_cost(root.view, root.left_ids(), bc, root.best_left(states).total(bc))
            &&& side_cost(root.view, root.right_ids(), bc, root.best_right(states).total(bc))
        }),
{
    let states = after_schedule(root, orders);
    let bc = root.branching_cost;
    lemma_side_trees(root, orders);
    tree_costs(root.view, root.left_ids(), bc, root.best_left(states).tree(bc));
    tree_costs(root.view, root.right_ids(), bc, root.best_right(states).tree(bc));
}

/// The search below a split at the root is exhaustive: where costs are exact and the workers may
/// stop, no tree with that split at its root and trees of depth at most one below it is strictly
/// cheaper than the one that comes out.
pub proof fn outcome_is_optimal<OT: OptimizationTask>(
    root: RootSplit<OT>,
    orders: Seq<Seq<int>>,
    left: OT::CostType,
    right: OT::CostType,
)
    requires
        root.valid(),
        exact_costs::<OT::CostType>(),
        costs_possible(root),
        finished(root, orders),
        side_cost(root.view, root.left_ids(), root.branching_cost, left),
        side_cost(root.view, root.right_ids(), root.branching_cost, right),
    ensures
        !plus(plus(left, right), root.branching_cost).undercuts(
            root.outcome(after_schedule(root, orders)).total(),
        ),
{
    let bc = root.branching_cost;
    let states = after_schedule(root, orders);
    let l = root.best_left(states).total(bc);
    let r = root.best_right(states).total(bc);
    sides_are_optimal(root, orders);
    sides_are_trees(root, orders);
    lemma_unbeaten(root.view, root.left_ids(), bc, l, left);
    lemma_unbeaten(root.view, root.right_ids(), bc, r, right);
    lemma_better_sides(root, left, right, l, r);
}

/// Where costs are exact, sides that are not beaten make a tree that is not beaten.
pub proof fn lemma_better_sides<OT: OptimizationTask>(
    root: RootSplit<OT>,
    left: OT::CostType,
    right: OT::CostType,
    best_left: OT::CostType,
    best_right: OT::CostType,
)
    requires
        root.valid(),
        exact_costs::<OT::CostType>(),
        costs_possible(root),
        side_cost(root.view, root.left_ids(), root.branching_cost, left),
        side_cost(root.view, root.right_ids(), root.branching_cost, right),
        side_cost(root.view, root.left_ids(), root.branching_cost, best_left),
        side_cost(root.view, root.right_ids(), root.branching_cost, best_right),
        !left.undercuts(best_left),
        !right.undercuts(best_right),
    ensures
        !plus(plus(left, right), root.branching_cost).undercuts(
            plus(plus(best_left, best_right), root.branching_cost),
        ),
{
    let bc = root.branching_cost;
    lemma_nodes_fit(root, left, right);
    lemma_nodes_fit(root, best_left, right);
    lemma_nodes_fit(root, best_left, best_right);
    lemma_side_possible(root, root.left_ids(), left);
    lemma_side_possible(root, root.left_ids(), best_left);
    lemma_side_possible(root, root.right_ids(), right);
    lemma_side_possible(root, root.right_ids(), best_right);
    let given = plus(left, right);
    let mixed = plus(best_left, right);
    let best = plus(best_left, best_right);
    assert(!given.undercuts(mixed));
    assert(!mixed.undercuts(best));
    assert(!given.undercuts(best)) by {
        if given.undercuts(best) {
            assert(given.undercuts(mixed) || mixed.undercuts(best));
        }
    }
    assert(!plus(given, bc).undercuts(plus(best, bc)));
}

/// What nothing beats, no tree of depth at most one beats.
pub proof fn lemma_unbeaten<OT: OptimizationTask>(
    view: DataView<OT>,
    part: Set<int>,
    branching_cost: OT::CostType,
    best: OT::CostType,
    cost: OT::CostType,
)
    requires
        unbeaten(view, part, branching_cost, best),
        side_cost(view, part, branching_cost, cost),
    ensures
        !cost.undercuts(best),
{
    if cost != OT::CostSumType::cost_of(view.data(), part) {
        let (f, bound) = choose|f: int, bound: int|
            real_split(view, part, f, bound) && cost == #[trigger] split_cost(
                view,
                part,
                branching_cost,
                f,
                bound,
            );
        assert(!split_cost(view, part, branching_cost, f, bound).undercuts(best));
    }
}

/// The cost of a node over trees of the two sides can be computed.
pub proof fn lemma_nodes_fit<OT: OptimizationTask>(
    root: RootSplit<OT>,
    left: OT::CostType,
    right: OT::CostType,
)
    requires
        root.valid(),
        side_cost(root.view, root.left_ids(), root.branching_cost, left),
        side_cost(root.view, root.right_ids(), root.branching_cost, right),
    ensures
        node_fits(left, right, root.branching_cost),
{
    let data = root.view.data();
    let bc = root.branching_cost;
    lemma_shallow(root.view, root.left_ids(), bc, left);
    lemma_shallow(root.view, root.right_ids(), bc, right);
    assert(shallow_tree_cost::<OT>(data, root.left_ids(), bc, left));
    assert(shallow_tree_cost::<OT>(data, root.right_ids(), bc, right));
}

/// The cost of a tree of a side is a possible one.
proof fn lemma_side_possible<OT: OptimizationTask>(
    root: RootSplit<OT>,
    part: Set<int>,
    cost: OT::CostType,
)
    requires
        root.valid(),
        sound_costs::<OT::CostType>(),
        costs_possible(root),
        part.subset_of(root.view.ids()),
        side_cost(root.view, part, root.branching_cost, cost),
    ensures
        cost.possible(),
{
    let view = root.view;
    let data = view.data();
    let bc = root.branching_cost;
    if cost != OT::CostSumType::cost_of(data, part) {
        let (f, bound) = choose|f: int, bound: int|
            real_split(view, part, f, bound) && cost == #[trigger] split_cost(
                view,
                part,
                bc,
                f,
                bound,
            );
        let left = view.up_to(part, f, bound);
        let right = view.beyond(part, f, bound);
        assert(left.subset_of(view.ids()) && right.subset_of(view.ids()) && left.disjoint(right));
        assert(split_fits::<OT>(data, left, right, bc));
        let a = OT::CostSumType::cost_of(data, left);
        let b = OT::CostSumType::cost_of(data, right);
        assert(addable(a, b) && addable(plus(a, b), bc));
    }
}

proof fn lemma_shallow<OT: OptimizationTask>(
    view: DataView<OT>,
    part: Set<int>,
    branching_cost: OT::CostType,
    cost: OT::CostType,
)
    requires
        side_cost(view, part, branching_cost, cost),
    ensures
        shallow_tree_cost::<OT>(view.data(), part, branching_cost, cost),
{
    if cost != OT::CostSumType::cost_of(view.data(), part) {
        let (f, bound) = choose|f: int, bound: int|
            real_split(view, part, f, bound) && cost == #[trigger] split_cost(
                view,
                part,
                branching_cost,
                f,
                bound,
            );
        let left = view.up_to(part, f, bound);
        let right = view.beyond(part, f, bound);
        assert(left.subset_of(part) && right.subset_of(part) && left.disjoint(right));
        assert(cost == one_split_cost::<OT>(view.data(), left, right, branching_cost));
    }
}

/// The same in terms of trees: where costs are exact and the workers may stop, put below the given
/// split any two trees of depth at most one that are made for its sides and have no empty sides
/// themselves, and the whole is not strictly cheaper than the tree that comes out.
pub proof fn no_tree_is_cheaper<OT: OptimizationTask>(
    root: RootSplit<OT>,
    orders: Seq<Seq<int>>,
    left: Tree<OT>,
    right: Tree<OT>,
)
    requires
        root.valid(),
        exact_costs::<OT::CostType>(),
        costs_possible(root),
        finished(root, orders),
        root.view.fits_tree(root.left_ids(), root.branching_cost, left),
        root.view.fits_tree(root.right_ids(), root.branching_cost, right),
        no_empty_sides(root.view, root.left_ids(), left),
        no_empty_sides(root.view, root.right_ids(), right),
        left.depth() <= 1,
        right.depth() <= 1,
    ensures
        !plus(plus(left.total(), right.total()), root.branching_cost).undercuts(
            root.outcome(after_schedule(root, orders)).total(),
        ),
{
    let bc = root.branching_cost;
    tree_costs(root.view, root.left_ids(), bc, left);
    tree_costs(root.view, root.right_ids(), bc, right);
    outcome_is_optimal(root, orders, left.total(), right.total());
}

/// A visit that says that there is no need to visit other features is right: the worker is done
/// with both sides.
pub proof fn done_worker_may_stop<OT: OptimizationTask>(root: RootSplit<OT>, order: Seq<int>)
    ensures
        root.left_done() ==> root.after_visits(order).left_done,
        root.right_done() ==> root.after_visits(order).right_done,
    decreases order.len(),
{
    if order.len() > 0 {
        done_worker_may_stop(root, order.drop_last());
    }
}

/// How the features are shared out does not change what is found: where costs are exact, of two
/// ways to finish neither comes to a strictly cheaper tree.
pub proof fn schedules_agree<OT: OptimizationTask>(
    root: RootSplit<OT>,
    orders: Seq<Seq<int>>,
    others: Seq<Seq<int>>,
)
    requires
        root.valid(),
        exact_costs::<OT::CostType>(),
        costs_possible(root),
        finished(root, orders),
        finished(root, others),
    ensures
        ({
            let cost = root.outcome(after_schedule(root, orders)).total();
            let other = root.outcome(after_schedule(root, others)).total();
            !cost.undercuts(other) && !other.undercuts(cost)
        }),
{
    let bc = root.branching_cost;
    let states = after_schedule(root, orders);
    let other_states = after_schedule(root, others);
    sides_are_trees(root, orders);
    sides_are_trees(root, others);
    outcome_is_optimal(
        root,
        orders,
        root.best_left(other_states).total(bc),
        root.best_right(other_states).total(bc),
    );
    outcome_is_optimal(
        root,
        others,
        root.best_left(states).total(bc),
        root.best_right(states).total(bc),
    );
}

/// One worker that visits all features in their order has finished.
pub proof fn one_worker_finishes<OT: OptimizationTask>(root: RootSplit<OT>)
    ensures
        finished(
            root,
            seq![in_order_of_features(root.view.feature_instances@.len() as int)],
        ),
{
    let n = root.view.feature_instances@.len() as int;
    let orders = seq![in_order_of_features(n)];
    assert forall|f: int| 0 <= f < n implies #[trigger] visited_by_someone(orders, f) by {
        assert(orders[0][f] == f);
        assert(orders[0].contains(f));
    }
}

} // verus!
