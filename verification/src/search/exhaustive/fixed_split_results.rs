//! What the search below a given split at the root returns, in terms of the instances and what these
//! cost.

use vstd::prelude::*;

use crate::model::dataview::DataView;
use crate::model::tree::{Threshold, Tree};
use crate::search::exhaustive::candidates::{
    all_candidates, consider_all, feature_candidates, lemma_feature_candidates_split, meets_optimum,
    real_split, split_at, splits_part,
};
use crate::search::exhaustive::depth_two::lemma_consider_all_add;
use crate::search::exhaustive::laws::{
    all_sane, consider_all_is_unbeaten, divides, every_met_split_is_between_neighbours,
    every_met_split_is_real, every_split_is_met, lemma_consider_all_sane, lemma_splits_sane,
    neighbour_candidate, neighbours, optimal_is_unbeaten, sane, sane_tracker, snug, split_cost,
    unbeaten,
};
use crate::search::exhaustive::left_right::{in_order_of_features, LeftRightState, RootSplit};
use crate::search::exhaustive::results::{
    above, at_most, at_most_one_cut, comes_late, cut_price, cuts, is_cut, is_first_best, is_leaf,
    is_settled, leaf_of_part, leaf_price, lemma_cut_tree, lemma_first_best, lemma_same_words,
    needs_no_cut, nothing_beats, tree_price,
};
use crate::search::exhaustive::schedules::{
    after_schedule, best_worker_is_kept, costs_possible, done_worker_may_stop, finished,
    lemma_best_is_snug, lemma_explored, lemma_sound, lemma_worker, one_worker_finishes,
    one_worker_is_optimal, sides_are_optimal, visited_by_someone, within_features,
};
use crate::search::exhaustive::selection::{lemma_feature_in_turn, lemma_picked, precedes};
use crate::search::exhaustive::tracker::{Candidate, D1ScoreTracker};
use crate::tasks::{exact_costs, ordered_costs, plus, sound_costs, Cost, CostSum, OptimizationTask};

verus! {

/// The instances on the left side of possible split `index` of feature `feature`.
pub open spec fn left_side<OT: OptimizationTask>(
    view: DataView<OT>,
    feature: int,
    index: int,
) -> Set<int> {
    at_most(
        view,
        view.ids(),
        feature,
        view.possible_split_values@[feature]@[index].feature_value as int,
    )
}

/// The instances on the right side of possible split `index` of feature `feature`.
pub open spec fn right_side<OT: OptimizationTask>(
    view: DataView<OT>,
    feature: int,
    index: int,
) -> Set<int> {
    above(
        view,
        view.ids(),
        feature,
        view.possible_split_values@[feature]@[index].feature_value as int,
    )
}

/// The left child of a branching node.
pub open spec fn left_of<OT: OptimizationTask>(tree: Tree<OT>) -> Tree<OT> {
    match tree {
        Tree::Leaf(_) => tree,
        Tree::Branch(branch) => *branch.left_child,
    }
}

/// The right child of a branching node.
pub open spec fn right_of<OT: OptimizationTask>(tree: Tree<OT>) -> Tree<OT> {
    match tree {
        Tree::Leaf(_) => tree,
        Tree::Branch(branch) => *branch.right_child,
    }
}

/// The tree is a branching node with possible split `index` of feature `feature` at its root, and
/// costs what its children cost and the price of branching.
pub open spec fn splits_at_root<OT: OptimizationTask>(
    tree: Tree<OT>,
    branching_cost: OT::CostType,
    feature: int,
    index: int,
) -> bool {
    match tree {
        Tree::Leaf(_) => false,
        Tree::Branch(branch) => {
            &&& branch.split_feature == feature
            &&& branch.split_threshold matches Threshold::PossibleSplit { index: i } && i == index
            &&& branch.cost == plus(
                plus(tree_price(*branch.left_child), tree_price(*branch.right_child)),
                branching_cost,
            )
        },
    }
}

/// Of the leaf that holds the part and the `trees`, the child is the first of the best: either it is
/// the leaf, and no tree is strictly cheaper; or it is one of the trees, strictly cheaper than the
/// leaf, and none is strictly cheaper than it. Where costs are exact, all trees before it are
/// strictly dearer.
pub open spec fn is_first_of<OT: OptimizationTask>(
    view: DataView<OT>,
    part: Set<int>,
    trees: Seq<Tree<OT>>,
    child: Tree<OT>,
) -> bool {
    &&& forall|v: int|
        0 <= v < trees.len() ==> !tree_price(#[trigger] trees[v]).undercuts(tree_price(child))
    &&& {
        ||| is_leaf(view, part, child)
        ||| exists|w: int|
            {
                &&& 0 <= w < trees.len()
                &&& child == #[trigger] trees[w]
                &&& tree_price(child).undercuts(leaf_price(view, part))
                &&& exact_costs::<OT::CostType>() ==> forall|v: int|
                    0 <= v < w ==> tree_price(child).undercuts(tree_price(#[trigger] trees[v]))
            }
    }
}

/// What `finish` returns: the given split stands at the root, and each child is the first of the best
/// that the workers found for that side, or its leaf.
pub proof fn finish_result<OT: OptimizationTask>(
    root: RootSplit<OT>,
    states: Seq<LeftRightState<OT>>,
)
    requires
        ordered_costs::<OT::CostType>(),
    ensures
        ({
            let tree = root.outcome(states);
            let bc = root.branching_cost;
            let (f, i) = (root.feature as int, root.index as int);
            let lefts = Seq::new(states.len(), |w: int| states[w].left_tracker.tree(bc));
            let rights = Seq::new(states.len(), |w: int| states[w].right_tracker.tree(bc));
            &&& splits_at_root(tree, bc, f, i)
            &&& is_first_of(root.view, left_side(root.view, f, i), lefts, left_of(tree))
            &&& is_first_of(root.view, right_side(root.view, f, i), rights, right_of(tree))
        }),
{
    let bc = root.branching_cost;
    let tree = root.outcome(states);
    lemma_sides(root);
    best_worker_is_kept(root, states);
    let lefts = Seq::new(states.len(), |w: int| states[w].left_tracker.tree(bc));
    let rights = Seq::new(states.len(), |w: int| states[w].right_tracker.tree(bc));
    let l = lemma_left_kept(root, states);
    let r = lemma_right_kept(root, states);
    assert forall|v: int| 0 <= v < lefts.len() implies !tree_price(#[trigger] lefts[v]).undercuts(
        tree_price(left_of(tree)),
    ) by {
        assert(!states[v].left_tracker.total(bc).undercuts(root.best_left(states).total(bc)));
    }
    assert forall|v: int| 0 <= v < rights.len() implies !tree_price(#[trigger] rights[v]).undercuts(
        tree_price(right_of(tree)),
    ) by {
        assert(!states[v].right_tracker.total(bc).undercuts(root.best_right(states).total(bc)));
    }
    if l >= 0 {
        assert(left_of(tree) == lefts[l]);
        if exact_costs::<OT::CostType>() {
            assert forall|v: int| 0 <= v < l implies tree_price(left_of(tree)).undercuts(
                tree_price(#[trigger] lefts[v]),
            ) by {
                let other = states[v];
            }
        }
    }
    if r >= 0 {
        assert(right_of(tree) == rights[r]);
        if exact_costs::<OT::CostType>() {
            assert forall|v: int| 0 <= v < r implies tree_price(right_of(tree)).undercuts(
                tree_price(#[trigger] rights[v]),
            ) by {
                let other = states[v];
            }
        }
    }
}

/// Whatever the workers found, the given split stands at the root of what `finish` returns.
pub proof fn finish_keeps_the_split<OT: OptimizationTask>(
    root: RootSplit<OT>,
    states: Seq<LeftRightState<OT>>,
)
    ensures
        splits_at_root(
            root.outcome(states),
            root.branching_cost,
            root.feature as int,
            root.index as int,
        ),
{
}

/// The sides are those that the search is stated in.
proof fn lemma_sides<OT: OptimizationTask>(root: RootSplit<OT>)
    ensures
        left_side(root.view, root.feature as int, root.index as int) == root.left_ids(),
        right_side(root.view, root.feature as int, root.index as int) == root.right_ids(),
{
    lemma_same_words(root.view);
}

/// Whose left tracker is kept: that of the worker at the returned index, or none if that is
/// negative.
proof fn lemma_left_kept<OT: OptimizationTask>(
    root: RootSplit<OT>,
    states: Seq<LeftRightState<OT>>,
) -> (w: int)
    requires
        ordered_costs::<OT::CostType>(),
    ensures
        ({
            let bc = root.branching_cost;
            let kept = root.best_left(states);
            &&& w < states.len()
            &&& w < 0 ==> kept == root.unsplit_left()
            &&& w >= 0 ==> {
                &&& kept == states[w].left_tracker
                &&& kept.total(bc).undercuts(root.unsplit_left().total(bc))
            }
            &&& exact_costs::<OT::CostType>() ==> forall|v: int|
                0 <= v < w ==> kept.total(bc).undercuts(
                    (#[trigger] states[v]).left_tracker.total(bc),
                )
        }),
    decreases states.len(),
{
    let bc = root.branching_cost;
    if states.len() == 0 {
        -1
    } else {
        let rest = states.drop_last();
        let last = states[states.len() - 1];
        assert(states.last() == last);
        let k = lemma_left_kept(root, rest);
        best_worker_is_kept(root, rest);
        let b = root.best_left(rest).total(bc);
        let c = last.left_tracker.total(bc);
        if c.undercuts(b) {
            if exact_costs::<OT::CostType>() {
                assert forall|v: int| 0 <= v < states.len() - 1 implies c.undercuts(
                    (#[trigger] states[v]).left_tracker.total(bc),
                ) by {
                    assert(rest[v] == states[v]);
                    let other = rest[v].left_tracker.total(bc);
                    assert(c.undercuts(other) || other.undercuts(b));
                }
            }
            states.len() - 1
        } else {
            if exact_costs::<OT::CostType>() {
                assert forall|v: int| 0 <= v < k implies b.undercuts(
                    (#[trigger] states[v]).left_tracker.total(bc),
                ) by {
                    assert(rest[v] == states[v]);
                }
            }
            k
        }
    }
}

/// Whose right tracker is kept: that of the worker at the returned index, or none if that is
/// negative.
proof fn lemma_right_kept<OT: OptimizationTask>(
    root: RootSplit<OT>,
    states: Seq<LeftRightState<OT>>,
) -> (w: int)
    requires
        ordered_costs::<OT::CostType>(),
    ensures
        ({
            let bc = root.branching_cost;
            let kept = root.best_right(states);
            &&& w < states.len()
            &&& w < 0 ==> kept == root.unsplit_right()
            &&& w >= 0 ==> {
                &&& kept == states[w].right_tracker
                &&& kept.total(bc).undercuts(root.unsplit_right().total(bc))
            }
            &&& exact_costs::<OT::CostType>() ==> forall|v: int|
                0 <= v < w ==> kept.total(bc).undercuts(
                    (#[trigger] states[v]).right_tracker.total(bc),
                )
        }),
    decreases states.len(),
{
    let bc = root.branching_cost;
    if states.len() == 0 {
        -1
    } else {
        let rest = states.drop_last();
        let last = states[states.len() - 1];
        assert(states.last() == last);
        let k = lemma_right_kept(root, rest);
        best_worker_is_kept(root, rest);
        let b = root.best_right(rest).total(bc);
        let c = last.right_tracker.total(bc);
        if c.undercuts(b) {
            if exact_costs::<OT::CostType>() {
                assert forall|v: int| 0 <= v < states.len() - 1 implies c.undercuts(
                    (#[trigger] states[v]).right_tracker.total(bc),
                ) by {
                    assert(rest[v] == states[v]);
                    let other = rest[v].right_tracker.total(bc);
                    assert(c.undercuts(other) || other.undercuts(b));
                }
            }
            states.len() - 1
        } else {
            if exact_costs::<OT::CostType>() {
                assert forall|v: int| 0 <= v < k implies b.undercuts(
                    (#[trigger] states[v]).right_tracker.total(bc),
                ) by {
                    assert(rest[v] == states[v]);
                }
            }
            k
        }
    }
}

/// A tracker that is not split, or is split between neighbours of the part, stands for at most one
/// cut of it.
proof fn lemma_snug_cut<OT: OptimizationTask>(
    view: DataView<OT>,
    part: Set<int>,
    branching_cost: OT::CostType,
    tracker: D1ScoreTracker<OT>,
)
    requires
        snug(view, part, part, tracker),
    ensures
        at_most_one_cut(view, part, branching_cost, tracker.tree(branching_cost)),
{
    let tree = tracker.tree(branching_cost);
    if tracker == D1ScoreTracker::unsplit(leaf_of_part(view, part)) {
        assert(is_leaf(view, part, tree));
    } else {
        let candidate = choose|candidate: Candidate<OT>| #[trigger]
            neighbour_candidate(view, part, part, candidate) && tracker == D1ScoreTracker::split(
                candidate,
            );
        let (f, lower, upper) = choose|f: int, lower: i32, upper: i32|
            neighbours(view, part, f, lower, upper) && candidate == #[trigger] split_at(
                view,
                part,
                f,
                lower,
                upper,
            );
        lemma_cut_tree(view, part, branching_cost, f, lower, upper);
    }
}

/// What comes of any number of workers, whatever features they visit: the given split stands at the
/// root, and each child is the leaf that holds its side, or cuts that side between two values that
/// both occur in it, with none in between.
pub proof fn workers_result<OT: OptimizationTask>(root: RootSplit<OT>, orders: Seq<Seq<int>>)
    requires
        root.valid(),
        within_features(root, orders),
    ensures
        ({
            let tree = root.outcome(after_schedule(root, orders));
            let bc = root.branching_cost;
            let (f, i) = (root.feature as int, root.index as int);
            &&& splits_at_root(tree, bc, f, i)
            &&& at_most_one_cut(root.view, left_side(root.view, f, i), bc, left_of(tree))
            &&& at_most_one_cut(root.view, right_side(root.view, f, i), bc, right_of(tree))
        }),
{
    let states = after_schedule(root, orders);
    let bc = root.branching_cost;
    lemma_sides(root);
    lemma_best_is_snug(root, orders);
    lemma_snug_cut(root.view, root.left_ids(), bc, root.best_left(states));
    lemma_snug_cut(root.view, root.right_ids(), bc, root.best_right(states));
}

/// No cut of the part on feature `f` beats the tree.
pub open spec fn nothing_beats_on<OT: OptimizationTask>(
    view: DataView<OT>,
    part: Set<int>,
    branching_cost: OT::CostType,
    f: int,
    tree: Tree<OT>,
) -> bool {
    forall|bound: int|
        cuts(view, part, f, bound) ==> !(#[trigger] cut_price(
            view,
            part,
            branching_cost,
            f,
            bound,
        )).undercuts(tree_price(tree))
}

/// Wherever the workers stop, what they have visited counts: where costs are exact, no cut of a side
/// on a feature that someone visited beats the child of that side.
pub proof fn visited_features_count<OT: OptimizationTask>(
    root: RootSplit<OT>,
    orders: Seq<Seq<int>>,
    g: int,
)
    requires
        root.valid(),
        exact_costs::<OT::CostType>(),
        costs_possible(root),
        within_features(root, orders),
        visited_by_someone(orders, g),
    ensures
        ({
            let tree = root.outcome(after_schedule(root, orders));
            let bc = root.branching_cost;
            let (f, i) = (root.feature as int, root.index as int);
            &&& nothing_beats_on(root.view, left_side(root.view, f, i), bc, g, left_of(tree))
            &&& nothing_beats_on(root.view, right_side(root.view, f, i), bc, g, right_of(tree))
        }),
{
    let view = root.view;
    let states = after_schedule(root, orders);
    let bc = root.branching_cost;
    let tree = root.outcome(states);
    let (left, right) = (root.left_ids(), root.right_ids());
    lemma_sides(root);
    lemma_same_words(view);
    best_worker_is_kept(root, states);
    let w = choose|w: int| 0 <= w < orders.len() && #[trigger] orders[w].contains(g);
    assert forall|j: int| 0 <= j < orders[w].len() implies 0 <= #[trigger] orders[w][j]
        < view.feature_instances@.len() by {}
    lemma_worker(root, orders[w]);
    let state = root.after_visits(orders[w]);
    assert(states[w] == state);
    assert forall|bound: int| cuts(view, left, g, bound) implies !(#[trigger] cut_price(
        view,
        left,
        bc,
        g,
        bound,
    )).undercuts(tree_price(left_of(tree))) by {
        assert(real_split(view, left, g, bound));
        lemma_explored(root, left, orders[w], state.left_tracker, state.left_done, g, bound);
        let c = split_cost(view, left, bc, g, bound);
        let t = state.left_tracker.total(bc);
        let kept = root.best_left(states).total(bc);
        assert(cut_price(view, left, bc, g, bound) == c);
        if c.undercuts(kept) {
            assert(c.undercuts(t) || t.undercuts(kept));
        }
    }
    assert forall|bound: int| cuts(view, right, g, bound) implies !(#[trigger] cut_price(
        view,
        right,
        bc,
        g,
        bound,
    )).undercuts(tree_price(right_of(tree))) by {
        assert(real_split(view, right, g, bound));
        lemma_explored(root, right, orders[w], state.right_tracker, state.right_done, g, bound);
        let c = split_cost(view, right, bc, g, bound);
        let t = state.right_tracker.total(bc);
        let kept = root.best_right(states).total(bc);
        assert(cut_price(view, right, bc, g, bound) == c);
        if c.undercuts(kept) {
            assert(c.undercuts(t) || t.undercuts(kept));
        }
    }
}

/// Where costs are exact and the workers may stop, nothing beats either child.
pub proof fn workers_result_is_optimal<OT: OptimizationTask>(
    root: RootSplit<OT>,
    orders: Seq<Seq<int>>,
)
    requires
        root.valid(),
        exact_costs::<OT::CostType>(),
        costs_possible(root),
        finished(root, orders),
    ensures
        ({
            let tree = root.outcome(after_schedule(root, orders));
            let bc = root.branching_cost;
            let (f, i) = (root.feature as int, root.index as int);
            &&& nothing_beats(root.view, left_side(root.view, f, i), bc, left_of(tree))
            &&& nothing_beats(root.view, right_side(root.view, f, i), bc, right_of(tree))
        }),
{
    let states = after_schedule(root, orders);
    let bc = root.branching_cost;
    lemma_sides(root);
    sides_are_optimal(root, orders);
    lemma_nothing_beats(root.view, root.left_ids(), bc, root.best_left(states).tree(bc));
    lemma_nothing_beats(root.view, root.right_ids(), bc, root.best_right(states).tree(bc));
}

proof fn lemma_nothing_beats<OT: OptimizationTask>(
    view: DataView<OT>,
    part: Set<int>,
    branching_cost: OT::CostType,
    tree: Tree<OT>,
)
    requires
        unbeaten(view, part, branching_cost, tree_price(tree)),
    ensures
        nothing_beats(view, part, branching_cost, tree),
{
    lemma_same_words(view);
    assert forall|f: int, bound: int| cuts(view, part, f, bound) implies !(
    #[trigger] cut_price(view, part, branching_cost, f, bound)).undercuts(tree_price(tree)) by {
        assert(real_split(view, part, f, bound));
        assert(cut_price(view, part, branching_cost, f, bound) == split_cost(
            view,
            part,
            branching_cost,
            f,
            bound,
        ));
    }
}

/// Candidates that do not beat a tracker leave it alone.
proof fn lemma_idle<OT: OptimizationTask>(
    tracker: D1ScoreTracker<OT>,
    branching_cost: OT::CostType,
    candidates: Seq<Candidate<OT>>,
)
    requires
        forall|j: int|
            0 <= j < candidates.len() ==> !(#[trigger] candidates[j]).total(
                branching_cost,
            ).undercuts(tracker.total(branching_cost)),
    ensures
        consider_all(tracker, branching_cost, candidates) == tracker,
    decreases candidates.len(),
{
    if candidates.len() > 0 {
        let rest = candidates.drop_last();
        assert forall|j: int| 0 <= j < rest.len() implies !(#[trigger] rest[j]).total(
            branching_cost,
        ).undercuts(tracker.total(branching_cost)) by {
            assert(rest[j] == candidates[j]);
        }
        lemma_idle(tracker, branching_cost, rest);
        assert(candidates.last() == candidates[candidates.len() - 1]);
    }
}

/// What one worker that visits the first features in their order has found for a side that needs to
/// be cut: the same as if it had considered all of their candidates.
proof fn lemma_in_order<OT: OptimizationTask>(root: RootSplit<OT>, m: int)
    requires
        root.valid(),
        sound_costs::<OT::CostType>(),
        costs_possible(root),
        0 <= m <= root.view.feature_instances@.len(),
    ensures
        ({
            let state = root.after_visits(in_order_of_features(m));
            let bc = root.branching_cost;
            let left = all_candidates(root.view, root.left_ids(), m);
            let right = all_candidates(root.view, root.right_ids(), m);
            &&& state.left_tracker == if root.left_done() {
                root.unsplit_left()
            } else {
                consider_all(root.unsplit_left(), bc, left)
            }
            &&& state.right_tracker == if root.right_done() {
                root.unsplit_right()
            } else {
                consider_all(root.unsplit_right(), bc, right)
            }
        }),
    decreases m,
{
    let view = root.view;
    let bc = root.branching_cost;
    let order = in_order_of_features(m);
    if m > 0 {
        let f = m - 1;
        let before_order = in_order_of_features(f);
        lemma_in_order(root, f);
        assert(order.drop_last() =~= before_order);
        assert(order.last() == f);
        let before = root.after_visits(before_order);
        lemma_worker(root, before_order);
        let (left, right) = (root.left_ids(), root.right_ids());
        let more_left = feature_candidates(view, left, f);
        let more_right = feature_candidates(view, right, f);
        lemma_consider_all_add(root.unsplit_left(), bc, all_candidates(view, left, f), more_left);
        lemma_consider_all_add(
            root.unsplit_right(),
            bc,
            all_candidates(view, right, f),
            more_right,
        );
        if before.left_done && before.right_done {
            lemma_feature_candidates_split(view, left, f);
            lemma_feature_candidates_split(view, right, f);
            assert forall|j: int| 0 <= j < more_left.len() implies !(
            #[trigger] more_left[j]).total(bc).undercuts(before.left_tracker.total(bc)) by {
                assert(splits_part(view, left, more_left[j]));
            }
            assert forall|j: int| 0 <= j < more_right.len() implies !(
            #[trigger] more_right[j]).total(bc).undercuts(before.right_tracker.total(bc)) by {
                assert(splits_part(view, right, more_right[j]));
            }
            lemma_idle(before.left_tracker, bc, more_left);
            lemma_idle(before.right_tracker, bc, more_right);
        }
    }
}

/// What the search below a given split at the root returns: that split stands at the root, and each
/// child is the first of the best of the leaf that holds its side and all cuts of that side.
pub proof fn fixed_split_result<OT: OptimizationTask>(root: RootSplit<OT>)
    requires
        root.valid(),
        sound_costs::<OT::CostType>(),
        costs_possible(root),
    ensures
        ({
            let n = root.view.feature_instances@.len() as int;
            let tree = root.outcome(seq![root.after_visits(in_order_of_features(n))]);
            let bc = root.branching_cost;
            let (f, i) = (root.feature as int, root.index as int);
            let (left, right) = (left_side(root.view, f, i), right_side(root.view, f, i));
            &&& splits_at_root(tree, bc, f, i)
            &&& at_most_one_cut(root.view, left, bc, left_of(tree))
            &&& at_most_one_cut(root.view, right, bc, right_of(tree))
            &&& is_first_best(root.view, left, bc, left_of(tree))
            &&& is_first_best(root.view, right, bc, right_of(tree))
            &&& nothing_beats(root.view, left, bc, left_of(tree))
            &&& nothing_beats(root.view, right, bc, right_of(tree))
        }),
{
    let view = root.view;
    let n = view.feature_instances@.len() as int;
    let bc = root.branching_cost;
    let order = in_order_of_features(n);
    let state = root.after_visits(order);
    let states = seq![state];
    let (left, right) = (root.left_ids(), root.right_ids());
    lemma_sides(root);
    one_worker_finishes(root);
    one_worker_is_optimal(root, order);
    assert(after_schedule(root, seq![order]) =~= states);
    lemma_nothing_beats(view, left, bc, root.best_left(states).tree(bc));
    lemma_nothing_beats(view, right, bc, root.best_right(states).tree(bc));
    lemma_in_order(root, n);
    let all_left = all_candidates(view, left, n);
    let all_right = all_candidates(view, right, n);
    assert(states.drop_last() =~= Seq::empty());
    assert(root.best_left(states.drop_last()) == root.unsplit_left());
    assert(root.best_right(states.drop_last()) == root.unsplit_right());
    assert(!root.unsplit_left().total(bc).undercuts(root.unsplit_left().total(bc)));
    assert(!root.unsplit_right().total(bc).undercuts(root.unsplit_right().total(bc)));
    let j = lemma_picked(root.unsplit_left(), bc, all_left);
    let k = lemma_picked(root.unsplit_right(), bc, all_right);
    assert(root.best_left(states) == state.left_tracker);
    assert(root.best_right(states) == state.right_tracker);
    assert(all_left.take(0) =~= Seq::empty());
    assert(all_right.take(0) =~= Seq::empty());
    assert(all_left.take(all_left.len() as int) =~= all_left);
    assert(all_right.take(all_right.len() as int) =~= all_right);
    let m_left = if root.left_done() {
        0
    } else {
        all_left.len() as int
    };
    let m_right = if root.right_done() {
        0
    } else {
        all_right.len() as int
    };
    lemma_first_best(view, left, bc, m_left);
    lemma_first_best(view, right, bc, m_right);
}

/// What a worker starts from: both sides are leaves, and a side is done if it needs no cut.
pub proof fn start_result<OT: OptimizationTask>(root: RootSplit<OT>)
    ensures
        ({
            let state = root.initial();
            let bc = root.branching_cost;
            let (f, i) = (root.feature as int, root.index as int);
            let (left, right) = (left_side(root.view, f, i), right_side(root.view, f, i));
            &&& is_leaf(root.view, left, state.left_tracker.tree(bc))
            &&& is_leaf(root.view, right, state.right_tracker.tree(bc))
            &&& state.left_done == needs_no_cut(root.view, left, bc)
            &&& state.right_done == needs_no_cut(root.view, right, bc)
        }),
{
    lemma_sides(root);
}

/// What a visit of feature `f` makes of the tracker of a side: it stays as it is, or becomes a cut of
/// that side on that feature, between two values that both occur in the side with none in between,
/// which is strictly cheaper. No cut on that feature beats it, and where costs are exact, those
/// before a new one are strictly dearer.
pub open spec fn side_visited<OT: OptimizationTask>(
    view: DataView<OT>,
    part: Set<int>,
    branching_cost: OT::CostType,
    f: int,
    before: D1ScoreTracker<OT>,
    after: D1ScoreTracker<OT>,
) -> bool {
    let tree = after.tree(branching_cost);
    &&& nothing_beats_on(view, part, branching_cost, f, tree)
    &&& after != before ==> {
        &&& tree_price(tree).undercuts(tree_price(before.tree(branching_cost)))
        &&& exists|lower: i32, upper: i32| #[trigger]
            is_cut(view, part, branching_cost, f, lower, upper, tree) && neighbours(
                view,
                part,
                f,
                lower,
                upper,
            )
        &&& exact_costs::<OT::CostType>() ==> forall|bound: int|
            cuts(view, part, f, bound) && comes_late(tree, f, bound) ==> tree_price(
                tree,
            ).undercuts(#[trigger] cut_price(view, part, branching_cost, f, bound))
    }
}

/// What a visit of a feature does. A worker that is done with both sides is left alone. Otherwise,
/// each side that needs a cut is tried with all cuts on that feature, and a side that needs none is
/// left alone. What is done stays done.
pub proof fn visit_result<OT: OptimizationTask>(
    root: RootSplit<OT>,
    state: LeftRightState<OT>,
    f: int,
)
    requires
        root.valid(),
        ordered_costs::<OT::CostType>(),
        0 <= f < root.view.feature_instances@.len(),
    ensures
        ({
            let after = root.visited(state, f);
            let view = root.view;
            let bc = root.branching_cost;
            let left = left_side(view, root.feature as int, root.index as int);
            let right = right_side(view, root.feature as int, root.index as int);
            &&& state.left_done && state.right_done ==> after == state
            &&& state.left_done ==> after.left_done
            &&& state.right_done ==> after.right_done
            &&& !(state.left_done && state.right_done) ==> {
                &&& if needs_no_cut(view, left, bc) {
                    after.left_tracker == state.left_tracker && after.left_done == state.left_done
                } else {
                    side_visited(view, left, bc, f, state.left_tracker, after.left_tracker)
                }
                &&& if needs_no_cut(view, right, bc) {
                    after.right_tracker == state.right_tracker && after.right_done
                        == state.right_done
                } else {
                    side_visited(view, right, bc, f, state.right_tracker, after.right_tracker)
                }
            }
        }),
{
    lemma_sides(root);
    lemma_side_visited(root.view, root.left_ids(), root.branching_cost, f, state.left_tracker);
    lemma_side_visited(root.view, root.right_ids(), root.branching_cost, f, state.right_tracker);
}

proof fn lemma_side_visited<OT: OptimizationTask>(
    view: DataView<OT>,
    part: Set<int>,
    branching_cost: OT::CostType,
    f: int,
    before: D1ScoreTracker<OT>,
)
    requires
        view.valid(),
        part.subset_of(view.ids()),
        ordered_costs::<OT::CostType>(),
        0 <= f < view.feature_instances@.len(),
    ensures
        side_visited(
            view,
            part,
            branching_cost,
            f,
            before,
            consider_all(before, branching_cost, feature_candidates(view, part, f)),
        ),
{
    let found = feature_candidates(view, part, f);
    let after = consider_all(before, branching_cost, found);
    let tree = after.tree(branching_cost);
    lemma_same_words(view);
    lemma_feature_in_turn(view, part, f);
    consider_all_is_unbeaten(before, branching_cost, found);
    let j = lemma_picked(before, branching_cost, found);
    assert(tree_price(tree) == after.total(branching_cost));
    assert(tree_price(before.tree(branching_cost)) == before.total(branching_cost));
    if j >= 0 {
        every_met_split_is_between_neighbours(view, part, f, j);
        let (g, lower, upper) = choose|g: int, lower: i32, upper: i32|
            neighbours(view, part, g, lower, upper) && found[j] == #[trigger] split_at(
                view,
                part,
                g,
                lower,
                upper,
            );
        assert(view.feature_instances.len() == view.feature_instances@.len());
        assert(g == f);
        lemma_cut_tree(view, part, branching_cost, f, lower, upper);
        assert(is_cut(view, part, branching_cost, f, lower, upper, tree));
    }
    assert forall|bound: int| cuts(view, part, f, bound) implies !(#[trigger] cut_price(
        view,
        part,
        branching_cost,
        f,
        bound,
    )).undercuts(tree_price(tree)) by {
        let i = lemma_where_on_feature(view, part, branching_cost, f, bound);
        assert(!found[i].total(branching_cost).undercuts(after.total(branching_cost)));
    }
    if exact_costs::<OT::CostType>() && after != before {
        assert forall|bound: int|
            cuts(view, part, f, bound) && comes_late(tree, f, bound) implies tree_price(
            tree,
        ).undercuts(#[trigger] cut_price(view, part, branching_cost, f, bound)) by {
            let i = lemma_where_on_feature(view, part, branching_cost, f, bound);
            if i > j {
                assert(precedes(
                    found[j].feature as int,
                    found[j].lower as int,
                    found[i].feature as int,
                    found[i].lower as int,
                ));
            }
            assert(i < j);
            assert(after.total(branching_cost).undercuts(found[i].total(branching_cost)));
        }
    }
}

/// What a visit of feature `f` makes of the flag of a side that needs a cut: the flag is set if the
/// visit brings in a cut whose leaves cost nothing; and it is not set without a reason, which is a
/// cut on that feature whose leaves cost nothing, or that there was no point in looking further from
/// the start.
pub open spec fn flag_visited<OT: OptimizationTask>(
    view: DataView<OT>,
    part: Set<int>,
    branching_cost: OT::CostType,
    f: int,
    before: D1ScoreTracker<OT>,
    done_before: bool,
    after: D1ScoreTracker<OT>,
    done_after: bool,
) -> bool {
    &&& after != before && is_settled(after.tree(branching_cost), branching_cost) ==> done_after
    &&& done_after && !done_before ==> {
        ||| before.leaf_cost.zero_like()
        ||| before.feature is None && before.leaf_cost.stays_within(branching_cost)
        ||| exists|bound: int| #[trigger]
            cuts(view, part, f, bound) && plus(
                leaf_price(view, at_most(view, part, f, bound)),
                leaf_price(view, above(view, part, f, bound)),
            ).zero_like()
    }
}

/// What a visit of a feature does to the flags of the sides that need a cut.
pub proof fn visit_flags<OT: OptimizationTask>(
    root: RootSplit<OT>,
    state: LeftRightState<OT>,
    f: int,
)
    requires
        root.valid(),
        ordered_costs::<OT::CostType>(),
        0 <= f < root.view.feature_instances@.len(),
        !(state.left_done && state.right_done),
    ensures
        ({
            let after = root.visited(state, f);
            let view = root.view;
            let bc = root.branching_cost;
            let left = left_side(view, root.feature as int, root.index as int);
            let right = right_side(view, root.feature as int, root.index as int);
            &&& !needs_no_cut(view, left, bc) ==> flag_visited(
                view,
                left,
                bc,
                f,
                state.left_tracker,
                state.left_done,
                after.left_tracker,
                after.left_done,
            )
            &&& !needs_no_cut(view, right, bc) ==> flag_visited(
                view,
                right,
                bc,
                f,
                state.right_tracker,
                state.right_done,
                after.right_tracker,
                after.right_done,
            )
        }),
{
    lemma_sides(root);
    let bc = root.branching_cost;
    lemma_flag_visited(root.view, root.left_ids(), bc, f, state.left_tracker, state.left_done);
    lemma_flag_visited(root.view, root.right_ids(), bc, f, state.right_tracker, state.right_done);
}

proof fn lemma_flag_visited<OT: OptimizationTask>(
    view: DataView<OT>,
    part: Set<int>,
    branching_cost: OT::CostType,
    f: int,
    before: D1ScoreTracker<OT>,
    done_before: bool,
)
    requires
        view.valid(),
        part.subset_of(view.ids()),
        ordered_costs::<OT::CostType>(),
        0 <= f < view.feature_instances@.len(),
    ensures
        ({
            let found = feature_candidates(view, part, f);
            flag_visited(
                view,
                part,
                branching_cost,
                f,
                before,
                done_before,
                consider_all(before, branching_cost, found),
                done_before || meets_optimum(before, branching_cost, found),
            )
        }),
{
    let found = feature_candidates(view, part, f);
    let after = consider_all(before, branching_cost, found);
    lemma_same_words(view);
    if after != before && is_settled(after.tree(branching_cost), branching_cost) {
        let j = lemma_picked(before, branching_cost, found);
        let tree = after.tree(branching_cost);
        assert(left_of(tree) == Tree::Leaf(found[j].left));
        assert(right_of(tree) == Tree::Leaf(found[j].right));
        assert(after.optimal(branching_cost));
    }
    if meets_optimum(before, branching_cost, found) {
        let m = lemma_met(before, branching_cost, found);
        let some = found.take(m);
        let j = lemma_picked(before, branching_cost, some);
        if j >= 0 {
            assert(some[j] == found[j]);
            every_met_split_is_real(view, part, f, j);
            every_met_split_is_between_neighbours(view, part, f, j);
            lemma_feature_in_turn(view, part, f);
            let (g, lower, upper) = choose|g: int, lower: i32, upper: i32|
                real_split(view, part, g, lower as int) && found[j] == #[trigger] split_at(
                    view,
                    part,
                    g,
                    lower,
                    upper,
                );
            assert(view.feature_instances.len() == view.feature_instances@.len());
            assert(g == f);
            assert(cuts(view, part, f, lower as int));
            assert(at_most(view, part, f, lower as int) == view.up_to(part, f, lower as int));
            assert(above(view, part, f, lower as int) == view.beyond(part, f, lower as int));
        }
    }
}

/// After how many candidates the tracker was optimal.
proof fn lemma_met<OT: OptimizationTask>(
    tracker: D1ScoreTracker<OT>,
    branching_cost: OT::CostType,
    candidates: Seq<Candidate<OT>>,
) -> (m: int)
    requires
        meets_optimum(tracker, branching_cost, candidates),
    ensures
        0 <= m <= candidates.len(),
        consider_all(tracker, branching_cost, candidates.take(m)).optimal(branching_cost),
    decreases candidates.len(),
{
    if consider_all(tracker, branching_cost, candidates).optimal(branching_cost) {
        assert(candidates.take(candidates.len() as int) =~= candidates);
        candidates.len() as int
    } else {
        let rest = candidates.drop_last();
        let m = lemma_met(tracker, branching_cost, rest);
        assert(rest.take(m) =~= candidates.take(m));
        m
    }
}

/// Where a cut of the part stands among the candidates of its feature.
proof fn lemma_where_on_feature<OT: OptimizationTask>(
    view: DataView<OT>,
    part: Set<int>,
    branching_cost: OT::CostType,
    f: int,
    bound: int,
) -> (i: int)
    requires
        view.valid(),
        part.subset_of(view.ids()),
        cuts(view, part, f, bound),
    ensures
        ({
            let found = feature_candidates(view, part, f);
            &&& 0 <= i < found.len()
            &&& found[i].feature == f
            &&& found[i].lower <= bound < found[i].upper
            &&& found[i].total(branching_cost) == cut_price(view, part, branching_cost, f, bound)
        }),
{
    lemma_same_words(view);
    assert(real_split(view, part, f, bound));
    every_split_is_met(view, part, f, bound);
    let i = choose|j: int|
        0 <= j < feature_candidates(view, part, f).len() && divides(
            view,
            part,
            f,
            bound,
            #[trigger] feature_candidates(view, part, f)[j],
        );
    assert(cut_price(view, part, branching_cost, f, bound) == split_cost(
        view,
        part,
        branching_cost,
        f,
        bound,
    ));
    i
}

/// A worker is done with a side exactly if there is no point in looking for a better tree for it
/// than the one that it has found.
pub proof fn done_result<OT: OptimizationTask>(root: RootSplit<OT>, order: Seq<int>)
    requires
        root.valid(),
        sound_costs::<OT::CostType>(),
        costs_possible(root),
        forall|j: int|
            0 <= j < order.len() ==> 0 <= #[trigger] order[j]
                < root.view.feature_instances@.len(),
    ensures
        ({
            let state = root.after_visits(order);
            let bc = root.branching_cost;
            &&& state.left_done == is_settled(state.left_tracker.tree(bc), bc)
            &&& state.right_done == is_settled(state.right_tracker.tree(bc), bc)
        }),
{
    lemma_done(root, order);
    lemma_settled_tree(root, order);
}

/// The trackers of a worker are settled exactly if they are optimal.
proof fn lemma_settled_tree<OT: OptimizationTask>(root: RootSplit<OT>, order: Seq<int>)
    requires
        root.valid(),
        forall|j: int|
            0 <= j < order.len() ==> 0 <= #[trigger] order[j]
                < root.view.feature_instances@.len(),
    ensures
        ({
            let state = root.after_visits(order);
            let bc = root.branching_cost;
            &&& state.left_tracker.optimal(bc) == is_settled(state.left_tracker.tree(bc), bc)
            &&& state.right_tracker.optimal(bc) == is_settled(state.right_tracker.tree(bc), bc)
        }),
{
    lemma_sound(root, order);
    let state = root.after_visits(order);
    lemma_settled_tracker(root.view, root.left_ids(), root.branching_cost, state.left_tracker);
    lemma_settled_tracker(root.view, root.right_ids(), root.branching_cost, state.right_tracker);
}

proof fn lemma_settled_tracker<OT: OptimizationTask>(
    view: DataView<OT>,
    part: Set<int>,
    branching_cost: OT::CostType,
    tracker: D1ScoreTracker<OT>,
)
    requires
        snug(view, part, part, tracker),
    ensures
        tracker.optimal(branching_cost) == is_settled(tracker.tree(branching_cost), branching_cost),
{
    if tracker != D1ScoreTracker::unsplit(leaf_of_part(view, part)) {
        let candidate = choose|candidate: Candidate<OT>| #[trigger]
            neighbour_candidate(view, part, part, candidate) && tracker == D1ScoreTracker::split(
                candidate,
            );
        let tree = tracker.tree(branching_cost);
        assert(left_of(tree) == Tree::Leaf(candidate.left));
        assert(right_of(tree) == Tree::Leaf(candidate.right));
    }
}

/// A worker is done with a side exactly if its tracker is optimal.
proof fn lemma_done<OT: OptimizationTask>(root: RootSplit<OT>, order: Seq<int>)
    requires
        root.valid(),
        sound_costs::<OT::CostType>(),
        costs_possible(root),
        forall|j: int|
            0 <= j < order.len() ==> 0 <= #[trigger] order[j]
                < root.view.feature_instances@.len(),
    ensures
        ({
            let state = root.after_visits(order);
            let bc = root.branching_cost;
            &&& state.left_done == state.left_tracker.optimal(bc)
            &&& state.right_done == state.right_tracker.optimal(bc)
        }),
    decreases order.len(),
{
    let bc = root.branching_cost;
    if order.len() > 0 {
        let rest = order.drop_last();
        let f = order.last();
        assert forall|j: int| 0 <= j < rest.len() implies 0 <= #[trigger] rest[j]
            < root.view.feature_instances@.len() by {
            assert(rest[j] == order[j]);
        }
        assert(f == order[order.len() - 1]);
        lemma_done(root, rest);
        lemma_worker(root, rest);
        let before = root.after_visits(rest);
        lemma_done_side(root, root.left_ids(), before.left_tracker, f);
        lemma_done_side(root, root.right_ids(), before.right_tracker, f);
        done_worker_may_stop(root, rest);
    }
}

proof fn lemma_done_side<OT: OptimizationTask>(
    root: RootSplit<OT>,
    part: Set<int>,
    tracker: D1ScoreTracker<OT>,
    f: int,
)
    requires
        root.valid(),
        sound_costs::<OT::CostType>(),
        costs_possible(root),
        part.subset_of(root.view.ids()),
        0 <= f < root.view.feature_instances@.len(),
        sane_tracker(tracker, root.branching_cost),
    ensures
        ({
            let bc = root.branching_cost;
            let found = feature_candidates(root.view, part, f);
            consider_all(tracker, bc, found).optimal(bc) == (tracker.optimal(bc) || meets_optimum(
                tracker,
                bc,
                found,
            ))
        }),
{
    let found = feature_candidates(root.view, part, f);
    lemma_feature_candidates_split(root.view, part, f);
    lemma_splits_sane(root.view, part, root.branching_cost, found);
    lemma_stays_optimal(tracker, root.branching_cost, found);
}

/// Once a tracker is optimal, it stays so.
proof fn lemma_stays_optimal<OT: OptimizationTask>(
    tracker: D1ScoreTracker<OT>,
    branching_cost: OT::CostType,
    candidates: Seq<Candidate<OT>>,
)
    requires
        sound_costs::<OT::CostType>(),
        branching_cost.possible(),
        sane_tracker(tracker, branching_cost),
        all_sane(candidates, branching_cost),
    ensures
        consider_all(tracker, branching_cost, candidates).optimal(branching_cost) == (
        tracker.optimal(branching_cost) || meets_optimum(tracker, branching_cost, candidates)),
    decreases candidates.len(),
{
    if candidates.len() > 0 {
        let rest = candidates.drop_last();
        assert forall|j: int| 0 <= j < rest.len() implies sane(
            #[trigger] rest[j],
            branching_cost,
        ) by {
            assert(rest[j] == candidates[j]);
        }
        assert(candidates.last() == candidates[candidates.len() - 1]);
        lemma_stays_optimal(tracker, branching_cost, rest);
        lemma_consider_all_sane(tracker, branching_cost, rest);
        let before = consider_all(tracker, branching_cost, rest);
        if before.optimal(branching_cost) {
            optimal_is_unbeaten(before, branching_cost, candidates.last());
        }
    }
}

/// The order in which one worker visits all features: from the first to the last, each of them once.
pub proof fn features_come_in_order(n: int)
    requires
        0 <= n,
    ensures
        in_order_of_features(n).len() == n,
        forall|j: int| 0 <= j < n ==> #[trigger] in_order_of_features(n)[j] == j,
{
}

/// The visits of a worker add up: a worker that has visited some features and visits one more is
/// where a worker is that has visited all of these.
pub proof fn visits_add_up<OT: OptimizationTask>(root: RootSplit<OT>, order: Seq<int>, f: int)
    ensures
        root.after_visits(Seq::empty()) == root.initial(),
        root.after_visits(order.push(f)) == root.visited(root.after_visits(order), f),
{
    assert(order.push(f).drop_last() =~= order);
}

} // verus!
