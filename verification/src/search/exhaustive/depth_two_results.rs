//! What the search for a node with depth two returns, in terms of the instances and what these cost.

use core::ops::Range;
use vstd::prelude::*;

use crate::model::dataview::{lists, DataView};
use crate::model::tree::{LeafNode, Threshold, Tree};
use crate::search::exhaustive::candidates::{real_split, split_at, trees_fit};
use crate::search::exhaustive::depth_two::{
    after_attempt, best_below, best_side, best_tree, changes, changes_along,
};
use crate::search::exhaustive::depth_two_laws::{
    d2_is_best_of_tried, lemma_change_among_all, lemma_change_met, lemma_side_cost, tried,
};
use crate::search::exhaustive::fixed_split_results::{
    left_of, left_side, right_of, right_side, splits_at_root,
};
use crate::search::exhaustive::laws::{
    consider_all_is_unbeaten, lemma_leaf_unbeaten, possible_costs, side_cost, split_cost,
};
use crate::search::exhaustive::left_right::RootSplit;
use crate::search::exhaustive::results::{
    above, at_most, cut_price, cuts, is_cut, is_leaf, leaf_of_part, leaf_price, lemma_cut_tree,
    lemma_same_words, tree_price,
};
use crate::search::exhaustive::schedules::lemma_better_sides;
use crate::search::exhaustive::selection::{in_turn, lemma_picked, precedes};
use crate::search::exhaustive::tracker::{Candidate, D1ScoreTracker};
use crate::tasks::{exact_costs, ordered_costs, plus, Cost, CostSum, OptimizationTask};

verus! {

/// In the list of feature `f`, the value changes before entry `p`, and a cut of the part is tried
/// there: the feature has possible splits, the entry before is an instance of the part, and
/// something of the part has a larger value.
pub open spec fn tries<OT: OptimizationTask>(
    view: DataView<OT>,
    part: Set<int>,
    f: int,
    p: int,
) -> bool {
    let entries = view.feature_instances@[f]@;
    &&& 0 <= f < view.feature_instances@.len()
    &&& view.possible_split_values@[f]@.len() > 0
    &&& 0 < p < entries.len()
    &&& entries[p - 1].feature_value < entries[p].feature_value
    &&& part.contains(entries[p - 1].instance_id as int)
    &&& exists|k: int| #[trigger]
        above(view, part, f, entries[p - 1].feature_value as int).contains(k)
}

/// What it costs to cut the part before entry `p` of the list of feature `f`.
pub open spec fn try_price<OT: OptimizationTask>(
    view: DataView<OT>,
    part: Set<int>,
    branching_cost: OT::CostType,
    f: int,
    p: int,
) -> OT::CostType {
    cut_price(
        view,
        part,
        branching_cost,
        f,
        view.feature_instances@[f]@[p - 1].feature_value as int,
    )
}

/// The tree cuts the part before entry `p` of the list of feature `f`, halfway between the values
/// there.
pub open spec fn is_try<OT: OptimizationTask>(
    view: DataView<OT>,
    part: Set<int>,
    branching_cost: OT::CostType,
    f: int,
    p: int,
    tree: Tree<OT>,
) -> bool {
    let entries = view.feature_instances@[f]@;
    is_cut(
        view,
        part,
        branching_cost,
        f,
        entries[p - 1].feature_value,
        entries[p].feature_value,
        tree,
    )
}

/// The child is the first of the best of what is tried for the part: the leaf that holds it, or a cut
/// that is tried and strictly cheaper. No cut that is tried beats it; and where costs are exact,
/// those that are tried before it are strictly dearer.
pub open spec fn is_first_tried<OT: OptimizationTask>(
    view: DataView<OT>,
    part: Set<int>,
    branching_cost: OT::CostType,
    child: Tree<OT>,
) -> bool {
    &&& forall|f: int, p: int| #[trigger]
        tries(view, part, f, p) ==> !try_price(view, part, branching_cost, f, p).undercuts(
            tree_price(child),
        )
    &&& {
        ||| is_leaf(view, part, child)
        ||| exists|f: int, p: int|
            {
                &&& #[trigger] tries(view, part, f, p)
                &&& is_try(view, part, branching_cost, f, p, child)
                &&& tree_price(child).undercuts(leaf_price(view, part))
                &&& exact_costs::<OT::CostType>() ==> forall|g: int, q: int| #[trigger]
                    tries(view, part, g, q) && precedes(g, q, f, p) ==> tree_price(
                        child,
                    ).undercuts(try_price(view, part, branching_cost, g, q))
            }
    }
}

/// The price is that of the leaf that holds the part or of a cut that is tried, and neither of these
/// beats it.
pub open spec fn is_best_try<OT: OptimizationTask>(
    view: DataView<OT>,
    part: Set<int>,
    branching_cost: OT::CostType,
    price: OT::CostType,
) -> bool {
    &&& !leaf_price(view, part).undercuts(price)
    &&& forall|f: int, p: int| #[trigger]
        tries(view, part, f, p) ==> !try_price(view, part, branching_cost, f, p).undercuts(price)
    &&& is_some_try(view, part, branching_cost, price)
}

/// The price is that of the leaf that holds the part or of a cut that is tried.
pub open spec fn is_some_try<OT: OptimizationTask>(
    view: DataView<OT>,
    part: Set<int>,
    branching_cost: OT::CostType,
    price: OT::CostType,
) -> bool {
    ||| price == leaf_price(view, part)
    ||| exists|f: int, p: int| #[trigger]
        tries(view, part, f, p) && price == try_price(view, part, branching_cost, f, p)
}

/// Possible split `index` of feature `feature` exists and cuts the view in two.
pub open spec fn is_root<OT: OptimizationTask>(
    view: DataView<OT>,
    feature: int,
    index: int,
) -> bool {
    &&& 0 <= feature < view.feature_instances@.len()
    &&& 0 <= index < view.possible_split_values@[feature]@.len()
    &&& cuts(
        view,
        view.ids(),
        feature,
        view.possible_split_values@[feature]@[index].feature_value as int,
    )
}

/// What a node at the root costs over two trees.
pub open spec fn node_price<C: Cost>(left: C, right: C, branching_cost: C) -> C {
    plus(plus(left, right), branching_cost)
}

/// The tree has a possible split at its root that cuts the view in two, and each child is the first
/// of the best of what is tried for its side.
pub open spec fn is_root_tree<OT: OptimizationTask>(
    view: DataView<OT>,
    branching_cost: OT::CostType,
    feature: int,
    index: int,
    tree: Tree<OT>,
) -> bool {
    &&& is_root(view, feature, index)
    &&& splits_at_root(tree, branching_cost, feature, index)
    &&& is_first_tried(view, left_side(view, feature, index), branching_cost, left_of(tree))
    &&& is_first_tried(view, right_side(view, feature, index), branching_cost, right_of(tree))
}

/// Every candidate of a side is tried somewhere.
proof fn lemma_change_is_tried<OT: OptimizationTask>(
    view: DataView<OT>,
    part: Set<int>,
    f: int,
    m: int,
    j: int,
) -> (p: int)
    requires
        view.valid(),
        0 <= f < view.feature_instances@.len(),
        view.splits(f).len() > 0,
        0 <= m <= view.entries(f).len(),
        0 <= j < changes_along(view, part, f, view.entries(f).take(m)).len(),
    ensures
        p < m,
        tries(view, part, f, p),
        changes_along(view, part, f, view.entries(f).take(m))[j] == split_at(
            view,
            part,
            f,
            view.entries(f)[p - 1].feature_value,
            view.entries(f)[p].feature_value,
        ),
    decreases m,
{
    lemma_same_words(view);
    assert(view.in_order(f));
    let entries = view.entries(f).take(m);
    assert(entries.drop_last() =~= view.entries(f).take(m - 1));
    let found = changes_along(view, part, f, entries.drop_last());
    if j < found.len() {
        lemma_change_is_tried(view, part, f, m - 1, j)
    } else {
        let lower = view.entries(f)[m - 2].feature_value as int;
        assert(view.entries(f)[m - 2].feature_value <= view.entries(f)[m - 1].feature_value);
        assert(real_split(view, part, f, lower));
        assert(cuts(view, part, f, lower));
        m - 1
    }
}

/// The candidates of a side on one feature stand in order.
proof fn lemma_changes_along_in_turn<OT: OptimizationTask>(
    view: DataView<OT>,
    part: Set<int>,
    f: int,
    m: int,
)
    requires
        view.valid(),
        0 <= f < view.feature_instances@.len(),
        0 <= m <= view.entries(f).len(),
    ensures
        ({
            let found = changes_along(view, part, f, view.entries(f).take(m));
            &&& in_turn(found)
            &&& forall|j: int|
                0 <= j < found.len() ==> {
                    &&& (#[trigger] found[j]).feature == f
                    &&& m > 0
                    &&& found[j].lower < view.entries(f)[m - 1].feature_value
                }
        }),
    decreases m,
{
    assert(view.in_order(f));
    assert(view.feature_instances.len() == view.feature_instances@.len());
    if m >= 2 {
        lemma_changes_along_in_turn(view, part, f, m - 1);
        let entries = view.entries(f).take(m);
        assert(entries.drop_last() =~= view.entries(f).take(m - 1));
        let before = changes_along(view, part, f, entries.drop_last());
        let found = changes_along(view, part, f, entries);
        assert(view.entries(f)[m - 2].feature_value <= view.entries(f)[m - 1].feature_value);
        assert forall|j: int| 0 <= j < found.len() implies {
            &&& (#[trigger] found[j]).feature == f
            &&& found[j].lower < view.entries(f)[m - 1].feature_value
        } by {
            if j < before.len() {
                assert(found[j] == before[j]);
            }
        }
        assert forall|i: int, j: int| 0 <= i < j < found.len() implies precedes(
            (#[trigger] found[i]).feature as int,
            found[i].lower as int,
            (#[trigger] found[j]).feature as int,
            found[j].lower as int,
        ) by {
            assert(found[i] == before[i]);
            if j < before.len() {
                assert(found[j] == before[j]);
            }
        }
    }
}

/// The candidates of a side stand in order, and each is tried somewhere.
proof fn lemma_changes_in_turn<OT: OptimizationTask>(view: DataView<OT>, part: Set<int>, n: int)
    requires
        view.valid(),
        0 <= n <= view.feature_instances@.len(),
    ensures
        in_turn(changes(view, part, n)),
        forall|j: int|
            0 <= j < changes(view, part, n).len() ==> {
                &&& (#[trigger] changes(view, part, n)[j]).feature < n
                &&& tried_somewhere(view, part, changes(view, part, n), j)
            },
    decreases n,
{
    if n > 0 {
        let f = n - 1;
        lemma_changes_in_turn(view, part, f);
        let before = changes(view, part, f);
        let all = changes(view, part, n);
        if view.splits(f).len() > 0 {
            let entries = view.entries(f);
            let more = changes_along(view, part, f, entries);
            assert(entries.take(entries.len() as int) =~= entries);
            lemma_changes_along_in_turn(view, part, f, entries.len() as int);
            assert forall|j: int| 0 <= j < all.len() implies {
                &&& (#[trigger] all[j]).feature < n
                &&& tried_somewhere(view, part, all, j)
            } by {
                if j < before.len() {
                    assert(all[j] == before[j]);
                    assert(tried_somewhere(view, part, before, j));
                } else {
                    assert(all[j] == more[j - before.len()]);
                    let p = lemma_change_is_tried(
                        view,
                        part,
                        f,
                        entries.len() as int,
                        j - before.len(),
                    );
                    assert(tries(view, part, f, p));
                }
            }
            assert forall|i: int, j: int| 0 <= i < j < all.len() implies precedes(
                (#[trigger] all[i]).feature as int,
                all[i].lower as int,
                (#[trigger] all[j]).feature as int,
                all[j].lower as int,
            ) by {
                if j < before.len() {
                    assert(all[i] == before[i] && all[j] == before[j]);
                } else if i < before.len() {
                    assert(all[i] == before[i]);
                    assert(all[j] == more[j - before.len()]);
                } else {
                    assert(all[i] == more[i - before.len()]);
                    assert(all[j] == more[j - before.len()]);
                }
            }
        } else {
            assert forall|j: int| 0 <= j < all.len() implies {
                &&& (#[trigger] all[j]).feature < n
                &&& tried_somewhere(view, part, all, j)
            } by {
                assert(all[j] == before[j]);
            }
        }
    }
}

/// Candidate `j` is a cut of the part that is tried somewhere.
spec fn tried_somewhere<OT: OptimizationTask>(
    view: DataView<OT>,
    part: Set<int>,
    candidates: Seq<Candidate<OT>>,
    j: int,
) -> bool {
    exists|f: int, p: int| #[trigger]
        tries(view, part, f, p) && candidates[j] == split_at(
            view,
            part,
            f,
            view.entries(f)[p - 1].feature_value,
            view.entries(f)[p].feature_value,
        )
}

/// Where a cut that is tried stands among the candidates of a side.
proof fn lemma_where_tried<OT: OptimizationTask>(
    view: DataView<OT>,
    part: Set<int>,
    branching_cost: OT::CostType,
    f: int,
    p: int,
) -> (i: int)
    requires
        view.valid(),
        part.subset_of(view.ids()),
        tries(view, part, f, p),
    ensures
        ({
            let all = changes(view, part, view.feature_instances@.len() as int);
            &&& 0 <= i < all.len()
            &&& all[i].feature == f
            &&& all[i].lower == view.entries(f)[p - 1].feature_value
            &&& all[i].total(branching_cost) == try_price(view, part, branching_cost, f, p)
        }),
{
    lemma_same_words(view);
    let n = view.feature_instances@.len() as int;
    let entries = view.entries(f);
    let lower = entries[p - 1].feature_value as int;
    let last = entries[p - 1].instance_id as int;
    assert(view.covers(view.ids()));
    assert(lists(view.entries(f), view.ids()));
    assert(view.in_order(f));
    assert(view.feature_instances.len() == view.feature_instances@.len());
    assert(entries[p - 1].feature_value == view.dataset.value(f, last));
    assert(at_most(view, part, f, lower).contains(last));
    assert(cuts(view, part, f, lower));
    assert(real_split(view, part, f, lower));
    assert(entries.take(entries.len() as int) =~= entries);
    let j = lemma_change_met(view, part, f, p, entries.len() as int);
    let i = lemma_change_among_all(view, part, f, n, j);
    assert(cut_price(view, part, branching_cost, f, lower) == split_cost(
        view,
        part,
        branching_cost,
        f,
        lower,
    ));
    i
}

/// What is found for a side is the first of the best of what is tried for it.
proof fn lemma_side_result<OT: OptimizationTask>(
    view: DataView<OT>,
    part: Set<int>,
    branching_cost: OT::CostType,
)
    requires
        view.valid(),
        part.subset_of(view.ids()),
        ordered_costs::<OT::CostType>(),
    ensures
        ({
            let found = best_side(view, part, branching_cost);
            let tree = found.tree(branching_cost);
            &&& is_first_tried(view, part, branching_cost, tree)
            &&& is_best_try(view, part, branching_cost, tree_price(tree))
            &&& tree_price(tree) == found.total(branching_cost)
        }),
{
    let n = view.feature_instances@.len() as int;
    let all = changes(view, part, n);
    let unsplit = D1ScoreTracker::unsplit(leaf_of_part(view, part));
    let found = best_side(view, part, branching_cost);
    let tree = found.tree(branching_cost);
    lemma_same_words(view);
    lemma_changes_in_turn(view, part, n);
    consider_all_is_unbeaten(unsplit, branching_cost, all);
    lemma_leaf_unbeaten(unsplit.total(branching_cost), found.total(branching_cost));
    let j = lemma_picked(unsplit, branching_cost, all);
    assert forall|f: int, p: int| #[trigger] tries(view, part, f, p) implies !try_price(
        view,
        part,
        branching_cost,
        f,
        p,
    ).undercuts(tree_price(tree)) by {
        let i = lemma_where_tried(view, part, branching_cost, f, p);
        assert(!all[i].total(branching_cost).undercuts(found.total(branching_cost)));
    }
    if j < 0 {
        assert(is_leaf(view, part, tree));
    } else {
        let c = all[j];
        assert(tried_somewhere(view, part, all, j));
        let (f, p) = choose|f: int, p: int| #[trigger]
            tries(view, part, f, p) && all[j] == split_at(
                view,
                part,
                f,
                view.entries(f)[p - 1].feature_value,
                view.entries(f)[p].feature_value,
            );
        lemma_cut_tree(
            view,
            part,
            branching_cost,
            f,
            view.entries(f)[p - 1].feature_value,
            view.entries(f)[p].feature_value,
        );
        assert(is_try(view, part, branching_cost, f, p, tree));
        assert(view.feature_instances.len() == view.feature_instances@.len());
        assert(view.in_order(f));
        if exact_costs::<OT::CostType>() {
            assert forall|g: int, q: int| #[trigger]
                tries(view, part, g, q) && precedes(g, q, f, p) implies tree_price(
                tree,
            ).undercuts(try_price(view, part, branching_cost, g, q)) by {
                let i = lemma_where_tried(view, part, branching_cost, g, q);
                if g == f {
                    assert(view.entries(f)[q].feature_value <= view.entries(f)[p - 1].feature_value);
                }
                if i > j {
                    assert(precedes(
                        all[j].feature as int,
                        all[j].lower as int,
                        all[i].feature as int,
                        all[i].lower as int,
                    ));
                }
                assert(i < j);
                assert(found.total(branching_cost).undercuts(all[i].total(branching_cost)));
            }
        }
    }
}

/// What is found below a possible split that cuts the view in two.
proof fn lemma_below_result<OT: OptimizationTask>(
    view: DataView<OT>,
    branching_cost: OT::CostType,
    feature: int,
    index: int,
)
    requires
        view.valid(),
        ordered_costs::<OT::CostType>(),
        is_root(view, feature, index),
    ensures
        ({
            let root = RootSplit {
                view,
                branching_cost,
                feature: feature as usize,
                index: index as usize,
            };
            let tree = best_below(root);
            let left = tree_price(left_of(tree));
            let right = tree_price(right_of(tree));
            &&& is_root_tree(view, branching_cost, feature, index, tree)
            &&& is_best_try(view, left_side(view, feature, index), branching_cost, left)
            &&& is_best_try(view, right_side(view, feature, index), branching_cost, right)
            &&& tree_price(tree) == node_price(left, right, branching_cost)
            &&& tree_price(tree) == tree.total()
        }),
{
    assert(view.feature_instances.len() == view.feature_instances@.len());
    assert(view.possible_split_values@[feature].len() == view.splits(feature).len());
    let root = RootSplit {
        view,
        branching_cost,
        feature: feature as usize,
        index: index as usize,
    };
    lemma_same_words(view);
    assert(left_side(view, feature, index) == root.left_ids());
    assert(right_side(view, feature, index) == root.right_ids());
    lemma_side_result(view, root.left_ids(), branching_cost);
    lemma_side_result(view, root.right_ids(), branching_cost);
}

/// The possible splits up to the first `i` of feature `f`.
spec fn until<OT: OptimizationTask>(
    view: DataView<OT>,
    f: int,
    i: int,
    feature: int,
    index: int,
) -> bool {
    is_root(view, feature, index) && (feature < f || (feature == f && index < i))
}

/// Which root is kept: possible split `r.1` of feature `r.0`, or none if that feature is negative.
proof fn lemma_root_kept<OT: OptimizationTask>(
    view: DataView<OT>,
    branching_cost: OT::CostType,
    f: int,
    i: int,
) -> (r: (int, int))
    requires
        view.valid(),
        ordered_costs::<OT::CostType>(),
        0 <= f <= view.feature_instances@.len(),
        f < view.feature_instances@.len() ==> 0 <= i <= view.splits(f).len(),
        f == view.feature_instances@.len() ==> i == 0,
    ensures
        ({
            let tree = best_tree(view, branching_cost, f, i);
            &&& r.0 < 0 ==> tree == Tree::<OT>::Leaf(leaf_of_part(view, view.ids()))
            &&& r.0 >= 0 ==> {
                &&& until(view, f, i, r.0, r.1)
                &&& tree == best_below(
                    RootSplit {
                        view,
                        branching_cost,
                        feature: r.0 as usize,
                        index: r.1 as usize,
                    },
                )
                &&& tree.total().undercuts(leaf_price(view, view.ids()))
                &&& exact_costs::<OT::CostType>() ==> forall|feature: int, index: int| #[trigger]
                    is_root(view, feature, index) && precedes(feature, index, r.0, r.1)
                        ==> tree.total().undercuts(
                        best_below(
                            RootSplit {
                                view,
                                branching_cost,
                                feature: feature as usize,
                                index: index as usize,
                            },
                        ).total(),
                    )
            }
        }),
    decreases f, i,
{
    lemma_same_words(view);
    assert(view.feature_instances.len() == view.feature_instances@.len());
    if i > 0 {
        let r = lemma_root_kept(view, branching_cost, f, i - 1);
        let before = best_tree(view, branching_cost, f, i - 1);
        let next = best_below(
            RootSplit { view, branching_cost, feature: f as usize, index: (i - 1) as usize },
        );
        let bound = view.splits(f)[i - 1].feature_value as int;
        assert(cuts(view, view.ids(), f, bound) == real_split(view, view.ids(), f, bound));
        if real_split(view, view.ids(), f, bound) && next.total().undercuts(before.total()) {
            assert(is_root(view, f, i - 1));
            if r.0 >= 0 {
                assert(before.total().undercuts(leaf_price(view, view.ids())));
            }
            if exact_costs::<OT::CostType>() {
                d2_is_best_of_tried(view, branching_cost, f, i - 1);
                assert forall|feature: int, index: int| #[trigger]
                    is_root(view, feature, index) && precedes(
                        feature,
                        index,
                        f,
                        i - 1,
                    ) implies next.total().undercuts(
                    best_below(
                        RootSplit {
                            view,
                            branching_cost,
                            feature: feature as usize,
                            index: index as usize,
                        },
                    ).total(),
                ) by {
                    let other = best_below(
                        RootSplit {
                            view,
                            branching_cost,
                            feature: feature as usize,
                            index: index as usize,
                        },
                    ).total();
                    assert(tried(view, f, i - 1, feature, index));
                    assert(next.total().undercuts(other) || other.undercuts(before.total()));
                }
            }
            (f, i - 1)
        } else {
            r
        }
    } else if f > 0 {
        lemma_root_kept(view, branching_cost, f - 1, view.splits(f - 1).len() as int)
    } else {
        (-1, -1)
    }
}

/// What the search for a node with depth two returns: the leaf that holds all instances of the view,
/// or a tree that is strictly cheaper, with a possible split at its root that cuts the view in two,
/// and below it, for each side, the first of the best of what is tried.
pub proof fn depth_two_result<OT: OptimizationTask>(view: DataView<OT>, branching_cost: OT::CostType)
    requires
        view.valid(),
        ordered_costs::<OT::CostType>(),
    ensures
        ({
            let n = view.feature_instances@.len() as int;
            let tree = best_tree(view, branching_cost, n, 0);
            ||| is_leaf(view, view.ids(), tree)
            ||| tree_price(tree).undercuts(leaf_price(view, view.ids())) && exists|
                feature: int,
                index: int,
            | #[trigger]
                is_root_tree(view, branching_cost, feature, index, tree)
        }),
{
    let n = view.feature_instances@.len() as int;
    let r = lemma_root_kept(view, branching_cost, n, 0);
    if r.0 >= 0 {
        lemma_below_result(view, branching_cost, r.0, r.1);
    }
}

/// The root of what the search for a node with depth two returns, if that is no leaf, is a possible
/// split of its feature, which cuts the view in two.
pub proof fn depth_two_root<OT: OptimizationTask>(view: DataView<OT>, branching_cost: OT::CostType)
    requires
        view.valid(),
    ensures
        ({
            let n = view.feature_instances@.len() as int;
            let tree = best_tree(view, branching_cost, n, 0);
            ||| is_leaf(view, view.ids(), tree)
            ||| exists|feature: int, index: int| #[trigger]
                is_root(view, feature, index) && splits_at_root(
                    tree,
                    branching_cost,
                    feature,
                    index,
                )
        }),
{
    lemma_root(view, branching_cost, view.feature_instances@.len() as int, 0);
}

proof fn lemma_root<OT: OptimizationTask>(
    view: DataView<OT>,
    branching_cost: OT::CostType,
    f: int,
    i: int,
)
    requires
        view.valid(),
        0 <= f <= view.feature_instances@.len(),
        f < view.feature_instances@.len() ==> 0 <= i <= view.splits(f).len(),
        f == view.feature_instances@.len() ==> i == 0,
    ensures
        ({
            let tree = best_tree(view, branching_cost, f, i);
            ||| is_leaf(view, view.ids(), tree)
            ||| exists|feature: int, index: int| #[trigger]
                is_root(view, feature, index) && splits_at_root(
                    tree,
                    branching_cost,
                    feature,
                    index,
                )
        }),
    decreases f, i,
{
    lemma_same_words(view);
    assert(view.feature_instances.len() == view.feature_instances@.len());
    if i > 0 {
        lemma_root(view, branching_cost, f, i - 1);
        assert(view.possible_split_values@[f].len() == view.splits(f).len());
        let bound = view.splits(f)[i - 1].feature_value as int;
        assert(cuts(view, view.ids(), f, bound) == real_split(view, view.ids(), f, bound));
        let tree = best_tree(view, branching_cost, f, i);
        if tree != best_tree(view, branching_cost, f, i - 1) {
            assert(is_root(view, f, i - 1));
            assert(splits_at_root(tree, branching_cost, f, i - 1));
        }
    } else if f > 0 {
        lemma_root(view, branching_cost, f - 1, view.splits(f - 1).len() as int);
    }
}

/// What one attempt does: the tracker of each split at the root that `range` selects becomes the cut
/// that is tried, exactly if that one is strictly cheaper; everything else stays as it is.
pub proof fn attempt_result<OT: OptimizationTask>(
    best: Seq<D1ScoreTracker<OT>>,
    branching_cost: OT::CostType,
    range: Range<usize>,
    data: Seq<OT::InstanceType>,
    parts: spec_fn(int) -> Set<int>,
    lefts: spec_fn(int) -> Set<int>,
    feature: usize,
    lower: i32,
    upper: i32,
    i: int,
)
    requires
        0 <= i < best.len(),
    ensures
        ({
            let after = after_attempt(
                best,
                branching_cost,
                range,
                data,
                parts,
                lefts,
                feature,
                lower,
                upper,
            );
            let left = OT::CostSumType::cost_of(data, lefts(i));
            let right = OT::CostSumType::cost_of(data, parts(i).difference(lefts(i)));
            let price = node_price(left, right, branching_cost);
            let tree = after[i].tree(branching_cost);
            &&& after.len() == best.len()
            &&& if range.start <= i < range.end && price.undercuts(
                tree_price(best[i].tree(branching_cost)),
            ) {
                match tree {
                    Tree::Leaf(_) => false,
                    Tree::Branch(branch) => {
                        &&& branch.split_feature == feature
                        &&& branch.split_threshold == (Threshold::Between { lower, upper })
                        &&& branch.cost == price
                        &&& left_of(tree) == Tree::<OT>::Leaf(
                            LeafNode {
                                cost: left,
                                label: OT::CostSumType::label_of(data, lefts(i)),
                            },
                        )
                        &&& right_of(tree) == Tree::<OT>::Leaf(
                            LeafNode {
                                cost: right,
                                label: OT::CostSumType::label_of(
                                    data,
                                    parts(i).difference(lefts(i)),
                                ),
                            },
                        )
                    },
                }
            } else {
                after[i] == best[i]
            }
        }),
{
}

/// What the search for a node with depth two returns is not beaten by any possible split at the root
/// that cuts the view in two, with the best of what is tried below it.
pub proof fn depth_two_result_is_best<OT: OptimizationTask>(
    view: DataView<OT>,
    branching_cost: OT::CostType,
    feature: int,
    index: int,
)
    requires
        view.valid(),
        ordered_costs::<OT::CostType>(),
        is_root(view, feature, index),
    ensures
        ({
            let n = view.feature_instances@.len() as int;
            let tree = best_tree(view, branching_cost, n, 0);
            &&& !leaf_price(view, view.ids()).undercuts(tree_price(tree))
            &&& exists|left: OT::CostType, right: OT::CostType|
                {
                    &&& is_best_try(view, left_side(view, feature, index), branching_cost, left)
                    &&& is_best_try(view, right_side(view, feature, index), branching_cost, right)
                    &&& !(#[trigger] node_price(left, right, branching_cost)).undercuts(
                        tree_price(tree),
                    )
                }
        }),
{
    let n = view.feature_instances@.len() as int;
    lemma_same_words(view);
    lemma_below_result(view, branching_cost, feature, index);
    d2_is_best_of_tried(view, branching_cost, n, 0);
    assert(tried(view, n, 0, feature, index));
    let below = best_below(
        RootSplit { view, branching_cost, feature: feature as usize, index: index as usize },
    );
    let left = tree_price(left_of(below));
    let right = tree_price(right_of(below));
    assert(!node_price(left, right, branching_cost).undercuts(
        tree_price(best_tree(view, branching_cost, n, 0)),
    ));
}

/// Where costs are exact, take any possible split at the root that cuts the view in two, and for each
/// of its sides the leaf or any cut that is tried: the whole is not strictly cheaper than what the
/// search for a node with depth two returns.
pub proof fn depth_two_result_is_unbeaten<OT: OptimizationTask>(
    view: DataView<OT>,
    branching_cost: OT::CostType,
    feature: int,
    index: int,
    left: OT::CostType,
    right: OT::CostType,
)
    requires
        view.valid(),
        trees_fit::<OT>(view.data(), view.ids(), branching_cost),
        exact_costs::<OT::CostType>(),
        possible_costs::<OT>(view.data(), view.ids(), branching_cost),
        is_root(view, feature, index),
        is_some_try(view, left_side(view, feature, index), branching_cost, left),
        is_some_try(view, right_side(view, feature, index), branching_cost, right),
    ensures
        !node_price(left, right, branching_cost).undercuts(
            tree_price(
                best_tree(view, branching_cost, view.feature_instances@.len() as int, 0),
            ),
        ),
{
    let n = view.feature_instances@.len() as int;
    let total = tree_price(best_tree(view, branching_cost, n, 0));
    assert(view.feature_instances.len() == view.feature_instances@.len());
    assert(view.possible_split_values@[feature].len() == view.splits(feature).len());
    let root = RootSplit {
        view,
        branching_cost,
        feature: feature as usize,
        index: index as usize,
    };
    lemma_same_words(view);
    assert(left_side(view, feature, index) == root.left_ids());
    assert(right_side(view, feature, index) == root.right_ids());
    lemma_side_result(view, root.left_ids(), branching_cost);
    lemma_side_result(view, root.right_ids(), branching_cost);
    lemma_side_cost(view, root.left_ids(), branching_cost);
    lemma_side_cost(view, root.right_ids(), branching_cost);
    lemma_some_try(view, root.left_ids(), branching_cost, left);
    lemma_some_try(view, root.right_ids(), branching_cost, right);
    let l = best_side(view, root.left_ids(), branching_cost).total(branching_cost);
    let r = best_side(view, root.right_ids(), branching_cost).total(branching_cost);
    lemma_better_sides(root, left, right, l, r);
    d2_is_best_of_tried(view, branching_cost, n, 0);
    assert(tried(view, n, 0, feature, index));
    let cost = node_price(left, right, branching_cost);
    let below = best_below(root).total();
    assert(!cost.undercuts(below) && !below.undercuts(total));
    if cost.undercuts(total) {
        assert(cost.undercuts(below) || below.undercuts(total));
    }
}

/// What is tried for a side costs what a leaf or a split of that side costs.
proof fn lemma_some_try<OT: OptimizationTask>(
    view: DataView<OT>,
    part: Set<int>,
    branching_cost: OT::CostType,
    price: OT::CostType,
)
    requires
        view.valid(),
        part.subset_of(view.ids()),
        is_some_try(view, part, branching_cost, price),
    ensures
        side_cost(view, part, branching_cost, price),
{
    lemma_same_words(view);
    if price != leaf_price(view, part) {
        let (f, p) = choose|f: int, p: int| #[trigger]
            tries(view, part, f, p) && price == try_price(view, part, branching_cost, f, p);
        let entries = view.entries(f);
        let lower = entries[p - 1].feature_value as int;
        let last = entries[p - 1].instance_id as int;
        assert(view.in_order(f));
        assert(entries[p - 1].feature_value == view.dataset.value(f, last));
        assert(at_most(view, part, f, lower).contains(last));
        assert(cuts(view, part, f, lower));
        assert(real_split(view, part, f, lower));
        assert(price == split_cost(view, part, branching_cost, f, lower)) by {
            assert(cut_price(view, part, branching_cost, f, lower) == split_cost(
                view,
                part,
                branching_cost,
                f,
                lower,
            ));
        }
    }
}

/// Of several trees that cost the same, the search for a node with depth two returns the one with the
/// first root: where costs are exact and the result has possible split `index` of feature `feature`
/// at its root, every root before it is, with the best of what is tried below it, strictly dearer.
pub proof fn depth_two_result_is_first<OT: OptimizationTask>(
    view: DataView<OT>,
    branching_cost: OT::CostType,
    feature: int,
    index: int,
    earlier_feature: int,
    earlier_index: int,
)
    requires
        view.valid(),
        exact_costs::<OT::CostType>(),
        splits_at_root(
            best_tree(view, branching_cost, view.feature_instances@.len() as int, 0),
            branching_cost,
            feature,
            index,
        ),
        is_root(view, earlier_feature, earlier_index),
        precedes(earlier_feature, earlier_index, feature, index),
    ensures
        ({
            let n = view.feature_instances@.len() as int;
            let tree = best_tree(view, branching_cost, n, 0);
            let (f, i) = (earlier_feature, earlier_index);
            exists|left: OT::CostType, right: OT::CostType|
                {
                    &&& is_best_try(view, left_side(view, f, i), branching_cost, left)
                    &&& is_best_try(view, right_side(view, f, i), branching_cost, right)
                    &&& tree_price(tree).undercuts(
                        #[trigger] node_price(left, right, branching_cost),
                    )
                }
        }),
{
    let n = view.feature_instances@.len() as int;
    let tree = best_tree(view, branching_cost, n, 0);
    let r = lemma_root_kept(view, branching_cost, n, 0);
    assert(r.0 >= 0);
    lemma_below_result(view, branching_cost, r.0, r.1);
    assert(splits_at_root(tree, branching_cost, r.0, r.1));
    assert(r.0 == feature && r.1 == index);
    lemma_below_result(view, branching_cost, earlier_feature, earlier_index);
    let below = best_below(
        RootSplit {
            view,
            branching_cost,
            feature: earlier_feature as usize,
            index: earlier_index as usize,
        },
    );
    let left = tree_price(left_of(below));
    let right = tree_price(right_of(below));
    assert(tree.total().undercuts(below.total()));
    assert(tree_price(tree).undercuts(node_price(left, right, branching_cost)));
}

} // verus!
