//! What the trees that the searches return are, in terms of the instances and what these cost.
//!
//! Nothing here speaks of how a tree is found. A part of a view is a set of its instances; what it
//! costs as a leaf, and what it costs to cut it in two, is all that the trees are measured by.

use vstd::prelude::*;

use crate::model::dataview::DataView;
use crate::model::tree::{LeafNode, Threshold, Tree};
use crate::search::exhaustive::candidates::{
    all_candidates, consider_all, feature_candidates, lemma_all_candidates_split,
    lemma_feature_among_all, real_split, scan, split_at, splits_fit,
};
use crate::search::exhaustive::depth_one::d1_tree;
use crate::search::exhaustive::laws::{
    consider_all_is_unbeaten, divides, every_split_is_met, lemma_all_candidates_real,
    lemma_leaf_unbeaten, lemma_splits_sane, neighbour_candidate, neighbours, possible_costs,
    scan_is_unbeaten, split_cost,
};
use crate::search::exhaustive::selection::{
    lemma_all_in_turn, lemma_picked, lemma_scan_stops, precedes,
};
use crate::search::exhaustive::tracker::D1ScoreTracker;
use crate::tasks::{exact_costs, ordered_costs, plus, sound_costs, Cost, CostSum, OptimizationTask};

verus! {

/// The instances of the part whose value of feature `f` is at most `bound`.
pub open spec fn at_most<OT: OptimizationTask>(
    view: DataView<OT>,
    part: Set<int>,
    f: int,
    bound: int,
) -> Set<int> {
    part.filter(|k: int| view.dataset.feature_values@[f]@[k] <= bound)
}

/// The instances of the part whose value of feature `f` is larger than `bound`.
pub open spec fn above<OT: OptimizationTask>(
    view: DataView<OT>,
    part: Set<int>,
    f: int,
    bound: int,
) -> Set<int> {
    part.filter(|k: int| view.dataset.feature_values@[f]@[k] > bound)
}

/// What the part costs as a leaf.
pub open spec fn leaf_price<OT: OptimizationTask>(
    view: DataView<OT>,
    part: Set<int>,
) -> OT::CostType {
    OT::CostSumType::cost_of(view.dataset.instances@, part)
}

/// What it costs to cut the part in two at the bound on feature `f`.
pub open spec fn cut_price<OT: OptimizationTask>(
    view: DataView<OT>,
    part: Set<int>,
    branching_cost: OT::CostType,
    f: int,
    bound: int,
) -> OT::CostType {
    plus(
        plus(
            leaf_price(view, at_most(view, part, f, bound)),
            leaf_price(view, above(view, part, f, bound)),
        ),
        branching_cost,
    )
}

/// The bound on feature `f` cuts the part in two.
pub open spec fn cuts<OT: OptimizationTask>(
    view: DataView<OT>,
    part: Set<int>,
    f: int,
    bound: int,
) -> bool {
    &&& 0 <= f < view.feature_instances@.len()
    &&& exists|k: int| #[trigger] at_most(view, part, f, bound).contains(k)
    &&& exists|k: int| #[trigger] above(view, part, f, bound).contains(k)
}

/// What a tree costs.
pub open spec fn tree_price<OT: OptimizationTask>(tree: Tree<OT>) -> OT::CostType {
    match tree {
        Tree::Leaf(leaf) => leaf.cost,
        Tree::Branch(branch) => branch.cost,
    }
}

/// The tree is the leaf that holds the part.
pub open spec fn is_leaf<OT: OptimizationTask>(
    view: DataView<OT>,
    part: Set<int>,
    tree: Tree<OT>,
) -> bool {
    tree == Tree::<OT>::Leaf(
        LeafNode {
            cost: leaf_price(view, part),
            label: OT::CostSumType::label_of(view.dataset.instances@, part),
        },
    )
}

/// The tree cuts the part in two on feature `f`, halfway between `lower` and `upper`, with a leaf
/// on either side.
pub open spec fn is_cut<OT: OptimizationTask>(
    view: DataView<OT>,
    part: Set<int>,
    branching_cost: OT::CostType,
    f: int,
    lower: i32,
    upper: i32,
    tree: Tree<OT>,
) -> bool {
    match tree {
        Tree::Leaf(_) => false,
        Tree::Branch(branch) => {
            &&& branch.split_feature == f
            &&& branch.split_threshold == (Threshold::Between { lower, upper })
            &&& branch.cost == cut_price(view, part, branching_cost, f, lower as int)
            &&& is_leaf(view, at_most(view, part, f, lower as int), *branch.left_child)
            &&& is_leaf(view, above(view, part, f, lower as int), *branch.right_child)
        },
    }
}

/// As a leaf, the part costs nothing, or no more than it costs to branch.
pub open spec fn needs_no_cut<OT: OptimizationTask>(
    view: DataView<OT>,
    part: Set<int>,
    branching_cost: OT::CostType,
) -> bool {
    leaf_price(view, part).zero_like() || leaf_price(view, part).stays_within(branching_cost)
}

/// There is no point in looking for a better tree than this one: its leaves cost nothing, or it is
/// a leaf that costs no more than it costs to branch.
pub open spec fn is_settled<OT: OptimizationTask>(
    tree: Tree<OT>,
    branching_cost: OT::CostType,
) -> bool {
    match tree {
        Tree::Leaf(leaf) => leaf.cost.zero_like() || leaf.cost.stays_within(branching_cost),
        Tree::Branch(branch) => plus(
            tree_price(*branch.left_child),
            tree_price(*branch.right_child),
        ).zero_like(),
    }
}

/// The tree is a cut, and the bound on feature `f` comes before it.
pub open spec fn comes_late<OT: OptimizationTask>(tree: Tree<OT>, f: int, bound: int) -> bool {
    match tree {
        Tree::Leaf(_) => false,
        Tree::Branch(branch) => match branch.split_threshold {
            Threshold::Between { lower, .. } => precedes(
                f,
                bound,
                branch.split_feature as int,
                lower as int,
            ),
            Threshold::PossibleSplit { .. } => false,
        },
    }
}

/// The sets and prices above are those that the searches are stated in.
pub proof fn lemma_same_words<OT: OptimizationTask>(view: DataView<OT>)
    ensures
        forall|part: Set<int>, f: int, bound: int| #[trigger]
            at_most(view, part, f, bound) == view.up_to(part, f, bound),
        forall|part: Set<int>, f: int, bound: int| #[trigger]
            above(view, part, f, bound) == view.beyond(part, f, bound),
        forall|part: Set<int>, f: int, bound: int| #[trigger]
            cuts(view, part, f, bound) == real_split(view, part, f, bound),
        forall|part: Set<int>, bc: OT::CostType, f: int, bound: int| #[trigger]
            cut_price(view, part, bc, f, bound) == split_cost(view, part, bc, f, bound),
{
    assert forall|part: Set<int>, f: int, bound: int| #[trigger]
        at_most(view, part, f, bound) == view.up_to(part, f, bound) by {
        assert(at_most(view, part, f, bound) =~= view.up_to(part, f, bound));
    }
    assert forall|part: Set<int>, f: int, bound: int| #[trigger]
        above(view, part, f, bound) == view.beyond(part, f, bound) by {
        assert(above(view, part, f, bound) =~= view.beyond(part, f, bound));
    }
    assert forall|part: Set<int>, f: int, bound: int| #[trigger]
        cuts(view, part, f, bound) == real_split(view, part, f, bound) by {
        assert(at_most(view, part, f, bound) == view.up_to(part, f, bound));
        assert(above(view, part, f, bound) == view.beyond(part, f, bound));
    }
}

/// A candidate that cuts the part makes such a tree.
pub proof fn lemma_cut_tree<OT: OptimizationTask>(
    view: DataView<OT>,
    part: Set<int>,
    branching_cost: OT::CostType,
    f: int,
    lower: i32,
    upper: i32,
)
    requires
        0 <= f < view.feature_instances@.len(),
    ensures
        is_cut(
            view,
            part,
            branching_cost,
            f,
            lower,
            upper,
            D1ScoreTracker::split(split_at(view, part, f, lower, upper)).tree(branching_cost),
        ),
{
    lemma_same_words(view);
    assert(view.feature_instances.len() == view.feature_instances@.len());
    assert(at_most(view, part, f, lower as int) == view.up_to(part, f, lower as int));
    assert(above(view, part, f, lower as int) == view.beyond(part, f, lower as int));
}

/// The tree is the leaf that holds the part, or cuts it in two between two values that both occur in
/// it, with none in between.
pub open spec fn at_most_one_cut<OT: OptimizationTask>(
    view: DataView<OT>,
    part: Set<int>,
    branching_cost: OT::CostType,
    tree: Tree<OT>,
) -> bool {
    ||| is_leaf(view, part, tree)
    ||| exists|f: int, lower: i32, upper: i32| #[trigger]
        is_cut(view, part, branching_cost, f, lower, upper, tree) && neighbours(
            view,
            part,
            f,
            lower,
            upper,
        )
}

/// The tree is the best of at most one cut of the part, and the first of the best: nothing before it
/// beats it, and unless there is no point in looking further, nothing at all does. Where costs are
/// exact, all cuts before it are strictly dearer.
pub open spec fn is_first_best<OT: OptimizationTask>(
    view: DataView<OT>,
    part: Set<int>,
    branching_cost: OT::CostType,
    tree: Tree<OT>,
) -> bool {
    &&& is_leaf(view, part, tree) || tree_price(tree).undercuts(leaf_price(view, part))
    &&& needs_no_cut(view, part, branching_cost) ==> is_leaf(view, part, tree)
    &&& forall|f: int, bound: int|
        cuts(view, part, f, bound) && (comes_late(tree, f, bound) || !is_settled(
            tree,
            branching_cost,
        )) ==> !(#[trigger] cut_price(view, part, branching_cost, f, bound)).undercuts(
            tree_price(tree),
        )
    &&& exact_costs::<OT::CostType>() ==> forall|f: int, bound: int|
        cuts(view, part, f, bound) && comes_late(tree, f, bound) ==> tree_price(tree).undercuts(
            #[trigger] cut_price(view, part, branching_cost, f, bound),
        )
}

/// No cut of the part beats the tree, nor does the leaf.
pub open spec fn nothing_beats<OT: OptimizationTask>(
    view: DataView<OT>,
    part: Set<int>,
    branching_cost: OT::CostType,
    tree: Tree<OT>,
) -> bool {
    &&& !leaf_price(view, part).undercuts(tree_price(tree))
    &&& forall|f: int, bound: int|
        cuts(view, part, f, bound) ==> !(#[trigger] cut_price(
            view,
            part,
            branching_cost,
            f,
            bound,
        )).undercuts(tree_price(tree))
}

/// Where a cut of the part stands among all candidates.
pub proof fn lemma_where_met<OT: OptimizationTask>(
    view: DataView<OT>,
    part: Set<int>,
    branching_cost: OT::CostType,
    f: int,
    bound: int,
) -> (i: int)
    requires
        view.valid(),
        part.subset_of(view.ids()),
        cuts(view, part, f, bound),
    ensures
        ({
            let all = all_candidates(view, part, view.feature_instances@.len() as int);
            &&& 0 <= i < all.len()
            &&& all[i].feature == f
            &&& all[i].lower <= bound < all[i].upper
            &&& all[i].total(branching_cost) == cut_price(view, part, branching_cost, f, bound)
        }),
{
    lemma_same_words(view);
    let n = view.feature_instances@.len() as int;
    assert(real_split(view, part, f, bound));
    every_split_is_met(view, part, f, bound);
    let j = choose|j: int|
        0 <= j < feature_candidates(view, part, f).len() && divides(
            view,
            part,
            f,
            bound,
            #[trigger] feature_candidates(view, part, f)[j],
        );
    lemma_feature_among_all(view, part, f, n, j);
    let i = choose|i: int|
        0 <= i < all_candidates(view, part, n).len() && #[trigger] all_candidates(view, part, n)[i]
            == feature_candidates(view, part, f)[j];
    assert(all_candidates(view, part, n)[i].total(branching_cost) == split_cost(
        view,
        part,
        branching_cost,
        f,
        bound,
    ));
    assert(cut_price(view, part, branching_cost, f, bound) == split_cost(
        view,
        part,
        branching_cost,
        f,
        bound,
    ));
    i
}

/// What comes of considering the first `m` of all candidates, where that is all of them or enough to
/// be optimal.
pub proof fn lemma_first_best<OT: OptimizationTask>(
    view: DataView<OT>,
    part: Set<int>,
    branching_cost: OT::CostType,
    m: int,
)
    requires
        view.valid(),
        part.subset_of(view.ids()),
        ordered_costs::<OT::CostType>(),
        ({
            let all = all_candidates(view, part, view.feature_instances@.len() as int);
            let unsplit = D1ScoreTracker::unsplit(leaf_of_part(view, part));
            &&& 0 <= m <= all.len()
            &&& m < all.len() ==> consider_all(unsplit, branching_cost, all.take(m)).optimal(
                branching_cost,
            )
            &&& unsplit.optimal(branching_cost) ==> m == 0
        }),
    ensures
        ({
            let all = all_candidates(view, part, view.feature_instances@.len() as int);
            let unsplit = D1ScoreTracker::unsplit(leaf_of_part(view, part));
            let tree = consider_all(unsplit, branching_cost, all.take(m)).tree(branching_cost);
            &&& at_most_one_cut(view, part, branching_cost, tree)
            &&& is_first_best(view, part, branching_cost, tree)
        }),
{
    let n = view.feature_instances@.len() as int;
    let all = all_candidates(view, part, n);
    let some = all.take(m);
    let unsplit = D1ScoreTracker::unsplit(leaf_of_part(view, part));
    let found = consider_all(unsplit, branching_cost, some);
    let tree = found.tree(branching_cost);
    lemma_same_words(view);
    lemma_all_in_turn(view, part, n);
    lemma_all_candidates_real(view, part, n);
    consider_all_is_unbeaten(unsplit, branching_cost, some);
    let j = lemma_picked(unsplit, branching_cost, some);
    if unsplit.optimal(branching_cost) {
        assert(some =~= Seq::empty());
    }
    if j < 0 {
        assert(is_leaf(view, part, tree));
    } else {
        assert(some[j] == all[j]);
        assert(neighbour_candidate(view, part, part, all[j]));
        let (f, lower, upper) = choose|f: int, lower: i32, upper: i32|
            neighbours(view, part, f, lower, upper) && all[j] == #[trigger] split_at(
                view,
                part,
                f,
                lower,
                upper,
            );
        lemma_cut_tree(view, part, branching_cost, f, lower, upper);
        assert(is_cut(view, part, branching_cost, f, lower, upper, tree));
    }
    assert(tree_price(tree) == found.total(branching_cost));
    assert(found.optimal(branching_cost) == is_settled(tree, branching_cost));
    assert forall|f: int, bound: int|
        cuts(view, part, f, bound) && (comes_late(tree, f, bound) || !is_settled(
            tree,
            branching_cost,
        )) implies !(#[trigger] cut_price(view, part, branching_cost, f, bound)).undercuts(
        tree_price(tree),
    ) by {
        let i = lemma_where_met(view, part, branching_cost, f, bound);
        if comes_late(tree, f, bound) && i >= j {
            if i > j {
                assert(precedes(
                    all[j].feature as int,
                    all[j].lower as int,
                    all[i].feature as int,
                    all[i].lower as int,
                ));
            }
            assert(false);
        }
        assert(some[i] == all[i]);
    }
    if exact_costs::<OT::CostType>() {
        assert forall|f: int, bound: int|
            cuts(view, part, f, bound) && comes_late(tree, f, bound) implies tree_price(
            tree,
        ).undercuts(#[trigger] cut_price(view, part, branching_cost, f, bound)) by {
            let i = lemma_where_met(view, part, branching_cost, f, bound);
            if i >= j {
                if i > j {
                    assert(precedes(
                        all[j].feature as int,
                        all[j].lower as int,
                        all[i].feature as int,
                        all[i].lower as int,
                    ));
                }
                assert(false);
            }
            assert(some[i] == all[i]);
        }
    }
}

/// The leaf that holds a part.
pub open spec fn leaf_of_part<OT: OptimizationTask>(
    view: DataView<OT>,
    part: Set<int>,
) -> LeafNode<OT> {
    LeafNode {
        cost: leaf_price(view, part),
        label: OT::CostSumType::label_of(view.dataset.instances@, part),
    }
}

/// What the search for a node with depth one returns: the leaf that holds all instances of the view,
/// or one cut of them between two neighbouring values; whichever is the first of the best.
pub proof fn depth_one_result<OT: OptimizationTask>(view: DataView<OT>, branching_cost: OT::CostType)
    requires
        view.valid(),
        ordered_costs::<OT::CostType>(),
    ensures
        at_most_one_cut(view, view.ids(), branching_cost, d1_tree(view, branching_cost)),
        is_first_best(view, view.ids(), branching_cost, d1_tree(view, branching_cost)),
{
    let ids = view.ids();
    let n = view.feature_instances@.len() as int;
    let all = all_candidates(view, ids, n);
    let unsplit = D1ScoreTracker::unsplit(leaf_of_part(view, ids));
    let m = lemma_scan_stops(unsplit, branching_cost, all);
    lemma_first_best(view, ids, branching_cost, m);
}

/// Where no cost is below zero, nothing beats what the search for a node with depth one returns.
pub proof fn depth_one_result_is_optimal<OT: OptimizationTask>(
    view: DataView<OT>,
    branching_cost: OT::CostType,
)
    requires
        view.valid(),
        splits_fit::<OT>(view.data(), view.ids(), branching_cost),
        sound_costs::<OT::CostType>(),
        possible_costs::<OT>(view.data(), view.ids(), branching_cost),
    ensures
        nothing_beats(view, view.ids(), branching_cost, d1_tree(view, branching_cost)),
{
    let ids = view.ids();
    let n = view.feature_instances@.len() as int;
    let all = all_candidates(view, ids, n);
    let unsplit = D1ScoreTracker::unsplit(leaf_of_part(view, ids));
    let found = scan(unsplit, branching_cost, all);
    lemma_same_words(view);
    lemma_all_candidates_split(view, ids, n);
    lemma_splits_sane(view, ids, branching_cost, all);
    assert(leaf_price(view, ids).possible());
    scan_is_unbeaten(unsplit, branching_cost, all);
    lemma_leaf_unbeaten(unsplit.total(branching_cost), found.total(branching_cost));
    let tree = found.tree(branching_cost);
    assert(tree_price(tree) == found.total(branching_cost));
    assert forall|f: int, bound: int| cuts(view, ids, f, bound) implies !(
    #[trigger] cut_price(view, ids, branching_cost, f, bound)).undercuts(tree_price(tree)) by {
        let i = lemma_where_met(view, ids, branching_cost, f, bound);
        assert(!all[i].total(branching_cost).undercuts(found.total(branching_cost)));
    }
}

} // verus!
