use std::ops::{Add, Range, Sub};
use std::sync::Arc;

use codt::model::dataset::DataSet;
use codt::model::dataview::{DataView, FeatureValue, PossibleSplit};
use codt::model::tree::{BranchNode, LeafNode, Threshold, Tree};
use codt::search::exhaustive::left_right::{LeftRightSearch, LeftRightState};
use codt::search::exhaustive::tracker::D1ScoreTracker;
use codt::search::exhaustive::{solve_d1, solve_d2, solve_left_right};
use codt::search::SolveContext;
use codt::tasks::{Cost, CostSum, OptimizationTask};

/// A number of misclassified instances.
#[derive(Clone, Copy, Debug, PartialEq)]
struct Mistakes(i64);

impl Add for Mistakes {
    type Output = Self;

    fn add(self, other: Self) -> Self {
        Mistakes(self.0 + other.0)
    }
}

impl Sub for Mistakes {
    type Output = Self;

    fn sub(self, other: Self) -> Self {
        Mistakes(self.0 - other.0)
    }
}

impl Cost for Mistakes {
    const ZERO: Self = Mistakes(0);

    type Order = i64;

    fn is_zero(&self) -> bool {
        self.0 == 0
    }

    fn strictly_greater_than(&self, other: &Self) -> bool {
        self.0 > other.0
    }

    fn strictly_less_than(&self, other: &Self) -> bool {
        self.0 < other.0
    }

    fn greater_or_not_much_less_than(&self, other: &Self) -> bool {
        self.0 >= other.0
    }

    fn less_or_not_much_greater_than(&self, other: &Self) -> bool {
        self.0 <= other.0
    }

    fn to_order(&self) -> i64 {
        self.0
    }
}

/// How often each of three classes occurs.
struct Counts([i64; 3]);

impl CostSum<usize, usize, Mistakes> for Counts {
    /// The most frequent class, and the first of those.
    fn label(&self) -> usize {
        let mut best = 0;
        for class in 1..3 {
            if self.0[class] > self.0[best] {
                best = class;
            }
        }
        best
    }

    fn cost(&self) -> Mistakes {
        Mistakes(self.0.iter().sum::<i64>() - self.0.iter().max().unwrap())
    }

    fn clear(&mut self) {
        self.0 = [0; 3];
    }

    fn duplicate(&self) -> Self {
        Counts(self.0)
    }

    fn add_instance(&mut self, instance: &usize) {
        self.0[*instance] += 1;
    }

    fn subtract_instance(&mut self, instance: &usize) {
        self.0[*instance] -= 1;
    }

    fn add_sum(&mut self, other: &Self) {
        for class in 0..3 {
            self.0[class] += other.0[class];
        }
    }

    fn subtract_sum(&mut self, other: &Self) {
        for class in 0..3 {
            self.0[class] -= other.0[class];
        }
    }
}

/// Classification: an instance is its class.
struct Classification {
    price: i64,
}

impl OptimizationTask for Classification {
    type LabelType = usize;
    type InstanceType = usize;
    type CostType = Mistakes;
    type CostSumType = Counts;
    type ExtraDataviewData = ();

    fn init_costsum(_dataset: &DataSet<usize>) -> Counts {
        Counts([0; 3])
    }

    fn print_cost(&mut self, cost: &Mistakes) -> String {
        format!("{}", cost.0)
    }

    fn branching_cost(&self) -> Mistakes {
        Mistakes(self.price)
    }

    fn branch_relaxation(&self, _dataview: &DataView<Self>, _max_depth: u32) -> Mistakes {
        Mistakes(0)
    }

    fn init_extra_dataview_data(_dataset: &DataSet<usize>, _feature_values: &[Vec<FeatureValue>]) {}

    fn worst_cost_in_range(
        _dataview: &DataView<Self>,
        _feature: usize,
        _range: Range<usize>,
    ) -> Mistakes {
        Mistakes(0)
    }
}

fn context(price: i64) -> SolveContext<Classification> {
    SolveContext { task: Classification { price } }
}

fn dataset(labels: &[usize], columns: &[Vec<i32>]) -> DataSet<usize> {
    DataSet { instances: labels.to_vec(), feature_values: columns.to_vec() }
}

/// The view of the instances `ids`, with a possible split after each value but the last.
fn view_of<'a>(data: &'a DataSet<usize>, ids: &[usize]) -> DataView<'a, Classification> {
    let mut cost_summer = Counts([0; 3]);
    for id in ids {
        cost_summer.add_instance(&data.instances[*id]);
    }
    let mut feature_instances = Vec::new();
    let mut possible_split_values = Vec::new();
    for column in &data.feature_values {
        let mut entries: Vec<FeatureValue> = ids
            .iter()
            .map(|id| FeatureValue { instance_id: *id, feature_value: column[*id] })
            .collect();
        entries.sort_by_key(|entry| entry.feature_value);
        let mut values: Vec<i32> = entries.iter().map(|entry| entry.feature_value).collect();
        values.dedup();
        values.pop();
        possible_split_values.push(
            values.into_iter().map(|feature_value| PossibleSplit { feature_value }).collect(),
        );
        feature_instances.push(entries);
    }
    DataView { dataset: data, cost_summer, feature_instances, possible_split_values, extra_data: () }
}

fn whole(data: &DataSet<usize>) -> DataView<'_, Classification> {
    let ids: Vec<usize> = (0..data.instances.len()).collect();
    view_of(data, &ids)
}

fn branch(tree: &Tree<Classification>) -> &BranchNode<Classification> {
    match tree {
        Tree::Branch(node) => node,
        Tree::Leaf(_) => panic!("expected a branching node"),
    }
}

fn leaf(tree: &Tree<Classification>) -> &LeafNode<Classification> {
    match tree {
        Tree::Leaf(node) => node,
        Tree::Branch(_) => panic!("expected a leaf"),
    }
}

fn leaf_cost(data: &DataSet<usize>, ids: &[usize]) -> i64 {
    let mut counts = Counts([0; 3]);
    for id in ids {
        counts.add_instance(&data.instances[*id]);
    }
    counts.cost().0
}

fn divide(data: &DataSet<usize>, ids: &[usize], f: usize, bound: i32) -> (Vec<usize>, Vec<usize>) {
    ids.iter().partition(|id| data.feature_values[f][**id] <= bound)
}

/// The cost of the best tree of depth at most one, by trying every bound there is.
fn best_d1(data: &DataSet<usize>, ids: &[usize], price: i64) -> i64 {
    let mut best = leaf_cost(data, ids);
    for f in 0..data.feature_values.len() {
        for id in ids {
            let (left, right) = divide(data, ids, f, data.feature_values[f][*id]);
            if !left.is_empty() && !right.is_empty() {
                best = best.min(leaf_cost(data, &left) + leaf_cost(data, &right) + price);
            }
        }
    }
    best
}

/// What a tree costs on the instances, given where its splits lie.
fn recount(
    view: &DataView<Classification>,
    ids: &[usize],
    price: i64,
    tree: &Tree<Classification>,
) -> i64 {
    match tree {
        Tree::Leaf(node) => {
            assert_eq!(node.cost.0, leaf_cost(view.dataset, ids));
            node.cost.0
        }
        Tree::Branch(node) => {
            let f = node.split_feature;
            let bound = match node.split_threshold {
                Threshold::Between { lower, upper } => {
                    assert!(lower < upper);
                    lower
                }
                Threshold::PossibleSplit { index } => {
                    view.possible_split_values[f][index].feature_value
                }
            };
            let (left, right) = divide(view.dataset, ids, f, bound);
            let cost = recount(view, &left, price, &node.left_child)
                + recount(view, &right, price, &node.right_child)
                + price;
            assert_eq!(node.cost.0, cost);
            cost
        }
    }
}

fn depth(tree: &Tree<Classification>) -> usize {
    match tree {
        Tree::Leaf(_) => 0,
        Tree::Branch(node) => 1 + depth(&node.left_child).max(depth(&node.right_child)),
    }
}

/// Every split leaves something on either side.
fn has_no_empty_sides(
    view: &DataView<Classification>,
    ids: &[usize],
    tree: &Tree<Classification>,
) -> bool {
    match tree {
        Tree::Leaf(_) => true,
        Tree::Branch(node) => {
            let f = node.split_feature;
            let bound = match node.split_threshold {
                Threshold::Between { lower, .. } => lower,
                Threshold::PossibleSplit { index } => {
                    view.possible_split_values[f][index].feature_value
                }
            };
            let (left, right) = divide(view.dataset, ids, f, bound);
            !left.is_empty()
                && !right.is_empty()
                && has_no_empty_sides(view, &left, &node.left_child)
                && has_no_empty_sides(view, &right, &node.right_child)
        }
    }
}

/// The tree is a leaf, or is split between two values that occur among `ids` with none in between.
fn is_between_neighbours(
    data: &DataSet<usize>,
    ids: &[usize],
    tree: &Tree<Classification>,
) -> bool {
    match tree {
        Tree::Leaf(_) => true,
        Tree::Branch(node) => match node.split_threshold {
            Threshold::Between { lower, upper } => {
                let values: Vec<i32> =
                    ids.iter().map(|id| data.feature_values[node.split_feature][*id]).collect();
                lower < upper
                    && values.contains(&lower)
                    && values.contains(&upper)
                    && values.iter().all(|value| *value <= lower || upper <= *value)
            }
            Threshold::PossibleSplit { .. } => false,
        },
    }
}

/// A few data sets of different shapes.
fn samples() -> Vec<DataSet<usize>> {
    let mut state: u64 = 12345;
    let mut next = |limit: u64| {
        state = state.wrapping_mul(6364136223846793005).wrapping_add(1442695040888963407);
        (state >> 33) % limit
    };
    let mut found = Vec::new();
    for round in 0..30 {
        let n = 3 + round % 9;
        let n_features = 1 + round % 4;
        let n_values = 2 + (round as u64) % 6;
        let labels: Vec<usize> = (0..n).map(|_| next(3) as usize).collect();
        let columns: Vec<Vec<i32>> = (0..n_features)
            .map(|_| (0..n).map(|_| next(n_values) as i32).collect())
            .collect();
        found.push(dataset(&labels, &columns));
    }
    found
}

#[test]
fn depth_one_splits_between_neighbouring_values() {
    let data = dataset(&[0, 0, 1], &[vec![5, 5, 9]]);
    let tree = solve_d1(&whole(&data), &context(0));
    let root = branch(&tree);
    assert_eq!(root.cost, Mistakes(0));
    assert_eq!(root.split_feature, 0);
    assert_eq!(root.split_threshold, Threshold::Between { lower: 5, upper: 9 });
    assert_eq!(leaf(&root.left_child).label, 0);
    assert_eq!(leaf(&root.left_child).cost, Mistakes(0));
    assert_eq!(leaf(&root.right_child).label, 1);
    assert_eq!(leaf(&root.right_child).cost, Mistakes(0));
}

#[test]
fn depth_one_keeps_a_leaf_where_branching_costs_as_much() {
    let data = dataset(&[0, 0, 1], &[vec![5, 5, 9]]);
    let tree = solve_d1(&whole(&data), &context(1));
    assert_eq!(leaf(&tree).cost, Mistakes(1));
    assert_eq!(leaf(&tree).label, 0);
}

#[test]
fn depth_one_pays_for_branching() {
    let data = dataset(&[0, 0, 1, 1, 1], &[vec![1, 2, 3, 4, 5]]);
    let tree = solve_d1(&whole(&data), &context(1));
    assert_eq!(tree.cost(), Mistakes(1));
    assert_eq!(branch(&tree).split_threshold, Threshold::Between { lower: 2, upper: 3 });
}

#[test]
fn depth_one_takes_the_first_of_equal_splits() {
    let data = dataset(&[0, 1, 2], &[vec![1, 2, 3], vec![3, 2, 1]]);
    let tree = solve_d1(&whole(&data), &context(0));
    assert_eq!(tree.cost(), Mistakes(1));
    assert_eq!(branch(&tree).split_feature, 0);
    assert_eq!(branch(&tree).split_threshold, Threshold::Between { lower: 1, upper: 2 });
}

#[test]
fn depth_one_does_not_split_equal_values() {
    let data = dataset(&[0, 1, 0, 1], &[vec![4, 4, 4, 4]]);
    let tree = solve_d1(&whole(&data), &context(0));
    assert_eq!(leaf(&tree).cost, Mistakes(2));
}

#[test]
fn depth_one_without_features_is_a_leaf() {
    let data = dataset(&[1, 1, 2], &[]);
    let tree = solve_d1(&whole(&data), &context(0));
    assert_eq!(leaf(&tree).cost, Mistakes(1));
    assert_eq!(leaf(&tree).label, 1);
}

#[test]
fn depth_one_of_a_part_of_the_data() {
    let data = dataset(&[0, 1, 0, 1], &[vec![1, 2, 3, 4]]);
    let tree = solve_d1(&view_of(&data, &[0, 1]), &context(0));
    assert_eq!(tree.cost(), Mistakes(0));
    let tree = solve_d1(&view_of(&data, &[0, 2]), &context(0));
    assert_eq!(leaf(&tree).cost, Mistakes(0));
}

#[test]
fn depth_one_is_exhaustive() {
    for data in samples() {
        let ids: Vec<usize> = (0..data.instances.len()).collect();
        let view = whole(&data);
        for price in 0..3 {
            let tree = solve_d1(&view, &context(price));
            assert_eq!(tree.cost().0, best_d1(&data, &ids, price));
            assert!(is_between_neighbours(&data, &ids, &tree));
            match &*tree {
                Tree::Leaf(node) => assert_eq!(node.cost.0, leaf_cost(&data, &ids)),
                Tree::Branch(node) => assert!(node.cost.0 < leaf_cost(&data, &ids)),
            }
            assert_eq!(recount(&view, &ids, price, &tree), tree.cost().0);
            assert!(has_no_empty_sides(&view, &ids, &tree));
            assert!(depth(&tree) <= 1);
        }
    }
}

#[test]
fn fixed_split_solves_exclusive_or() {
    let data = dataset(&[0, 1, 1, 0], &[vec![0, 0, 1, 1], vec![0, 1, 0, 1]]);
    let view = whole(&data);
    let tree = solve_left_right(&view, &context(0), 0, 0);
    let root = branch(&tree);
    assert_eq!(root.cost, Mistakes(0));
    assert_eq!(root.split_feature, 0);
    assert_eq!(root.split_threshold, Threshold::PossibleSplit { index: 0 });
    let left = branch(&root.left_child);
    assert_eq!(left.split_feature, 1);
    assert_eq!(left.split_threshold, Threshold::Between { lower: 0, upper: 1 });
    assert_eq!(leaf(&left.left_child).label, 0);
    assert_eq!(leaf(&left.right_child).label, 1);
    let right = branch(&root.right_child);
    assert_eq!(right.split_feature, 1);
    assert_eq!(leaf(&right.left_child).label, 1);
    assert_eq!(leaf(&right.right_child).label, 0);
}

#[test]
fn fixed_split_leaves_sides_whole_that_are_optimal() {
    let data = dataset(&[0, 1, 1, 0], &[vec![0, 0, 1, 1], vec![0, 1, 0, 1]]);
    let tree = solve_left_right(&whole(&data), &context(1), 0, 0);
    let root = branch(&tree);
    assert_eq!(root.cost, Mistakes(3));
    assert_eq!(leaf(&root.left_child).cost, Mistakes(1));
    assert_eq!(leaf(&root.right_child).cost, Mistakes(1));
}

#[test]
fn fixed_split_is_kept_even_if_a_leaf_is_cheaper() {
    let data = dataset(&[2, 2], &[vec![0, 1]]);
    let tree = solve_left_right(&whole(&data), &context(5), 0, 0);
    assert_eq!(branch(&tree).cost, Mistakes(5));
    assert_eq!(leaf(&branch(&tree).left_child).label, 2);
}

#[test]
fn fixed_split_with_one_finished_side() {
    let data = dataset(&[0, 0, 1, 0], &[vec![0, 0, 1, 2], vec![7, 8, 9, 9]]);
    let tree = solve_left_right(&whole(&data), &context(0), 0, 0);
    let root = branch(&tree);
    assert_eq!(root.cost, Mistakes(0));
    assert_eq!(leaf(&root.left_child).cost, Mistakes(0));
    assert_eq!(branch(&root.right_child).split_feature, 0);
    assert_eq!(
        branch(&root.right_child).split_threshold,
        Threshold::Between { lower: 1, upper: 2 }
    );
}

/// The cost of the best tree below a split at the root.
fn best_below(data: &DataSet<usize>, f: usize, bound: i32, price: i64) -> i64 {
    let ids: Vec<usize> = (0..data.instances.len()).collect();
    let (left, right) = divide(data, &ids, f, bound);
    best_d1(data, &left, price) + best_d1(data, &right, price) + price
}

#[test]
fn fixed_split_is_exhaustive() {
    for data in samples() {
        let ids: Vec<usize> = (0..data.instances.len()).collect();
        let view = whole(&data);
        for f in 0..view.num_features() {
            for (i, split) in view.possible_split_values[f].iter().enumerate() {
                for price in 0..2 {
                    let tree = solve_left_right(&view, &context(price), f, i);
                    let best = best_below(&data, f, split.feature_value, price);
                    assert_eq!(tree.cost().0, best);
                    assert_eq!(recount(&view, &ids, price, &tree), best);
                    let (left, right) = divide(&data, &ids, f, split.feature_value);
                    let root = branch(&tree);
                    assert!(is_between_neighbours(&data, &left, &root.left_child));
                    assert!(is_between_neighbours(&data, &right, &root.right_child));
                    assert!(has_no_empty_sides(&view, &ids, &tree));
                    assert!(depth(&tree) <= 2);
                }
            }
        }
    }
}

/// The outcome of workers that visit the given features.
fn run_workers(
    search: &LeftRightSearch<Classification>,
    orders: &[Vec<usize>],
) -> Arc<Tree<Classification>> {
    let mut states: Vec<LeftRightState<Classification>> = Vec::new();
    for order in orders {
        let mut state = search.start();
        for f in order {
            search.visit_feature(&mut state, *f);
        }
        states.push(state);
    }
    search.finish(&states)
}

#[test]
fn workers_agree_however_features_are_shared_out() {
    for data in samples() {
        let view = whole(&data);
        let n = view.num_features();
        for price in 0..2 {
            let context = context(price);
            for f in 0..n {
                for i in 0..view.possible_split_values[f].len() {
                    let alone = solve_left_right(&view, &context, f, i).cost();
                    let search = LeftRightSearch::new(&view, &context, f, i);
                    let backwards: Vec<usize> = (0..n).rev().collect();
                    assert_eq!(run_workers(&search, &[backwards]).cost(), alone);
                    let each: Vec<Vec<usize>> = (0..n).map(|g| vec![g]).collect();
                    assert_eq!(run_workers(&search, &each).cost(), alone);
                    let even: Vec<usize> = (0..n).step_by(2).collect();
                    let odd: Vec<usize> = (1..n).step_by(2).collect();
                    assert_eq!(run_workers(&search, &[even, vec![], odd]).cost(), alone);
                }
            }
        }
    }
}

#[test]
fn no_workers_leave_both_sides_whole() {
    let data = dataset(&[0, 1, 1, 0], &[vec![0, 0, 1, 1], vec![0, 1, 0, 1]]);
    let view = whole(&data);
    let context = context(0);
    let search = LeftRightSearch::new(&view, &context, 0, 0);
    let tree = run_workers(&search, &[]);
    assert_eq!(tree.cost(), Mistakes(2));
    assert_eq!(leaf(&branch(&tree).left_child).cost, Mistakes(1));
}

#[test]
fn a_worker_that_is_done_says_so() {
    let data = dataset(&[0, 1, 1, 0], &[vec![0, 0, 1, 1], vec![0, 1, 0, 1]]);
    let view = whole(&data);
    let context = context(0);
    let search = LeftRightSearch::new(&view, &context, 0, 0);
    let mut state = search.start();
    assert!(!state.left_done && !state.right_done);
    assert!(!search.visit_feature(&mut state, 0));
    assert!(!state.left_done && !state.right_done);
    assert!(!search.visit_feature(&mut state, 1));
    assert!(state.left_done && state.right_done);
    assert!(search.visit_feature(&mut state, 0));
    assert_eq!(state.left_tracker.feature, Some(1));
    // The other feature was left out by nobody who needed it: one worker is enough.
    assert_eq!(search.finish(&vec![search.start(), state]).cost(), Mistakes(0));
}

#[test]
fn a_search_that_is_done_from_the_start_says_so() {
    let data = dataset(&[0, 1], &[vec![0, 1]]);
    let view = whole(&data);
    let context = context(0);
    let search = LeftRightSearch::new(&view, &context, 0, 0);
    assert!(search.left_done && search.right_done);
    let mut state = search.start();
    assert!(search.visit_feature(&mut state, 0));
    assert_eq!(state.left_tracker.feature, None);
}

#[test]
fn depth_two_finds_two_splits_below_the_root() {
    let data = dataset(&[0, 1, 0, 1], &[vec![0, 1, 2, 3]]);
    let tree = solve_d2(&whole(&data), &context(0));
    let root = branch(&tree);
    assert_eq!(root.cost, Mistakes(0));
    assert_eq!(root.split_feature, 0);
    assert_eq!(root.split_threshold, Threshold::PossibleSplit { index: 1 });
    assert_eq!(
        branch(&root.left_child).split_threshold,
        Threshold::Between { lower: 0, upper: 1 }
    );
    assert_eq!(
        branch(&root.right_child).split_threshold,
        Threshold::Between { lower: 2, upper: 3 }
    );
    assert_eq!(leaf(&branch(&root.right_child).right_child).label, 1);
}

#[test]
fn depth_two_keeps_a_leaf_where_branching_does_not_pay() {
    let data = dataset(&[0, 1, 0, 1], &[vec![0, 1, 2, 3]]);
    let tree = solve_d2(&whole(&data), &context(1));
    assert_eq!(leaf(&tree).cost, Mistakes(2));
    let tree = solve_d2(&whole(&dataset(&[1, 2, 2], &[])), &context(0));
    assert_eq!(leaf(&tree).label, 2);
}

#[test]
fn depth_two_skips_features_without_possible_splits() {
    let data = dataset(&[0, 1, 0, 1], &[vec![6, 6, 6, 6], vec![0, 1, 2, 3]]);
    let tree = solve_d2(&whole(&data), &context(0));
    assert_eq!(tree.cost(), Mistakes(0));
    assert_eq!(branch(&tree).split_feature, 1);
}

#[test]
fn depth_two_is_not_exhaustive() {
    // The left side is only split right after one of its own instances, and with respect to the
    // second feature, instance 2 stands between them.
    let data = dataset(&[0, 1, 1, 0], &[vec![0, 0, 1, 1], vec![0, 1, 0, 1]]);
    let view = whole(&data);
    let tree = solve_d2(&view, &context(0));
    let root = branch(&tree);
    assert_eq!(root.cost, Mistakes(1));
    assert_eq!(root.split_feature, 0);
    assert_eq!(leaf(&root.left_child).cost, Mistakes(1));
    assert_eq!(branch(&root.right_child).split_feature, 1);
    assert_eq!(solve_left_right(&view, &context(0), 0, 0).cost(), Mistakes(0));
}

#[test]
fn depth_two_allows_no_empty_sides_below_the_root() {
    // Even with a reward for branching, a side is only split into two parts that hold something.
    let data = dataset(&[0, 1], &[vec![0, 1]]);
    let tree = solve_d2(&whole(&data), &context(-1));
    let root = branch(&tree);
    assert_eq!(root.cost, Mistakes(-1));
    assert_eq!(leaf(&root.left_child).label, 0);
    assert_eq!(leaf(&root.right_child).label, 1);

    let data = dataset(&[0, 0, 0], &[vec![0, 1, 2]]);
    let view = whole(&data);
    let tree = solve_d2(&view, &context(-1));
    assert_eq!(tree.cost(), Mistakes(-2));
    assert!(has_no_empty_sides(&view, &[0, 1, 2], &tree));
}

#[test]
fn depth_two_allows_no_empty_side_at_the_root() {
    let data = dataset(&[0, 1], &[vec![0, 1]]);
    let mut view = whole(&data);
    // Nothing is to the left of the first possible split.
    view.possible_split_values[0].insert(0, PossibleSplit { feature_value: -5 });
    let tree = solve_d2(&view, &context(0));
    let root = branch(&tree);
    assert_eq!(root.cost, Mistakes(0));
    assert_eq!(root.split_threshold, Threshold::PossibleSplit { index: 1 });
    assert!(has_no_empty_sides(&view, &[0, 1], &tree));
    let tree = solve_d2(&view, &context(-1));
    assert_eq!(branch(&tree).split_threshold, Threshold::PossibleSplit { index: 1 });
}

#[test]
fn depth_two_splits_sides_whose_rest_lies_further_on() {
    // On the second feature, what is left of the left side comes after instances of the right side.
    let data = dataset(&[0, 1, 2, 2], &[vec![0, 0, 1, 1], vec![0, 3, 1, 2]]);
    let tree = solve_d2(&whole(&data), &context(0));
    let root = branch(&tree);
    assert_eq!(root.cost, Mistakes(0));
    let left = branch(&root.left_child);
    assert_eq!(left.split_feature, 1);
    assert_eq!(left.split_threshold, Threshold::Between { lower: 0, upper: 1 });
    assert_eq!(leaf(&root.right_child).label, 2);
}

#[test]
fn depth_two_is_made_for_the_data_and_never_beats_the_exhaustive_search() {
    for data in samples() {
        let ids: Vec<usize> = (0..data.instances.len()).collect();
        let view = whole(&data);
        for price in 0..2 {
            let tree = solve_d2(&view, &context(price));
            assert!(depth(&tree) <= 2);
            assert_eq!(recount(&view, &ids, price, &tree), tree.cost().0);
            assert!(has_no_empty_sides(&view, &ids, &tree));
            let mut best = leaf_cost(&data, &ids);
            for f in 0..view.num_features() {
                for split in &view.possible_split_values[f] {
                    best = best.min(best_below(&data, f, split.feature_value, price));
                }
            }
            assert!(tree.cost().0 >= best);
            if let Tree::Branch(node) = &*tree {
                assert!(is_between_neighbours(&data, &ids, &node.left_child));
                assert!(is_between_neighbours(&data, &ids, &node.right_child));
            }
            // Here every split is a possible one at the root.
            assert!(tree.cost().0 <= solve_d1(&view, &context(price)).cost().0);
            match &*tree {
                Tree::Leaf(node) => assert_eq!(node.cost.0, leaf_cost(&data, &ids)),
                Tree::Branch(node) => assert!(node.cost.0 < leaf_cost(&data, &ids)),
            }
        }
    }
}

#[test]
fn depth_two_is_exhaustive_where_values_are_distinct() {
    // Features without repeated values: every split of a side comes right after an instance of that
    // side.
    for data in samples() {
        let n = data.instances.len() as i32;
        let column: Vec<i32> = (0..n).collect();
        let zigzag: Vec<i32> = (0..n).map(|k| if k % 2 == 0 { k } else { 2 * n - k }).collect();
        let data = dataset(&data.instances, &[column, zigzag]);
        let view = whole(&data);
        for price in 0..2 {
            let mut best = leaf_cost(&data, &(0..n as usize).collect::<Vec<usize>>());
            for f in 0..2 {
                for split in &view.possible_split_values[f] {
                    best = best.min(best_below(&data, f, split.feature_value, price));
                }
            }
            assert_eq!(solve_d2(&view, &context(price)).cost().0, best);
        }
    }
}

fn tracker(counts: [i64; 3]) -> D1ScoreTracker<Classification> {
    D1ScoreTracker::new(&Counts(counts))
}

#[test]
fn tracker_starts_with_a_leaf() {
    let start = tracker([1, 3, 0]);
    assert_eq!(start.leaf_cost, Mistakes(1));
    assert_eq!(start.feature, None);
    assert_eq!(start.threshold, None);
    assert_eq!(start.total_cost(Mistakes(10)), Mistakes(1));
    let tree = start.get_tree(Mistakes(10));
    assert_eq!(leaf(&tree).cost, Mistakes(1));
    assert_eq!(leaf(&tree).label, 1);
}

#[test]
fn tracker_takes_over_strictly_cheaper_splits_only() {
    let mut best = tracker([3, 3, 0]);
    best.add_candidate(Mistakes(1), &Counts([2, 1, 0]), &Counts([1, 2, 0]), 4, 10, 12);
    assert_eq!(best.feature, None);
    best.add_candidate(Mistakes(1), &Counts([3, 1, 0]), &Counts([0, 2, 0]), 5, 11, 13);
    assert_eq!(best.feature, Some(5));
    assert_eq!(best.leaf_cost, Mistakes(1));
    assert_eq!(best.total_cost(Mistakes(1)), Mistakes(2));
    best.add_candidate(Mistakes(1), &Counts([2, 0, 0]), &Counts([1, 3, 0]), 6, 12, 14);
    assert_eq!(best.feature, Some(5));
    let kept = best.clone();
    best.add_candidate(Mistakes(1), &Counts([3, 0, 0]), &Counts([0, 3, 0]), 7, 13, 15);
    let tree = best.get_tree(Mistakes(1));
    assert_eq!(branch(&tree).cost, Mistakes(1));
    assert_eq!(branch(&tree).split_feature, 7);
    assert_eq!(branch(&tree).split_threshold, Threshold::Between { lower: 13, upper: 15 });
    assert_eq!(leaf(&branch(&tree).right_child).label, 1);
    assert_eq!(kept.threshold, Some(Threshold::Between { lower: 11, upper: 13 }));
}

#[test]
fn tracker_needs_no_threshold_to_tell_its_cost() {
    let mut best = tracker([3, 2, 0]);
    best.feature = Some(1);
    assert_eq!(best.total_cost(Mistakes(4)), Mistakes(6));
    best.add_candidate(Mistakes(4), &Counts([3, 0, 0]), &Counts([0, 2, 0]), 2, 7, 8);
    assert_eq!(best.feature, Some(2));
    assert_eq!(best.total_cost(Mistakes(4)), Mistakes(4));
}

#[test]
fn tracker_is_optimal_at_cost_zero_or_where_branching_costs_too_much() {
    assert!(tracker([4, 0, 0]).is_optimal(Mistakes(0)));
    assert!(tracker([4, 2, 0]).is_optimal(Mistakes(2)));
    assert!(!tracker([4, 2, 0]).is_optimal(Mistakes(1)));
    let mut best = tracker([4, 4, 0]);
    best.add_candidate(Mistakes(2), &Counts([4, 1, 0]), &Counts([0, 3, 0]), 0, 1, 2);
    assert_eq!(best.leaf_cost, Mistakes(1));
    // Once it is split, only cost zero is optimal.
    assert!(!best.is_optimal(Mistakes(2)));
    best.add_candidate(Mistakes(2), &Counts([4, 0, 0]), &Counts([0, 4, 0]), 0, 2, 3);
    assert!(best.is_optimal(Mistakes(2)));
}

/// A cost that does not tell apart what is less than one half apart.
#[derive(Clone, Copy, Debug, PartialEq)]
struct Rough(f64);

impl Add for Rough {
    type Output = Self;

    fn add(self, other: Self) -> Self {
        Rough(self.0 + other.0)
    }
}

impl Sub for Rough {
    type Output = Self;

    fn sub(self, other: Self) -> Self {
        Rough(self.0 - other.0)
    }
}

impl Cost for Rough {
    const ZERO: Self = Rough(0.0);

    type Order = i64;

    fn is_zero(&self) -> bool {
        self.0 < 0.5
    }

    fn strictly_greater_than(&self, other: &Self) -> bool {
        self.0 > other.0 + 0.5
    }

    fn strictly_less_than(&self, other: &Self) -> bool {
        self.0 < other.0 - 0.5
    }

    fn greater_or_not_much_less_than(&self, other: &Self) -> bool {
        self.0 >= other.0 - 0.5
    }

    fn less_or_not_much_greater_than(&self, other: &Self) -> bool {
        self.0 <= other.0 + 0.5
    }

    fn to_order(&self) -> i64 {
        (self.0 * 2.0) as i64
    }
}

/// Sum and sum of squares; a leaf costs the squared distance from the mean.
struct Moments {
    n: f64,
    sum: f64,
    squares: f64,
}

impl CostSum<i64, f64, Rough> for Moments {
    fn label(&self) -> i64 {
        (self.sum / self.n) as i64
    }

    fn cost(&self) -> Rough {
        if self.n == 0.0 {
            Rough(0.0)
        } else {
            Rough(self.squares - self.sum * self.sum / self.n)
        }
    }

    fn clear(&mut self) {
        *self = Moments { n: 0.0, sum: 0.0, squares: 0.0 };
    }

    fn duplicate(&self) -> Self {
        Moments { n: self.n, sum: self.sum, squares: self.squares }
    }

    fn add_instance(&mut self, instance: &f64) {
        self.n += 1.0;
        self.sum += instance;
        self.squares += instance * instance;
    }

    fn subtract_instance(&mut self, instance: &f64) {
        self.n -= 1.0;
        self.sum -= instance;
        self.squares -= instance * instance;
    }

    fn add_sum(&mut self, other: &Self) {
        self.n += other.n;
        self.sum += other.sum;
        self.squares += other.squares;
    }

    fn subtract_sum(&mut self, other: &Self) {
        self.n -= other.n;
        self.sum -= other.sum;
        self.squares -= other.squares;
    }
}

struct Regression;

impl OptimizationTask for Regression {
    type LabelType = i64;
    type InstanceType = f64;
    type CostType = Rough;
    type CostSumType = Moments;
    type ExtraDataviewData = ();

    fn init_costsum(_dataset: &DataSet<f64>) -> Moments {
        Moments { n: 0.0, sum: 0.0, squares: 0.0 }
    }

    fn print_cost(&mut self, cost: &Rough) -> String {
        format!("{}", cost.0)
    }

    fn branching_cost(&self) -> Rough {
        Rough(0.0)
    }

    fn branch_relaxation(&self, _dataview: &DataView<Self>, _max_depth: u32) -> Rough {
        Rough(0.0)
    }

    fn init_extra_dataview_data(_dataset: &DataSet<f64>, _feature_values: &[Vec<FeatureValue>]) {}

    fn worst_cost_in_range(
        _dataview: &DataView<Self>,
        _feature: usize,
        _range: Range<usize>,
    ) -> Rough {
        Rough(0.0)
    }
}

#[test]
fn rough_costs_ignore_small_improvements() {
    let data = DataSet {
        instances: vec![0.0, 1.0, 10.0, 10.0],
        feature_values: vec![vec![1, 2, 3, 3], vec![1, 1, 2, 2]],
    };
    let mut cost_summer = Regression::init_costsum(&data);
    for instance in &data.instances {
        cost_summer.add_instance(instance);
    }
    let list = |f: usize| -> Vec<FeatureValue> {
        (0..4)
            .map(|k| FeatureValue { instance_id: k, feature_value: data.feature_values[f][k] })
            .collect()
    };
    let view: DataView<Regression> = DataView {
        dataset: &data,
        cost_summer,
        feature_instances: vec![list(0), list(1)],
        possible_split_values: vec![
            vec![PossibleSplit { feature_value: 1 }, PossibleSplit { feature_value: 2 }],
            vec![PossibleSplit { feature_value: 1 }],
        ],
        extra_data: (),
    };
    let tree = solve_d1(&view, &SolveContext { task: Regression });
    assert_eq!(tree.cost(), Rough(0.5));
    // The other feature divides the instances in the same way, which is no improvement, and a
    // further split of the left leaf would only gain as much as is not told apart.
    match &*tree {
        Tree::Branch(node) => {
            assert_eq!(node.split_feature, 0);
            assert_eq!(node.split_threshold, Threshold::Between { lower: 2, upper: 3 });
        }
        Tree::Leaf(_) => panic!("expected a branching node"),
    }
    let tree = solve_left_right(&view, &SolveContext { task: Regression }, 1, 0);
    assert_eq!(tree.cost(), Rough(0.5));
    match &*tree {
        Tree::Branch(node) => assert!(matches!(&*node.left_child, Tree::Leaf(_))),
        Tree::Leaf(_) => panic!("expected a branching node"),
    }
}

#[test]
fn rough_costs_leave_no_clearly_better_split() {
    for sample in samples() {
        let n = sample.instances.len();
        let targets: Vec<f64> = sample.instances.iter().map(|class| *class as f64 * 0.7).collect();
        let data = DataSet { instances: targets, feature_values: sample.feature_values };
        let mut cost_summer = Regression::init_costsum(&data);
        for instance in &data.instances {
            cost_summer.add_instance(instance);
        }
        let mut feature_instances = Vec::new();
        for column in &data.feature_values {
            let mut entries: Vec<FeatureValue> = (0..n)
                .map(|k| FeatureValue { instance_id: k, feature_value: column[k] })
                .collect();
            entries.sort_by_key(|entry| entry.feature_value);
            feature_instances.push(entries);
        }
        let no_splits = data.feature_values.iter().map(|_| Vec::new()).collect();
        let view: DataView<Regression> = DataView {
            dataset: &data,
            cost_summer,
            feature_instances,
            possible_split_values: no_splits,
            extra_data: (),
        };
        let found = solve_d1(&view, &SolveContext { task: Regression }).cost();
        assert!(!view.cost_summer.cost().strictly_less_than(&found));
        for column in &data.feature_values {
            for bound in column {
                let mut left = Regression::init_costsum(&data);
                let mut right = Regression::init_costsum(&data);
                for k in 0..n {
                    if column[k] <= *bound {
                        left.add_instance(&data.instances[k]);
                    } else {
                        right.add_instance(&data.instances[k]);
                    }
                }
                assert!(!(left.cost() + right.cost()).strictly_less_than(&found));
            }
        }
    }
}
