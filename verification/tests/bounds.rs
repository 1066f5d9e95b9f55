use std::ops::{Add, Range, Sub};

use codt::model::dataset::DataSet;
use codt::model::dataview::{DataView, FeatureValue};
use codt::tasks::{Cost, CostSum, OptimizationTask};

#[derive(Clone, Copy, Debug, PartialEq)]
struct Points(i32);

impl Add for Points {
    type Output = Self;

    fn add(self, other: Self) -> Self {
        Points(self.0 + other.0)
    }
}

impl Sub for Points {
    type Output = Self;

    fn sub(self, other: Self) -> Self {
        Points(self.0 - other.0)
    }
}

/// Costs that differ by one are not told apart.
impl Cost for Points {
    const ZERO: Self = Points(0);

    type Order = i32;

    fn is_zero(&self) -> bool {
        self.0 <= 1
    }

    fn strictly_greater_than(&self, other: &Self) -> bool {
        self.0 > other.0 + 1
    }

    fn strictly_less_than(&self, other: &Self) -> bool {
        self.0 < other.0 - 1
    }

    fn greater_or_not_much_less_than(&self, other: &Self) -> bool {
        self.0 >= other.0 - 1
    }

    fn less_or_not_much_greater_than(&self, other: &Self) -> bool {
        self.0 <= other.0 + 1
    }

    fn to_order(&self) -> i32 {
        self.0
    }
}

struct Sum(i32);

impl CostSum<i32, i32, Points> for Sum {
    fn label(&self) -> i32 {
        self.0
    }

    fn cost(&self) -> Points {
        Points(self.0)
    }

    fn clear(&mut self) {
        self.0 = 0;
    }

    fn duplicate(&self) -> Self {
        Sum(self.0)
    }

    fn add_instance(&mut self, instance: &i32) {
        self.0 += instance;
    }

    fn subtract_instance(&mut self, instance: &i32) {
        self.0 -= instance;
    }

    fn add_sum(&mut self, other: &Self) {
        self.0 += other.0;
    }

    fn subtract_sum(&mut self, other: &Self) {
        self.0 -= other.0;
    }
}

struct Plain;

impl OptimizationTask for Plain {
    type LabelType = i32;
    type InstanceType = i32;
    type CostType = Points;
    type CostSumType = Sum;
    type ExtraDataviewData = ();

    fn init_costsum(_dataset: &DataSet<i32>) -> Sum {
        Sum(0)
    }

    fn print_cost(&mut self, cost: &Points) -> String {
        format!("{} points", cost.0)
    }

    fn branching_cost(&self) -> Points {
        Points(2)
    }

    fn branch_relaxation(&self, _dataview: &DataView<Self>, _max_depth: u32) -> Points {
        Points(0)
    }

    fn init_extra_dataview_data(_dataset: &DataSet<i32>, _feature_values: &[Vec<FeatureValue>]) {}

    fn worst_cost_in_range(
        _dataview: &DataView<Self>,
        _feature: usize,
        _range: Range<usize>,
    ) -> Points {
        Points(0)
    }
}

#[test]
fn lower_bounds_are_raised_by_strictly_greater_candidates() {
    let mut lb = Points(10);
    Plain::update_lowerbound(&mut lb, &Points(8));
    assert_eq!(lb, Points(10));
    Plain::update_lowerbound(&mut lb, &Points(11));
    assert_eq!(lb, Points(10));
    Plain::update_lowerbound(&mut lb, &Points(12));
    assert_eq!(lb, Points(12));
}

#[test]
fn upper_bounds_are_lowered_by_strictly_smaller_candidates() {
    let mut ub = Points(10);
    Plain::update_upperbound(&mut ub, &Points(12));
    assert_eq!(ub, Points(10));
    Plain::update_upperbound(&mut ub, &Points(9));
    assert_eq!(ub, Points(10));
    Plain::update_upperbound(&mut ub, &Points(8));
    assert_eq!(ub, Points(8));
}

#[test]
fn data_is_left_alone_by_default() {
    let mut data = DataSet { instances: vec![3, 4], feature_values: vec![vec![1, 2]] };
    Plain::preprocess_dataset(&mut data);
    assert_eq!(data.instances, vec![3, 4]);
    assert_eq!(data.feature_values, vec![vec![1, 2]]);
    let mut task = Plain;
    let mut view: DataView<Plain> = DataView {
        dataset: &data,
        cost_summer: Plain::init_costsum(&data),
        feature_instances: vec![vec![FeatureValue { instance_id: 0, feature_value: 1 }]],
        possible_split_values: vec![vec![]],
        extra_data: (),
    };
    task.prepare_for_data(&mut view);
    assert_eq!(view.num_features(), 1);
    assert_eq!(view.instances(0), &vec![FeatureValue { instance_id: 0, feature_value: 1 }]);
    assert_eq!(task.print_cost(&task.branching_cost()), "2 points");
}

/// A task with bounds of its own: a lower bound may only go up by a whole dozen.
struct Dozens;

impl OptimizationTask for Dozens {
    type LabelType = i32;
    type InstanceType = i32;
    type CostType = Points;
    type CostSumType = Sum;
    type ExtraDataviewData = ();

    fn init_costsum(_dataset: &DataSet<i32>) -> Sum {
        Sum(0)
    }

    fn print_cost(&mut self, cost: &Points) -> String {
        format!("{}", cost.0)
    }

    fn update_lowerbound(lb: &mut Points, candidate: &Points) {
        if candidate.0 >= lb.0 + 12 {
            *lb = *candidate;
        }
    }

    fn branching_cost(&self) -> Points {
        Points(0)
    }

    fn branch_relaxation(&self, _dataview: &DataView<Self>, _max_depth: u32) -> Points {
        Points(0)
    }

    fn init_extra_dataview_data(_dataset: &DataSet<i32>, _feature_values: &[Vec<FeatureValue>]) {}

    fn worst_cost_in_range(
        _dataview: &DataView<Self>,
        _feature: usize,
        _range: Range<usize>,
    ) -> Points {
        Points(0)
    }
}

#[test]
fn a_task_may_update_bounds_in_its_own_way() {
    let mut lb = Points(10);
    Dozens::update_lowerbound(&mut lb, &Points(20));
    assert_eq!(lb, Points(10));
    Dozens::update_lowerbound(&mut lb, &Points(22));
    assert_eq!(lb, Points(22));
    let mut ub = Points(10);
    Dozens::update_upperbound(&mut ub, &Points(5));
    assert_eq!(ub, Points(5));
}

#[test]
fn zero_is_the_least_cost_and_adds_nothing() {
    assert_eq!(Points::ZERO + Points::ZERO, Points::ZERO);
    assert!(Points::ZERO.is_zero());
    for cost in 0..5 {
        assert!(!Points(cost).strictly_less_than(&Points::ZERO));
    }
}

#[test]
fn repeated_updates_of_a_bound_change_nothing() {
    let mut lb = Points(4);
    let mut ub = Points(40);
    for candidate in [7, 3, 12, 12, 11, 20] {
        Plain::update_lowerbound(&mut lb, &Points(candidate));
        let raised = lb;
        Plain::update_lowerbound(&mut lb, &Points(candidate));
        assert_eq!(lb, raised);
        assert!(!Points(candidate).strictly_greater_than(&lb));
        Plain::update_upperbound(&mut ub, &Points(candidate));
        let lowered = ub;
        Plain::update_upperbound(&mut ub, &Points(candidate));
        assert_eq!(ub, lowered);
        assert!(!Points(candidate).strictly_less_than(&ub));
    }
    assert_eq!(lb, Points(20));
    assert_eq!(ub, Points(3));
}
