use codt::search::exhaustive::fenwick::{fenwick_prefix_sum, fenwick_update};
use codt::tasks::CostSum;

/// A sum of numbers.
#[derive(Debug, PartialEq)]
struct Total(i64);

impl CostSum<(), i64, i64> for Total {
    fn label(&self) {}

    fn cost(&self) -> i64 {
        self.0
    }

    fn clear(&mut self) {
        self.0 = 0;
    }

    fn duplicate(&self) -> Self {
        Total(self.0)
    }

    fn add_instance(&mut self, instance: &i64) {
        self.0 += instance;
    }

    fn subtract_instance(&mut self, instance: &i64) {
        self.0 -= instance;
    }

    fn add_sum(&mut self, other: &Self) {
        self.0 += other.0;
    }

    fn subtract_sum(&mut self, other: &Self) {
        self.0 -= other.0;
    }
}

fn zeros(n: usize) -> Vec<Total> {
    (0..n).map(|_| Total(0)).collect()
}

#[test]
fn update_adds_to_all_nodes_that_cover_an_entry() {
    let mut tree = zeros(8);
    fenwick_update(&mut tree, 2, &5);
    let found: Vec<i64> = tree.iter().map(|node| node.0).collect();
    assert_eq!(found, vec![0, 0, 5, 5, 0, 0, 0, 5]);
    fenwick_update(&mut tree, 0, &1);
    let found: Vec<i64> = tree.iter().map(|node| node.0).collect();
    assert_eq!(found, vec![1, 1, 5, 6, 0, 0, 0, 6]);
}

#[test]
fn prefix_sum_adds_up_the_nodes_that_make_up_a_prefix() {
    let tree: Vec<Total> = vec![1, 10, 100, 1000, 10000, 100000, 1000000].into_iter().map(Total).collect();
    let mut sum = Total(0);
    fenwick_prefix_sum(&tree, 6, &mut sum);
    assert_eq!(sum, Total(1101000));
    let mut sum = Total(0);
    fenwick_prefix_sum(&tree, 4, &mut sum);
    assert_eq!(sum, Total(11000));
    let mut sum = Total(0);
    fenwick_prefix_sum(&tree, 0, &mut sum);
    assert_eq!(sum, Total(1));
}

#[test]
fn prefix_sum_is_added_to_the_accumulator() {
    let mut tree = zeros(3);
    fenwick_update(&mut tree, 1, &4);
    let mut sum = Total(100);
    fenwick_prefix_sum(&tree, 2, &mut sum);
    assert_eq!(sum, Total(104));
}

#[test]
fn prefix_sums_are_those_of_the_original_array() {
    for n in 1..40 {
        let mut tree = zeros(n);
        let mut array = vec![0i64; n];
        for step in 0..3 * n {
            let i = (step * 7 + 3) % n;
            let delta = (step as i64 * 13) % 11 - 5;
            array[i] += delta;
            fenwick_update(&mut tree, i, &delta);
        }
        for i in 0..n {
            let mut sum = Total(0);
            fenwick_prefix_sum(&tree, i, &mut sum);
            assert_eq!(sum.0, array[..=i].iter().sum::<i64>());
        }
    }
}

#[test]
fn a_prefix_sum_changes_only_if_the_entry_lies_in_it() {
    let n = 11;
    for entry in 0..n {
        let mut tree = zeros(n);
        fenwick_update(&mut tree, entry, &1);
        for i in 0..n {
            let mut sum = Total(0);
            fenwick_prefix_sum(&tree, i, &mut sum);
            assert_eq!(sum.0, if entry <= i { 1 } else { 0 });
        }
    }
}
