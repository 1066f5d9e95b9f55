//! What a search optimises: costs, sums of costs, and the task that ties them together.

use core::ops::{Add, Range, Sub};
use vstd::prelude::*;
use vstd::std_specs::ops::AddSpec;

use crate::model::dataset::DataSet;
use crate::model::dataview::{DataView, FeatureValue};

verus! {

/// `data` is no longer than a list of instances can be.
pub open spec fn countable<I>(data: Seq<I>) -> bool {
    data.len() <= usize::MAX
}

/// `k` is the index of an instance of `data` that equals `instance` and lies outside of `ids`.
pub open spec fn outside<I>(data: Seq<I>, ids: Set<int>, k: int, instance: I) -> bool {
    countable(data) && 0 <= k < data.len() && data[k] == instance && !ids.contains(k)
}

/// `k` is the index of an instance of `data` that equals `instance` and lies in `ids`.
pub open spec fn inside<I>(data: Seq<I>, ids: Set<int>, k: int, instance: I) -> bool {
    0 <= k < data.len() && data[k] == instance && ids.contains(k)
}

/// A sum over a part of a data set, from which the cost and the label of a leaf that holds that
/// part are easily derived.
///
/// A part of the data set `data` is a set `ids` of indices into it. The ghost functions
/// [`sums`](CostSum::sums), [`cost_of`](CostSum::cost_of) and [`label_of`](CostSum::label_of)
/// give a sum its meaning; an implementation that is not verified may leave them out, and its
/// meaning is then unspecified. Each operation is only used on sums that sum up some part.
pub trait CostSum<LabelType, InstanceType, CostType>: Sized + Send + Sync {
    /// This is the sum over the part `ids` of `data`.
    open spec fn sums(&self, data: Seq<InstanceType>, ids: Set<int>) -> bool {
        arbitrary()
    }

    /// The cost of a leaf that holds the part `ids` of `data`.
    open spec fn cost_of(data: Seq<InstanceType>, ids: Set<int>) -> CostType {
        arbitrary()
    }

    /// The label of a leaf that holds the part `ids` of `data`.
    open spec fn label_of(data: Seq<InstanceType>, ids: Set<int>) -> LabelType {
        arbitrary()
    }

    fn label(&self) -> (r: LabelType)
        ensures
            forall|data: Seq<InstanceType>, ids: Set<int>| #[trigger]
                self.sums(data, ids) ==> r == Self::label_of(data, ids),
    ;

    fn cost(&self) -> (r: CostType)
        ensures
            forall|data: Seq<InstanceType>, ids: Set<int>| #[trigger]
                self.sums(data, ids) ==> r == Self::cost_of(data, ids),
    ;

    /// Makes this the sum over the empty part.
    fn clear(&mut self)
        ensures
            forall|data: Seq<InstanceType>| #[trigger] final(self).sums(data, Set::empty()),
    ;

    /// A second sum over the same part.
    fn duplicate(&self) -> (r: Self)
        ensures
            forall|data: Seq<InstanceType>, ids: Set<int>| #[trigger]
                self.sums(data, ids) ==> r.sums(data, ids),
    ;

    /// Adds an instance that is not in the part summed up so far.
    fn add_instance(&mut self, instance: &InstanceType)
        requires
            exists|data: Seq<InstanceType>, ids: Set<int>, k: int|
                #![trigger old(self).sums(data, ids), outside(data, ids, k, *instance)]
                old(self).sums(data, ids) && outside(data, ids, k, *instance),
        ensures
            forall|data: Seq<InstanceType>, ids: Set<int>, k: int|
                #![trigger old(self).sums(data, ids), outside(data, ids, k, *instance)]
                old(self).sums(data, ids) && outside(data, ids, k, *instance)
                    ==> final(self).sums(data, ids.insert(k)),
    ;

    /// Takes out an instance of the part summed up so far.
    fn subtract_instance(&mut self, instance: &InstanceType)
        requires
            exists|data: Seq<InstanceType>, ids: Set<int>, k: int|
                #![trigger old(self).sums(data, ids), inside(data, ids, k, *instance)]
                old(self).sums(data, ids) && inside(data, ids, k, *instance),
        ensures
            forall|data: Seq<InstanceType>, ids: Set<int>, k: int|
                #![trigger old(self).sums(data, ids), inside(data, ids, k, *instance)]
                old(self).sums(data, ids) && inside(data, ids, k, *instance)
                    ==> final(self).sums(data, ids.remove(k)),
    ;

    /// Adds the sum over a disjoint part, which gives the sum over the union.
    fn add_sum(&mut self, other: &Self)
        requires
            exists|data: Seq<InstanceType>, ids: Set<int>, more: Set<int>|
                #![trigger old(self).sums(data, ids), other.sums(data, more)]
                old(self).sums(data, ids) && other.sums(data, more) && countable(data)
                    && ids.disjoint(more),
        ensures
            forall|data: Seq<InstanceType>, ids: Set<int>, more: Set<int>|
                #![trigger old(self).sums(data, ids), other.sums(data, more)]
                old(self).sums(data, ids) && other.sums(data, more) && countable(data)
                    && ids.disjoint(more) ==> final(self).sums(data, ids.union(more)),
    ;

    /// Subtracts the sum over a smaller part, which gives the sum over the rest.
    fn subtract_sum(&mut self, other: &Self)
        requires
            exists|data: Seq<InstanceType>, ids: Set<int>, less: Set<int>|
                #![trigger old(self).sums(data, ids), other.sums(data, less)]
                old(self).sums(data, ids) && other.sums(data, less) && less.subset_of(ids),
        ensures
            forall|data: Seq<InstanceType>, ids: Set<int>, less: Set<int>|
                #![trigger old(self).sums(data, ids), other.sums(data, less)]
                old(self).sums(data, ids) && other.sums(data, less) && less.subset_of(ids)
                    ==> final(self).sums(data, ids.difference(less)),
    ;
}

/// A cost. Comparisons may leave room for rounding: each one is a relation of its own.
/// [`ordered_costs`], [`additive_costs`] and [`sound_costs`] say when they agree with each other and
/// with addition, and [`exact_costs`] when nothing is rounded.
///
/// The ghost functions give the operations their meaning; an implementation that is not verified
/// may leave them out, and its meaning is then unspecified.
pub trait Cost: Copy + Add<Output = Self> + Sub<Output = Self> + Send + Sync {
    /// The minimum possible cost, to e.g. initialize lower bounds. Requires that
    /// `ZERO + ZERO = ZERO`. For example 0 or 0.0
    const ZERO: Self;

    /// What [`to_order`](Cost::to_order) maps a cost to.
    type Order: Ord;

    /// The cost can occur: it is not below the minimum possible cost [`ZERO`](Cost::ZERO).
    open spec fn possible(self) -> bool {
        arbitrary()
    }

    /// What [`is_zero`](Cost::is_zero) decides.
    open spec fn zero_like(self) -> bool {
        arbitrary()
    }

    /// What [`strictly_greater_than`](Cost::strictly_greater_than) decides.
    open spec fn exceeds(self, other: Self) -> bool {
        arbitrary()
    }

    /// What [`strictly_less_than`](Cost::strictly_less_than) decides.
    open spec fn undercuts(self, other: Self) -> bool {
        arbitrary()
    }

    /// What [`greater_or_not_much_less_than`](Cost::greater_or_not_much_less_than) decides.
    open spec fn reaches(self, other: Self) -> bool {
        arbitrary()
    }

    /// What [`less_or_not_much_greater_than`](Cost::less_or_not_much_greater_than) decides.
    open spec fn stays_within(self, other: Self) -> bool {
        arbitrary()
    }

    /// Returns true if the cost is zero. Use this for comparison to prevent floating point errors.
    fn is_zero(&self) -> (r: bool)
        ensures
            r == self.zero_like(),
    ;

    fn strictly_greater_than(&self, other: &Self) -> (r: bool)
        ensures
            r == self.exceeds(*other),
    ;

    fn strictly_less_than(&self, other: &Self) -> (r: bool)
        ensures
            r == self.undercuts(*other),
    ;

    fn greater_or_not_much_less_than(&self, other: &Self) -> (r: bool)
        ensures
            r == self.reaches(*other),
    ;

    fn less_or_not_much_greater_than(&self, other: &Self) -> (r: bool)
        ensures
            r == self.stays_within(*other),
    ;

    /// Should only be used for sorting, e.g. in a priority queue.
    fn to_order(&self) -> Self::Order;
}

/// The cost `a + b`.
pub open spec fn plus<C: Cost>(a: C, b: C) -> C {
    a.add_spec(b)
}

/// The cost `a + b` can be computed.
pub open spec fn addable<C: Cost>(a: C, b: C) -> bool {
    C::obeys_add_spec() && a.add_req(b)
}

/// The comparisons of costs agree with each other: being strictly less is a strict partial order,
/// and the other comparisons are stated in terms of it. They may still leave room for rounding, so
/// that of two different costs neither is strictly less.
pub open spec fn ordered_costs<C: Cost>() -> bool {
    &&& forall|a: C| !(#[trigger] a.undercuts(a))
    &&& forall|a: C, b: C, c: C|
        #![trigger a.undercuts(b), b.undercuts(c)]
        a.undercuts(b) && b.undercuts(c) ==> a.undercuts(c)
    &&& forall|a: C, b: C| #[trigger] a.exceeds(b) == b.undercuts(a)
    &&& forall|a: C, b: C| #[trigger] a.reaches(b) == !a.undercuts(b)
    &&& forall|a: C, b: C| #[trigger] a.stays_within(b) == !b.undercuts(a)
}

/// The comparisons of costs agree with each other, and to add the same cost, on either side, keeps
/// what is strictly less.
pub open spec fn additive_costs<C: Cost>() -> bool {
    &&& ordered_costs::<C>()
    &&& forall|a: C, b: C, c: C|
        #![trigger plus(a, c), plus(b, c)]
        addable(a, c) && addable(b, c) && a.undercuts(b) ==> plus(a, c).undercuts(plus(b, c))
    &&& forall|a: C, b: C, c: C|
        #![trigger plus(c, a), plus(c, b)]
        addable(c, a) && addable(c, b) && a.undercuts(b) ==> plus(c, a).undercuts(plus(c, b))
}

/// The comparisons of costs agree with each other and with what it means to add costs: `ZERO` is
/// the minimum possible cost and adds nothing to itself, no possible cost is strictly less than one
/// that counts as zero, and to add a possible cost, on one side or on both, makes nothing strictly
/// less.
pub open spec fn sound_costs<C: Cost>() -> bool {
    &&& ordered_costs::<C>()
    &&& C::ZERO.possible()
    &&& plus(C::ZERO, C::ZERO) == C::ZERO
    &&& forall|a: C| a.possible() ==> !(#[trigger] a.undercuts(C::ZERO))
    &&& forall|a: C, b: C|
        #![trigger a.zero_like(), b.undercuts(a)]
        a.possible() && b.possible() && a.zero_like() ==> !b.undercuts(a)
    &&& forall|a: C, b: C|
        a.possible() && b.possible() && #[trigger] addable(a, b) ==> plus(a, b).possible()
    &&& forall|a: C, b: C, c: C|
        a.possible() && b.possible() && c.possible() && addable(a, b) && #[trigger] plus(
            a,
            b,
        ).undercuts(c) ==> a.undercuts(c) && b.undercuts(c)
    &&& forall|a: C, b: C, c: C|
        a.possible() && b.possible() && c.possible() && addable(a, c) && addable(b, c)
            && #[trigger] plus(a, c).undercuts(plus(b, c)) ==> a.undercuts(b)
    &&& forall|a: C, b: C, c: C|
        a.possible() && b.possible() && c.possible() && addable(a, b) && addable(a, c)
            && #[trigger] plus(a, b).undercuts(plus(a, c)) ==> b.undercuts(c)
}

/// The comparisons of costs leave no room for rounding: in between a cost and one that is strictly
/// less, every other cost can be told apart from one of the two.
pub open spec fn exact_costs<C: Cost>() -> bool {
    &&& sound_costs::<C>()
    &&& forall|a: C, b: C, c: C|
        #![trigger a.undercuts(c), a.undercuts(b)]
        #![trigger a.undercuts(c), b.undercuts(c)]
        a.undercuts(c) ==> a.undercuts(b) || b.undercuts(c)
}

/// What [`update_lowerbound`](OptimizationTask::update_lowerbound) makes of a lower bound.
pub open spec fn raised<C: Cost>(lb: C, candidate: C) -> C {
    if candidate.exceeds(lb) {
        candidate
    } else {
        lb
    }
}

/// What [`update_upperbound`](OptimizationTask::update_upperbound) makes of an upper bound.
pub open spec fn lowered<C: Cost>(ub: C, candidate: C) -> C {
    if candidate.undercuts(ub) {
        candidate
    } else {
        ub
    }
}

/// A bound only tightens. An updated lower bound is the old one or, exactly if that one is strictly
/// greater, the candidate; neither of the two is strictly greater than it, and to repeat the update
/// changes nothing. The same holds of an upper bound, with strictly less in place of strictly
/// greater.
pub proof fn bounds_tighten<C: Cost>(bound: C, candidate: C)
    requires
        ordered_costs::<C>(),
    ensures
        raised(bound, candidate) == if candidate.exceeds(bound) {
            candidate
        } else {
            bound
        },
        !bound.exceeds(raised(bound, candidate)),
        !candidate.exceeds(raised(bound, candidate)),
        raised(raised(bound, candidate), candidate) == raised(bound, candidate),
        lowered(bound, candidate) == if candidate.undercuts(bound) {
            candidate
        } else {
            bound
        },
        !bound.undercuts(lowered(bound, candidate)),
        !candidate.undercuts(lowered(bound, candidate)),
        lowered(lowered(bound, candidate), candidate) == lowered(bound, candidate),
{
    assert(!bound.undercuts(bound) && !candidate.undercuts(candidate));
    if candidate.undercuts(bound) && bound.undercuts(candidate) {
        assert(candidate.undercuts(candidate));
    }
}

/// A lower bound after updates with all `candidates`, in their order.
pub open spec fn raised_by_all<C: Cost>(lb: C, candidates: Seq<C>) -> C
    decreases candidates.len(),
{
    if candidates.len() == 0 {
        lb
    } else {
        raised(raised_by_all(lb, candidates.drop_last()), candidates.last())
    }
}

/// An upper bound after updates with all `candidates`, in their order.
pub open spec fn lowered_by_all<C: Cost>(ub: C, candidates: Seq<C>) -> C
    decreases candidates.len(),
{
    if candidates.len() == 0 {
        ub
    } else {
        lowered(lowered_by_all(ub, candidates.drop_last()), candidates.last())
    }
}

/// However many updates there are, a lower bound ends up where neither its first value nor any
/// candidate is strictly greater, and an upper bound where none of them is strictly less.
pub proof fn bounds_keep_tightening<C: Cost>(bound: C, candidates: Seq<C>)
    requires
        ordered_costs::<C>(),
    ensures
        !bound.exceeds(raised_by_all(bound, candidates)),
        !bound.undercuts(lowered_by_all(bound, candidates)),
        forall|j: int|
            0 <= j < candidates.len() ==> {
                &&& !(#[trigger] candidates[j]).exceeds(raised_by_all(bound, candidates))
                &&& !candidates[j].undercuts(lowered_by_all(bound, candidates))
            },
    decreases candidates.len(),
{
    assert(!bound.undercuts(bound));
    if candidates.len() > 0 {
        let rest = candidates.drop_last();
        let last = candidates.last();
        bounds_keep_tightening(bound, rest);
        let (low, high) = (raised_by_all(bound, rest), lowered_by_all(bound, rest));
        bounds_tighten(low, last);
        bounds_tighten(high, last);
        let (new_low, new_high) = (raised(low, last), lowered(high, last));
        assert(new_low != low ==> low.undercuts(new_low));
        assert(new_high != high ==> new_high.undercuts(high));
        if new_low.undercuts(bound) {
            assert(low.undercuts(bound));
        }
        if bound.undercuts(new_high) {
            assert(bound.undercuts(high));
        }
        assert forall|j: int| 0 <= j < candidates.len() implies {
            &&& !(#[trigger] candidates[j]).exceeds(new_low)
            &&& !candidates[j].undercuts(new_high)
        } by {
            if j < rest.len() {
                let candidate = rest[j];
                assert(candidate == candidates[j]);
                if new_low.undercuts(candidate) {
                    assert(low.undercuts(candidate));
                }
                if candidate.undercuts(new_high) {
                    assert(candidate.undercuts(high));
                }
            }
        }
    }
}

/// What a tree is optimised for.
pub trait OptimizationTask: Sized {
    /// The label type, e.g. a class label for classification tasks, or a regression target for
    /// regression tasks.
    type LabelType: Copy + Send + Sync;

    /// The instance type. For classification and regression, each instance only has a label.
    type InstanceType: Send + Sync;

    type CostType: Cost;

    /// A type from which the cost is easily derivable. When a CostSum for disjoint datasets
    /// are summed, it results in the CostSum of their union.
    type CostSumType: CostSum<Self::LabelType, Self::InstanceType, Self::CostType>;

    type ExtraDataviewData: Send + Sync;

    /// The task updates its bounds in the default way.
    open spec fn default_bounds() -> bool {
        arbitrary()
    }

    /// The price of a branching node.
    open spec fn price(&self) -> Self::CostType {
        arbitrary()
    }

    fn preprocess_dataset(dataset: &mut DataSet<Self::InstanceType>)
        default_ensures
            *final(dataset) == *old(dataset),
    {
    }

    /// Initialize a costsum, this should only be done once at the start.
    fn init_costsum(dataset: &DataSet<Self::InstanceType>) -> Self::CostSumType;

    fn prepare_for_data(&mut self, dataview: &mut DataView<Self>)
        default_ensures
            *final(self) == *old(self),
            *final(dataview) == *old(dataview),
    {
    }

    fn print_cost(&mut self, cost: &Self::CostType) -> String;

    /// Raises the lower bound to the candidate if that one is strictly greater.
    fn update_lowerbound(lb: &mut Self::CostType, candidate: &Self::CostType)
        ensures
            Self::default_bounds() ==> *final(lb) == raised(*old(lb), *candidate),
        default_ensures
            *final(lb) == raised(*old(lb), *candidate),
    {
        if candidate.strictly_greater_than(lb) {
            *lb = *candidate;
        }
    }

    /// Lowers the upper bound to the candidate if that one is strictly less.
    fn update_upperbound(ub: &mut Self::CostType, candidate: &Self::CostType)
        ensures
            Self::default_bounds() ==> *final(ub) == lowered(*old(ub), *candidate),
        default_ensures
            *final(ub) == lowered(*old(ub), *candidate),
    {
        if candidate.strictly_less_than(ub) {
            *ub = *candidate;
        }
    }

    fn branching_cost(&self) -> (r: Self::CostType)
        ensures
            r == self.price(),
    ;

    fn branch_relaxation(&self, dataview: &DataView<Self>, max_depth: u32) -> Self::CostType;

    fn init_extra_dataview_data(
        dataset: &DataSet<Self::InstanceType>,
        feature_values: &[Vec<FeatureValue>],
    ) -> Self::ExtraDataviewData;

    fn worst_cost_in_range(
        dataview: &DataView<Self>,
        feature: usize,
        range: Range<usize>,
    ) -> Self::CostType;
}

} // verus!
