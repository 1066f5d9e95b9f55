//! The data that trees are fitted to.

use vstd::prelude::*;

verus! {

/// A data set: its instances, and the value of each feature at each instance.
pub struct DataSet<InstanceType> {
    pub instances: Vec<InstanceType>,
    /// `feature_values[f][k]` is the value of feature `f` at instance `k`.
    pub feature_values: Vec<Vec<i32>>,
}

impl<InstanceType> DataSet<InstanceType> {
    /// The value of feature `f` at instance `k`.
    pub open spec fn value(&self, f: int, k: int) -> i32 {
        self.feature_values@[f]@[k]
    }

    /// Every feature has a value at every instance.
    pub open spec fn valid(&self) -> bool {
        forall|f: int|
            0 <= f < self.feature_values@.len() ==> (#[trigger] self.feature_values@[f])@.len()
                == self.instances@.len()
    }
}

} // verus!
