//! The samples of one run, in ascending order.

use vstd::prelude::*;
use crate::error::StatsError;
use crate::plan::RunPlan;
use crate::sorting::{sort_ascending, sorted};

verus! {

/// The latency samples of one complete run, in milliseconds.
///
/// A sample set is never empty and never decreases from one position to the
/// next. Its view is the sequence of its samples in that order.
#[derive(Debug)]
pub struct SampleSet {
    values: Vec<u128>,
}

impl View for SampleSet {
    type V = Seq<u128>;

    closed spec fn view(&self) -> Seq<u128> {
        self.values@
    }
}

impl SampleSet {
    /// A sample set holds at least one sample, and its samples never
    /// decrease.
    #[verifier::type_invariant]
    pub open spec fn well_formed(self) -> bool {
        self@.len() >= 1 && sorted(self@)
    }

    /// Takes over the samples that a run has produced, in whatever order
    /// they arrived.
    ///
    /// The run is complete when it has produced one sample for each planned
    /// repetition. The samples of a complete run are put in ascending order;
    /// none is added, dropped or changed. An incomplete run is refused.
    pub fn collect(plan: &RunPlan, arrived: Vec<u128>) -> (set: Result<SampleSet, StatsError>)
        ensures
            arrived.len() != plan.repetitions() ==> set == Err::<SampleSet, StatsError>(
                StatsError::IncompleteRun,
            ),
            arrived.len() == plan.repetitions() ==> set is Ok,
            set matches Ok(samples) ==> {
                &&& samples@.len() == plan.repetitions()
                &&& sorted(samples@)
                &&& samples@.to_multiset() == arrived@.to_multiset()
            },
    {
        let planned = plan.repetitions();
        if arrived.len() != planned as usize {
            return Err(StatsError::IncompleteRun);
        }
        let values = sort_ascending(&arrived);
        Ok(SampleSet { values })
    }

    /// The number of samples; never zero.
    pub fn len(&self) -> (n: usize)
        ensures
            n == self@.len(),
            n >= 1,
    {
        proof {
            use_type_invariant(self);
        }
        self.values.len()
    }

    /// The samples in ascending order.
    pub fn values(&self) -> (values: &Vec<u128>)
        ensures
            values@ == self@,
            values@.len() >= 1,
            sorted(values@),
    {
        proof {
            use_type_invariant(self);
        }
        &self.values
    }

    /// The smallest sample.
    pub fn min(&self) -> (least: u128)
        ensures
            least == self@[0],
            forall|i: int| 0 <= i < self@.len() ==> least <= self@[i],
    {
        proof {
            use_type_invariant(self);
        }
        self.values[0]
    }

    /// The largest sample.
    pub fn max(&self) -> (greatest: u128)
        ensures
            greatest == self@[self@.len() - 1],
            forall|i: int| 0 <= i < self@.len() ==> self@[i] <= greatest,
    {
        proof {
            use_type_invariant(self);
        }
        self.values[self.values.len() - 1]
    }
}

} // verus!
