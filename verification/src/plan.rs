//! The parameters of a run, validated before any command is started.

use vstd::prelude::*;
use crate::error::StatsError;

verus! {

/// How often the command is run and on how many workers.
///
/// A plan always asks for at least one repetition and at least one worker.
#[derive(Debug, Clone, Copy)]
pub struct RunPlan {
    repetitions: u32,
    concurrency: u32,
}

impl RunPlan {
    /// A plan asks for at least one repetition and at least one worker.
    #[verifier::type_invariant]
    pub closed spec fn well_formed(self) -> bool {
        self.repetitions >= 1 && self.concurrency >= 1
    }

    /// The number of times the command is run.
    pub closed spec fn spec_repetitions(&self) -> u32 {
        self.repetitions
    }

    /// The number of workers that run the command side by side.
    pub closed spec fn spec_concurrency(&self) -> u32 {
        self.concurrency
    }

    /// Validates the parameters of a run.
    ///
    /// Zero repetitions are refused first, then an empty worker pool; every
    /// other pair of parameters is accepted as given.
    pub fn new(repetitions: u32, concurrency: u32) -> (plan: Result<RunPlan, StatsError>)
        ensures
            repetitions == 0 ==> plan == Err::<RunPlan, StatsError>(StatsError::NoRepetitions),
            repetitions != 0 && concurrency == 0 ==> plan == Err::<RunPlan, StatsError>(
                StatsError::NoWorkers,
            ),
            repetitions != 0 && concurrency != 0 ==> plan is Ok
                && plan.unwrap().spec_repetitions() == repetitions
                && plan.unwrap().spec_concurrency() == concurrency,
    {
        if repetitions == 0 {
            Err(StatsError::NoRepetitions)
        } else if concurrency == 0 {
            Err(StatsError::NoWorkers)
        } else {
            Ok(RunPlan { repetitions, concurrency })
        }
    }

    /// The number of times the command is run; never zero.
    #[verifier::when_used_as_spec(spec_repetitions)]
    pub fn repetitions(&self) -> (n: u32)
        ensures
            n == self.spec_repetitions(),
            n >= 1,
    {
        proof {
            use_type_invariant(self);
        }
        self.repetitions
    }

    /// The number of workers that run the command side by side; never zero.
    #[verifier::when_used_as_spec(spec_concurrency)]
    pub fn concurrency(&self) -> (n: u32)
        ensures
            n == self.spec_concurrency(),
            n >= 1,
    {
        proof {
            use_type_invariant(self);
        }
        self.concurrency
    }
}

} // verus!
