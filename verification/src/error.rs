//! The ways in which a run can be refused.

use vstd::prelude::*;

verus! {

/// Why a run, or a statistic asked of it, was refused.
#[derive(Debug, Clone, Copy, PartialEq, Eq, Structural)]
pub enum StatsError {
    /// The run was asked to repeat the command zero times, which leaves
    /// nothing to average over.
    NoRepetitions,
    /// The run was asked for a pool without workers, on which no repetition
    /// could ever complete.
    NoWorkers,
    /// The number of collected samples differs from the number of
    /// repetitions that were planned.
    IncompleteRun,
    /// The requested percentile needs a sample at a position outside the
    /// sample set.
    PercentileOutOfRange,
    /// The sum of the squared samples does not fit in 128 bits.
    Overflow,
}

} // verus!
