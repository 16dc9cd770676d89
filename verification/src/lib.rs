//! Latency statistics for repeated runs of a command.
//!
//! The caller runs a command a number of times on a pool of workers and
//! hands the measured wall-clock times, in whole milliseconds, to this
//! library. The library validates the parameters of the run ([`RunPlan`]),
//! puts the measurements in order ([`SampleSet`]), and derives the summary
//! ([`aggregate`]) and the latency histogram ([`build_histogram`]) from
//! them.
//!
//! Every function here is verified: it does not panic, its arithmetic does
//! not overflow, and its result is the one its contract states.

pub mod error;
pub mod histogram;
pub mod percentile;
pub mod plan;
pub mod samples;
pub mod sorting;
pub mod stats;
pub mod sums;

pub use crate::error::StatsError;
pub use crate::histogram::{build_histogram, rounding_quotient, Bin, BAR_WIDTH};
pub use crate::percentile::percentile;
pub use crate::plan::RunPlan;
pub use crate::samples::SampleSet;
pub use crate::sorting::sort_ascending;
pub use crate::stats::{aggregate, Report};
