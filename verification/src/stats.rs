//! The summary of a run: sum, extremes, mean, variance and percentiles.

use vstd::prelude::*;
use vstd::seq_lib::to_multiset_len;
use crate::error::StatsError;
use crate::histogram::{build_histogram, is_histogram_of, total_count, Bin};
use crate::percentile::{percentile_of, percentile_of_sorted};
use crate::samples::SampleSet;
use crate::sorting::{lemma_sorted_is_unique, sorted};
use crate::sums::{
    lemma_square_of_total, lemma_total_at_most_squares, lemma_total_between,
    lemma_totals_of_permutation, lemma_totals_of_prefix, lemma_totals_step, total, total_squares,
};

verus! {

/// The summary of the samples of one run. Times are in milliseconds.
#[derive(Debug, PartialEq, Eq)]
pub struct Report {
    /// The sum of all samples.
    pub sum: u128,
    /// The number of samples.
    pub count: usize,
    /// The smallest sample.
    pub min: u128,
    /// The largest sample.
    pub max: u128,
    /// The mean of the samples, rounded down.
    pub mean: u128,
    /// The mean of the squared samples, rounded down, less the square of
    /// `mean`. Its square root is the standard deviation.
    pub variance: u128,
    /// The 95th percentile.
    pub p95: u128,
    /// The 99th percentile.
    pub p99: u128,
    /// The histogram of the samples, where one was asked for.
    pub histogram: Option<Vec<Bin>>,
}

/// The mean of the samples, rounded down to a whole number.
pub open spec fn mean_of(s: Seq<u128>) -> int {
    total(s) as int / s.len() as int
}

/// The mean of the squared samples, rounded down, less the square of the
/// rounded mean.
pub open spec fn variance_of(s: Seq<u128>) -> int {
    total_squares(s) as int / s.len() as int - mean_of(s) * mean_of(s)
}

/// `report` is the summary of the ascending, non-empty samples `s`.
pub open spec fn summarizes(report: Report, s: Seq<u128>) -> bool {
    &&& report.sum == total(s)
    &&& report.count == s.len()
    &&& report.min == s[0]
    &&& report.max == s[s.len() - 1]
    &&& report.mean == mean_of(s)
    &&& report.variance == variance_of(s)
    &&& report.p95 == percentile_of(s, 95)
    &&& report.p99 == percentile_of(s, 99)
}

/// The rounded mean of ascending samples lies between the first and the
/// last of them.
pub proof fn lemma_mean_between_extremes(s: Seq<u128>)
    requires
        s.len() >= 1,
        sorted(s),
    ensures
        s[0] <= mean_of(s) <= s[s.len() - 1],
{
    let low = s[0] as int;
    let high = s[s.len() - 1] as int;
    let n = s.len() as int;
    let t = total(s) as int;
    lemma_total_between(s, low, high);
    assert(low <= t / n <= high) by (nonlinear_arith)
        requires
            n >= 1,
            n * low <= t <= n * high,
    ;
}

/// The variance is never negative: the square of the rounded mean is at
/// most the rounded mean of the squares.
pub proof fn lemma_variance_not_negative(s: Seq<u128>)
    requires
        s.len() >= 1,
    ensures
        0 <= mean_of(s) * mean_of(s) <= total_squares(s) as int / s.len() as int,
        0 <= variance_of(s) <= total_squares(s),
{
    let n = s.len() as int;
    let t = total(s) as int;
    let q = total_squares(s) as int;
    let m = t / n;
    lemma_square_of_total(s);
    assert(0 <= m && n * m <= t) by (nonlinear_arith)
        requires
            m == t / n,
            n >= 1,
            t >= 0,
    ;
    assert((n * m) * (n * m) <= t * t) by (nonlinear_arith)
        requires
            0 <= n * m <= t,
    ;
    assert(n * (m * m) <= q) by (nonlinear_arith)
        requires
            (n * m) * (n * m) <= t * t,
            t * t <= n * q,
            n >= 1,
    ;
    assert(0 <= m * m <= q / n) by (nonlinear_arith)
        requires
            n * (m * m) <= q,
            n >= 1,
    ;
    assert(q / n <= q) by (nonlinear_arith)
        requires
            n >= 1,
            q >= 0,
    ;
}

/// The summary does not depend on the order in which the samples arrived:
/// two ascending sample sets that hold the same samples, each equally often,
/// have the same summary.
pub proof fn lemma_summary_is_deterministic(
    one: Seq<u128>,
    other: Seq<u128>,
    first: Report,
    second: Report,
)
    requires
        sorted(one),
        sorted(other),
        one.to_multiset() == other.to_multiset(),
        summarizes(first, one),
        summarizes(second, other),
    ensures
        first.sum == second.sum,
        first.count == second.count,
        first.min == second.min,
        first.max == second.max,
        first.mean == second.mean,
        first.variance == second.variance,
        first.p95 == second.p95,
        first.p99 == second.p99,
{
    lemma_sorted_is_unique(one, other);
}

/// The sum and the count of a summary are those of the samples as they
/// arrived, before they were put in order.
pub proof fn lemma_summary_of_arrivals(arrived: Seq<u128>, s: Seq<u128>, report: Report)
    requires
        s.to_multiset() == arrived.to_multiset(),
        summarizes(report, s),
    ensures
        report.sum == total(arrived),
        report.count == arrived.len(),
{
    lemma_totals_of_permutation(s, arrived);
    to_multiset_len(s);
    to_multiset_len(arrived);
}

/// Adds up the samples and their squares, unless the squares exceed 128
/// bits.
fn sum_and_squares(values: &Vec<u128>) -> (sums: Option<(u128, u128)>)
    ensures
        sums is Some <==> total_squares(values@) <= u128::MAX,
        sums matches Some(pair) ==> pair.0 == total(values@) && pair.1 == total_squares(values@),
{
    let mut sum: u128 = 0;
    let mut squares: u128 = 0;
    let mut i: usize = 0;
    while i < values.len()
        invariant
            i <= values.len(),
            sum == total(values@.take(i as int)),
            squares == total_squares(values@.take(i as int)),
        decreases values.len() - i,
    {
        let x: u128 = values[i];
        proof {
            lemma_totals_step(values@, i as int);
            lemma_totals_of_prefix(values@, i + 1);
            lemma_total_at_most_squares(values@.take(i + 1));
        }
        let square = match x.checked_mul(x) {
            Some(square) => square,
            None => {
                return None;
            },
        };
        squares = match squares.checked_add(square) {
            Some(more) => more,
            None => {
                return None;
            },
        };
        sum = sum + x;
        i += 1;
    }
    proof {
        assert(values@.take(i as int) =~= values@);
    }
    Some((sum, squares))
}

/// Summarizes the samples of a run, with their histogram where
/// `with_histogram` asks for it.
///
/// The summary is refused only where the sum of the squared samples does
/// not fit in 128 bits.
pub fn aggregate(samples: &SampleSet, with_histogram: bool) -> (summary: Result<
    Report,
    StatsError,
>)
    ensures
        summary is Ok <==> total_squares(samples@) <= u128::MAX,
        summary matches Err(refusal) ==> refusal == StatsError::Overflow,
        summary matches Ok(report) ==> {
            &&& summarizes(report, samples@)
            &&& report.min <= report.mean <= report.max
            &&& report.min <= report.p95 <= report.max
            &&& report.min <= report.p99 <= report.max
            &&& report.histogram is Some <==> with_histogram
            &&& report.histogram matches Some(bins) ==> is_histogram_of(bins@, samples@)
                && total_count(bins@) == report.count
        },
{
    let values = samples.values();
    let n = values.len();
    let (sum, squares) = match sum_and_squares(values) {
        Some(sums) => sums,
        None => {
            return Err(StatsError::Overflow);
        },
    };
    proof {
        lemma_mean_between_extremes(values@);
        lemma_variance_not_negative(values@);
    }
    let mean: u128 = sum / n as u128;
    let variance: u128 = squares / n as u128 - mean * mean;
    let p95 = percentile_of_sorted(values, 95);
    let p99 = percentile_of_sorted(values, 99);
    let histogram = if with_histogram {
        Some(build_histogram(samples))
    } else {
        None
    };
    Ok(
        Report {
            sum,
            count: n,
            min: samples.min(),
            max: samples.max(),
            mean,
            variance,
            p95,
            p99,
            histogram,
        },
    )
}

} // verus!
