//! Percentiles of a sample set.
//!
//! For a percentage `p` and `n` samples in ascending order the percentile
//! sits at position `p/100 × n − 1`, counted from zero. Where that position
//! is a whole number, the percentile is the mean of the sample there and the
//! next one, rounded down. Otherwise it is the sample at the position
//! rounded up.

use vstd::prelude::*;
use crate::error::StatsError;
use crate::samples::SampleSet;
use crate::sorting::sorted;

verus! {

/// One hundred times the position `percent/100 × n − 1`, which keeps the
/// position an integer.
pub open spec fn scaled_position(n: nat, percent: nat) -> int {
    percent * n - 100
}

/// The percentile of the ascending samples `s` at `percent` per cent.
pub open spec fn percentile_of(s: Seq<u128>, percent: nat) -> int {
    let scaled = scaled_position(s.len(), percent);
    if scaled % 100 == 0 {
        let position = scaled / 100;
        (s[position] + s[position + 1]) / 2
    } else {
        let rounded_up = (scaled + 99) / 100;
        s[rounded_up] as int
    }
}

/// The positions that `percentile_of` reads lie inside a set of `n` samples.
pub open spec fn positions_inside(n: nat, percent: nat) -> bool {
    let scaled = scaled_position(n, percent);
    if scaled % 100 == 0 {
        0 <= scaled / 100 && scaled / 100 + 1 < n
    } else {
        0 <= (scaled + 99) / 100 < n
    }
}

/// The positions of a percentile lie inside a non-empty sample set, one
/// sample included, exactly for the percentages from 1 to 99.
pub proof fn lemma_positions_inside(n: nat, percent: nat)
    requires
        n >= 1,
    ensures
        positions_inside(n, percent) <==> 1 <= percent <= 99,
{
    let product = (percent * n) as int;
    if percent == 0 {
        assert(product == 0) by (nonlinear_arith)
            requires
                product == percent * n,
                percent == 0,
        ;
    } else if percent <= 99 {
        assert(1 <= product <= 99 * n) by (nonlinear_arith)
            requires
                product == percent * n,
                n >= 1,
                1 <= percent <= 99,
        ;
    } else {
        assert(product >= 100 * n) by (nonlinear_arith)
            requires
                product == percent * n,
                n >= 1,
                percent >= 100,
        ;
    }
}

/// The percentile of ascending samples lies between the smallest and the
/// largest of them.
pub proof fn lemma_percentile_between_extremes(s: Seq<u128>, percent: nat)
    requires
        s.len() >= 1,
        sorted(s),
        1 <= percent <= 99,
    ensures
        s[0] <= percentile_of(s, percent) <= s[s.len() - 1],
{
    lemma_positions_inside(s.len(), percent);
}

/// The percentile of the ascending samples `values` at `percent` per cent.
pub(crate) fn percentile_of_sorted(values: &Vec<u128>, percent: u32) -> (value: u128)
    requires
        values@.len() >= 1,
        sorted(values@),
        1 <= percent <= 99,
    ensures
        value == percentile_of(values@, percent as nat),
        values@[0] <= value <= values@[values@.len() - 1],
{
    let n = values.len();
    proof {
        lemma_positions_inside(n as nat, percent as nat);
        lemma_percentile_between_extremes(values@, percent as nat);
    }
    let product: u128 = percent as u128 * n as u128;
    if product % 100 == 0 {
        let position: usize = (product / 100 - 1) as usize;
        let here = values[position];
        let next = values[position + 1];
        here + (next - here) / 2
    } else {
        let rounded_up: usize = ((product - 1) / 100) as usize;
        values[rounded_up]
    }
}

/// The percentile of the samples at `percent` per cent.
///
/// Percentages from 1 to 99 are answered for every sample set. At 0 and from
/// 100 on, a position that the percentile reads falls outside the sample
/// set, and the request is refused.
pub fn percentile(samples: &SampleSet, percent: u32) -> (value: Result<u128, StatsError>)
    ensures
        value is Ok <==> 1 <= percent <= 99,
        value is Ok <==> positions_inside(samples@.len(), percent as nat),
        value matches Err(refusal) ==> refusal == StatsError::PercentileOutOfRange,
        value matches Ok(v) ==> {
            &&& v == percentile_of(samples@, percent as nat)
            &&& samples@[0] <= v <= samples@[samples@.len() - 1]
        },
{
    let values = samples.values();
    proof {
        lemma_positions_inside(values@.len(), percent as nat);
    }
    if percent == 0 || percent >= 100 {
        Err(StatsError::PercentileOutOfRange)
    } else {
        Ok(percentile_of_sorted(values, percent))
    }
}

} // verus!
