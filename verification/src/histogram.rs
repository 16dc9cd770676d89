//! The latency histogram: samples counted in bins of fixed width.
//!
//! The width of the bins follows the magnitude of the smallest sample, in
//! decimal decades. A sample falls into the bin whose time is the sample
//! rounded down to a multiple of the width. Bins are listed by ascending
//! time, and only bins that hold a sample are listed. The bar of a bin is as
//! long as its share of the fullest bin's count, on a scale of
//! [`BAR_WIDTH`].

use vstd::prelude::*;
use crate::samples::SampleSet;
use crate::sorting::sorted;

verus! {

/// The length of the bar of the fullest bin.
pub const BAR_WIDTH: usize = 40;

/// One bin of the histogram.
#[derive(Debug, Clone, Copy, PartialEq, Eq)]
pub struct Bin {
    /// The lower end of the bin in milliseconds, a multiple of the bin width.
    pub time_ms: u128,
    /// The number of samples in the bin.
    pub count: usize,
    /// The length of the bar that stands for `count`.
    pub bar_length: usize,
}

/// The bin width for a run whose smallest sample is `least`.
pub open spec fn quotient_for(least: u128) -> u128 {
    if least <= 1_000 {
        1
    } else if least <= 10_000 {
        10
    } else if least <= 100_000 {
        100
    } else if least <= 1_000_000 {
        1_000
    } else {
        10_000
    }
}

/// The time of the bin that `sample` falls into, for bins of width
/// `quotient`.
pub open spec fn bin_time(sample: u128, quotient: u128) -> int {
    (sample / quotient) * quotient
}

/// The number of samples in `s` that fall into the bin at `time`.
pub open spec fn count_in_bin(s: Seq<u128>, quotient: u128, time: int) -> nat
    decreases s.len(),
{
    if s.len() == 0 {
        0
    } else {
        count_in_bin(s.drop_last(), quotient, time) + if bin_time(s.last(), quotient) == time {
            1nat
        } else {
            0nat
        }
    }
}

/// The largest count of any bin; zero where there is no bin.
pub open spec fn largest_count(bins: Seq<Bin>) -> nat
    decreases bins.len(),
{
    if bins.len() == 0 {
        0
    } else if largest_count(bins.drop_last()) >= bins.last().count {
        largest_count(bins.drop_last())
    } else {
        bins.last().count as nat
    }
}

/// The counts of all bins added up.
pub open spec fn total_count(bins: Seq<Bin>) -> nat
    decreases bins.len(),
{
    if bins.len() == 0 {
        0
    } else {
        total_count(bins.drop_last()) + bins.last().count as nat
    }
}

/// Some bin of `bins` stands at `time`.
pub open spec fn has_bin(bins: Seq<Bin>, time: int) -> bool {
    exists|b: int| 0 <= b < bins.len() && (#[trigger] bins[b]).time_ms == time
}

/// The times of the bins ascend strictly, so no two bins share a time.
pub open spec fn ascending_times(bins: Seq<Bin>) -> bool {
    forall|a: int, b: int|
        0 <= a < b < bins.len() ==> (#[trigger] bins[a]).time_ms < (#[trigger] bins[b]).time_ms
}

/// `bins` lists, by ascending time, exactly the bins that some sample of `s`
/// falls into, each with the number of samples that do.
pub open spec fn counts_samples(bins: Seq<Bin>, s: Seq<u128>, quotient: u128) -> bool {
    &&& ascending_times(bins)
    &&& forall|b: int|
        0 <= b < bins.len() ==> {
            &&& (#[trigger] bins[b]).count >= 1
            &&& bins[b].count == count_in_bin(s, quotient, bins[b].time_ms as int)
        }
    &&& forall|k: int| 0 <= k < s.len() ==> has_bin(bins, bin_time(#[trigger] s[k], quotient))
}

/// The bar of each bin is its count times [`BAR_WIDTH`], divided by the
/// count of the fullest bin and rounded down.
pub open spec fn bars_are_scaled(bins: Seq<Bin>) -> bool {
    forall|b: int|
        0 <= b < bins.len() ==> (#[trigger] bins[b]).bar_length == bins[b].count * BAR_WIDTH
            / largest_count(bins) as int
}

/// `bins` is the histogram of the ascending, non-empty samples `s`.
pub open spec fn is_histogram_of(bins: Seq<Bin>, s: Seq<u128>) -> bool {
    counts_samples(bins, s, quotient_for(s[0])) && bars_are_scaled(bins)
}

/// The bin width for a run whose smallest sample is `least` milliseconds:
/// 1 up to a second, 10 up to ten seconds, 100 up to a hundred seconds, 1000
/// up to a thousand seconds, and 10000 beyond.
#[verifier::when_used_as_spec(quotient_for)]
pub fn rounding_quotient(least: u128) -> (quotient: u128)
    ensures
        quotient == quotient_for(least),
{
    if least <= 1_000 {
        1
    } else if least <= 10_000 {
        10
    } else if least <= 100_000 {
        100
    } else if least <= 1_000_000 {
        1_000
    } else {
        10_000
    }
}

/// Rounding down to a multiple of the bin width keeps the order of the
/// samples, tells apart exactly the samples with different quotients, and
/// never exceeds the sample.
proof fn lemma_bin_time(a: u128, b: u128, quotient: u128)
    requires
        quotient >= 1,
        a <= b,
    ensures
        0 <= bin_time(a, quotient) <= a,
        a / quotient <= b / quotient,
        bin_time(a, quotient) <= bin_time(b, quotient),
        a / quotient == b / quotient <==> bin_time(a, quotient) == bin_time(b, quotient),
{
    let q = quotient as int;
    let x = a as int / q;
    let y = b as int / q;
    assert(0 <= x * q <= a) by (nonlinear_arith)
        requires
            x == a as int / q,
            q >= 1,
            a >= 0,
    ;
    assert(x <= y) by (nonlinear_arith)
        requires
            x == a as int / q,
            y == b as int / q,
            q >= 1,
            0 <= a <= b,
    ;
    assert(x * q <= y * q && (x < y ==> x * q < y * q)) by (nonlinear_arith)
        requires
            x <= y,
            q >= 1,
    ;
}

/// Samples outside the bin at `time` leave its count as it was.
proof fn lemma_count_skips(s: Seq<u128>, quotient: u128, time: int, from: int, to: int)
    requires
        0 <= from <= to <= s.len(),
        forall|k: int| from <= k < to ==> bin_time(#[trigger] s[k], quotient) != time,
    ensures
        count_in_bin(s.take(to), quotient, time) == count_in_bin(s.take(from), quotient, time),
    decreases to - from,
{
    if from < to {
        lemma_count_skips(s, quotient, time, from, to - 1);
        assert(s.take(to).drop_last() =~= s.take(to - 1));
        assert(s.take(to).last() == s[to - 1]);
    }
}

/// Each sample inside the bin at `time` adds one to its count.
proof fn lemma_count_run(s: Seq<u128>, quotient: u128, time: int, from: int, to: int)
    requires
        0 <= from <= to <= s.len(),
        forall|k: int| from <= k < to ==> bin_time(#[trigger] s[k], quotient) == time,
    ensures
        count_in_bin(s.take(to), quotient, time) == count_in_bin(s.take(from), quotient, time) + (
        to - from),
    decreases to - from,
{
    if from < to {
        lemma_count_run(s, quotient, time, from, to - 1);
        assert(s.take(to).drop_last() =~= s.take(to - 1));
        assert(s.take(to).last() == s[to - 1]);
    }
}

/// No bin counts more than the fullest one.
proof fn lemma_largest_count(bins: Seq<Bin>, b: int)
    requires
        0 <= b < bins.len(),
    ensures
        bins[b].count <= largest_count(bins),
    decreases bins.len(),
{
    if b < bins.len() - 1 {
        lemma_largest_count(bins.drop_last(), b);
    }
}

/// Bins with the same counts have the same fullest count and the same
/// total.
proof fn lemma_same_counts(x: Seq<Bin>, y: Seq<Bin>)
    requires
        x.len() == y.len(),
        forall|b: int| 0 <= b < x.len() ==> (#[trigger] x[b]).count == y[b].count,
    ensures
        largest_count(x) == largest_count(y),
        total_count(x) == total_count(y),
    decreases x.len(),
{
    if x.len() > 0 {
        let xr = x.drop_last();
        let yr = y.drop_last();
        assert forall|b: int| 0 <= b < xr.len() implies (#[trigger] xr[b]).count
            == yr[b].count by {
            assert(x[b].count == y[b].count);
        }
        lemma_same_counts(xr, yr);
        assert(x[x.len() - 1].count == y[y.len() - 1].count);
    }
}

/// Some bin holds the fullest count.
proof fn lemma_largest_count_is_held(bins: Seq<Bin>)
    requires
        bins.len() >= 1,
    ensures
        exists|b: int| 0 <= b < bins.len() && (#[trigger] bins[b]).count == largest_count(bins),
    decreases bins.len(),
{
    let rest = bins.drop_last();
    if rest.len() >= 1 && largest_count(rest) >= bins.last().count {
        lemma_largest_count_is_held(rest);
        let b = choose|b: int|
            0 <= b < rest.len() && (#[trigger] rest[b]).count == largest_count(rest);
        assert(bins[b].count == largest_count(bins));
    } else {
        if rest.len() == 0 {
            assert(largest_count(rest) == 0);
        }
        assert(bins[bins.len() - 1].count == largest_count(bins));
    }
}

/// The number of bins that stand at `time`.
spec fn bins_at(bins: Seq<Bin>, time: int) -> nat
    decreases bins.len(),
{
    if bins.len() == 0 {
        0
    } else {
        bins_at(bins.drop_last(), time) + if bins.last().time_ms == time {
            1nat
        } else {
            0nat
        }
    }
}

/// The samples of `s` counted bin by bin: a sample counts once for each bin
/// that stands at its time.
spec fn samples_in_bins(bins: Seq<Bin>, s: Seq<u128>, quotient: u128) -> nat
    decreases bins.len(),
{
    if bins.len() == 0 {
        0
    } else {
        samples_in_bins(bins.drop_last(), s, quotient) + count_in_bin(
            s,
            quotient,
            bins.last().time_ms as int,
        )
    }
}

/// Where no bin stands at `time`, the number of bins there is zero.
proof fn lemma_no_bin_at(bins: Seq<Bin>, time: int)
    requires
        forall|b: int| 0 <= b < bins.len() ==> (#[trigger] bins[b]).time_ms != time,
    ensures
        bins_at(bins, time) == 0,
    decreases bins.len(),
{
    if bins.len() > 0 {
        let rest = bins.drop_last();
        assert forall|b: int| 0 <= b < rest.len() implies (#[trigger] rest[b]).time_ms != time by {
            assert(bins[b].time_ms != time);
        }
        lemma_no_bin_at(rest, time);
        assert(bins[bins.len() - 1].time_ms != time);
    }
}

/// Where the times ascend and some bin stands at `time`, exactly one bin
/// does.
proof fn lemma_one_bin_at(bins: Seq<Bin>, time: int)
    requires
        ascending_times(bins),
        has_bin(bins, time),
    ensures
        bins_at(bins, time) == 1,
    decreases bins.len(),
{
    let found = choose|b: int| 0 <= b < bins.len() && (#[trigger] bins[b]).time_ms == time;
    let rest = bins.drop_last();
    let end = bins.len() - 1;
    assert forall|a: int, b: int| 0 <= a < b < rest.len() implies (#[trigger] rest[a]).time_ms < (
    #[trigger] rest[b]).time_ms by {
        assert(bins[a].time_ms < bins[b].time_ms);
    }
    if bins[end].time_ms == time {
        assert forall|b: int| 0 <= b < rest.len() implies (#[trigger] rest[b]).time_ms != time by {
            assert(bins[b].time_ms < bins[end].time_ms);
        }
        lemma_no_bin_at(rest, time);
    } else {
        assert(rest[found].time_ms == time);
        lemma_one_bin_at(rest, time);
    }
}

/// One more sample adds one for each bin that stands at its time.
proof fn lemma_samples_in_bins_step(bins: Seq<Bin>, s: Seq<u128>, quotient: u128)
    requires
        s.len() >= 1,
    ensures
        samples_in_bins(bins, s, quotient) == samples_in_bins(bins, s.drop_last(), quotient)
            + bins_at(bins, bin_time(s.last(), quotient)),
    decreases bins.len(),
{
    if bins.len() > 0 {
        lemma_samples_in_bins_step(bins.drop_last(), s, quotient);
    }
}

/// Where the times ascend and each sample has its bin, counting the samples
/// bin by bin counts each of them once.
proof fn lemma_samples_in_bins(bins: Seq<Bin>, s: Seq<u128>, quotient: u128)
    requires
        ascending_times(bins),
        forall|k: int| 0 <= k < s.len() ==> has_bin(bins, bin_time(#[trigger] s[k], quotient)),
    ensures
        samples_in_bins(bins, s, quotient) == s.len(),
    decreases s.len(), bins.len(),
{
    if s.len() == 0 {
        if bins.len() > 0 {
            let rest = bins.drop_last();
            assert forall|a: int, b: int| 0 <= a < b < rest.len() implies (
            #[trigger] rest[a]).time_ms < (#[trigger] rest[b]).time_ms by {
                assert(bins[a].time_ms < bins[b].time_ms);
            }
            lemma_samples_in_bins(rest, s, quotient);
        }
    } else {
        let before = s.drop_last();
        assert forall|k: int| 0 <= k < before.len() implies has_bin(
            bins,
            bin_time(#[trigger] before[k], quotient),
        ) by {
            assert(before[k] == s[k]);
        }
        lemma_samples_in_bins(bins, before, quotient);
        lemma_samples_in_bins_step(bins, s, quotient);
        assert(has_bin(bins, bin_time(s[s.len() - 1], quotient)));
        lemma_one_bin_at(bins, bin_time(s.last(), quotient));
    }
}

/// Where each bin holds the count of the samples at its time, the counts
/// add up to the samples counted bin by bin.
proof fn lemma_total_count_is_samples_in_bins(bins: Seq<Bin>, s: Seq<u128>, quotient: u128)
    requires
        forall|b: int|
            0 <= b < bins.len() ==> (#[trigger] bins[b]).count == count_in_bin(
                s,
                quotient,
                bins[b].time_ms as int,
            ),
    ensures
        total_count(bins) == samples_in_bins(bins, s, quotient),
    decreases bins.len(),
{
    if bins.len() > 0 {
        let rest = bins.drop_last();
        assert forall|b: int| 0 <= b < rest.len() implies (#[trigger] rest[b]).count
            == count_in_bin(s, quotient, rest[b].time_ms as int) by {
            assert(bins[b].count == count_in_bin(s, quotient, bins[b].time_ms as int));
        }
        lemma_total_count_is_samples_in_bins(rest, s, quotient);
        assert(bins[bins.len() - 1].count == count_in_bin(
            s,
            quotient,
            bins[bins.len() - 1].time_ms as int,
        ));
    }
}

/// A histogram counts every sample exactly once: the counts of its bins add
/// up to the number of samples.
pub proof fn lemma_histogram_counts_every_sample(bins: Seq<Bin>, s: Seq<u128>)
    requires
        is_histogram_of(bins, s),
    ensures
        total_count(bins) == s.len(),
{
    let quotient = quotient_for(s[0]);
    lemma_total_count_is_samples_in_bins(bins, s, quotient);
    lemma_samples_in_bins(bins, s, quotient);
}

/// The bars of a histogram are scaled to the fullest bin: no bar is longer
/// than [`BAR_WIDTH`], some bin holds the fullest count, and each bin that
/// does has a bar of exactly that length. A bin has a bar of length zero
/// exactly where the fullest bin holds more than `BAR_WIDTH` times its
/// count.
pub proof fn lemma_histogram_bars(bins: Seq<Bin>, s: Seq<u128>)
    requires
        s.len() >= 1,
        is_histogram_of(bins, s),
    ensures
        bins.len() >= 1,
        exists|b: int| 0 <= b < bins.len() && (#[trigger] bins[b]).count == largest_count(bins),
        forall|b: int| 0 <= b < bins.len() ==> (#[trigger] bins[b]).bar_length <= BAR_WIDTH,
        forall|b: int|
            0 <= b < bins.len() && (#[trigger] bins[b]).count == largest_count(bins)
                ==> bins[b].bar_length == BAR_WIDTH,
        forall|b: int|
            0 <= b < bins.len() ==> ((#[trigger] bins[b]).bar_length == 0 <==> bins[b].count
                * BAR_WIDTH < largest_count(bins)),
{
    assert(has_bin(bins, bin_time(s[0], quotient_for(s[0]))));
    lemma_largest_count_is_held(bins);
    let largest = largest_count(bins) as int;
    assert forall|b: int| 0 <= b < bins.len() implies {
        &&& (#[trigger] bins[b]).bar_length <= BAR_WIDTH
        &&& bins[b].count == largest ==> bins[b].bar_length == BAR_WIDTH
        &&& bins[b].bar_length == 0 <==> bins[b].count * BAR_WIDTH < largest
    } by {
        lemma_largest_count(bins, b);
        let count = bins[b].count as int;
        assert(count * 40 / largest <= 40 && (count == largest ==> count * 40 / largest == 40) && (
        count * 40 / largest == 0 <==> count * 40 < largest)) by (nonlinear_arith)
            requires
                1 <= count <= largest,
        ;
    }
}

/// Counts the samples bin by bin, and finds the count of the fullest bin.
/// The bars are left at length zero.
fn count_bins(values: &Vec<u128>, quotient: u128) -> (counted: (Vec<Bin>, usize))
    requires
        values@.len() >= 1,
        sorted(values@),
        quotient >= 1,
    ensures
        counts_samples(counted.0@, values@, quotient),
        counted.1 == largest_count(counted.0@),
        total_count(counted.0@) == values@.len(),
{
    let n: usize = values.len();
    let mut bins: Vec<Bin> = Vec::new();
    let mut largest: usize = 0;
    let mut i: usize = 0;
    let ghost s = values@;
    while i < n
        invariant
            s == values@,
            n == s.len(),
            sorted(s),
            quotient >= 1,
            i <= n,
            counts_samples(bins@, s.take(i as int), quotient),
            largest == largest_count(bins@),
            total_count(bins@) == i,
            forall|b: int|
                0 <= b < bins@.len() && i < n ==> (#[trigger] bins@[b]).time_ms < bin_time(
                    s[i as int],
                    quotient,
                ),
            forall|k: int|
                0 <= k < i && i < n ==> bin_time(#[trigger] s[k], quotient) < bin_time(
                    s[i as int],
                    quotient,
                ),
        decreases n - i,
    {
        let key: u128 = values[i] / quotient;
        let mut j: usize = i + 1;
        while j < n && values[j] / quotient == key
            invariant
                s == values@,
                n == s.len(),
                quotient >= 1,
                i < j <= n,
                key == s[i as int] / quotient,
                forall|k: int| i <= k < j ==> (#[trigger] s[k]) / quotient == key,
            decreases n - j,
        {
            j += 1;
        }
        proof {
            lemma_bin_time(s[i as int], s[i as int], quotient);
        }
        let time: u128 = key * quotient;
        let run: usize = j - i;
        let ghost before = bins@;
        bins.push(Bin { time_ms: time, count: run, bar_length: 0 });
        if run > largest {
            largest = run;
        }
        proof {
            let seen = s.take(j as int);
            assert(bins@.drop_last() =~= before);
            assert forall|k: int| i <= k < j implies bin_time(#[trigger] s[k], quotient)
                == time by {
                assert(s[k] / quotient == key);
            }
            assert forall|b: int| 0 <= b < bins@.len() implies (#[trigger] bins@[b]).count
                == count_in_bin(seen, quotient, bins@[b].time_ms as int) by {
                if b < before.len() {
                    assert(bins@[b] == before[b]);
                    lemma_count_skips(s, quotient, before[b].time_ms as int, i as int, j as int);
                } else {
                    assert forall|k: int| 0 <= k < i implies bin_time(#[trigger] s[k], quotient)
                        != time by {}
                    assert(s.take(0) =~= Seq::<u128>::empty());
                    lemma_count_skips(s, quotient, time as int, 0, i as int);
                    lemma_count_run(s, quotient, time as int, i as int, j as int);
                }
            }
            assert forall|k: int| 0 <= k < seen.len() implies has_bin(
                bins@,
                bin_time(#[trigger] seen[k], quotient),
            ) by {
                if k < i {
                    assert(s.take(i as int)[k] == seen[k]);
                    let b = choose|b: int|
                        0 <= b < before.len() && (#[trigger] before[b]).time_ms == bin_time(
                            seen[k],
                            quotient,
                        );
                    assert(bins@[b].time_ms == bin_time(seen[k], quotient));
                } else {
                    assert(bin_time(s[k], quotient) == time);
                    assert(bins@[before.len() as int].time_ms == time);
                }
            }
            assert(ascending_times(bins@)) by {
                assert forall|a: int, b: int| 0 <= a < b < bins@.len() implies (
                #[trigger] bins@[a]).time_ms < (#[trigger] bins@[b]).time_ms by {
                    assert(bins@[a] == before[a]);
                    if b < before.len() {
                        assert(bins@[b] == before[b]);
                    }
                }
            }
            if j < n {
                assert forall|k: int| 0 <= k < j implies bin_time(#[trigger] s[k], quotient)
                    < bin_time(s[j as int], quotient) by {
                    lemma_bin_time(s[k], s[j as int], quotient);
                    lemma_bin_time(s[i as int], s[j as int], quotient);
                }
            }
        }
        i = j;
    }
    proof {
        assert(s.take(n as int) =~= s);
    }
    (bins, largest)
}

/// Builds the histogram of the samples.
///
/// The bins are as wide as the smallest sample calls for. They come in
/// ascending order of time, one for each time that some sample rounds down
/// to, with the number of those samples and a bar of `count × 40`, divided
/// by the count of the fullest bin and rounded down.
pub fn build_histogram(samples: &SampleSet) -> (bins: Vec<Bin>)
    ensures
        is_histogram_of(bins@, samples@),
        total_count(bins@) == samples@.len(),
        bins@.len() >= 1,
{
    let values = samples.values();
    let quotient = rounding_quotient(samples.min());
    let (counted, largest) = count_bins(values, quotient);
    let mut bins: Vec<Bin> = Vec::new();
    let mut b: usize = 0;
    while b < counted.len()
        invariant
            b <= counted.len(),
            bins@.len() == b,
            largest == largest_count(counted@),
            forall|a: int| 0 <= a < counted@.len() ==> (#[trigger] counted@[a]).count >= 1,
            forall|a: int|
                0 <= a < b ==> {
                    &&& (#[trigger] bins@[a]).time_ms == counted@[a].time_ms
                    &&& bins@[a].count == counted@[a].count
                    &&& bins@[a].bar_length == counted@[a].count * BAR_WIDTH / largest as int
                },
        decreases counted.len() - b,
    {
        let count: usize = counted[b].count;
        proof {
            lemma_largest_count(counted@, b as int);
            assert(count * 40 / largest as int <= 40) by (nonlinear_arith)
                requires
                    1 <= count <= largest,
            ;
        }
        let bar: u128 = count as u128 * 40 / largest as u128;
        bins.push(Bin { time_ms: counted[b].time_ms, count, bar_length: bar as usize });
        b += 1;
    }
    proof {
        let s = samples@;
        lemma_same_counts(bins@, counted@);
        assert(has_bin(counted@, bin_time(s[0], quotient)));
        assert forall|a: int, b: int| 0 <= a < b < bins@.len() implies (
        #[trigger] bins@[a]).time_ms < (#[trigger] bins@[b]).time_ms by {
            assert(counted@[a].time_ms < counted@[b].time_ms);
        }
        assert forall|b: int| 0 <= b < bins@.len() implies {
            &&& (#[trigger] bins@[b]).count >= 1
            &&& bins@[b].count == count_in_bin(s, quotient, bins@[b].time_ms as int)
        } by {
            assert(counted@[b].count >= 1);
        }
        assert forall|k: int| 0 <= k < s.len() implies has_bin(
            bins@,
            bin_time(#[trigger] s[k], quotient),
        ) by {
            let b = choose|b: int|
                0 <= b < counted@.len() && (#[trigger] counted@[b]).time_ms == bin_time(
                    s[k],
                    quotient,
                );
            assert(bins@[b].time_ms == bin_time(s[k], quotient));
        }
    }
    bins
}

} // verus!
