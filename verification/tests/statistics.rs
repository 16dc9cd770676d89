use cmdbench::{aggregate, percentile, RunPlan, SampleSet, StatsError};

fn collect(arrived: Vec<u128>) -> SampleSet {
    let plan = RunPlan::new(arrived.len() as u32, 1).unwrap();
    SampleSet::collect(&plan, arrived).unwrap()
}

#[test]
fn mean_is_rounded_down() {
    let report = aggregate(&collect(vec![10, 21]), false).unwrap();
    assert_eq!(report.sum, 31);
    assert_eq!(report.count, 2);
    assert_eq!(report.mean, 15);
}

#[test]
fn summary_of_two_samples() {
    let report = aggregate(&collect(vec![21, 10]), false).unwrap();
    assert_eq!(report.sum, 31);
    assert_eq!(report.count, 2);
    assert_eq!(report.min, 10);
    assert_eq!(report.max, 21);
    assert_eq!(report.mean, 15);
    // (100 + 441) / 2 = 270 rounded down, less 15 * 15
    assert_eq!(report.variance, 45);
    assert_eq!(report.p95, 21);
    assert_eq!(report.p99, 21);
    assert_eq!(report.histogram, None);
}

#[test]
fn percentiles_of_five_samples_round_the_position_up() {
    let samples = collect(vec![10, 20, 30, 40, 50]);
    // 0.95 * 5 - 1 = 3.75 and 0.99 * 5 - 1 = 3.95
    assert_eq!(percentile(&samples, 95), Ok(50));
    assert_eq!(percentile(&samples, 99), Ok(50));
    let report = aggregate(&samples, false).unwrap();
    assert_eq!(report.p95, 50);
    assert_eq!(report.p99, 50);
}

#[test]
fn percentiles_of_four_samples_round_the_position_up() {
    let samples = collect(vec![10, 20, 30, 40]);
    // 0.95 * 4 - 1 = 2.8 and 0.99 * 4 - 1 = 2.96
    assert_eq!(percentile(&samples, 95), Ok(40));
    assert_eq!(percentile(&samples, 99), Ok(40));
    let report = aggregate(&samples, false).unwrap();
    assert_eq!(report.p95, 40);
    assert_eq!(report.p99, 40);
}

#[test]
fn percentiles_of_a_single_sample_stay_inside() {
    let samples = collect(vec![7]);
    for percent in 1..100 {
        assert_eq!(percentile(&samples, percent), Ok(7));
    }
    let report = aggregate(&samples, false).unwrap();
    assert_eq!(report.sum, 7);
    assert_eq!(report.count, 1);
    assert_eq!(report.min, 7);
    assert_eq!(report.max, 7);
    assert_eq!(report.mean, 7);
    assert_eq!(report.variance, 0);
    assert_eq!(report.p95, 7);
    assert_eq!(report.p99, 7);
}

#[test]
fn percentile_at_a_whole_position_averages_two_samples() {
    let samples = collect((1..=20).collect());
    // 0.95 * 20 - 1 = 18: the mean of 19 and 20, rounded down
    assert_eq!(percentile(&samples, 95), Ok(19));
    // 0.99 * 20 - 1 = 18.8
    assert_eq!(percentile(&samples, 99), Ok(20));
    // 0.50 * 20 - 1 = 9: the mean of 10 and 11, rounded down
    assert_eq!(percentile(&samples, 50), Ok(10));
}

#[test]
fn percentiles_of_a_hundred_samples() {
    let samples = collect((1..=100).collect());
    // 0.95 * 100 - 1 = 94: the mean of 95 and 96, rounded down
    // 0.99 * 100 - 1 = 98: the mean of 99 and 100, rounded down
    let report = aggregate(&samples, false).unwrap();
    assert_eq!(report.p95, 95);
    assert_eq!(report.p99, 99);
    assert_eq!(percentile(&samples, 1), Ok(1));
    assert_eq!(percentile(&samples, 99), Ok(99));
}

#[test]
fn percentile_average_of_even_neighbours_is_exact() {
    let mut arrived: Vec<u128> = vec![0; 18];
    arrived.push(100);
    arrived.push(300);
    assert_eq!(percentile(&collect(arrived), 95), Ok(200));
}

#[test]
fn percentile_averages_the_largest_values_without_overflow() {
    let mut arrived: Vec<u128> = vec![0; 18];
    arrived.push(u128::MAX - 2);
    arrived.push(u128::MAX);
    assert_eq!(percentile(&collect(arrived), 95), Ok(u128::MAX - 1));
}

#[test]
fn percentile_of_nought_is_refused() {
    let samples = collect(vec![1, 2, 3]);
    assert_eq!(percentile(&samples, 0), Err(StatsError::PercentileOutOfRange));
}

#[test]
fn percentile_of_a_hundred_is_refused() {
    let samples = collect(vec![1, 2, 3]);
    assert_eq!(percentile(&samples, 100), Err(StatsError::PercentileOutOfRange));
    assert_eq!(percentile(&samples, 101), Err(StatsError::PercentileOutOfRange));
    assert_eq!(percentile(&samples, u32::MAX), Err(StatsError::PercentileOutOfRange));
}

#[test]
fn percentile_lies_between_the_extremes() {
    let samples = collect(vec![4, 8, 15, 16, 23, 42, 42, 99]);
    for percent in 1..100 {
        let value = percentile(&samples, percent).unwrap();
        assert!(samples.min() <= value && value <= samples.max());
    }
}

#[test]
fn mean_lies_between_the_extremes() {
    let runs: Vec<Vec<u128>> = vec![
        vec![0],
        vec![0, 0, 0],
        vec![1, 2],
        vec![5, 1000, 3],
        vec![999, 1, 1, 1],
        vec![u64::MAX as u128, 0],
    ];
    for arrived in runs {
        let report = aggregate(&collect(arrived), false).unwrap();
        assert!(report.min <= report.mean);
        assert!(report.mean <= report.max);
    }
}

#[test]
fn variance_of_equal_samples_is_zero() {
    let report = aggregate(&collect(vec![12, 12, 12, 12]), false).unwrap();
    assert_eq!(report.sum, 48);
    assert_eq!(report.mean, 12);
    assert_eq!(report.variance, 0);
}

#[test]
fn variance_of_spread_samples() {
    let report = aggregate(&collect(vec![2, 4, 4, 4, 5, 5, 7, 9]), false).unwrap();
    assert_eq!(report.sum, 40);
    assert_eq!(report.mean, 5);
    // 232 / 8 - 25
    assert_eq!(report.variance, 4);
}

#[test]
fn variance_uses_the_rounded_mean() {
    let report = aggregate(&collect(vec![1, 2]), false).unwrap();
    // mean 3 / 2 = 1; 5 / 2 = 2; 2 - 1 = 1
    assert_eq!(report.mean, 1);
    assert_eq!(report.variance, 1);
}

#[test]
fn summary_does_not_depend_on_arrival_order() {
    let one = aggregate(&collect(vec![30, 10, 50, 20, 40, 10]), true).unwrap();
    let other = aggregate(&collect(vec![10, 10, 20, 30, 40, 50]), true).unwrap();
    assert_eq!(one, other);
    assert_eq!(one.sum, 160);
    assert_eq!(one.mean, 26);
}

#[test]
fn summary_of_zero_latencies() {
    let report = aggregate(&collect(vec![0, 0, 0]), false).unwrap();
    assert_eq!(report.sum, 0);
    assert_eq!(report.mean, 0);
    assert_eq!(report.variance, 0);
    assert_eq!(report.min, 0);
    assert_eq!(report.max, 0);
    assert_eq!(report.p95, 0);
    assert_eq!(report.p99, 0);
}

#[test]
fn largest_square_that_fits_is_summed() {
    let sample = u64::MAX as u128;
    let report = aggregate(&collect(vec![sample]), false).unwrap();
    assert_eq!(report.sum, sample);
    assert_eq!(report.mean, sample);
    assert_eq!(report.variance, 0);
}

#[test]
fn square_beyond_128_bits_is_refused() {
    let outcome = aggregate(&collect(vec![1u128 << 64]), false);
    assert_eq!(outcome.unwrap_err(), StatsError::Overflow);
    let outcome = aggregate(&collect(vec![1, u128::MAX]), true);
    assert_eq!(outcome.unwrap_err(), StatsError::Overflow);
}

#[test]
fn sum_of_squares_beyond_128_bits_is_refused() {
    let sample = u64::MAX as u128;
    let outcome = aggregate(&collect(vec![sample, sample]), false);
    assert_eq!(outcome.unwrap_err(), StatsError::Overflow);
}

#[test]
fn histogram_comes_only_when_asked_for() {
    let samples = collect(vec![3, 1, 2]);
    assert!(aggregate(&samples, false).unwrap().histogram.is_none());
    let bins = aggregate(&samples, true).unwrap().histogram.unwrap();
    assert_eq!(bins.len(), 3);
}
