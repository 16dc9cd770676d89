use cmdbench::{sort_ascending, RunPlan, SampleSet, StatsError};

fn pseudo_random(count: usize, modulus: u128) -> Vec<u128> {
    let mut state: u128 = 0x9e37_79b9_7f4a_7c15;
    let mut out = Vec::with_capacity(count);
    for _ in 0..count {
        state = state
            .wrapping_mul(6364136223846793005)
            .wrapping_add(1442695040888963407);
        out.push((state >> 33) % modulus);
    }
    out
}

#[test]
fn collected_set_has_one_sample_per_repetition() {
    for n in [1u32, 2, 3, 7, 64, 1000] {
        let plan = RunPlan::new(n, 4).unwrap();
        let arrived = pseudo_random(n as usize, 500);
        let samples = SampleSet::collect(&plan, arrived).unwrap();
        assert_eq!(samples.len(), n as usize);
        assert_eq!(samples.values().len(), n as usize);
    }
}

#[test]
fn collect_refuses_a_run_with_a_missing_sample() {
    let plan = RunPlan::new(3, 1).unwrap();
    let outcome = SampleSet::collect(&plan, vec![12, 11]);
    assert_eq!(outcome.unwrap_err(), StatsError::IncompleteRun);
}

#[test]
fn collect_refuses_a_run_without_samples() {
    let plan = RunPlan::new(1, 1).unwrap();
    let outcome = SampleSet::collect(&plan, Vec::new());
    assert_eq!(outcome.unwrap_err(), StatsError::IncompleteRun);
}

#[test]
fn collect_refuses_a_run_with_a_sample_too_many() {
    let plan = RunPlan::new(2, 1).unwrap();
    let outcome = SampleSet::collect(&plan, vec![12, 11, 10]);
    assert_eq!(outcome.unwrap_err(), StatsError::IncompleteRun);
}

#[test]
fn collected_set_is_in_ascending_order() {
    let plan = RunPlan::new(6, 2).unwrap();
    let samples = SampleSet::collect(&plan, vec![30, 10, 50, 20, 10, 40]).unwrap();
    assert_eq!(samples.values(), &vec![10, 10, 20, 30, 40, 50]);
    assert_eq!(samples.min(), 10);
    assert_eq!(samples.max(), 50);
}

#[test]
fn collected_set_never_decreases() {
    let plan = RunPlan::new(2000, 8).unwrap();
    let samples = SampleSet::collect(&plan, pseudo_random(2000, 97)).unwrap();
    let values = samples.values();
    for i in 1..values.len() {
        assert!(values[i - 1] <= values[i]);
    }
    assert_eq!(samples.min(), values[0]);
    assert_eq!(samples.max(), values[values.len() - 1]);
}

#[test]
fn collected_set_does_not_depend_on_arrival_order() {
    let plan = RunPlan::new(5, 2).unwrap();
    let one = SampleSet::collect(&plan, vec![5, 3, 9, 3, 1]).unwrap();
    let other = SampleSet::collect(&plan, vec![3, 1, 3, 9, 5]).unwrap();
    assert_eq!(one.values(), other.values());
}

#[test]
fn single_sample_is_smallest_and_largest() {
    let plan = RunPlan::new(1, 1).unwrap();
    let samples = SampleSet::collect(&plan, vec![7]).unwrap();
    assert_eq!(samples.len(), 1);
    assert_eq!(samples.min(), 7);
    assert_eq!(samples.max(), 7);
}

#[test]
fn sort_of_nothing_is_nothing() {
    assert_eq!(sort_ascending(&Vec::new()), Vec::<u128>::new());
}

#[test]
fn sort_keeps_a_single_element() {
    assert_eq!(sort_ascending(&vec![42]), vec![42]);
}

#[test]
fn sort_orders_two_elements() {
    assert_eq!(sort_ascending(&vec![2, 1]), vec![1, 2]);
    assert_eq!(sort_ascending(&vec![1, 2]), vec![1, 2]);
}

#[test]
fn sort_keeps_repeated_elements() {
    assert_eq!(sort_ascending(&vec![3, 1, 3, 1, 3]), vec![1, 1, 3, 3, 3]);
}

#[test]
fn sort_reverses_a_descending_sequence() {
    let descending: Vec<u128> = (0..257u128).rev().collect();
    let ascending: Vec<u128> = (0..257u128).collect();
    assert_eq!(sort_ascending(&descending), ascending);
}

#[test]
fn sort_handles_the_extreme_values() {
    assert_eq!(
        sort_ascending(&vec![u128::MAX, 0, u128::MAX - 1, 1]),
        vec![0, 1, u128::MAX - 1, u128::MAX]
    );
}

#[test]
fn sort_agrees_with_the_standard_sort() {
    for count in [0usize, 1, 2, 3, 10, 31, 32, 33, 1000, 4097] {
        let input = pseudo_random(count, 1 << 20);
        let mut expected = input.clone();
        expected.sort();
        assert_eq!(sort_ascending(&input), expected);
    }
}

#[test]
fn sort_leaves_its_input_alone() {
    let input = vec![9u128, 8, 7];
    let sorted = sort_ascending(&input);
    assert_eq!(input, vec![9, 8, 7]);
    assert_eq!(sorted, vec![7, 8, 9]);
}
