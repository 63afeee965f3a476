use nova_bench::format::format_number;
use nova_bench::stats::BenchmarkResult;

fn result_with(times: Vec<u128>) -> BenchmarkResult {
    BenchmarkResult {
        benchmark: "bench.js".to_string(),
        commit: "abc123".to_string(),
        times,
    }
}

#[test]
fn best_worst_of_unsorted_samples() {
    let r = result_with(vec![5, 1, 9]);
    assert_eq!(r.best(), 1);
    assert_eq!(r.worst(), 9);
}

#[test]
fn median_of_single_sample_is_that_sample() {
    let r = result_with(vec![5]);
    assert_eq!(r.median(), 5);
}

#[test]
fn median_of_even_count_truncates_middle_average() {
    let r = result_with(vec![1, 2, 3, 4]);
    assert_eq!(r.median(), 2);
}

#[test]
fn median_ignores_input_order() {
    let r = result_with(vec![4, 1, 3, 2]);
    assert_eq!(r.median(), 2);
    let odd = result_with(vec![9, 1, 5]);
    assert_eq!(odd.median(), 5);
}

#[test]
fn average_truncates() {
    let r = result_with(vec![1, 2, 4]);
    assert_eq!(r.average(), 2);
}

#[test]
fn stats_of_empty_samples_default_to_zero() {
    let r = result_with(vec![]);
    assert_eq!(r.best(), 0);
    assert_eq!(r.worst(), 0);
    assert_eq!(r.median(), 0);
    assert_eq!(r.average(), 0);
}

#[test]
fn stats_are_ordered_for_nonempty_samples() {
    let r = result_with(vec![17, 3, 250, 3, 99]);
    let best = r.best();
    let worst = r.worst();
    assert!(best <= r.median() && r.median() <= worst);
    assert!(best <= r.average() && r.average() <= worst);
}

#[test]
fn average_of_huge_samples_does_not_overflow() {
    let r = result_with(vec![u128::MAX, u128::MAX - 1]);
    assert_eq!(r.average(), u128::MAX - 1);
    let all_max = result_with(vec![u128::MAX, u128::MAX, u128::MAX]);
    assert_eq!(all_max.average(), u128::MAX);
}

#[test]
fn median_of_huge_samples_does_not_overflow() {
    let r = result_with(vec![u128::MAX, u128::MAX]);
    assert_eq!(r.median(), u128::MAX);
    let r2 = result_with(vec![u128::MAX - 2, u128::MAX]);
    assert_eq!(r2.median(), u128::MAX - 1);
}

#[test]
fn format_number_groups_thousands() {
    assert_eq!(format_number(0), "0");
    assert_eq!(format_number(7), "7");
    assert_eq!(format_number(100), "100");
    assert_eq!(format_number(1000), "1,000");
    assert_eq!(format_number(999999), "999,999");
    assert_eq!(format_number(1234567), "1,234,567");
}

#[test]
fn format_number_handles_the_largest_sample() {
    assert_eq!(
        format_number(u128::MAX),
        "340,282,366,920,938,463,463,374,607,431,768,211,455"
    );
}
