use simulator::error::SimError;
use simulator::signal::Measure;

#[test]
fn new_rejects_zero_size() {
    assert_eq!(Measure::new(0, 0, 10), Err(SimError::InvalidParameter));
}

#[test]
fn new_rejects_inverted_range() {
    assert_eq!(Measure::new(5, 10, 0), Err(SimError::InvalidParameter));
}

#[test]
fn new_draws_within_range_and_varies() {
    let v = Measure::new(5000, 0, 9).unwrap();
    assert_eq!(v.len(), 5000);
    for &s in v.iter() {
        assert!(0 <= s && s <= 9);
    }
    // A uniform draw over ten values is (overwhelmingly) not constant; a
    // source that echoed one of its bounds back would fail here.
    let first = v[0];
    assert!(v.iter().any(|&s| s != first));
}

#[test]
fn new_degenerate_range_is_constant() {
    let v = Measure::new(100, 42, 42).unwrap();
    assert!(v.iter().all(|&s| s == 42));
}

#[test]
fn simulate_adds_noise_elementwise() {
    let base = vec![1, 2, 3];
    let noise = vec![10, -20, 30];
    assert_eq!(Measure::simulate(&base, &noise), Ok(vec![11, -18, 33]));
}

#[test]
fn simulate_rejects_length_mismatch() {
    let base = vec![1, 2, 3];
    let noise = vec![10, -20];
    assert_eq!(Measure::simulate(&base, &noise), Err(SimError::LengthMismatch));
}

#[test]
fn mean_difference_exact_value() {
    let a = vec![0, 0];
    let b = vec![3, 5];
    assert_eq!(Measure::mean_difference(&a, &b), Ok(4));
}

#[test]
fn mean_difference_rounds_up_small_differences() {
    // The quantised mean rounds up, so any difference at all keeps it above
    // zero: 2/3 of a unit becomes one unit.
    let a = vec![0, 0, 0];
    let b = vec![0, 0, 2];
    assert_eq!(Measure::mean_difference(&a, &b), Ok(1));
}

#[test]
fn mean_difference_is_symmetric() {
    let a = vec![5, -7, 20, 1];
    let b = vec![-3, 4, 20, 9];
    assert_eq!(
        Measure::mean_difference(&a, &b),
        Measure::mean_difference(&b, &a)
    );
}

#[test]
fn mean_difference_zero_on_identical() {
    let a = vec![17, -4, 0, 1_000_000];
    assert_eq!(Measure::mean_difference(&a, &a), Ok(0));
}

#[test]
fn mean_difference_positive_on_distinct() {
    let a = vec![17, -4, 0];
    let b = vec![17, -4, 3];
    assert_eq!(Measure::mean_difference(&a, &b), Ok(1));
}

#[test]
fn population_std_dev_exact_value() {
    // n = 8, mean 5, variance 4: sqrt(8 * 232 - 40 * 40) / 8 = 16 / 8 = 2.
    let data = vec![2, 4, 4, 4, 5, 5, 7, 9];
    assert_eq!(Measure::population_std_dev(&data), Ok(2));
}

#[test]
fn population_std_dev_zero_on_constant_signal() {
    let data = vec![42, 42, 42, 42];
    assert_eq!(Measure::population_std_dev(&data), Ok(0));
}

#[test]
fn population_std_dev_rejects_empty() {
    let data: Vec<i64> = Vec::new();
    assert_eq!(Measure::population_std_dev(&data), Err(SimError::InvalidParameter));
}

#[test]
fn mean_difference_rejects_empty() {
    let a: Vec<i64> = Vec::new();
    let b: Vec<i64> = Vec::new();
    assert_eq!(Measure::mean_difference(&a, &b), Err(SimError::LengthMismatch));
}

#[test]
fn mean_difference_rejects_length_mismatch() {
    let a = vec![1, 2, 3];
    let b = vec![1, 2];
    assert_eq!(Measure::mean_difference(&a, &b), Err(SimError::LengthMismatch));
}
