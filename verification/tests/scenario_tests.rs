use rand_distr::Distribution;
use simulator::curve::{build_h_grid, clean_mae_calc, combined_sigma, GRID_POINTS};
use simulator::signal::Measure;

/// One real unit in fixed-point units.
const SCALE_F: f64 = 1_000_000.0;

/// Closed-form expected absolute difference `E[|Z|]`, `Z ~ Normal(h, sigma)`.
fn mad_formula(h: f64, sigma: f64) -> f64 {
    h * statrs::function::erf::erf(h / std::f64::consts::SQRT_2 / sigma)
        + std::f64::consts::SQRT_2 * sigma * (-0.5 * (h / sigma).powi(2)).exp()
            / std::f64::consts::PI.sqrt()
}

/// Independent zero-mean Gaussian noise draws with real-unit scale
/// `std_real`, rounded to fixed point.
fn gaussian_noise(len: usize, std_real: f64) -> Vec<i64> {
    let normal = rand_distr::Normal::new(0.0f64, std_real).unwrap();
    let mut rng = rand::thread_rng();
    (0..len)
        .map(|_| {
            let draw = (normal.sample(&mut rng) * SCALE_F).round() as i64;
            assert!(draw.abs() <= simulator::SAMPLE_LIMIT, "noise draw out of range");
            draw
        })
        .collect()
}

/// The verified aggregates require samples within the library's working
/// range; derived signals must be checked before they are handed back in.
fn assert_within_range(v: &[i64]) {
    for &s in v {
        assert!(s.abs() <= simulator::SAMPLE_LIMIT, "sample out of range");
    }
}

/// The expected-difference table for the combined scale of the two given
/// fixed-point noise scales.
fn phi_table(sigma_x: i64, sigma_y: i64) -> Vec<i64> {
    let sigma = combined_sigma(sigma_x, sigma_y).unwrap();
    let h_grid = build_h_grid(sigma, GRID_POINTS).unwrap();
    let sigma_real = sigma as f64 / SCALE_F;
    h_grid
        .iter()
        .map(|&h| (mad_formula(h as f64 / SCALE_F, sigma_real) * SCALE_F).floor() as i64)
        .collect()
}

/// One synthetic experiment: does the bias-corrected estimate land closer to
/// the model's real mean absolute error than the naive estimate does?
fn correction_beats_naive_once() -> bool {
    let sampling_size = 1000;
    // Model error 0.07, input-propagated noise 0.18, test noise 0.20.
    let base = Measure::new(sampling_size, 8_000_000, 12_000_000).unwrap();
    let test = Measure::simulate(&base, &gaussian_noise(sampling_size, 0.20)).unwrap();
    let model = Measure::simulate(&base, &gaussian_noise(sampling_size, 0.07)).unwrap();
    assert_within_range(&model);
    let noisy_model = Measure::simulate(&model, &gaussian_noise(sampling_size, 0.18)).unwrap();
    assert_within_range(&noisy_model);
    assert_within_range(&test);
    let real_mae = Measure::mean_difference(&model, &base).unwrap();
    let wrong_mae = Measure::mean_difference(&noisy_model, &test).unwrap();
    let curve = phi_table(180_000, 200_000);
    match clean_mae_calc(wrong_mae, 180_000, 200_000, &curve) {
        Ok(clean_mae) => (clean_mae - real_mae).abs() < (wrong_mae - real_mae).abs(),
        Err(_) => false,
    }
}

#[test]
fn end_to_end_correction_beats_naive_estimate() {
    // A statistical assertion: the correction must win in the clear majority
    // of independent repetitions.
    let mut successes = 0;
    for _ in 0..9 {
        if correction_beats_naive_once() {
            successes += 1;
        }
    }
    assert!(successes >= 5);
}
