use simulator::curve::{
    build_h_grid, clean_mae_calc, combined_sigma, interpolate, mad_to_std, subtract_in_quadrature,
    GRID_POINTS,
};
use simulator::error::SimError;

/// One real unit in fixed-point units.
const SCALE: f64 = 1_000_000.0;

/// Closed-form expected absolute difference `E[|Z|]`, `Z ~ Normal(h, sigma)`.
fn closed_form_mad(h: f64, sigma: f64) -> f64 {
    h * statrs::function::erf::erf(h / std::f64::consts::SQRT_2 / sigma)
        + std::f64::consts::SQRT_2 * sigma * (-0.5 * (h / sigma).powi(2)).exp()
            / std::f64::consts::PI.sqrt()
}

/// The `h` grid and the expected-difference table for the combined scale of
/// the two given fixed-point noise scales.
fn curve_tables(sigma_x: i64, sigma_y: i64) -> (Vec<i64>, Vec<i64>) {
    let sigma = combined_sigma(sigma_x, sigma_y).unwrap();
    let h_grid = build_h_grid(sigma, GRID_POINTS).unwrap();
    let sigma_real = sigma as f64 / SCALE;
    let mut phi_grid: Vec<i64> = Vec::with_capacity(h_grid.len());
    for &h in h_grid.iter() {
        let phi = closed_form_mad(h as f64 / SCALE, sigma_real);
        phi_grid.push((phi * SCALE).floor() as i64);
    }
    (h_grid, phi_grid)
}

#[test]
fn combined_sigma_exact_value() {
    // floor(sqrt(180000^2 + 200000^2)) = floor(269072.48...)
    assert_eq!(combined_sigma(180_000, 200_000), Ok(269_072));
}

#[test]
fn combined_sigma_rejects_negative_scale() {
    assert_eq!(combined_sigma(-1, 200_000), Err(SimError::InvalidParameter));
    assert_eq!(combined_sigma(180_000, -5), Err(SimError::InvalidParameter));
}

#[test]
fn subtract_in_quadrature_exact_value() {
    // sqrt(13^2 - 3^2 - 4^2) = sqrt(144) = 12
    assert_eq!(subtract_in_quadrature(13, 3, 4), Ok(12));
}

#[test]
fn subtract_in_quadrature_zero_remainder() {
    assert_eq!(subtract_in_quadrature(500, 300, 400), Ok(0));
}

#[test]
fn subtract_in_quadrature_negative_radicand() {
    // Both known components set to the whole corrected scale force a
    // negative radicand, which is reported, not clamped.
    let corrected = combined_sigma(180_000, 200_000).unwrap();
    assert_eq!(
        subtract_in_quadrature(corrected, corrected, corrected),
        Err(SimError::NegativeRadicand)
    );
}

#[test]
fn subtract_in_quadrature_rejects_negative_scale() {
    assert_eq!(subtract_in_quadrature(-13, 3, 4), Err(SimError::InvalidParameter));
    assert_eq!(subtract_in_quadrature(13, -3, 4), Err(SimError::InvalidParameter));
    assert_eq!(subtract_in_quadrature(13, 3, -4), Err(SimError::InvalidParameter));
}

#[test]
fn mad_to_std_exact_values() {
    assert_eq!(mad_to_std(100), 125);
    assert_eq!(mad_to_std(1_000_000), 1_253_500);
    assert_eq!(mad_to_std(0), 0);
}

#[test]
fn h_grid_spans_zero_to_five_sigma() {
    let grid = build_h_grid(269_072, GRID_POINTS).unwrap();
    assert_eq!(grid.len(), GRID_POINTS);
    assert_eq!(grid[0], 0);
    assert_eq!(grid[GRID_POINTS - 1], 5 * 269_072);
    for w in grid.windows(2) {
        assert!(w[0] <= w[1]);
    }
}

#[test]
fn h_grid_rejects_bad_parameters() {
    assert_eq!(build_h_grid(-1, GRID_POINTS), Err(SimError::InvalidParameter));
    assert_eq!(build_h_grid(269_072, 1), Err(SimError::InvalidParameter));
}

#[test]
fn interpolate_exact_at_table_points() {
    let x = vec![0, 10, 20, 40];
    let y = vec![100, 110, 120, 140];
    assert_eq!(interpolate(&x, &y, 0), Ok(100));
    assert_eq!(interpolate(&x, &y, 20), Ok(120));
    assert_eq!(interpolate(&x, &y, 40), Ok(140));
}

#[test]
fn interpolate_linear_inside_bracket() {
    let x = vec![0, 10, 20, 40];
    let y = vec![100, 110, 120, 140];
    assert_eq!(interpolate(&x, &y, 5), Ok(105));
    assert_eq!(interpolate(&x, &y, 30), Ok(130));
}

#[test]
fn interpolate_rejects_out_of_domain() {
    let x = vec![0, 10, 20, 40];
    let y = vec![100, 110, 120, 140];
    assert_eq!(interpolate(&x, &y, -1), Err(SimError::OutOfDomain));
    assert_eq!(interpolate(&x, &y, 41), Err(SimError::OutOfDomain));
}

#[test]
fn curve_is_non_decreasing_in_h() {
    // Monotonicity of the closed-form expected-difference curve across the
    // whole dense grid, both in real units and after fixed-point rounding.
    let (h_grid, phi_grid) = curve_tables(180_000, 200_000);
    let sigma_real = combined_sigma(180_000, 200_000).unwrap() as f64 / SCALE;
    let mut prev = f64::MIN;
    for &h in h_grid.iter() {
        let phi = closed_form_mad(h as f64 / SCALE, sigma_real);
        assert!(phi >= prev);
        prev = phi;
    }
    for w in phi_grid.windows(2) {
        assert!(w[0] <= w[1]);
    }
}

#[test]
fn clean_mae_round_trips_curve_points() {
    // A query picked on the generated curve itself comes back at the `h`
    // that generated it, within a small tolerance.
    let (h_grid, phi_grid) = curve_tables(180_000, 200_000);
    for k in [1_000, 2_500, 5_000, 7_500, 9_000, 9_999] {
        let got = clean_mae_calc(phi_grid[k], 180_000, 200_000, &phi_grid).unwrap();
        let want = h_grid[k];
        let tolerance = want / 1000 + 2;
        assert!((got - want).abs() <= tolerance);
    }
}

#[test]
fn clean_mae_boundary_values() {
    let (h_grid, phi_grid) = curve_tables(180_000, 200_000);
    // Exactly at the first curve value the inversion returns the first grid
    // point, which is zero.
    assert_eq!(
        clean_mae_calc(phi_grid[0], 180_000, 200_000, &phi_grid),
        Ok(h_grid[0])
    );
    assert_eq!(h_grid[0], 0);
    // Beyond either end the inversion is undefined and must be rejected.
    let above = phi_grid[GRID_POINTS - 1] + 1;
    assert_eq!(
        clean_mae_calc(above, 180_000, 200_000, &phi_grid),
        Err(SimError::OutOfDomain)
    );
    let below = phi_grid[0] - 1;
    assert_eq!(
        clean_mae_calc(below, 180_000, 200_000, &phi_grid),
        Err(SimError::OutOfDomain)
    );
}

#[test]
fn clean_mae_zero_sigma_is_identity() {
    let flat = vec![0i64; GRID_POINTS];
    assert_eq!(clean_mae_calc(123_456, 0, 0, &flat), Ok(123_456));
    assert_eq!(clean_mae_calc(0, 0, 0, &flat), Ok(0));
    assert_eq!(clean_mae_calc(-5, 0, 0, &flat), Err(SimError::OutOfDomain));
}

#[test]
fn clean_mae_symmetric_in_sigmas() {
    let (_, phi_grid) = curve_tables(180_000, 200_000);
    for q in [215_000, 221_000, 250_000, 400_000] {
        assert_eq!(
            clean_mae_calc(q, 180_000, 200_000, &phi_grid),
            clean_mae_calc(q, 200_000, 180_000, &phi_grid)
        );
    }
}

#[test]
fn clean_mae_depends_only_on_combined_scale() {
    // One source carrying the whole combined scale, paired with a zero
    // source, corrects exactly as the two separate sources do.
    let (_, phi_grid) = curve_tables(180_000, 200_000);
    let s = combined_sigma(180_000, 200_000).unwrap();
    for q in [215_000, 221_000, 250_000] {
        assert_eq!(
            clean_mae_calc(q, 180_000, 200_000, &phi_grid),
            clean_mae_calc(q, s, 0, &phi_grid)
        );
    }
}

#[test]
fn combined_sigma_accepts_a_combined_scale_again() {
    // floor(sqrt(2) * 3e9) = 4242640687, still within the accepted range.
    let s = combined_sigma(3_000_000_000, 3_000_000_000).unwrap();
    assert_eq!(s, 4_242_640_687);
    assert_eq!(combined_sigma(s, 0), Ok(s));
}

#[test]
fn error_kinds_describe_themselves() {
    assert_eq!(SimError::InvalidParameter.describe(), "invalid parameter");
    assert_eq!(
        SimError::OutOfDomain.describe(),
        "observation outside the curve's range"
    );
}

#[test]
fn clean_mae_rejects_negative_scales() {
    let (_, phi_grid) = curve_tables(180_000, 200_000);
    assert_eq!(
        clean_mae_calc(221_000, -180_000, 200_000, &phi_grid),
        Err(SimError::InvalidParameter)
    );
}
