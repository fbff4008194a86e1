//! The bias-correction engine: the expected-difference table, its inversion
//! by linear interpolation, and the quadrature operations on noise scales.
//!
//! The closed-form expected mean absolute difference itself is a
//! floating-point special function (it needs `erf` and `exp`), so the caller
//! evaluates it over the `h` grid built here and hands the resulting table
//! in; everything around that evaluation — grid construction, the monotone
//! inversion, the domain checks and the quadrature algebra — is exact
//! fixed-point arithmetic and verified.

use vstd::prelude::*;

use crate::SAMPLE_LIMIT;
use crate::SIGMA_LIMIT;
use crate::error::SimError;
use crate::math::isqrt_spec;
use crate::math::isqrt128;

verus! {

use vstd::arithmetic::div_mod::lemma_div_is_ordered;
use vstd::arithmetic::div_mod::lemma_div_multiples_vanish;
use vstd::arithmetic::div_mod::lemma_div_pos_is_pos;

/// Number of points of the expected-difference table.
pub const GRID_POINTS: usize = 10_000;

/// A table whose entries never decrease.
pub open spec fn non_decreasing(s: Seq<i64>) -> bool {
    forall|i: int, j: int| 0 <= i <= j < s.len() ==> s[i] <= s[j]
}

/// Every entry within the fixed-point working range.
pub open spec fn bounded(s: Seq<i64>) -> bool {
    forall|i: int| 0 <= i < s.len() ==> -SAMPLE_LIMIT <= #[trigger] s[i] <= SAMPLE_LIMIT
}

/// Smallest index whose entry is at least `q`; the length when every entry
/// lies below `q`.
pub open spec fn lower_index(x: Seq<i64>, q: i64) -> int
    decreases x.len(),
{
    if x.len() == 0 {
        0
    } else if x[0] >= q {
        0
    } else {
        1 + lower_index(x.subrange(1, x.len() as int), q)
    }
}

/// `lower_index` is within the table, everything before it lies below `q`,
/// and its own entry (when inside the table) is at least `q`.
pub proof fn lemma_lower_index_props(x: Seq<i64>, q: i64)
    ensures
        0 <= lower_index(x, q) <= x.len(),
        forall|j: int| 0 <= j < lower_index(x, q) ==> x[j] < q,
        lower_index(x, q) < x.len() ==> x[lower_index(x, q)] >= q,
    decreases x.len(),
{
    if x.len() > 0 && x[0] < q {
        let sub = x.subrange(1, x.len() as int);
        lemma_lower_index_props(sub, q);
        let i = lower_index(x, q);
        assert forall|j: int| 0 <= j < i implies x[j] < q by {
            if j >= 1 {
                assert(sub[j - 1] < q);
            }
        }
        if i < x.len() {
            assert(x[i] == sub[i - 1]);
        }
    }
}

/// Any index with `lower_index`'s characteristic properties is `lower_index`.
pub proof fn lemma_lower_index_unique(x: Seq<i64>, q: i64, i: int)
    requires
        0 <= i <= x.len(),
        forall|j: int| 0 <= j < i ==> x[j] < q,
        i < x.len() ==> x[i] >= q,
    ensures
        i == lower_index(x, q),
{
    lemma_lower_index_props(x, q);
    let l = lower_index(x, q);
    if i < l {
        assert(x[i] < q);
    }
    if l < i {
        assert(x[l] < q);
    }
}

/// Inverse lookup in a tabled non-decreasing function given as `x` against
/// `y`: the `y` entry of the first `x` entry equal to `q`, or the linear
/// interpolation (rounded down) inside the bracketing interval. Meaningful
/// when `x` is non-decreasing and `q` lies within `[x[0], x[len - 1]]`.
pub open spec fn interp_at(x: Seq<i64>, y: Seq<i64>, q: i64) -> int {
    let i = lower_index(x, q);
    if i < x.len() && x[i] == q {
        y[i] as int
    } else {
        y[i - 1] + (q - x[i - 1]) * (y[i] - y[i - 1]) / (x[i] - x[i - 1])
    }
}

/// Querying a table exactly at an entry that is the first to hold its value
/// returns the paired entry exactly: the round trip of the forward table and
/// the inverse lookup at a table point is exact.
pub proof fn lemma_interp_at_table_point(x: Seq<i64>, y: Seq<i64>, k: int)
    requires
        x.len() == y.len(),
        0 <= k < x.len(),
        forall|j: int| 0 <= j < k ==> x[j] < x[k],
    ensures
        interp_at(x, y, x[k]) == y[k],
{
    lemma_lower_index_unique(x, x[k], k);
}

/// Boundary law: querying exactly at the first table entry returns the first
/// paired entry, whatever ties the table holds.
pub proof fn lemma_interp_at_first_point(x: Seq<i64>, y: Seq<i64>)
    requires
        x.len() == y.len(),
        x.len() > 0,
    ensures
        interp_at(x, y, x[0]) == y[0],
{
    lemma_interp_at_table_point(x, y, 0);
}

/// Invert a non-decreasing table by linear interpolation: exact at table
/// points, linear (rounded down) inside a bracket, and rejected as out of
/// domain beyond either end of the table.
pub fn interpolate(x_table: &Vec<i64>, y_table: &Vec<i64>, query: i64) -> (r: Result<
    i64,
    SimError,
>)
    requires
        x_table@.len() == y_table@.len(),
        x_table@.len() > 0,
        non_decreasing(x_table@),
        non_decreasing(y_table@),
        bounded(x_table@),
        bounded(y_table@),
    ensures
        match r {
            Ok(v) => x_table@[0] <= query <= x_table@[x_table@.len() - 1] && v as int == interp_at(
                x_table@,
                y_table@,
                query,
            ),
            Err(e) => e == SimError::OutOfDomain && (query < x_table@[0]
                || query > x_table@[x_table@.len() - 1]),
        },
{
    let n = x_table.len();
    if query < x_table[0] || query > x_table[n - 1] {
        return Err(SimError::OutOfDomain);
    }
    let mut idx: usize = 0;
    while x_table[idx] < query
        invariant
            idx < n,
            n == x_table@.len(),
            n == y_table@.len(),
            x_table@[n - 1] >= query,
            forall|j: int| 0 <= j < idx ==> x_table@[j] < query,
        decreases n - idx,
    {
        idx = idx + 1;
    }
    proof {
        lemma_lower_index_unique(x_table@, query, idx as int);
    }
    if x_table[idx] == query {
        return Ok(y_table[idx]);
    }
    assert(idx >= 1);
    let x_lo = x_table[idx - 1];
    let x_hi = x_table[idx];
    let y_lo = y_table[idx - 1];
    let y_hi = y_table[idx];
    assert(x_lo < query < x_hi);
    assert(y_lo <= y_hi);
    proof {
        assert(((query - x_lo) as int) * ((y_hi - y_lo) as int) <= ((x_hi - x_lo) as int) * ((y_hi
            - y_lo) as int)) by (nonlinear_arith)
            requires (query - x_lo) as int <= (x_hi - x_lo) as int, (y_hi - y_lo) as int >= 0;
        lemma_div_is_ordered(
            ((query - x_lo) as int) * ((y_hi - y_lo) as int),
            ((x_hi - x_lo) as int) * ((y_hi - y_lo) as int),
            (x_hi - x_lo) as int,
        );
        lemma_div_multiples_vanish((y_hi - y_lo) as int, (x_hi - x_lo) as int);
        lemma_div_pos_is_pos(((query - x_lo) as int) * ((y_hi - y_lo) as int), (x_hi - x_lo) as int);
        assert(((query - x_lo) as int) * ((y_hi - y_lo) as int) >= 0) by (nonlinear_arith)
            requires (query - x_lo) as int >= 0, (y_hi - y_lo) as int >= 0;
        assert(((query - x_lo) as int) * ((y_hi - y_lo) as int) <= 4_000_000_000_000_000_000_000_000int)
            by (nonlinear_arith)
            requires
                0 <= (query - x_lo) as int <= 2_000_000_000_000int,
                0 <= (y_hi - y_lo) as int <= 2_000_000_000_000int;
    }
    let num: u128 = ((query - x_lo) as u128) * ((y_hi - y_lo) as u128);
    let den: u128 = (x_hi - x_lo) as u128;
    let frac: u128 = num / den;
    assert(frac as int <= (y_hi - y_lo) as int);
    let v: i64 = y_lo + (frac as i64);
    Ok(v)
}

/// The `h` grid of the expected-difference table for a combined scale
/// `sigma`: `n` evenly spaced points from `0` to `5 * sigma` inclusive,
/// entry `i` being `5 * sigma * i / (n - 1)`, rounded down.
pub open spec fn h_grid_spec(sigma: int, n: int) -> Seq<i64> {
    Seq::new(n as nat, |i: int| (5 * sigma * i / (n - 1)) as i64)
}

/// One grid entry is between `0` and the top of the swept range.
proof fn lemma_h_val_bounds(sigma: int, n: int, i: int)
    requires
        0 <= sigma,
        2 <= n,
        0 <= i < n,
    ensures
        0 <= 5 * sigma * i / (n - 1) <= 5 * sigma,
{
    assert(5 * sigma * i >= 0) by (nonlinear_arith)
        requires sigma >= 0, i >= 0;
    lemma_div_pos_is_pos(5 * sigma * i, n - 1);
    assert(5 * sigma * i <= (n - 1) * (5 * sigma)) by (nonlinear_arith)
        requires sigma >= 0, 0 <= i <= n - 1;
    lemma_div_is_ordered(5 * sigma * i, (n - 1) * (5 * sigma), n - 1);
    lemma_div_multiples_vanish(5 * sigma, n - 1);
}

/// The grid of `h_grid_spec` starts at zero, ends exactly at `5 * sigma`,
/// never decreases, and stays within the fixed-point working range.
pub proof fn lemma_h_grid_props(sigma: int, n: int)
    requires
        0 <= sigma <= 6_100_000_000,
        2 <= n <= 1_000_000,
    ensures
        h_grid_spec(sigma, n).len() == n,
        h_grid_spec(sigma, n)[0] == 0,
        h_grid_spec(sigma, n)[n - 1] == 5 * sigma,
        non_decreasing(h_grid_spec(sigma, n)),
        bounded(h_grid_spec(sigma, n)),
        forall|i: int| 0 <= i < n ==> #[trigger] h_grid_spec(sigma, n)[i] == 5 * sigma * i / (n
            - 1),
{
    let g = h_grid_spec(sigma, n);
    assert forall|i: int| 0 <= i < n implies #[trigger] g[i] == 5 * sigma * i / (n - 1) by {
        lemma_h_val_bounds(sigma, n, i);
    }
    assert((n - 1) * 0 == 0);
    lemma_div_multiples_vanish(0, n - 1);
    assert(5 * sigma * 0 == 0) by (nonlinear_arith);
    assert(g[0] == 0);
    assert(5 * sigma * (n - 1) == (n - 1) * (5 * sigma)) by (nonlinear_arith);
    lemma_div_multiples_vanish(5 * sigma, n - 1);
    assert(g[n - 1] == 5 * sigma);
    assert forall|i: int, j: int| 0 <= i <= j < n implies g[i] <= g[j] by {
        lemma_h_val_bounds(sigma, n, i);
        lemma_h_val_bounds(sigma, n, j);
        assert(5 * sigma * i <= 5 * sigma * j) by (nonlinear_arith)
            requires sigma >= 0, 0 <= i <= j;
        lemma_div_is_ordered(5 * sigma * i, 5 * sigma * j, n - 1);
    }
}

/// Build the `h` grid as a vector: `n` evenly spaced fixed-point points from
/// `0` to `5 * sigma` inclusive.
pub fn build_h_grid(sigma: i64, n: usize) -> (r: Result<Vec<i64>, SimError>)
    requires
        sigma <= 6_100_000_000,
        n <= 1_000_000,
    ensures
        match r {
            Ok(v) => sigma >= 0 && n >= 2 && v@ == h_grid_spec(sigma as int, n as int),
            Err(e) => e == SimError::InvalidParameter && (sigma < 0 || n < 2),
        },
{
    if sigma < 0 || n < 2 {
        return Err(SimError::InvalidParameter);
    }
    let mut grid: Vec<i64> = Vec::new();
    let mut i: usize = 0;
    while i < n
        invariant
            i <= n,
            2 <= n <= 1_000_000,
            0 <= sigma <= 6_100_000_000,
            grid@.len() == i,
            forall|j: int| 0 <= j < i ==> #[trigger] grid@[j] == 5 * (sigma as int) * j / (n as int
                - 1),
        decreases n - i,
    {
        proof {
            lemma_h_val_bounds(sigma as int, n as int, i as int);
            assert(5 * (sigma as int) * (i as int) <= 30_500_000_000_000_000int) by (
            nonlinear_arith)
                requires 0 <= sigma <= 6_100_000_000int, 0 <= i <= 1_000_000int;
        }
        let num: u128 = 5u128 * (sigma as u128) * (i as u128);
        let val: u128 = num / ((n - 1) as u128);
        grid.push(val as i64);
        i = i + 1;
    }
    proof {
        assert forall|j: int| 0 <= j < n implies grid@[j] == h_grid_spec(
            sigma as int,
            n as int,
        )[j] by {
            lemma_h_val_bounds(sigma as int, n as int, j);
        }
        assert(grid@ =~= h_grid_spec(sigma as int, n as int));
    }
    Ok(grid)
}

/// Combined scale of two independent zero-mean Gaussian noise sources:
/// the floor square root of the quadrature sum of the two scales.
pub fn combined_sigma(sigma_x: i64, sigma_y: i64) -> (r: Result<i64, SimError>)
    requires
        sigma_x <= SIGMA_LIMIT,
        sigma_y <= SIGMA_LIMIT,
    ensures
        match r {
            Ok(v) => sigma_x >= 0 && sigma_y >= 0 && 0 <= v <= 6_100_000_000 && v as int
                == isqrt_spec(sigma_x * sigma_x + sigma_y * sigma_y),
            Err(e) => e == SimError::InvalidParameter && (sigma_x < 0 || sigma_y < 0),
        },
{
    if sigma_x < 0 || sigma_y < 0 {
        return Err(SimError::InvalidParameter);
    }
    assert(SIGMA_LIMIT == 4_300_000_000);
    proof {
        assert((sigma_x as int) * (sigma_x as int) <= 18_490_000_000_000_000_000int
            && (sigma_x as int) * (sigma_x as int) >= 0) by (nonlinear_arith)
            requires 0 <= sigma_x <= 4_300_000_000int;
        assert((sigma_y as int) * (sigma_y as int) <= 18_490_000_000_000_000_000int
            && (sigma_y as int) * (sigma_y as int) >= 0) by (nonlinear_arith)
            requires 0 <= sigma_y <= 4_300_000_000int;
    }
    let sx = sigma_x as u128;
    let sy = sigma_y as u128;
    let s2: u128 = sx * sx + sy * sy;
    let rt = isqrt128(s2);
    proof {
        assert((rt as int) <= 6_100_000_000int) by (nonlinear_arith)
            requires (rt as int) * (rt as int) <= 36_980_000_000_000_000_000int, rt >= 0;
    }
    Ok(rt as i64)
}

/// Quadrature subtraction: the scale of one remaining noise component once
/// two known independent components are removed from a combined scale. A
/// negative radicand means the known components already exceed the combined
/// scale; it is reported, never clamped.
pub fn subtract_in_quadrature(total: i64, known_a: i64, known_b: i64) -> (r: Result<i64, SimError>)
    requires
        total <= SAMPLE_LIMIT,
        known_a <= SAMPLE_LIMIT,
        known_b <= SAMPLE_LIMIT,
    ensures
        match r {
            Ok(v) => total >= 0 && known_a >= 0 && known_b >= 0 && total * total - known_a * known_a
                - known_b * known_b >= 0 && v as int == isqrt_spec(
                total * total - known_a * known_a - known_b * known_b,
            ),
            Err(e) => (e == SimError::InvalidParameter && (total < 0 || known_a < 0 || known_b < 0))
                || (e == SimError::NegativeRadicand && total >= 0 && known_a >= 0 && known_b >= 0
                && total * total - known_a * known_a - known_b * known_b < 0),
        },
{
    if total < 0 || known_a < 0 || known_b < 0 {
        return Err(SimError::InvalidParameter);
    }
    assert(SAMPLE_LIMIT == 1_000_000_000_000);
    proof {
        assert((total as int) * (total as int) <= 1_000_000_000_000_000_000_000_000int && (
        total as int) * (total as int) >= 0) by (nonlinear_arith)
            requires 0 <= total <= 1_000_000_000_000int;
        assert((known_a as int) * (known_a as int) <= 1_000_000_000_000_000_000_000_000int && (
        known_a as int) * (known_a as int) >= 0) by (nonlinear_arith)
            requires 0 <= known_a <= 1_000_000_000_000int;
        assert((known_b as int) * (known_b as int) <= 1_000_000_000_000_000_000_000_000int && (
        known_b as int) * (known_b as int) >= 0) by (nonlinear_arith)
            requires 0 <= known_b <= 1_000_000_000_000int;
    }
    let t2 = (total as u128) * (total as u128);
    let a2 = (known_a as u128) * (known_a as u128);
    let b2 = (known_b as u128) * (known_b as u128);
    if a2 + b2 > t2 {
        return Err(SimError::NegativeRadicand);
    }
    let rad: u128 = t2 - a2 - b2;
    let rt = isqrt128(rad);
    proof {
        assert((rt as int) <= 1_000_000_000_000int) by (nonlinear_arith)
            requires (rt as int) * (rt as int) <= 1_000_000_000_000_000_000_000_000int, rt >= 0;
    }
    Ok(rt as i64)
}

/// A documented empirical constant converts a mean-absolute-difference error
/// estimate into an equivalent single-source Gaussian standard deviation:
/// `std = 1.2535 * mad` (the ratio `sqrt(pi / 2)`), here in fixed point,
/// rounded down.
pub fn mad_to_std(mad: i64) -> (r: i64)
    requires
        0 <= mad <= SAMPLE_LIMIT,
    ensures
        r == mad * 12535 / 10000,
{
    let scaled: u64 = (mad as u64) * 12535;
    (scaled / 10000) as i64
}

/// A `Result` of fixed-point values, widened so it can be compared against a
/// mathematical-integer result.
pub open spec fn widen_result(r: Result<i64, SimError>) -> Result<int, SimError> {
    match r {
        Ok(v) => Ok(v as int),
        Err(e) => Err(e),
    }
}

/// What the bias correction returns, as a function of its inputs: reject
/// negative scales; with a zero combined scale the curve degenerates to the
/// identity, so a non-negative observation comes back unchanged; otherwise
/// invert the supplied expected-difference table over the `h` grid, rejecting
/// observations outside the table's range.
pub open spec fn clean_mae_spec(phi_obs: i64, sigma_x: i64, sigma_y: i64, curve: Seq<i64>) -> Result<
    int,
    SimError,
> {
    if sigma_x < 0 || sigma_y < 0 {
        Err(SimError::InvalidParameter)
    } else {
        let sigma = isqrt_spec(sigma_x * sigma_x + sigma_y * sigma_y);
        if sigma == 0 {
            if phi_obs >= 0 {
                Ok(phi_obs as int)
            } else {
                Err(SimError::OutOfDomain)
            }
        } else if phi_obs < curve[0] || phi_obs > curve[curve.len() - 1] {
            Err(SimError::OutOfDomain)
        } else {
            Ok(interp_at(curve, h_grid_spec(sigma, curve.len() as int), phi_obs))
        }
    }
}

/// Bias-corrected combined noise scale: the `h` at which the expected
/// mean-absolute-difference curve (evaluated by the caller over this grid's
/// points for the combined scale of `sigma_x` and `sigma_y`, non-decreasing
/// by the model) passes through the observed mean absolute difference.
pub fn clean_mae_calc(phi_obs: i64, sigma_x: i64, sigma_y: i64, phi_curve: &Vec<i64>) -> (r: Result<
    i64,
    SimError,
>)
    requires
        sigma_x <= SIGMA_LIMIT,
        sigma_y <= SIGMA_LIMIT,
        phi_curve@.len() == GRID_POINTS,
        non_decreasing(phi_curve@),
        bounded(phi_curve@),
    ensures
        widen_result(r) == clean_mae_spec(phi_obs, sigma_x, sigma_y, phi_curve@),
{
    if sigma_x < 0 || sigma_y < 0 {
        return Err(SimError::InvalidParameter);
    }
    let sigma = match combined_sigma(sigma_x, sigma_y) {
        Ok(s) => s,
        Err(e) => {
            return Err(e);
        },
    };
    if sigma == 0 {
        if phi_obs >= 0 {
            return Ok(phi_obs);
        } else {
            return Err(SimError::OutOfDomain);
        }
    }
    let h_grid = match build_h_grid(sigma, GRID_POINTS) {
        Ok(g) => g,
        Err(e) => {
            return Err(e);
        },
    };
    proof {
        lemma_h_grid_props(sigma as int, GRID_POINTS as int);
    }
    interpolate(phi_curve, &h_grid, phi_obs)
}

/// The combined scale of two admissible noise scales stays within the range
/// the grid construction accepts.
proof fn lemma_combined_scale_range(sigma_x: i64, sigma_y: i64)
    requires
        0 <= sigma_x <= SIGMA_LIMIT,
        0 <= sigma_y <= SIGMA_LIMIT,
    ensures
        0 <= isqrt_spec(sigma_x * sigma_x + sigma_y * sigma_y) <= 6_100_000_000,
{
    assert((sigma_x as int) * (sigma_x as int) + (sigma_y as int) * (sigma_y as int)
        <= 36_980_000_000_000_000_000int && (sigma_x as int) * (sigma_x as int) + (sigma_y as int)
        * (sigma_y as int) >= 0) by (nonlinear_arith)
        requires 0 <= sigma_x <= 4_300_000_000int, 0 <= sigma_y <= 4_300_000_000int;
    let s2 = sigma_x * sigma_x + sigma_y * sigma_y;
    crate::math::lemma_isqrt_spec_bounds(s2);
    let s = isqrt_spec(s2);
    assert(s <= 6_100_000_000int) by (nonlinear_arith)
        requires s >= 0, s * s <= 36_980_000_000_000_000_000int;
}

/// Round trip of the forward and inverse model: an observation picked
/// exactly at curve entry `k` — the first entry holding that value — is
/// corrected back exactly to grid point `k` of the `h` sweep.
pub proof fn lemma_clean_mae_round_trip(sigma_x: i64, sigma_y: i64, curve: Seq<i64>, k: int)
    requires
        0 <= sigma_x <= SIGMA_LIMIT,
        0 <= sigma_y <= SIGMA_LIMIT,
        isqrt_spec(sigma_x * sigma_x + sigma_y * sigma_y) > 0,
        curve.len() == GRID_POINTS,
        non_decreasing(curve),
        0 <= k < curve.len(),
        forall|j: int| 0 <= j < k ==> curve[j] < curve[k],
    ensures
        clean_mae_spec(curve[k], sigma_x, sigma_y, curve) == Ok::<int, SimError>(
            h_grid_spec(
                isqrt_spec(sigma_x * sigma_x + sigma_y * sigma_y),
                curve.len() as int,
            )[k] as int,
        ),
{
    let sigma = isqrt_spec(sigma_x * sigma_x + sigma_y * sigma_y);
    lemma_combined_scale_range(sigma_x, sigma_y);
    let h = h_grid_spec(sigma, curve.len() as int);
    lemma_h_grid_props(sigma, curve.len() as int);
    lemma_interp_at_table_point(curve, h, k);
    assert(curve[0] <= curve[k] <= curve[curve.len() - 1]);
}

/// Boundary law: for a combined scale above zero, an observation exactly at
/// the first curve value is corrected to the first grid point, which is zero.
pub proof fn lemma_clean_mae_at_curve_start(sigma_x: i64, sigma_y: i64, curve: Seq<i64>)
    requires
        0 <= sigma_x <= SIGMA_LIMIT,
        0 <= sigma_y <= SIGMA_LIMIT,
        isqrt_spec(sigma_x * sigma_x + sigma_y * sigma_y) > 0,
        curve.len() == GRID_POINTS,
        non_decreasing(curve),
    ensures
        clean_mae_spec(curve[0], sigma_x, sigma_y, curve) == Ok::<int, SimError>(0),
{
    lemma_clean_mae_round_trip(sigma_x, sigma_y, curve, 0);
    let sigma = isqrt_spec(sigma_x * sigma_x + sigma_y * sigma_y);
    lemma_combined_scale_range(sigma_x, sigma_y);
    lemma_h_grid_props(sigma, curve.len() as int);
}

/// A zero combined scale is the identity map: the corrected scale of any
/// non-negative observation is the observation itself.
pub proof fn lemma_clean_mae_identity(phi_obs: i64, curve: Seq<i64>)
    requires
        phi_obs >= 0,
    ensures
        clean_mae_spec(phi_obs, 0, 0, curve) == Ok::<int, SimError>(phi_obs as int),
{
    assert(isqrt_spec(0) == 0);
}

/// Only the quadrature sum of the two known scales matters: swapping
/// `sigma_x` and `sigma_y` leaves the corrected scale unchanged.
pub proof fn lemma_clean_mae_symmetric(phi_obs: i64, sigma_x: i64, sigma_y: i64, curve: Seq<i64>)
    ensures
        clean_mae_spec(phi_obs, sigma_x, sigma_y, curve) == clean_mae_spec(
            phi_obs,
            sigma_y,
            sigma_x,
            curve,
        ),
{
}

/// Only the quadrature sum of the two known scales enters the correction at
/// all: the result equals what one noise source carrying the whole combined
/// scale, paired with a zero source, would give. Holds whenever that
/// combined scale is representable.
pub proof fn lemma_clean_mae_combined_only(
    phi_obs: i64,
    sigma_x: i64,
    sigma_y: i64,
    curve: Seq<i64>,
)
    requires
        0 <= sigma_x,
        0 <= sigma_y,
        isqrt_spec(sigma_x * sigma_x + sigma_y * sigma_y) <= i64::MAX,
    ensures
        clean_mae_spec(phi_obs, sigma_x, sigma_y, curve) == clean_mae_spec(
            phi_obs,
            isqrt_spec(sigma_x * sigma_x + sigma_y * sigma_y) as i64,
            0,
            curve,
        ),
{
    assert(sigma_x * sigma_x + sigma_y * sigma_y >= 0) by (nonlinear_arith)
        requires sigma_x >= 0, sigma_y >= 0;
    let s2 = sigma_x * sigma_x + sigma_y * sigma_y;
    crate::math::lemma_isqrt_spec_bounds(s2);
    let s = isqrt_spec(s2);
    let si = s as i64;
    assert(si as int == s);
    assert(s * s < (s + 1) * (s + 1)) by (nonlinear_arith)
        requires s >= 0;
    crate::math::lemma_isqrt_unique((si as int) * (si as int) + 0 * 0, s);
}

} // verus!
