//! Synthetic signals and the paired-sequence aggregate they are judged by.
//!
//! A signal is a `Vec<i64>` of fixed-point samples. `Measure::new` draws a
//! uniform base signal, `Measure::simulate` applies the additive noise model
//! (the caller supplies one noise draw per sample, so the arithmetic here is
//! exact and verified), and `Measure::mean_difference` and
//! `Measure::population_std_dev` are the aggregate statistics signals are
//! judged by.

use vstd::prelude::*;

use crate::SAMPLE_LIMIT;
use crate::error::SimError;
use crate::math::isqrt_spec;
use crate::math::isqrt128;
use rand_distr::Distribution;

verus! {

use vstd::arithmetic::div_mod::lemma_div_is_ordered;
use vstd::arithmetic::div_mod::lemma_div_multiples_vanish;
use vstd::arithmetic::div_mod::lemma_div_multiples_vanish_fancy;
use vstd::arithmetic::div_mod::lemma_div_pos_is_pos;

/// Magnitude of the difference of two samples, as a mathematical integer.
pub open spec fn abs_diff(x: i64, y: i64) -> int {
    if x >= y {
        x - y
    } else {
        y - x
    }
}

/// Sum of `|a[i] - b[i]|` over the first `n` paired positions.
pub open spec fn sum_abs_diff_to(a: Seq<i64>, b: Seq<i64>, n: int) -> int
    decreases n,
{
    if n <= 0 {
        0
    } else {
        sum_abs_diff_to(a, b, n - 1) + abs_diff(a[n - 1], b[n - 1])
    }
}

/// Sum of `|a[i] - b[i]|` over all paired positions.
pub open spec fn sum_abs_diff(a: Seq<i64>, b: Seq<i64>) -> int {
    sum_abs_diff_to(a, b, a.len() as int)
}

/// A sum of magnitudes is never negative.
pub proof fn lemma_sum_abs_diff_nonneg(a: Seq<i64>, b: Seq<i64>, n: int)
    ensures
        sum_abs_diff_to(a, b, n) >= 0,
    decreases n,
{
    if n > 0 {
        lemma_sum_abs_diff_nonneg(a, b, n - 1);
    }
}

/// The mean absolute difference is symmetric in its two sequences: the sum
/// it is built from does not change when the sequences are swapped.
pub proof fn lemma_sum_abs_diff_symmetric(a: Seq<i64>, b: Seq<i64>, n: int)
    ensures
        sum_abs_diff_to(a, b, n) == sum_abs_diff_to(b, a, n),
    decreases n,
{
    if n > 0 {
        lemma_sum_abs_diff_symmetric(a, b, n - 1);
    }
}

/// The sum of absolute differences vanishes exactly on elementwise-equal
/// prefixes.
pub proof fn lemma_sum_abs_diff_zero_iff(a: Seq<i64>, b: Seq<i64>, n: int)
    requires
        0 <= n <= a.len(),
        n <= b.len(),
    ensures
        sum_abs_diff_to(a, b, n) == 0 <==> (forall|i: int| 0 <= i < n ==> a[i] == b[i]),
    decreases n,
{
    if n > 0 {
        lemma_sum_abs_diff_zero_iff(a, b, n - 1);
        lemma_sum_abs_diff_nonneg(a, b, n - 1);
    }
}

/// The mean absolute difference itself is symmetric: both sequences
/// contribute through the magnitude of the paired difference alone.
pub proof fn lemma_mean_difference_symmetric(a: Seq<i64>, b: Seq<i64>)
    requires
        a.len() == b.len(),
    ensures
        (sum_abs_diff(a, b) + a.len() - 1) / (a.len() as int) == (sum_abs_diff(b, a) + b.len() - 1)
            / (b.len() as int),
{
    lemma_sum_abs_diff_symmetric(a, b, a.len() as int);
}

/// Zero law for the quantised mean: because the mean is rounded up to the
/// next fixed-point unit, it is zero exactly for elementwise-equal sequences.
pub proof fn lemma_mean_difference_zero_iff(a: Seq<i64>, b: Seq<i64>)
    requires
        a.len() == b.len(),
        a.len() > 0,
    ensures
        (sum_abs_diff(a, b) + a.len() - 1) / (a.len() as int) == 0 <==> a == b,
{
    let n = a.len() as int;
    let s = sum_abs_diff(a, b);
    lemma_sum_abs_diff_zero_iff(a, b, n);
    lemma_sum_abs_diff_nonneg(a, b, n);
    if s == 0 {
        assert(a =~= b);
        lemma_div_multiples_vanish_fancy(0, n - 1, n);
        assert(n * 0 + (n - 1) == n - 1);
    } else {
        lemma_div_is_ordered(n, s + n - 1, n);
        lemma_div_multiples_vanish(1, n);
        assert((s + n - 1) / n >= 1);
        if a == b {
            assert(forall|i: int| 0 <= i < n ==> a[i] == b[i]);
        }
    }
}

/// Sum of the first `n` samples.
pub open spec fn sum_to(a: Seq<i64>, n: int) -> int
    decreases n,
{
    if n <= 0 {
        0
    } else {
        sum_to(a, n - 1) + a[n - 1]
    }
}

/// Sum of the squares of the first `n` samples.
pub open spec fn sum_sq_to(a: Seq<i64>, n: int) -> int
    decreases n,
{
    if n <= 0 {
        0
    } else {
        sum_sq_to(a, n - 1) + a[n - 1] * a[n - 1]
    }
}

/// Sum of all samples.
pub open spec fn signal_sum(a: Seq<i64>) -> int {
    sum_to(a, a.len() as int)
}

/// Sum of the squares of all samples.
pub open spec fn signal_sum_sq(a: Seq<i64>) -> int {
    sum_sq_to(a, a.len() as int)
}

/// The sum of squared deviations from any centre `x` is non-negative:
/// each term is a square.
proof fn lemma_centered_sum_sq_nonneg(a: Seq<i64>, n: int, x: i64)
    requires
        n >= 0,
    ensures
        sum_sq_to(a, n) + n * (x as int) * (x as int) - 2 * (x as int) * sum_to(a, n) >= 0,
    decreases n,
{
    if n > 0 {
        lemma_centered_sum_sq_nonneg(a, n - 1, x);
        let y = a[n - 1] as int;
        let xi = x as int;
        let q0 = sum_sq_to(a, n - 1);
        let s0 = sum_to(a, n - 1);
        assert(sum_sq_to(a, n) == q0 + y * y);
        assert(sum_to(a, n) == s0 + y);
        assert((q0 + y * y) + n * xi * xi - 2 * xi * (s0 + y) == (q0 + (n - 1) * xi * xi - 2 * xi
            * s0) + (y * y + xi * xi - 2 * xi * y)) by (nonlinear_arith);
        assert(y * y + xi * xi - 2 * xi * y >= 0) by (nonlinear_arith);
    } else {
        assert(n * (x as int) * (x as int) == 0 && 2 * (x as int) * sum_to(a, n) == 0) by (
        nonlinear_arith)
            requires n == 0, sum_to(a, n) == 0;
    }
}

/// The variance radicand `n * sum(x^2) - sum(x)^2` is never negative: `n`
/// times the sum of squares dominates the square of the sum.
pub proof fn lemma_variance_radicand_nonneg(a: Seq<i64>, n: int)
    requires
        n >= 0,
    ensures
        n * sum_sq_to(a, n) - sum_to(a, n) * sum_to(a, n) >= 0,
    decreases n,
{
    if n == 0 {
        assert(n * sum_sq_to(a, n) == 0) by (nonlinear_arith)
            requires n == 0;
    } else {
        lemma_variance_radicand_nonneg(a, n - 1);
        lemma_centered_sum_sq_nonneg(a, n - 1, a[n - 1]);
        let q0 = sum_sq_to(a, n - 1);
        let s0 = sum_to(a, n - 1);
        let x = a[n - 1] as int;
        assert(sum_sq_to(a, n) == q0 + x * x);
        assert(sum_to(a, n) == s0 + x);
        assert(n * (q0 + x * x) - (s0 + x) * (s0 + x) == ((n - 1) * q0 - s0 * s0) + (q0 + (n - 1)
            * x * x - 2 * x * s0)) by (nonlinear_arith);
    }
}

/// Relies on rand's `Uniform::new_inclusive` and `Distribution::sample` for
/// `i64`: one independent draw from the closed range `[low, high]`.
#[verifier::external_body]
fn uniform_sample(low: i64, high: i64) -> (r: i64)
    requires
        low <= high,
    ensures
        low <= r <= high,
{
    let dist = rand_distr::Uniform::new_inclusive(low, high);
    dist.sample(&mut rand::thread_rng())
}

/// Synthetic measurement and model-output signals.
pub struct Measure;

impl Measure {
    /// A base signal of `size` independent draws, uniform over the closed
    /// fixed-point range `[low, high]`.
    pub fn new(size: usize, low: i64, high: i64) -> (r: Result<Vec<i64>, SimError>)
        ensures
            match r {
                Ok(v) => size > 0 && low <= high && v@.len() == size && (forall|i: int|
                    0 <= i < v@.len() ==> low <= #[trigger] v@[i] <= high),
                Err(e) => e == SimError::InvalidParameter && (size == 0 || low > high),
            },
    {
        if size == 0 || low > high {
            return Err(SimError::InvalidParameter);
        }
        let mut data: Vec<i64> = Vec::new();
        let mut i: usize = 0;
        while i < size
            invariant
                i <= size,
                low <= high,
                data@.len() == i,
                forall|j: int| 0 <= j < data@.len() ==> low <= #[trigger] data@[j] <= high,
            decreases size - i,
        {
            let s = uniform_sample(low, high);
            data.push(s);
            i = i + 1;
        }
        Ok(data)
    }

    /// The additive noise model: sample `i` of the result is
    /// `measure[i] + noise[i]`. One noise draw per sample, supplied by the
    /// caller's random source.
    pub fn simulate(measure: &Vec<i64>, noise: &Vec<i64>) -> (r: Result<Vec<i64>, SimError>)
        requires
            forall|i: int| 0 <= i < measure@.len() ==> -SAMPLE_LIMIT <= #[trigger] measure@[i]
                <= SAMPLE_LIMIT,
            forall|i: int| 0 <= i < noise@.len() ==> -SAMPLE_LIMIT <= #[trigger] noise@[i]
                <= SAMPLE_LIMIT,
        ensures
            match r {
                Ok(v) => measure@.len() == noise@.len() && v@.len() == measure@.len() && (forall|
                    i: int,
                |
                    0 <= i < v@.len() ==> v@[i] == measure@[i] + noise@[i]),
                Err(e) => e == SimError::LengthMismatch && measure@.len() != noise@.len(),
            },
    {
        if measure.len() != noise.len() {
            return Err(SimError::LengthMismatch);
        }
        let n = measure.len();
        let mut out: Vec<i64> = Vec::new();
        let mut i: usize = 0;
        while i < n
            invariant
                i <= n,
                n == measure@.len(),
                n == noise@.len(),
                out@.len() == i,
                forall|j: int| 0 <= j < measure@.len() ==> -SAMPLE_LIMIT <= #[trigger] measure@[j]
                    <= SAMPLE_LIMIT,
                forall|j: int| 0 <= j < noise@.len() ==> -SAMPLE_LIMIT <= #[trigger] noise@[j]
                    <= SAMPLE_LIMIT,
                forall|j: int| 0 <= j < out@.len() ==> out@[j] == measure@[j] + noise@[j],
            decreases n - i,
        {
            let s = measure[i] + noise[i];
            out.push(s);
            i = i + 1;
        }
        Ok(out)
    }

    /// The arithmetic mean of `|model[i] - test[i]|` over sequences of equal
    /// nonzero length, rounded up to the next fixed-point unit: any pair
    /// that differs at all keeps the mean above zero, so a zero mean means
    /// identical sequences.
    pub fn mean_difference(model: &Vec<i64>, test: &Vec<i64>) -> (r: Result<i64, SimError>)
        requires
            forall|i: int| 0 <= i < model@.len() ==> -SAMPLE_LIMIT <= #[trigger] model@[i]
                <= SAMPLE_LIMIT,
            forall|i: int| 0 <= i < test@.len() ==> -SAMPLE_LIMIT <= #[trigger] test@[i]
                <= SAMPLE_LIMIT,
        ensures
            match r {
                Ok(m) => model@.len() == test@.len() && model@.len() > 0 && m == (sum_abs_diff(
                    model@,
                    test@,
                ) + model@.len() - 1) / (model@.len() as int) && (m == 0 <==> model@ == test@),
                Err(e) => e == SimError::LengthMismatch && (model@.len() != test@.len()
                    || model@.len() == 0),
            },
    {
        let n = model.len();
        if n == 0 || test.len() != n {
            return Err(SimError::LengthMismatch);
        }
        let mut acc: u128 = 0;
        let mut i: usize = 0;
        while i < n
            invariant
                i <= n,
                n == model@.len(),
                n == test@.len(),
                forall|j: int| 0 <= j < model@.len() ==> -SAMPLE_LIMIT <= #[trigger] model@[j]
                    <= SAMPLE_LIMIT,
                forall|j: int| 0 <= j < test@.len() ==> -SAMPLE_LIMIT <= #[trigger] test@[j]
                    <= SAMPLE_LIMIT,
                acc as int == sum_abs_diff_to(model@, test@, i as int),
                acc as int <= (i as int) * 2_000_000_000_000,
            decreases n - i,
        {
            let a = model[i];
            let b = test[i];
            let d: i64 = if a >= b {
                a - b
            } else {
                b - a
            };
            assert(d as int == abs_diff(model@[i as int], test@[i as int]));
            assert(SAMPLE_LIMIT == 1_000_000_000_000);
            acc = acc + (d as u128);
            i = i + 1;
        }
        proof {
            lemma_div_is_ordered(
                acc as int + (n as int - 1),
                (n as int) * 2_000_000_000_000 + (n as int - 1),
                n as int,
            );
            lemma_div_multiples_vanish_fancy(2_000_000_000_000, n as int - 1, n as int);
            lemma_div_pos_is_pos(acc as int + (n as int - 1), n as int);
            lemma_sum_abs_diff_nonneg(model@, test@, n as int);
            lemma_mean_difference_zero_iff(model@, test@);
        }
        let mean: u128 = (acc + (n as u128 - 1)) / (n as u128);
        Ok(mean as i64)
    }

    /// Population standard deviation of a signal, in fixed-point units,
    /// rounded down: the floor square root of `n * sum(x^2) - sum(x)^2`,
    /// divided by `n` — the exact integer form of the root of the population
    /// variance.
    pub fn population_std_dev(data: &Vec<i64>) -> (r: Result<i64, SimError>)
        requires
            data@.len() <= 10_000_000,
            forall|i: int| 0 <= i < data@.len() ==> -SAMPLE_LIMIT <= #[trigger] data@[i]
                <= SAMPLE_LIMIT,
        ensures
            match r {
                Ok(v) => data@.len() > 0 && v as int == isqrt_spec(
                    data@.len() * signal_sum_sq(data@) - signal_sum(data@) * signal_sum(data@),
                ) / (data@.len() as int),
                Err(e) => e == SimError::InvalidParameter && data@.len() == 0,
            },
    {
        let n = data.len();
        if n == 0 {
            return Err(SimError::InvalidParameter);
        }
        let mut s: i128 = 0;
        let mut q: u128 = 0;
        let mut i: usize = 0;
        while i < n
            invariant
                i <= n,
                n == data@.len(),
                n <= 10_000_000,
                forall|j: int| 0 <= j < data@.len() ==> -SAMPLE_LIMIT <= #[trigger] data@[j]
                    <= SAMPLE_LIMIT,
                s as int == sum_to(data@, i as int),
                q as int == sum_sq_to(data@, i as int),
                -((i as int) * 1_000_000_000_000) <= s as int <= (i as int) * 1_000_000_000_000,
                q as int <= (i as int) * 1_000_000_000_000_000_000_000_000,
            decreases n - i,
        {
            let x = data[i];
            proof {
                assert((x as int) * (x as int) <= 1_000_000_000_000_000_000_000_000int && (
                x as int) * (x as int) >= 0) by (nonlinear_arith)
                    requires -1_000_000_000_000int <= x <= 1_000_000_000_000int;
            }
            s = s + (x as i128);
            q = q + ((x as i128 * x as i128) as u128);
            i = i + 1;
        }
        proof {
            lemma_variance_radicand_nonneg(data@, n as int);
            assert((n as int) * (q as int)
                <= 100_000_000_000_000_000_000_000_000_000_000_000_000int) by (nonlinear_arith)
                requires
                    0 <= q as int <= 10_000_000_000_000_000_000_000_000_000_000int,
                    0 <= n <= 10_000_000usize;
            assert((s as int) * (s as int) <= 100_000_000_000_000_000_000_000_000_000_000_000_000int
                && (s as int) * (s as int) >= 0) by (nonlinear_arith)
                requires -10_000_000_000_000_000_000int <= s as int
                    <= 10_000_000_000_000_000_000int;
        }
        let nq: u128 = (n as u128) * q;
        let ss: i128 = s * s;
        let rad: u128 = nq - (ss as u128);
        let rt = isqrt128(rad);
        proof {
            assert((n as int) * (q as int) <= ((n as int) * (n as int))
                * 1_000_000_000_000_000_000_000_000int) by (nonlinear_arith)
                requires 0 <= q as int <= (n as int) * 1_000_000_000_000_000_000_000_000int, n
                    >= 0;
            assert((rt as int) <= (n as int) * 1_000_000_000_000) by (nonlinear_arith)
                requires
                    (rt as int) * (rt as int) <= ((n as int) * (n as int))
                        * 1_000_000_000_000_000_000_000_000int,
                    rt >= 0,
                    n >= 0;
            lemma_div_is_ordered(rt as int, (n as int) * 1_000_000_000_000, n as int);
            lemma_div_multiples_vanish(1_000_000_000_000, n as int);
            lemma_div_pos_is_pos(rt as int, n as int);
        }
        let std: u128 = (rt as u128) / (n as u128);
        Ok(std as i64)
    }
}

} // verus!
