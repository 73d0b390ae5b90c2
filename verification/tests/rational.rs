//! Fits, searches and evaluators on machine numbers, with nalgebra underneath.
use nalgebra::{DMatrix, DVector, Dyn, SVD};
use polyfit::algebra::{solve_svd, LinearAlgebra, Matrix};
use polyfit::boundary::report_boundary;
use polyfit::error::Error;
use polyfit::eval::{
    eval_f32_horner, horner_f32, horner_f32_via_f64, horner_f64, rational_horner_f32_via_f64,
};
use polyfit::lm::{pack_params, refine_lm, LmState};
use polyfit::nodes::chebyshev_nodes;
use polyfit::polynomial::{horner, write_poly_terms};
use polyfit::rational::{
    measure_roundtrip, piecewise_gap, Constraint, ConstraintMode, ErrorWeighting, F32ScoreMetric,
    F32SearchConfig, RationalFit, RationalFitOptions, RationalPolynomial,
};
use polyfit::residual::{compute_cost, compute_residuals_jacobian};
use polyfit::search::{is_better, Score};
use polyfit::single::{f32_ulp_distance, F32};
use polyfit::sk::{build_sk_system, fit_sk, precompute_powers};
use polyfit::value::Value;

/// A double precision number.
#[derive(Clone, Copy, Debug, PartialEq)]
struct D(f64);

/// A single precision number.
#[derive(Clone, Copy, Debug, PartialEq)]
struct S(f32);

fn single(x: f32) -> F32 {
    F32::from_bits(x.to_bits())
}

fn singles(xs: &[f32]) -> Vec<F32> {
    xs.iter().map(|&x| single(x)).collect()
}

fn plain(x: F32) -> f32 {
    f32::from_bits(x.to_bits())
}

impl Value for D {
    fn zero() -> D {
        D(0.0)
    }
    fn one() -> D {
        D(1.0)
    }
    fn two() -> D {
        D(2.0)
    }
    fn half() -> D {
        D(0.5)
    }
    fn infinity() -> D {
        D(f64::INFINITY)
    }
    fn neg_infinity() -> D {
        D(f64::NEG_INFINITY)
    }
    fn epsilon() -> D {
        D(f64::EPSILON)
    }
    fn default_epsilon() -> D {
        D(f64::EPSILON)
    }
    fn add(self, rhs: D) -> D {
        D(self.0 + rhs.0)
    }
    fn sub(self, rhs: D) -> D {
        D(self.0 - rhs.0)
    }
    fn mul(self, rhs: D) -> D {
        D(self.0 * rhs.0)
    }
    fn div(self, rhs: D) -> D {
        D(self.0 / rhs.0)
    }
    fn neg(self) -> D {
        D(-self.0)
    }
    fn abs(self) -> D {
        D(self.0.abs())
    }
    fn max(self, other: D) -> D {
        D(self.0.max(other.0))
    }
    fn min(self, other: D) -> D {
        D(self.0.min(other.0))
    }
    fn mul_add(self, a: D, b: D) -> D {
        D(self.0.mul_add(a.0, b.0))
    }
    fn sqrt(self) -> D {
        D(self.0.sqrt())
    }
    fn sin(self) -> D {
        D(self.0.sin())
    }
    fn cos(self) -> D {
        D(self.0.cos())
    }
    fn lt(self, other: D) -> bool {
        self.0 < other.0
    }
    fn is_nan(self) -> bool {
        self.0.is_nan()
    }
    fn is_near_zero(self) -> bool {
        self.0.abs() < f64::EPSILON
    }
    fn try_cast_usize(n: usize) -> Option<D> {
        Some(D(n as f64))
    }
    fn try_cast_f64(bits: u64) -> Option<D> {
        Some(D(f64::from_bits(bits)))
    }
    fn convert_f64(bits: u64) -> D {
        D(f64::from_bits(bits))
    }
    fn from_u64(n: u64) -> D {
        D(n as f64)
    }
    fn from_f32(v: F32) -> D {
        D(f64::from(plain(v)))
    }
    fn to_f32(self) -> F32 {
        single(self.0 as f32)
    }
    fn to_bits(self) -> u64 {
        self.0.to_bits()
    }
    fn to_exp(self, digits: usize) -> String {
        format!("{:.*e}", digits, self.0)
    }
    fn to_fixed(self, digits: usize) -> String {
        format!("{:.*}", digits, self.0)
    }
}

impl Value for S {
    fn zero() -> S {
        S(0.0)
    }
    fn one() -> S {
        S(1.0)
    }
    fn two() -> S {
        S(2.0)
    }
    fn half() -> S {
        S(0.5)
    }
    fn infinity() -> S {
        S(f32::INFINITY)
    }
    fn neg_infinity() -> S {
        S(f32::NEG_INFINITY)
    }
    fn epsilon() -> S {
        S(f32::EPSILON)
    }
    fn default_epsilon() -> S {
        S(f32::EPSILON)
    }
    fn add(self, rhs: S) -> S {
        S(self.0 + rhs.0)
    }
    fn sub(self, rhs: S) -> S {
        S(self.0 - rhs.0)
    }
    fn mul(self, rhs: S) -> S {
        S(self.0 * rhs.0)
    }
    fn div(self, rhs: S) -> S {
        S(self.0 / rhs.0)
    }
    fn neg(self) -> S {
        S(-self.0)
    }
    fn abs(self) -> S {
        S(self.0.abs())
    }
    fn max(self, other: S) -> S {
        S(self.0.max(other.0))
    }
    fn min(self, other: S) -> S {
        S(self.0.min(other.0))
    }
    fn mul_add(self, a: S, b: S) -> S {
        S(self.0.mul_add(a.0, b.0))
    }
    fn sqrt(self) -> S {
        S(self.0.sqrt())
    }
    fn sin(self) -> S {
        S(self.0.sin())
    }
    fn cos(self) -> S {
        S(self.0.cos())
    }
    fn lt(self, other: S) -> bool {
        self.0 < other.0
    }
    fn is_nan(self) -> bool {
        self.0.is_nan()
    }
    fn is_near_zero(self) -> bool {
        self.0.abs() < f32::EPSILON
    }
    fn try_cast_usize(n: usize) -> Option<S> {
        Some(S(n as f32))
    }
    fn try_cast_f64(bits: u64) -> Option<S> {
        Some(S(f64::from_bits(bits) as f32))
    }
    fn convert_f64(bits: u64) -> S {
        S(f64::from_bits(bits) as f32)
    }
    fn from_u64(n: u64) -> S {
        S(n as f32)
    }
    fn from_f32(v: F32) -> S {
        S(plain(v))
    }
    fn to_f32(self) -> F32 {
        single(self.0)
    }
    fn to_bits(self) -> u64 {
        f64::from(self.0).to_bits()
    }
    fn to_exp(self, digits: usize) -> String {
        format!("{:.*e}", digits, self.0)
    }
    fn to_fixed(self, digits: usize) -> String {
        format!("{:.*}", digits, self.0)
    }
}

/// A value that nalgebra can compute with.
trait Machine: Value {
    type Raw: nalgebra::RealField + Copy;
    fn raw(self) -> Self::Raw;
    fn of(raw: Self::Raw) -> Self;
}

impl Machine for D {
    type Raw = f64;
    fn raw(self) -> f64 {
        self.0
    }
    fn of(raw: f64) -> D {
        D(raw)
    }
}

impl Machine for S {
    type Raw = f32;
    fn raw(self) -> f32 {
        self.0
    }
    fn of(raw: f32) -> S {
        S(raw)
    }
}

/// nalgebra as the linear algebra library.
struct Nalgebra;

fn dense<T: Machine>(m: &Matrix<T>) -> DMatrix<T::Raw> {
    DMatrix::from_fn(m.rows.len(), m.ncols, |i, j| m.rows[i][j].raw())
}

fn column<T: Machine>(v: &[T]) -> DVector<T::Raw> {
    DVector::from_fn(v.len(), |i, _| v[i].raw())
}

fn entries<T: Machine>(v: &DVector<T::Raw>) -> Vec<T> {
    v.iter().map(|&x| T::of(x)).collect()
}

impl<T: Machine> LinearAlgebra<T> for Nalgebra {
    type Svd = SVD<T::Raw, Dyn, Dyn>;
    fn svd(&self, a: &Matrix<T>, eps: T, max_iters: usize) -> Option<Self::Svd> {
        SVD::try_new_unordered(dense(a), true, true, eps.raw(), max_iters)
    }
    fn max_singular_value(&self, svd: &Self::Svd) -> T {
        T::of(svd.singular_values.max())
    }
    fn solve(&self, svd: &Self::Svd, b: &Vec<T>, eps: T) -> Result<Vec<T>, &'static str> {
        svd.solve(&column(b), eps.raw()).map(|x| entries(&x))
    }
    fn gram(&self, a: &Matrix<T>) -> Matrix<T> {
        let j = dense(a);
        let g = j.transpose() * &j;
        Matrix {
            rows: (0..g.nrows())
                .map(|i| (0..g.ncols()).map(|k| T::of(g[(i, k)])).collect())
                .collect(),
            ncols: g.ncols(),
        }
    }
    fn transpose_mul(&self, a: &Matrix<T>, b: &Vec<T>) -> Vec<T> {
        entries(&(dense(a).transpose() * column(b)))
    }
    fn dot(&self, a: &Vec<T>, b: &Vec<T>) -> T {
        T::of(column(a).dot(&column(b)))
    }
}

fn doubles(xs: &[f64]) -> Vec<D> {
    xs.iter().map(|&x| D(x)).collect()
}

/// Fit a function of plain numbers.
fn fit_function(
    f: impl Fn(f64) -> f64,
    a: f64,
    b: f64,
    p_degree: usize,
    q_degree: usize,
    options: RationalFitOptions<D>,
) -> RationalFit<D> {
    RationalFit::from_function(|x: D| D(f(x.0)), (D(a), D(b)), p_degree, q_degree, options, &Nalgebra)
        .unwrap()
}

fn defaults() -> RationalFitOptions<D> {
    RationalFitOptions::default_f64()
}

#[test]
fn horner_f64_matches_naive() {
    // 1 + 2x + 3x^2 at x = 2.0 is 1 + 4 + 12 = 17.0
    let coeffs = doubles(&[1.0, 2.0, 3.0]);
    assert!((horner_f64(D(2.0), &coeffs).0 - 17.0).abs() < 1e-12);
    // 5 at x = anything is 5
    assert!((horner_f64(D(1.5), &[D(5.0)]).0 - 5.0).abs() < 1e-12);
    // empty gives 0
    assert_eq!(horner_f64(D(2.0), &[]).0.to_bits(), 0.0_f64.to_bits());
}

#[test]
fn horner_f32_matches_naive() {
    let coeffs = [S(1.0), S(2.0), S(3.0)];
    assert!((horner_f32(S(2.0), &coeffs).0 - 17.0).abs() < 1e-6);
    assert!((horner_f32(S(1.5), &[S(5.0)]).0 - 5.0).abs() < 1e-6);
    assert_eq!(horner_f32(S(2.0), &[]).0.to_bits(), 0.0_f32.to_bits());
}

#[test]
fn horner_f32_via_f64_matches_naive() {
    let coeffs = singles(&[1.0, 2.0, 3.0]);
    assert!((plain(horner_f32_via_f64::<D>(single(2.0), &coeffs)) - 17.0).abs() < 1e-6);
    assert!((plain(horner_f32_via_f64::<D>(single(1.5), &singles(&[5.0]))) - 5.0).abs() < 1e-6);
    assert_eq!(horner_f32_via_f64::<D>(single(2.0), &[]).to_bits(), 0.0_f32.to_bits());
}

#[test]
fn rational_horner_f32_via_f64_matches_naive() {
    // P(x) = 1 + 2x, Q(x) = 1 (constant): identical to P
    let p = singles(&[1.0, 2.0]);
    let q = singles(&[1.0]);
    assert!((plain(rational_horner_f32_via_f64::<D>(single(3.0), &p, &q)) - 7.0).abs() < 1e-6);

    // P(x) = x, Q(x) = 1 + x: x / (1 + x)
    let p = singles(&[0.0, 1.0]);
    let q = singles(&[1.0, 1.0]);
    let got = plain(rational_horner_f32_via_f64::<D>(single(2.0), &p, &q));
    assert!((got - (2.0 / 3.0)).abs() < 1e-6);

    // Empty denominator returns 0.0 (defined behavior, not panic)
    assert_eq!(
        rational_horner_f32_via_f64::<D>(single(1.0), &singles(&[1.0, 2.0]), &[]).to_bits(),
        0.0_f32.to_bits()
    );

    // Zero denominator: NaN or Inf (defined behavior, not panic)
    let zero_q = plain(rational_horner_f32_via_f64::<D>(
        single(0.0),
        &singles(&[1.0]),
        &singles(&[0.0]),
    ));
    assert!(zero_q.is_nan() || zero_q.is_infinite());
}

/// The public evaluator matches the one that the search scores with, bit for bit.
#[test]
fn rational_horner_matches_internal_optimizer_path() {
    let fit = fit_function(|x| x.powf(2.4), 0.04, 1.0, 4, 4, defaults());

    let result = fit.as_polynomial().optimize_f32(
        |x: D| D(x.0.powf(2.4)),
        single(0.04),
        single(1.0),
        |v: F32| v,
        F32SearchConfig {
            samples: Some(1000),
            ..F32SearchConfig::default()
        },
    );
    let numerator: Vec<f32> = result.numerator.iter().map(|&c| plain(c)).collect();
    let denominator: Vec<f32> = result.denominator.iter().map(|&c| plain(c)).collect();

    let lo = f64::from(0.04_f32);
    let hi = f64::from(1.0_f32);
    for i in 0..=200 {
        let x = lo + (hi - lo) * f64::from(i) / 200.0;
        let x32 = x as f32;
        let public =
            rational_horner_f32_via_f64::<D>(single(x32), &result.numerator, &result.denominator);

        // The scorer's evaluation, written out for the parity check
        let internal = {
            let xd = f64::from(x32);
            let mut yp = f64::from(*numerator.last().unwrap());
            for &c in numerator[..numerator.len() - 1].iter().rev() {
                yp = yp.mul_add(xd, f64::from(c));
            }
            let mut yq = f64::from(*denominator.last().unwrap());
            for &c in denominator[..denominator.len() - 1].iter().rev() {
                yq = yq.mul_add(xd, f64::from(c));
            }
            (yp / yq) as f32
        };

        assert_eq!(public.to_bits(), internal.to_bits(), "public eval differs from scorer at x={x32}");
    }
}

/// Fit a simple polynomial (no denominator needed): y = x^2
#[test]
fn fit_polynomial_trivial() {
    let data: Vec<(D, D)> = (0..=100)
        .map(|i| {
            let x = f64::from(i) / 100.0;
            (D(x), D(x * x))
        })
        .collect();

    let fit = RationalFit::new(data, 2, 0, defaults(), &Nalgebra).unwrap();

    assert!(fit.r_squared().0 > 0.999_999, "R² = {}", fit.r_squared().0);

    // P should be ~[0, 0, 1], Q should be ~[1]
    let (p, q) = fit.coefficients();
    assert!(p[0].0.abs() < 1e-6, "p[0] = {}", p[0].0);
    assert!(p[1].0.abs() < 1e-6, "p[1] = {}", p[1].0);
    assert!((p[2].0 - 1.0).abs() < 1e-6, "p[2] = {}", p[2].0);
    assert!((q[0].0 - 1.0).abs() < 1e-6, "q[0] = {}", q[0].0);
}

/// Fit x^2.4 on [0.04, 1.0]
#[test]
fn fit_srgb_power() {
    let fit = fit_function(|x| x.powf(2.4), 0.04, 1.0, 4, 4, defaults());

    assert!(fit.r_squared().0 > 0.999_999, "R² = {}", fit.r_squared().0);

    // Check max error is small
    let max_err = fit.max_abs_error().0;
    assert!(max_err < 1e-5, "max abs error = {max_err:.2e}");
}

/// Fit with relative error weighting
#[test]
fn fit_relative_error() {
    let options = RationalFitOptions {
        weighting: ErrorWeighting::Relative,
        ..defaults()
    };

    let fit = fit_function(|x| x.powf(2.4), 0.04, 1.0, 4, 4, options);

    assert!(fit.r_squared().0 > 0.999_999, "R² = {}", fit.r_squared().0);
    assert!(
        fit.max_rel_error().0 < 1e-4,
        "max rel error = {:.2e}",
        fit.max_rel_error().0
    );
}

/// Fit with a boundary constraint
#[test]
fn fit_with_constraint() {
    let target_x: f64 = 0.04;
    let target_y = target_x.powf(2.4);

    let options = RationalFitOptions {
        constraints: vec![Constraint::new(D(target_x), D(target_y))],
        ..defaults()
    };

    let fit = fit_function(|x| x.powf(2.4), 0.04, 1.0, 4, 4, options);

    // The constraint point should be very accurate
    let err_at_constraint = (fit.y(D(target_x)).0 - target_y).abs();
    assert!(
        err_at_constraint < 1e-10,
        "error at constraint = {err_at_constraint:.2e}"
    );
}

/// Asymmetric degrees: 3/4
#[test]
fn fit_asymmetric_degrees() {
    let fit = fit_function(|x| x.powf(2.4), 0.04, 1.0, 3, 4, defaults());

    let (p, q) = fit.coefficients();
    assert_eq!(p.len(), 4); // 3 + 1
    assert_eq!(q.len(), 5); // 4 + 1
    assert!((q[4].0 - 1.0).abs() < 1e-15, "Q must be monic");
    assert!(fit.r_squared().0 > 0.9999, "R² = {}", fit.r_squared().0);
}

/// Fit log2(x) on [0.5, 2.0]
#[test]
fn fit_log2() {
    let fit = fit_function(|x| x.log2(), 0.5, 2.0, 3, 3, defaults());

    assert!(fit.r_squared().0 > 0.999_999, "R² = {}", fit.r_squared().0);
    assert!(
        fit.max_abs_error().0 < 1e-6,
        "max abs error = {:.2e}",
        fit.max_abs_error().0
    );
}

/// Fit 2^x on [0, 1]
#[test]
fn fit_exp2() {
    let fit = fit_function(|x| (2.0_f64).powf(x), 0.0, 1.0, 3, 3, defaults());

    assert!(fit.r_squared().0 > 0.999_999, "R² = {}", fit.r_squared().0);
    assert!(
        fit.max_abs_error().0 < 1e-6,
        "max abs error = {:.2e}",
        fit.max_abs_error().0
    );
}

/// Text of a quotient
#[test]
fn display_rational() {
    let poly = RationalPolynomial::new(doubles(&[1.0, 2.0, 3.0]), doubles(&[4.0, 5.0, 1.0]));
    let s = poly.to_text();
    assert!(s.contains("1.000000e0"), "display: {s}");
    assert!(s.contains('/'), "display: {s}");
}

/// R² of a perfect fit
#[test]
fn r_squared_perfect() {
    let data: Vec<(D, D)> = (0..=100)
        .map(|i| {
            let x = f64::from(i) / 100.0 + 0.01;
            (D(x), D(1.0 / x))
        })
        .collect();

    let fit = RationalFit::new(data, 0, 1, defaults(), &Nalgebra).unwrap();
    assert!(
        fit.r_squared().0 > 0.99999,
        "R² for 1/x with 0/1 rational = {}",
        fit.r_squared().0
    );
}

/// Convergence tracking
#[test]
fn iterations_tracked() {
    let fit = fit_function(|x| x * x, 0.0, 1.0, 2, 0, defaults());

    // Should converge quickly for a trivial case
    assert!(fit.iterations() <= 50, "iterations = {}", fit.iterations());
}

/// Single precision support
#[test]
fn fit_f32() {
    let data: Vec<(S, S)> = (1..=100)
        .map(|i| {
            let x = i as f32 / 100.0;
            (S(x), S(x.powf(2.4)))
        })
        .collect();

    let options = RationalFitOptions::<S>::default_f32();
    let fit = RationalFit::new(data, 4, 4, options, &Nalgebra).unwrap();
    assert!(fit.r_squared().0 > 0.9999, "R² = {}", fit.r_squared().0);
}

/// sRGB EOTF with boundary constraint
#[test]
fn fit_srgb_with_constraint() {
    let a: f64 = 0.055_010_718_947_586_6;
    let a1: f64 = 1.0 + a;
    let threshold_gamma: f64 = 12.92 * 0.003_041_282_560_127_521;
    let threshold_linear: f64 = 0.003_041_282_560_127_521;

    let s2l = |x: f64| ((x + a) / a1).powf(2.4);

    let options = RationalFitOptions {
        weighting: ErrorWeighting::Relative,
        constraints: vec![Constraint::new(D(threshold_gamma), D(threshold_linear))],
        n_samples: 5000,
        ..defaults()
    };

    let fit = fit_function(s2l, threshold_gamma, 1.0, 4, 4, options);

    assert!(fit.r_squared().0 > 0.999_999, "R² = {}", fit.r_squared().0);
    assert!(
        fit.max_rel_error().0 < 1e-4,
        "max rel = {:.2e}",
        fit.max_rel_error().0
    );

    // Boundary constraint should be very tight
    let err = (fit.y(D(threshold_gamma)).0 - threshold_linear).abs();
    assert!(err < 1e-10, "boundary err = {err:.2e}");
}

/// LM refinement improves constrained sRGB fit over SK alone
#[test]
fn lm_improves_constrained_srgb() {
    let a: f64 = 0.055_010_718_947_586_6;
    let a1: f64 = 1.0 + a;
    let threshold_gamma: f64 = 12.92 * 0.003_041_282_560_127_521;
    let threshold_linear: f64 = 0.003_041_282_560_127_521;
    let s2l = |x: f64| ((x + a) / a1).powf(2.4);

    let base_options = RationalFitOptions {
        weighting: ErrorWeighting::Relative,
        constraints: vec![Constraint::new(D(threshold_gamma), D(threshold_linear))],
        constraint_mode: ConstraintMode::Both,
        n_samples: 5000,
        ..defaults()
    };

    // SK only (with constraints applied during SK)
    let sk_options = RationalFitOptions {
        lm_iterations: 0,
        constraint_mode: ConstraintMode::SkOnly,
        ..base_options.clone()
    };
    let sk_fit = fit_function(s2l, threshold_gamma, 1.0, 4, 4, sk_options);

    // SK + LM (both with constraints)
    let lm_fit = fit_function(s2l, threshold_gamma, 1.0, 4, 4, base_options);

    let sk_err = sk_fit.max_rel_error().0;
    let lm_err = lm_fit.max_rel_error().0;

    // LM should significantly improve the constrained case
    assert!(
        lm_err < sk_err,
        "LM should improve: SK={sk_err:.2e}, LM={lm_err:.2e}"
    );
    assert!(
        lm_err < 1e-4,
        "LM should reach <1e-4 relative error, got {lm_err:.2e}"
    );
}

/// Boundary error report
#[test]
fn boundary_report() {
    let fit = fit_function(|x| x.powf(2.4), 0.04, 1.0, 4, 4, defaults());

    let report = fit.boundary_error(|x: D| D(x.0.powf(2.4)));

    // At domain endpoints, error should be small
    assert!(
        report.lo.rel_err.0 < 1e-3,
        "lo rel err = {:.2e}",
        report.lo.rel_err.0
    );
    assert!(
        report.hi.rel_err.0 < 1e-4,
        "hi rel err = {:.2e}",
        report.hi.rel_err.0
    );

    // Extrapolation points are populated
    assert_eq!(report.past_lo.len(), 4);
    assert_eq!(report.past_hi.len(), 4);

    // Extrapolation points are at the expected offsets
    let width = 1.0 - 0.04;
    assert!(
        (report.past_lo[0].x.0 - (0.04 - width * 0.001)).abs() < 1e-10,
        "past_lo[0] at wrong x"
    );
    assert!(
        (report.past_hi[0].x.0 - (1.0 + width * 0.001)).abs() < 1e-10,
        "past_hi[0] at wrong x"
    );

    // The text comes without panic
    let s = report.to_text();
    assert!(s.contains("Boundary error"), "display: {s}");
    assert!(s.contains("Extrapolation past lo"), "display: {s}");
}

/// Self-consistency: the reported metrics match an independent recomputation over the
/// same sweep.
#[test]
fn f32_search_result_is_self_consistent() {
    let fit = fit_function(
        |x| x.powf(2.4),
        0.04,
        1.0,
        4,
        4,
        RationalFitOptions {
            weighting: ErrorWeighting::Relative,
            n_samples: 5000,
            restarts: 4,
            ..defaults()
        },
    );

    let result = fit.as_polynomial().optimize_f32(
        |x: D| D(x.0.powf(2.4)),
        single(0.04),
        single(1.0),
        |v: F32| v,
        F32SearchConfig {
            samples: Some(50_000),
            ..F32SearchConfig::default()
        },
    );

    let mut max_ulp = 0_u32;
    let mut max_abs: f64 = 0.0;
    let n = 50_000;
    let lo = f64::from(0.04_f32);
    let hi = f64::from(1.0_f32);
    for i in 0..=n {
        let v = lo + (hi - lo) * i as f64 / n as f64;
        let got = eval_f32_horner::<D>(single(v as f32), &result.numerator, &result.denominator);
        let expected = v.powf(2.4) as f32;
        let ulp = f32_ulp_distance(got, single(expected));
        if ulp > max_ulp {
            max_ulp = ulp;
        }
        let a = (f64::from(plain(got)) - f64::from(expected)).abs();
        if a > max_abs {
            max_abs = a;
        }
    }

    assert_eq!(
        result.max_ulp, max_ulp,
        "reported max_ulp {} does not match independent recomputation {}",
        result.max_ulp, max_ulp
    );
    assert!(
        (result.max_abs_err.0 - max_abs).abs() < 1e-15 * max_abs.max(1e-30),
        "reported max_abs {} differs from recomputation {}",
        result.max_abs_err.0,
        max_abs
    );
    assert_eq!(result.values_scored, u64::try_from(n + 1).unwrap());
    assert!(!result.exhaustive);
}

/// The gap at a join of two branches that compute the same is small.
#[test]
fn piecewise_gap_matching_branches_is_small() {
    let fit = fit_function(
        |x| x,
        0.5,
        1.0,
        2,
        2,
        RationalFitOptions {
            weighting: ErrorWeighting::Absolute,
            n_samples: 1000,
            restarts: 2,
            ..defaults()
        },
    );

    let (p64, q64) = fit.coefficients();
    let p: Vec<F32> = p64.iter().map(|&c| c.to_f32()).collect();
    let q: Vec<F32> = q64.iter().map(|&c| c.to_f32()).collect();

    let gap = piecewise_gap::<D, _, _>(single(0.5), &p, &q, |v: F32| v, |v: F32| v);
    assert!(
        gap < 100,
        "piecewise gap for matching identity branches: {gap}"
    );
}

/// The gap at a join of mismatched branches is large.
#[test]
fn piecewise_gap_detects_mismatched_branches() {
    // Fit f(v) = 2v on [0.5, 1] but pretend the linear branch is v (wrong).
    let fit = fit_function(
        |x| 2.0 * x,
        0.5,
        1.0,
        2,
        2,
        RationalFitOptions {
            weighting: ErrorWeighting::Absolute,
            n_samples: 1000,
            restarts: 2,
            ..defaults()
        },
    );

    let (p64, q64) = fit.coefficients();
    let p: Vec<F32> = p64.iter().map(|&c| c.to_f32()).collect();
    let q: Vec<F32> = q64.iter().map(|&c| c.to_f32()).collect();

    let gap = piecewise_gap::<D, _, _>(single(0.5), &p, &q, |v: F32| v, |v: F32| v);
    assert!(
        gap > 1_000_000,
        "piecewise gap should flag mismatched branches, got {gap}"
    );
}

/// Roundtrip measurement returns consistent metrics.
#[test]
fn roundtrip_measurement_consistent() {
    // Trivial identity roundtrip: 0 error everywhere.
    let report =
        measure_roundtrip::<D, _, _>(|v: F32| v, |u: F32| u, single(0.0), single(1.0), Some(1000));
    assert_eq!(report.max_ulp, 0);
    assert!(report.max_abs_err.0 == 0.0);
    assert_eq!(report.u16_over_1, 0);
    assert_eq!(report.u8_over_half, 0);
    assert_eq!(report.values_scored, 1001);
    assert!(!report.exhaustive);

    // Forward then inverse with single precision rounding introduces some error.
    let report2 = measure_roundtrip::<D, _, _>(
        |v: F32| single((f64::from(plain(v)) * 2.0) as f32),
        |u: F32| single((f64::from(plain(u)) * 0.5) as f32),
        single(0.01),
        single(1.0),
        Some(1000),
    );
    // The composition is exact for these doubling/halving operations.
    assert!(report2.max_abs_err.0 < 1e-6);

    // The text comes without panic.
    let _ = report.to_text();
}

/// `Constraint::soft` is a direct alias for `with_weight`.
#[test]
fn constraint_soft_is_with_weight_alias() {
    let a = Constraint::<D>::soft(D(0.5), D(0.25), D(1e3));
    let b = Constraint::<D>::with_weight(D(0.5), D(0.25), D(1e3));
    assert_eq!(a.x.0.to_bits(), b.x.0.to_bits());
    assert_eq!(a.y.0.to_bits(), b.y.0.to_bits());
    assert_eq!(a.weight.0.to_bits(), b.weight.0.to_bits());

    // A soft constraint is usable end-to-end.
    let options = RationalFitOptions {
        constraints: vec![Constraint::soft(D(0.04), D((0.04_f64).powf(2.4)), D(1e6))],
        ..defaults()
    };
    let fit = fit_function(|x| x.powf(2.4), 0.04, 1.0, 4, 4, options);
    assert!(fit.r_squared().0 > 0.999_999, "R² = {}", fit.r_squared().0);
}

/// A bit pattern of the library stands for the number that its comment names.
#[test]
fn constants_have_their_values() {
    let table: [(u64, f64); 22] = [
        (polyfit::options::DEFAULT_WEIGHT, 1_000_000.0),
        (polyfit::options::TOLERANCE_F64, 1e-12),
        (polyfit::options::TOLERANCE_F32, 1e-7),
        (polyfit::sk::POLE_WEIGHT, 1e10),
        (polyfit::lm::TAU, 1e-3),
        (polyfit::lm::LAMBDA_FLOOR, 1e-6),
        (polyfit::lm::LM_TOLERANCE, 1e-15),
        (polyfit::lm::GOOD_GAIN, 0.75),
        (polyfit::lm::THIRD, 1.0 / 3.0),
        (polyfit::lm::TINY_COST, 1e-30),
        (polyfit::nodes::PI, std::f64::consts::PI),
        (polyfit::fit::P_RESTART_PHASE, 7.319),
        (polyfit::fit::P_DEGREE_PHASE, 2.903),
        (polyfit::fit::Q_RESTART_PHASE, 5.147),
        (polyfit::fit::Q_DEGREE_PHASE, 3.571),
        (polyfit::fit::PERTURBATION, 0.05),
        (polyfit::boundary::FRACTION_0, 0.001),
        (polyfit::boundary::FRACTION_1, 0.01),
        (polyfit::boundary::FRACTION_2, 0.05),
        (polyfit::boundary::FRACTION_3, 0.1),
        (polyfit::roundtrip::U16_STEP, 1.0 / 65535.0),
        (polyfit::roundtrip::U8_HALF, 0.5 / 255.0),
    ];
    for (bits, value) in table {
        assert_eq!(bits, value.to_bits(), "{value}");
    }
    assert_eq!(polyfit::algebra::SVD_EPS_FACTOR, 5.0_f64.to_bits());
    let single_tolerance = RationalFitOptions::<S>::default_f32().tolerance.0;
    assert_eq!(single_tolerance.to_bits(), 1e-7_f32.to_bits());
}

#[test]
fn defaults_are_documented_ones() {
    let o = defaults();
    assert_eq!(o.weighting, ErrorWeighting::Absolute);
    assert_eq!(o.max_iterations, 50);
    assert_eq!(o.tolerance.0, 1e-12);
    assert!(o.constraints.is_empty());
    assert_eq!(o.n_samples, 2000);
    assert_eq!(o.lm_iterations, 200);
    assert_eq!(o.constraint_mode, ConstraintMode::SnapOnly);
    assert_eq!(o.restarts, 1);
    let c = F32SearchConfig::default();
    assert_eq!((c.radius, c.max_rounds, c.samples), (3, 5, None));
    assert_eq!(c.metric, F32ScoreMetric::Ulp);
    assert_eq!(Constraint::new(D(1.0), D(2.0)).weight, D(1e6));
    assert_eq!(ErrorWeighting::default(), ErrorWeighting::Absolute);
    assert_eq!(ConstraintMode::default(), ConstraintMode::SnapOnly);
    assert_eq!(F32ScoreMetric::default(), F32ScoreMetric::Ulp);
}

fn line(n: usize) -> Vec<(D, D)> {
    (0..n).map(|i| (D(i as f64), D(i as f64))).collect()
}

#[test]
fn unusable_data_is_refused() {
    let none = RationalFit::new(Vec::new(), 1, 1, defaults(), &Nalgebra);
    assert_eq!(none.err(), Some(Error::NoData));
    let few = RationalFit::new(line(3), 1, 2, defaults(), &Nalgebra);
    assert_eq!(few.err(), Some(Error::DegreeTooHigh(2)));
    let few = RationalFit::new(line(3), 3, 2, defaults(), &Nalgebra);
    assert_eq!(few.err(), Some(Error::DegreeTooHigh(3)));
    let exact_count = RationalFit::new(line(4), 1, 2, defaults(), &Nalgebra);
    assert!(exact_count.is_ok());

    let options = RationalFitOptions { n_samples: 3, ..defaults() };
    let few = RationalFit::from_function(|x: D| x, (D(0.0), D(1.0)), 1, 2, options, &Nalgebra);
    assert_eq!(few.err(), Some(Error::DegreeTooHigh(2)));
}

/// A library that answers as it is told to.
struct Scripted {
    converges: bool,
    answer: Result<Vec<D>, &'static str>,
}

impl LinearAlgebra<D> for Scripted {
    type Svd = ();
    fn svd(&self, _a: &Matrix<D>, _eps: D, _max_iters: usize) -> Option<()> {
        if self.converges {
            Some(())
        } else {
            None
        }
    }
    fn max_singular_value(&self, _svd: &()) -> D {
        D(1.0)
    }
    fn solve(&self, _svd: &(), _b: &Vec<D>, _eps: D) -> Result<Vec<D>, &'static str> {
        self.answer.clone()
    }
    fn gram(&self, _a: &Matrix<D>) -> Matrix<D> {
        Matrix { rows: Vec::new(), ncols: 0 }
    }
    fn transpose_mul(&self, _a: &Matrix<D>, _b: &Vec<D>) -> Vec<D> {
        Vec::new()
    }
    fn dot(&self, _a: &Vec<D>, _b: &Vec<D>) -> D {
        D(0.0)
    }
}

#[test]
fn solver_failures_are_reported() {
    let diverging = Scripted { converges: false, answer: Ok(Vec::new()) };
    let r = RationalFit::new(line(5), 1, 1, defaults(), &diverging);
    assert_eq!(r.err(), Some(Error::DidNotConverge));

    let refusing = Scripted { converges: true, answer: Err("no") };
    let r = RationalFit::new(line(5), 1, 1, defaults(), &refusing);
    assert_eq!(r.err(), Some(Error::Algebra("no")));

    let nan = Scripted { converges: true, answer: Ok(doubles(&[0.0, f64::NAN, 0.0])) };
    let r = RationalFit::new(line(5), 1, 1, defaults(), &nan);
    assert_eq!(r.err(), Some(Error::Algebra("NaN in coefficients")));

    let short = Scripted { converges: true, answer: Ok(doubles(&[0.0])) };
    let r = RationalFit::new(line(5), 1, 1, defaults(), &short);
    assert_eq!(r.err(), Some(Error::Algebra("wrong number of coefficients")));
}

/// A library that always gives the same solution settles the linear fit at once, and
/// products of the wrong shape count as zero, which ends the refinement.
#[test]
fn scripted_solution_is_taken() {
    let fixed = Scripted { converges: true, answer: Ok(doubles(&[1.0, 2.0, 3.0])) };
    let fit = RationalFit::new(line(5), 1, 1, defaults(), &fixed).unwrap();
    let (p, q) = fit.coefficients();
    assert_eq!(p, &doubles(&[1.0, 2.0])[..]);
    assert_eq!(q, &doubles(&[3.0, 1.0])[..]);
    assert_eq!(fit.iterations(), 2);
}

#[test]
fn linear_system_is_solved() {
    let a = Matrix { rows: vec![doubles(&[2.0, 0.0]), doubles(&[0.0, 4.0])], ncols: 2 };
    let x = solve_svd(&Nalgebra, &a, &doubles(&[2.0, 8.0])).unwrap();
    assert!((x[0].0 - 1.0).abs() < 1e-12 && (x[1].0 - 2.0).abs() < 1e-12);

    let tall = Matrix { rows: vec![doubles(&[1.0]), doubles(&[1.0])], ncols: 1 };
    let x = solve_svd(&Nalgebra, &tall, &doubles(&[1.0, 3.0])).unwrap();
    assert!((x[0].0 - 2.0).abs() < 1e-12);

    let g = polyfit::algebra::gram(&Nalgebra, &tall);
    assert_eq!(g.rows, vec![doubles(&[2.0])]);
    let v = polyfit::algebra::transpose_mul(&Nalgebra, &tall, &doubles(&[1.0, 3.0]));
    assert_eq!(v, doubles(&[4.0]));
    let s = polyfit::algebra::dot(&Nalgebra, &doubles(&[1.0, 2.0]), &doubles(&[3.0, 4.0]));
    assert_eq!(s, D(11.0));
}

#[test]
fn quotient_is_evaluated_and_described() {
    let poly = RationalPolynomial::new(doubles(&[1.0, 2.0, 3.0]), doubles(&[4.0, 1.0]));
    assert_eq!(poly.y(D(2.0)), D(17.0 / 6.0));
    assert_eq!(horner(poly.numerator(), D(2.0)), D(17.0));
    assert_eq!(poly.numerator_degree(), 2);
    assert_eq!(poly.denominator_degree(), 1);
    assert_eq!(poly.coefficients(), (poly.numerator(), poly.denominator()));
    assert_eq!(poly.clone(), poly);
    assert_eq!(
        poly.to_text(),
        "(1.000000e0 + 2.000000e0*x + 3.000000e0*x^2) / (4.000000e0 + 1.000000e0*x)"
    );
    let nothing = RationalPolynomial::<D>::new(Vec::new(), Vec::new());
    assert_eq!((nothing.numerator_degree(), nothing.denominator_degree()), (0, 0));
    assert_eq!(nothing.to_text(), "() / ()");
    let mut out = String::from("P: ");
    write_poly_terms(&mut out, &doubles(&[1.5, -2.0]));
    assert_eq!(out, "P: 1.500000e0 + -2.000000e0*x");
}

/// A snap hits its point, and with several only the last is sure to be hit.
#[test]
fn snap_moves_the_constant_term() {
    let mut poly = RationalPolynomial::new(doubles(&[1.0, 2.0]), doubles(&[3.0, 1.0]));
    poly.snap_boundary(D(1.0), D(2.0));
    assert_eq!(poly.numerator(), &doubles(&[6.0, 2.0])[..]);
    assert_eq!(poly.denominator(), &doubles(&[3.0, 1.0])[..]);
    assert_eq!(poly.y(D(1.0)), D(2.0));

    let mut constant = RationalPolynomial::new(doubles(&[5.0]), doubles(&[3.0, 1.0]));
    constant.snap_boundary(D(1.0), D(2.0));
    assert_eq!(constant.numerator(), &doubles(&[8.0])[..]);
}

#[test]
fn nodes_are_chebyshev_spaced() {
    let nodes = chebyshev_nodes(4, D(-1.0), D(3.0));
    assert_eq!(nodes.len(), 4);
    for (k, x) in nodes.iter().enumerate() {
        let theta = std::f64::consts::PI * (2 * k + 1) as f64 / 8.0;
        assert_eq!(x.0, 1.0 + 2.0 * theta.cos());
        assert!(-1.0 < x.0 && x.0 < 3.0);
    }
    assert!(chebyshev_nodes(0, D(0.0), D(1.0)).is_empty());
}

/// One data point and one constraint of weight 4: the equations are those of
/// `P(x) = y*Q(x)`, and the constraint's is doubled.
#[test]
fn linear_system_has_the_right_rows() {
    let data = [(D(2.0), D(3.0))];
    let constraints = [Constraint::soft(D(1.0), D(5.0), D(4.0))];
    let x_powers = precompute_powers(&[D(2.0)], 3);
    let c_powers = precompute_powers(&[D(1.0)], 3);
    assert_eq!(x_powers, vec![doubles(&[1.0, 2.0, 4.0])]);
    let (mat, rhs) = build_sk_system(
        &data,
        &x_powers,
        &c_powers,
        &constraints,
        &doubles(&[0.5]),
        &doubles(&[10.0]),
        2,
        2,
    );
    assert_eq!(mat.ncols, 4);
    assert_eq!(
        mat.rows,
        vec![doubles(&[5.0, 10.0, -15.0, -30.0]), doubles(&[2.0, 2.0, -10.0, -10.0])]
    );
    assert_eq!(rhs, doubles(&[60.0, 10.0]));
    // With P = 1 + x and Q = 2 + 3x + x^2 a row misses by w*(P - y*Q): at the data point
    // that is 5*(3 - 3*12).
    let params = [1.0, 1.0, 2.0, 3.0];
    let product: f64 = (0..4).map(|j| mat.rows[0][j].0 * params[j]).sum();
    assert_eq!(product - rhs[0].0, 5.0 * (3.0 - 3.0 * 12.0));
}

/// The objective: squared errors, relative where asked for, and the weight of a
/// constraint times its squared error.
#[test]
fn cost_is_the_objective() {
    // P = 1 + x, Q = 1 + x: the quotient is 1 everywhere.
    let params = doubles(&[1.0, 1.0, 1.0]);
    let data = [(D(0.0), D(2.0)), (D(1.0), D(4.0))];
    let absolute = compute_cost(&data, &[], &params, 2, ErrorWeighting::Absolute);
    assert_eq!(absolute, D(1.0 + 9.0));
    let relative = compute_cost(&data, &[], &params, 2, ErrorWeighting::Relative);
    assert_eq!(relative, D(0.25 + 9.0 / 16.0));
    let zero = [(D(0.0), D(0.0))];
    assert_eq!(compute_cost(&zero, &[], &params, 2, ErrorWeighting::Relative), D(1.0));
    let constraints = [Constraint::soft(D(3.0), D(4.0), D(25.0))];
    let both = compute_cost(&data, &constraints, &params, 2, ErrorWeighting::Absolute);
    assert_eq!(both, D(10.0 + 25.0 * 9.0));
    // The weight is taken as it is, whether or not it has an exact root.
    let cost = |weight: f64| {
        let constraints = [Constraint::soft(D(0.0), D(0.0), D(weight))];
        compute_cost(&[], &constraints, &doubles(&[1.0]), 1, ErrorWeighting::Absolute)
    };
    assert_eq!(cost(3.0), D(3.0));
    assert_eq!(cost(0.0), D(0.0));
    assert_eq!(cost(-3.0), D(3.0));
}

/// The sign of a weight does not matter, in any mode.
#[test]
fn negative_weight_counts_like_a_positive_one() {
    let with = |mode: ConstraintMode, weight: f64| {
        let options = RationalFitOptions {
            n_samples: 100,
            lm_iterations: 10,
            constraint_mode: mode,
            constraints: vec![Constraint::soft(D(0.5), D(0.8), D(weight))],
            ..defaults()
        };
        fit_function(|x| x.sqrt(), 0.1, 1.0, 2, 2, options)
    };
    for mode in [
        ConstraintMode::SnapOnly,
        ConstraintMode::SkThenSnap,
        ConstraintMode::SkOnly,
        ConstraintMode::Both,
    ] {
        let negative = with(mode, -30.0);
        let positive = with(mode, 30.0);
        assert_eq!(*negative.as_polynomial(), *positive.as_polynomial(), "{mode:?}");
        assert_eq!(negative.iterations(), positive.iterations());
    }
    // It pulls towards the point.
    let miss = |fit: &RationalFit<D>| (fit.y(D(0.5)).0 - 0.8).abs();
    assert!(miss(&with(ConstraintMode::Both, -1e4)) < miss(&with(ConstraintMode::Both, -1e-4)));
    assert_eq!(Constraint::soft(D(0.0), D(0.0), D(-9.0)).factor(), D(3.0));
    assert_eq!(Constraint::soft(D(0.0), D(0.0), D(9.0)).factor(), D(3.0));
}

#[test]
fn jacobian_holds_the_derivatives() {
    // P = 2 + x, Q = 3 + x at x = 1: P/Q = 3/4.
    let params = doubles(&[2.0, 1.0, 3.0]);
    let data = [(D(1.0), D(0.5))];
    let constraints = [Constraint::soft(D(1.0), D(0.25), D(4.0))];
    let (residuals, jacobian) =
        compute_residuals_jacobian(&data, &constraints, &params, 2, ErrorWeighting::Relative);
    assert_eq!(residuals, doubles(&[0.5, 1.0]));
    assert_eq!(
        jacobian.rows,
        vec![doubles(&[0.5, 0.5, -0.375]), doubles(&[0.5, 0.5, -0.375])]
    );
    // Moving p[0] by h moves the residual by h times its derivative.
    let moved = doubles(&[2.5, 1.0, 3.0]);
    let (after, _) =
        compute_residuals_jacobian(&data, &constraints, &moved, 2, ErrorWeighting::Relative);
    assert_eq!(after[0].0 - residuals[0].0, 0.5 * jacobian.rows[0][0].0);
    // Moving q[0] by h moves it by h times its derivative times Q/Q'.
    let moved = doubles(&[2.0, 1.0, 2.0]);
    let (after, _) =
        compute_residuals_jacobian(&data, &constraints, &moved, 2, ErrorWeighting::Relative);
    assert_eq!((after[0].0 - residuals[0].0) * 3.0, -jacobian.rows[0][2].0 * 4.0);
}

/// Refinement never raises the cost and leaves the leading coefficient alone.
#[test]
fn refinement_lowers_the_cost() {
    let data: Vec<(D, D)> = (0..50)
        .map(|i| {
            let x = f64::from(i) / 50.0;
            (D(x), D((x + 0.5).sqrt()))
        })
        .collect();
    let mut poly = RationalPolynomial::new(doubles(&[0.5, 1.0]), doubles(&[1.5, 1.0]));
    let before = pack_params(&poly);
    assert_eq!(before, doubles(&[0.5, 1.0, 1.5]));
    let cost = |params: &Vec<D>| compute_cost(&data, &[], params, 2, ErrorWeighting::Absolute).0;
    let used = refine_lm(&Nalgebra, &mut poly, &data, &[], ErrorWeighting::Absolute, 40, D(1e-12));
    assert!(0 < used && used <= 40);
    assert!(cost(&pack_params(&poly)) < cost(&before));
    assert_eq!(poly.denominator()[1], D(1.0));

    let mut same = RationalPolynomial::new(doubles(&[0.5, 1.0]), doubles(&[1.5, 1.0]));
    let used = refine_lm(&Nalgebra, &mut same, &data, &[], ErrorWeighting::Absolute, 0, D(1e-12));
    assert_eq!(used, 0);
    assert_eq!(pack_params(&same), before);
}

/// What becomes of a step: accepted where the cost goes down, else the damping is
/// raised, and too many rejections in a row end the refinement.
#[test]
fn steps_are_accepted_or_rejected() {
    // Fit a constant to y = 3 from 0: cost 9.
    let data = [(D(0.0), D(3.0))];
    let mut state = LmState {
        params: doubles(&[0.0]),
        cost: D(9.0),
        lambda: D(1.0),
        nu: D(2.0),
        rejects: 30,
    };
    let stop = state.decide(&data, &[], ErrorWeighting::Absolute, 1, D(1e-12), &doubles(&[1.0]), D(10.0));
    assert!(!stop);
    assert_eq!((state.params[0], state.cost, state.rejects), (D(1.0), D(4.0), 0));
    // The gain is 5/5 = 1, so the damping falls to a third.
    assert_eq!((state.lambda, state.nu), (D(1.0 / 3.0), D(2.0)));

    // A step the wrong way is rejected.
    state.rejects = 29;
    let stop = state.decide(&data, &[], ErrorWeighting::Absolute, 1, D(1e-12), &doubles(&[-1.0]), D(10.0));
    assert!(!stop);
    assert_eq!((state.params[0], state.cost, state.rejects), (D(1.0), D(4.0), 30));
    assert_eq!((state.lambda, state.nu), (D(2.0 / 3.0), D(4.0)));
    let stop = state.decide(&data, &[], ErrorWeighting::Absolute, 1, D(1e-12), &doubles(&[-1.0]), D(10.0));
    assert!(stop);
    assert_eq!(state.rejects, 31);

    // Nothing predicted, nothing gained.
    state.rejects = 0;
    let stop = state.decide(&data, &[], ErrorWeighting::Absolute, 1, D(1e-12), &doubles(&[1.0]), D(0.0));
    assert!(!stop);
    assert_eq!((state.params[0], state.rejects), (D(1.0), 1));
}

/// Two fits with the same input agree bit for bit, and so do two searches.
#[test]
fn fits_and_searches_are_deterministic() {
    let run = || {
        let options = RationalFitOptions { n_samples: 200, restarts: 3, ..defaults() };
        let fit = fit_function(|x| x.powf(2.4), 0.04, 1.0, 3, 3, options);
        let result = fit.as_polynomial().optimize_f32(
            |x: D| D(x.0.powf(2.4)),
            single(0.04),
            single(1.0),
            |v: F32| v,
            F32SearchConfig { samples: Some(200), ..F32SearchConfig::default() },
        );
        let p: Vec<u64> = fit.coefficients().0.iter().map(|c| c.0.to_bits()).collect();
        let q: Vec<u64> = fit.coefficients().1.iter().map(|c| c.0.to_bits()).collect();
        let sp: Vec<u32> = result.numerator.iter().map(|c| c.to_bits()).collect();
        (p, q, fit.iterations(), sp, result.to_text())
    };
    assert_eq!(run(), run());
}

/// A fit is monic, has the degrees that were asked for and counts its iterations;
/// without any iteration the denominator is the leading power and the numerator zero.
#[test]
fn fits_are_monic() {
    let fit = fit_function(|x| x.exp(), 0.0, 1.0, 2, 3, RationalFitOptions { max_iterations: 4, ..defaults() });
    assert_eq!((fit.p_degree(), fit.q_degree()), (2, 3));
    let (p, q) = fit.coefficients();
    assert_eq!((p.len(), q.len()), (3, 4));
    assert_eq!(q[3], D(1.0));
    assert!(fit.iterations() <= 4);

    let options = RationalFitOptions { max_iterations: 0, lm_iterations: 0, ..defaults() };
    let fit = fit_function(|x| x.exp(), 0.0, 1.0, 2, 3, options);
    let (p, q) = fit.coefficients();
    assert_eq!(p, &doubles(&[0.0; 3])[..]);
    assert_eq!(q, &doubles(&[0.0, 0.0, 0.0, 1.0])[..]);
    assert_eq!(fit.iterations(), 0);
}

/// A linear fit without iterations is monic too.
#[test]
fn linear_fit_without_iterations_is_monic() {
    let data = [(D(0.0), D(1.0))];
    let (poly, used) =
        fit_sk(&Nalgebra, &data, 1, 1, 0, D(1e-12), &[], ErrorWeighting::Absolute).unwrap();
    assert_eq!(poly.denominator(), &doubles(&[1.0])[..]);
    assert_eq!(poly.numerator(), &doubles(&[0.0])[..]);
    assert_eq!(used, 0);
}

/// The iterations that a fit reports are those of the linear fit, with and without
/// refinement.
#[test]
fn iterations_do_not_depend_on_the_refinement() {
    let with = |lm_iterations: usize, restarts: usize| {
        let options = RationalFitOptions {
            n_samples: 200,
            max_iterations: 7,
            lm_iterations,
            restarts,
            ..defaults()
        };
        fit_function(|x| x.powf(2.4), 0.04, 1.0, 3, 3, options).iterations()
    };
    let linear = with(0, 1);
    assert!(0 < linear && linear <= 7);
    assert_eq!(with(1, 1), linear);
    assert_eq!(with(20, 1), linear);
    assert_eq!(with(20, 4), linear);
}

/// Two fits of one function agree in everything that can be asked of them.
#[test]
fn function_fits_are_repeatable() {
    let run = || {
        let options = RationalFitOptions { n_samples: 150, ..defaults() };
        fit_function(|x| (2.0 * x).cos(), -1.0, 0.5, 3, 2, options)
    };
    let (a, b) = (run(), run());
    assert_eq!(a.coefficients(), b.coefficients());
    assert_eq!(a.data(), b.data());
    assert_eq!(a.x_range(), b.x_range());
    assert_eq!(a.x_range(), (D(-1.0), D(0.5)));
    assert_eq!(a.iterations(), b.iterations());
    assert_eq!((a.p_degree(), a.q_degree()), (b.p_degree(), b.q_degree()));
}

fn objective(fit: &RationalFit<D>) -> f64 {
    let params = pack_params(fit.as_polynomial());
    compute_cost(fit.data(), &[], &params, fit.p_degree() + 1, ErrorWeighting::Absolute).0
}

/// Restarts keep the best run.
#[test]
fn restarts_never_hurt() {
    let with = |restarts: usize| {
        let options = RationalFitOptions { n_samples: 300, lm_iterations: 5, restarts, ..defaults() };
        objective(&fit_function(|x| (5.0 * x).sin() + 2.0, 0.0, 1.0, 2, 2, options))
    };
    let alone = with(1);
    assert_eq!(with(0), alone);
    let few = with(3);
    let many = with(6);
    assert!(few <= alone && many <= few, "{alone:e} {few:e} {many:e}");
}

/// What each constraint mode does with a constraint that the function does not meet.
#[test]
fn constraint_modes_differ_as_documented() {
    let with = |mode: ConstraintMode, constraints: Vec<Constraint<D>>, lm: usize| {
        let options = RationalFitOptions {
            n_samples: 200,
            lm_iterations: lm,
            constraint_mode: mode,
            constraints,
            ..defaults()
        };
        fit_function(|x| x.sqrt(), 0.1, 1.0, 2, 2, options)
    };
    let point = vec![Constraint::soft(D(0.5), D(0.8), D(1e4))];
    let free = with(ConstraintMode::SnapOnly, Vec::new(), 20);

    // A snap adjusts the constant term of the free fit and nothing else.
    let snapped = with(ConstraintMode::SnapOnly, point.clone(), 20);
    let mut expected = free.as_polynomial().clone();
    expected.snap_boundary(D(0.5), D(0.8));
    assert_eq!(*snapped.as_polynomial(), expected);
    assert!((snapped.y(D(0.5)).0 - 0.8).abs() < 1e-12);

    // Without refinement and without snap, the linear fit is bent towards the point.
    let sk_only = with(ConstraintMode::SkOnly, point.clone(), 0);
    let sk_free = with(ConstraintMode::SkOnly, Vec::new(), 0);
    let miss = |fit: &RationalFit<D>| (fit.y(D(0.5)).0 - 0.8).abs();
    assert!(miss(&sk_only) < miss(&sk_free));

    // Bent first, then snapped.
    let sk_then_snap = with(ConstraintMode::SkThenSnap, point.clone(), 0);
    let mut expected = sk_only.as_polynomial().clone();
    expected.snap_boundary(D(0.5), D(0.8));
    assert_eq!(*sk_then_snap.as_polynomial(), expected);

    // In both phases.
    let both = with(ConstraintMode::Both, point.clone(), 20);
    assert!(miss(&both) < miss(&free));
    assert!(miss(&both) > 0.0);

    // Two snaps: the last one counts.
    let two = vec![Constraint::new(D(0.2), D(0.1)), Constraint::new(D(0.5), D(0.8))];
    let fit = with(ConstraintMode::SnapOnly, two, 20);
    assert!(miss(&fit) < 1e-12);
    assert!((fit.y(D(0.2)).0 - 0.1).abs() > 1e-3);

    // Two that ask for the same constant term: both count.
    let y = fit.y(D(0.2));
    let two = vec![Constraint::new(D(0.2), y), Constraint::new(D(0.5), D(0.8))];
    let fit = with(ConstraintMode::SnapOnly, two, 20);
    assert!(miss(&fit) < 1e-12);
    assert!((fit.y(D(0.2)).0 - y.0).abs() < 1e-12);
}

#[test]
fn diagnostics_are_those_of_the_data() {
    let data: Vec<(D, D)> =
        [(2.0, 0.0), (-1.0, 4.0), (3.0, 9.0), (0.0, 1.0)].iter().map(|&(x, y)| (D(x), D(y))).collect();
    let fit = RationalFit::new(data.clone(), 1, 0, defaults(), &Nalgebra).unwrap();
    assert_eq!(fit.x_range(), (D(-1.0), D(3.0)));
    assert_eq!(fit.data(), &data[..]);
    let residuals = fit.residuals();
    for (r, (x, y)) in residuals.iter().zip(&data) {
        assert_eq!(r.0, fit.y(*x).0 - y.0);
    }
    let worst = residuals.iter().map(|r| r.0.abs()).fold(0.0, f64::max);
    assert_eq!(fit.max_abs_error().0, worst);
    // The point with y = 0 does not count for the relative error.
    let worst = (1..4).map(|i| residuals[i].0.abs() / data[i].1 .0).fold(0.0, f64::max);
    assert_eq!(fit.max_rel_error().0, worst);
    let mean = 14.0 / 4.0;
    let tot: f64 = data.iter().map(|d| (d.1 .0 - mean) * (d.1 .0 - mean)).sum();
    let res: f64 = residuals.iter().map(|r| r.0 * r.0).sum();
    assert_eq!(fit.r_squared().0, 1.0 - res / tot);
    let copy = fit.to_owned();
    assert_eq!(copy.to_text(), fit.to_text());
    assert_eq!(copy.data(), fit.data());
    assert_eq!(fit.clone().to_text(), fit.to_text());
    assert!(fit.to_text().starts_with("RationalFit 1/0 (R²=0."), "{}", fit.to_text());
    assert!(fit.to_text().ends_with(&fit.as_polynomial().to_text()));

    // A constant function is fitted perfectly by definition.
    let flat: Vec<(D, D)> = (0..5).map(|i| (D(f64::from(i)), D(2.0))).collect();
    let fit = RationalFit::new(flat, 0, 0, defaults(), &Nalgebra).unwrap();
    assert_eq!(fit.r_squared(), D(1.0));
}

#[test]
fn boundary_report_is_described() {
    let poly = RationalPolynomial::new(doubles(&[0.0, 2.0]), doubles(&[1.0]));
    let report = report_boundary(&poly, D(0.0), D(10.0), &|x: D| x);
    assert_eq!(report.lo.abs_err, D(0.0));
    assert_eq!(report.lo.rel_err, D(0.0));
    assert_eq!((report.hi.predicted, report.hi.expected), (D(20.0), D(10.0)));
    assert_eq!((report.hi.abs_err, report.hi.rel_err), (D(10.0), D(1.0)));
    let xs: Vec<f64> = report.past_hi.iter().map(|b| b.x.0).collect();
    assert_eq!(xs, vec![10.0 + 10.0 * 0.001, 10.0 + 10.0 * 0.01, 10.0 + 10.0 * 0.05, 11.0]);
    let xs: Vec<f64> = report.past_lo.iter().map(|b| b.x.0).collect();
    assert_eq!(xs, vec![-(10.0 * 0.001), -(10.0 * 0.01), -(10.0 * 0.05), -1.0]);
    let text = report.to_text();
    let lines: Vec<&str> = text.lines().collect();
    assert_eq!(lines.len(), 13);
    assert_eq!(lines[0], "Boundary error:");
    assert_eq!(lines[1], "  lo (x=0.000000e0): abs=0.000e0 rel=0.000e0");
    assert_eq!(lines[2], "  hi (x=1.000000e1): abs=1.000e1 rel=1.000e0");
    assert_eq!(lines[3], "  Extrapolation past lo:");
    assert_eq!(lines[4], "    -  0.1% (x=-1.000000e-2): abs=1.000e-2 rel=1.000e0");
    assert_eq!(lines[7], "    - 10.0% (x=-1.000000e0): abs=1.000e0 rel=1.000e0");
    assert_eq!(lines[8], "  Extrapolation past hi:");
    assert_eq!(lines[12], "    + 10.0% (x=1.100000e1): abs=1.100e1 rel=1.000e0");
}

/// The order of scores.
#[test]
fn scores_are_compared() {
    let score = |primary: u64, boundary: u64, avg: f64, mono: u64| Score {
        primary,
        boundary,
        avg: D(avg),
        mono,
    };
    // Monotonicity first, whatever the rest.
    assert!(is_better(score(9, 9, 9.0, 0), score(1, 1, 1.0, 1)));
    assert!(!is_better(score(1, 1, 1.0, 1), score(9, 9, 9.0, 0)));
    // How many violations there are does not matter.
    assert!(is_better(score(1, 1, 1.0, 5), score(2, 1, 1.0, 1)));
    // Then the largest error, the boundary, the average.
    assert!(is_better(score(1, 9, 9.0, 0), score(2, 1, 1.0, 0)));
    assert!(!is_better(score(2, 1, 1.0, 0), score(1, 9, 9.0, 0)));
    assert!(is_better(score(1, 1, 9.0, 0), score(1, 2, 1.0, 0)));
    assert!(is_better(score(1, 1, 1.0, 0), score(1, 1, 2.0, 0)));
    assert!(!is_better(score(1, 1, 1.0, 0), score(1, 1, 1.0, 0)));
    assert!(!is_better(score(1, 1, f64::NAN, 0), score(1, 1, 1.0, 0)));
}

/// An exhaustive search over a small domain: it counts every number, repairs a
/// coefficient that is off by two ULPs and never touches the leading one.
#[test]
fn exhaustive_search_repairs_a_coefficient() {
    let lo = 1.0_f32;
    let hi = f32::from_bits(lo.to_bits() + 10);
    let off = f32::from_bits(1.0_f32.to_bits() + 2);
    let poly = RationalPolynomial::new(doubles(&[0.0, f64::from(off)]), doubles(&[1.0]));
    let start = eval_f32_horner::<D>(single(lo), &singles(&[0.0, off]), &singles(&[1.0]));
    assert_eq!(f32_ulp_distance(start, single(lo)), 2);
    let result = poly.optimize_f32(
        |x: D| x,
        single(lo),
        single(hi),
        |v: F32| v,
        F32SearchConfig::default(),
    );
    assert_eq!(result.max_ulp, 0);
    assert_eq!(result.boundary_ulp, 0);
    assert_eq!(result.mono_violations, 0);
    assert_eq!(result.avg_ulp, D(0.0));
    assert_eq!(result.max_abs_err, D(0.0));
    assert_eq!(result.avg_abs_err, D(0.0));
    assert_eq!(result.values_scored, 11);
    assert!(result.exhaustive);
    assert_eq!(plain(result.denominator[0]), 1.0);
    assert_eq!(plain(result.numerator[1]), 1.0);
    assert_eq!(
        result.to_text(),
        "max_ulp=   0 avg_ulp=  0.000 bnd=0 mono=0 max_abs=0.000e0 [exhaustive, n=11]"
    );

    // Without rounds, the figures are those of the rounded coefficients.
    let result = poly.optimize_f32(
        |x: D| x,
        single(lo),
        single(hi),
        |v: F32| v,
        F32SearchConfig { max_rounds: 0, ..F32SearchConfig::default() },
    );
    assert_eq!(plain(result.numerator[1]), off);
    assert_eq!((result.max_ulp, result.boundary_ulp), (2, 2));

    // By absolute error.
    let result = poly.optimize_f32(
        |x: D| x,
        single(lo),
        single(hi),
        |v: F32| v,
        F32SearchConfig { metric: F32ScoreMetric::AbsoluteError, ..F32SearchConfig::default() },
    );
    assert_eq!(result.max_abs_err, D(0.0));
}

/// The transform changes the input of the polynomial, not that of the reference; a
/// decreasing quotient violates monotonicity at every step.
#[test]
fn transform_and_monotonicity_are_seen() {
    let poly = RationalPolynomial::new(doubles(&[3.0, -1.0]), doubles(&[1.0]));
    let result = poly.optimize_f32(
        |x: D| D(3.0 - x.0.sqrt()),
        single(1.0),
        single(4.0),
        |v: F32| single(plain(v).sqrt()),
        F32SearchConfig { samples: Some(100), max_rounds: 1, ..F32SearchConfig::default() },
    );
    assert!(result.max_ulp <= 1, "{}", result.to_text());
    assert_eq!(result.mono_violations, 100);
    assert_eq!(result.values_scored, 101);
    assert!(!result.exhaustive);
    assert!(result.to_text().ends_with(" [sampled, n=101]"));
}

#[test]
fn warm_start_refines_and_searches() {
    let data: Vec<(D, D)> = (0..=100)
        .map(|i| {
            let x = 0.5 + f64::from(i) / 200.0;
            (D(x), D(1.0 / (x + 2.0)))
        })
        .collect();
    let run = || {
        RationalPolynomial::<D>::refine_from_f32(
            &singles(&[0.9]),
            &singles(&[1.8, 1.0]),
            |x: D| D(1.0 / (x.0 + 2.0)),
            &data,
            single(0.5),
            single(1.0),
            |v: F32| v,
            F32SearchConfig { samples: Some(100), ..F32SearchConfig::default() },
            ErrorWeighting::Relative,
            50,
            &Nalgebra,
        )
    };
    let result = run();
    assert!((plain(result.numerator[0]) - 1.0).abs() < 1e-4, "{}", result.to_text());
    assert!((plain(result.denominator[0]) - 2.0).abs() < 1e-4);
    assert_eq!(plain(result.denominator[1]), 1.0);
    assert!(result.max_ulp < 10);
    assert_eq!(run().to_text(), result.to_text());
}

/// The gap is taken one step to each side of the threshold.
#[test]
fn gap_of_the_identity_is_two() {
    let gap = piecewise_gap::<D, _, _>(
        single(1.0),
        &singles(&[0.0, 1.0]),
        &singles(&[1.0]),
        |v: F32| v,
        |v: F32| v,
    );
    assert_eq!(gap, 2);
    let gap = piecewise_gap::<D, _, _>(
        single(1.0),
        &singles(&[0.0, 1.0]),
        &singles(&[1.0]),
        |_: F32| single(1.0),
        |_: F32| single(1.0),
    );
    assert_eq!(gap, 0);
}

/// Below and above the threshold mean the same for a negative threshold and for zero.
#[test]
fn gap_is_taken_at_the_neighbours_whatever_the_sign() {
    let constant = |threshold: f32, linear: fn(f32) -> f32| {
        piecewise_gap::<D, _, _>(
            single(threshold),
            &singles(&[0.0]),
            &singles(&[1.0]),
            |v: F32| single(linear(plain(v))),
            |v: F32| v,
        )
    };
    assert_eq!(constant(-0.5, |v| if v < -0.5 { 0.0 } else { 1.0 }), 0);
    assert_eq!(constant(0.0, |v| if v < 0.0 { 0.0 } else { 1.0 }), 0);
    assert_eq!(constant(-0.0, |v| if v < 0.0 { 0.0 } else { 1.0 }), 0);
    for threshold in [-0.5_f32, -0.0, 0.0, 1e-45, -1e-45, -3.0] {
        let gap = piecewise_gap::<D, _, _>(
            single(threshold),
            &singles(&[0.0, 1.0]),
            &singles(&[1.0]),
            |v: F32| v,
            |v: F32| v,
        );
        assert_eq!(gap, 2, "{threshold}");
    }
}

/// The counts of a report fit its largest error and each other.
#[test]
fn roundtrip_counts_fit_the_largest_error() {
    for off in [0.0_f32, 1e-6, 1.0 / 65535.0, 2e-5, 0.001, 0.00196, 0.00197, 0.1] {
        let report = measure_roundtrip::<D, _, _>(
            |v: F32| v,
            |u: F32| single(if plain(u) > 0.6 { plain(u) + off } else { plain(u) }),
            single(0.25),
            single(0.75),
            Some(16),
        );
        assert!(report.u8_over_half <= report.u16_over_1);
        assert!(report.u16_over_1 <= report.values_scored);
        assert_eq!(report.u16_over_1 > 0, report.max_abs_err.0 > 1.0 / 65535.0, "{off}");
        assert_eq!(report.u8_over_half > 0, report.max_abs_err.0 > 0.5 / 255.0, "{off}");
        assert!(report.max_abs_err.0 >= 0.0);
    }
    let report =
        measure_roundtrip::<D, _, _>(|v: F32| v, |u: F32| u, single(2.0), single(1.0), None);
    assert_eq!((report.values_scored, report.max_ulp), (0, 0));
    assert_eq!((report.u16_over_1, report.u8_over_half), (0, 0));
    assert_eq!((report.max_abs_err, report.avg_abs_err), (D(0.0), D(0.0)));
}

#[test]
fn roundtrip_counts_misses() {
    // Off by 1/1000 everywhere: more than a 16-bit step, less than half an 8-bit one.
    let report = measure_roundtrip::<D, _, _>(
        |v: F32| v,
        |u: F32| single(plain(u) + 0.001),
        single(0.25),
        single(0.75),
        Some(10),
    );
    assert_eq!((report.u16_over_1, report.u8_over_half), (11, 0));
    assert!((report.avg_abs_err.0 - 0.001).abs() < 1e-6);
    // Off by 1/100: more than both.
    let report = measure_roundtrip::<D, _, _>(
        |v: F32| v,
        |u: F32| single(plain(u) + 0.01),
        single(0.25),
        single(0.75),
        Some(10),
    );
    assert_eq!((report.u16_over_1, report.u8_over_half), (11, 11));

    // Every number of a small domain.
    let lo = 1.0_f32;
    let hi = f32::from_bits(lo.to_bits() + 4);
    let report = measure_roundtrip::<D, _, _>(
        |v: F32| v,
        |u: F32| F32::from_bits(u.to_bits() + 3),
        single(lo),
        single(hi),
        None,
    );
    assert_eq!((report.values_scored, report.max_ulp, report.exhaustive), (5, 3, true));
    assert_eq!(
        report.to_text(),
        "max_ulp=3 max_abs=3.576e-7 avg_abs=3.576e-7 u16>1=0 u8>0.5=0 [exhaustive, n=5]"
    );
    // Nothing between the bounds.
    let report =
        measure_roundtrip::<D, _, _>(|v: F32| v, |u: F32| u, single(1.0), single(0.0), None);
    assert_eq!((report.values_scored, report.max_ulp), (0, 0));
    assert_eq!(report.avg_abs_err, D(0.0));
}

/// The evaluators agree with the plain sum where nothing is rounded.
#[test]
fn evaluators_agree_on_exact_values() {
    let c = [3.0, -1.0, 0.5, 2.0];
    for x in [-2.0, 0.0, 0.5, 4.0] {
        let sum = c[0] + c[1] * x + c[2] * x * x + c[3] * x * x * x;
        assert_eq!(horner(&doubles(&c), D(x)), D(sum));
        assert_eq!(horner_f64(D(x), &doubles(&c)), D(sum));
        let c32: Vec<f32> = c.iter().map(|&v| v as f32).collect();
        assert_eq!(plain(horner_f32_via_f64::<D>(single(x as f32), &singles(&c32))), sum as f32);
        let quotient =
            rational_horner_f32_via_f64::<D>(single(x as f32), &singles(&c32), &singles(&[2.0]));
        assert_eq!(plain(quotient), (sum / 2.0) as f32);
        assert_eq!(
            quotient.to_bits(),
            eval_f32_horner::<D>(single(x as f32), &singles(&c32), &singles(&[2.0])).to_bits()
        );
    }
    // Rounded once at the end.
    let c32 = [0.1_f32, -0.7, 3.3, 1e-3];
    let wide: Vec<f64> = c32.iter().map(|&v| f64::from(v)).collect();
    for x in [0.3_f32, -7.7, 1e4] {
        let mixed = horner_f32_via_f64::<D>(single(x), &singles(&c32));
        let double = horner_f64(D(f64::from(x)), &doubles(&wide));
        assert_eq!(mixed.to_bits(), double.to_f32().to_bits());
    }
    assert_eq!(horner_f32_via_f64::<D>(single(2.0), &[]).to_bits(), 0);
    // No numerator: 0 over the denominator.
    assert_eq!(plain(rational_horner_f32_via_f64::<D>(single(1.0), &[], &singles(&[2.0]))), 0.0);
}

/// No coefficient ends further from where it began than the radius in each round, and
/// the score does not get worse.
#[test]
fn search_stays_near_and_gains() {
    let fit = fit_function(
        |x| x.powf(2.4),
        0.04,
        1.0,
        3,
        3,
        RationalFitOptions { n_samples: 300, ..defaults() },
    );
    let poly = fit.as_polynomial();
    let run = |max_rounds: usize| {
        poly.optimize_f32(
            |x: D| D(x.0.powf(2.4)),
            single(0.04),
            single(1.0),
            |v: F32| v,
            F32SearchConfig { radius: 1, max_rounds, samples: Some(300), ..F32SearchConfig::default() },
        )
    };
    let before = run(0);
    let after = run(2);
    let start: Vec<F32> = poly.numerator().iter().chain(poly.denominator()).map(|c| c.to_f32()).collect();
    let end: Vec<F32> = after.numerator.iter().chain(&after.denominator).copied().collect();
    assert_eq!(start.len(), end.len());
    for (a, b) in start.iter().zip(&end) {
        assert!(f32_ulp_distance(*a, *b) <= 2);
    }
    assert_eq!(start.last().map(|c| c.to_bits()), end.last().map(|c| c.to_bits()));
    assert!(after.max_ulp <= before.max_ulp, "{} / {}", before.to_text(), after.to_text());
    assert!(fit.r_squared().0 <= 1.0);
}

/// A search in two parts comes to the same as one in a single part, and more rounds are
/// never worse.
#[test]
fn rounds_compose() {
    let reference = |x: D| D(x.0.powf(2.4));
    let search = |poly: &RationalPolynomial<D>, max_rounds: usize| {
        poly.optimize_f32(
            reference,
            single(0.04),
            single(1.0),
            |v: F32| v,
            F32SearchConfig { radius: 2, max_rounds, samples: Some(200), ..F32SearchConfig::default() },
        )
    };
    let options = RationalFitOptions { n_samples: 200, ..defaults() };
    let fit = fit_function(|x| x.powf(2.4), 0.04, 1.0, 2, 2, options);
    let start = fit.as_polynomial();
    let mut before = search(start, 0);
    for m in 1..6 {
        let whole = search(start, m);
        for k in 0..m {
            let part = search(start, k);
            let wide = |c: &[F32]| c.iter().map(|&v| D::from_f32(v)).collect::<Vec<D>>();
            let middle = RationalPolynomial::new(wide(&part.numerator), wide(&part.denominator));
            let rest = search(&middle, m - k);
            let bits = |c: &[F32]| c.iter().map(|v| v.to_bits()).collect::<Vec<u32>>();
            assert_eq!(bits(&rest.numerator), bits(&whole.numerator));
            assert_eq!(bits(&rest.denominator), bits(&whole.denominator));
            assert_eq!(rest.to_text(), whole.to_text());
        }
        assert!(whole.mono_violations == 0 || before.mono_violations > 0);
        if (whole.mono_violations == 0) == (before.mono_violations == 0) {
            let key = |r: &polyfit::search::F32SearchResult<D>| (r.max_ulp, r.boundary_ulp, r.avg_ulp.0);
            assert!(key(&whole) <= key(&before));
        }
        before = whole;
    }
}

/// A coefficient next to zero is nudged past it.
#[test]
fn search_goes_past_zero() {
    // The constant term should be -2e-45; it starts at 0.
    let poly = RationalPolynomial::new(doubles(&[0.0]), doubles(&[1.0]));
    let result = poly.optimize_f32(
        |_: D| D(-2.0 * f64::from(f32::from_bits(1))),
        single(1.0),
        single(2.0),
        |v: F32| v,
        F32SearchConfig { samples: Some(4), ..F32SearchConfig::default() },
    );
    assert_eq!(result.numerator[0].to_bits(), 0x8000_0002);
    assert_eq!(result.max_ulp, 0);
}

/// A search keeps the numbers of coefficients and the leading one of the denominator.
#[test]
fn search_keeps_the_shape() {
    for lead in [1.0, 0.1, -3.0] {
        let poly = RationalPolynomial::new(doubles(&[0.3, 0.7, -0.1]), doubles(&[0.9, lead]));
        let result = poly.optimize_f32(
            |x: D| D(x.0.sqrt()),
            single(1.0),
            single(2.0),
            |v: F32| v,
            F32SearchConfig { samples: Some(30), ..F32SearchConfig::default() },
        );
        assert_eq!((result.numerator.len(), result.denominator.len()), (3, 2));
        assert_eq!(plain(result.denominator[1]), lead as f32);
        assert_eq!((result.values_scored, result.exhaustive), (31, false));
    }
}

/// Without refinement a warm start is the search on the widened coefficients, whatever the
/// data and the weighting.
#[test]
fn warm_start_without_refinement_is_a_search() {
    let p = singles(&[0.1, 0.8, 0.07]);
    let q = singles(&[1.3, 0.4, 1.0]);
    let config = || F32SearchConfig { samples: Some(40), ..F32SearchConfig::default() };
    let reference = |x: D| D(x.0.sqrt());
    let wide = |c: &[F32]| c.iter().map(|&v| D::from_f32(v)).collect::<Vec<D>>();
    let searched = RationalPolynomial::new(wide(&p), wide(&q)).optimize_f32(
        reference,
        single(0.5),
        single(1.5),
        |v: F32| v,
        config(),
    );
    let all: [(&[(D, D)], ErrorWeighting); 3] = [
        (&[], ErrorWeighting::Absolute),
        (&[(D(1.0), D(5.0)), (D(2.0), D(-1.0))], ErrorWeighting::Relative),
        (&[(D(f64::NAN), D(0.0))], ErrorWeighting::Absolute),
    ];
    for (data, weighting) in all {
        let warm = RationalPolynomial::refine_from_f32(
            &p,
            &q,
            reference,
            data,
            single(0.5),
            single(1.5),
            |v: F32| v,
            config(),
            weighting,
            0,
            &Nalgebra,
        );
        let bits = |c: &[F32]| c.iter().map(|v| v.to_bits()).collect::<Vec<u32>>();
        assert_eq!(bits(&warm.numerator), bits(&searched.numerator));
        assert_eq!(bits(&warm.denominator), bits(&searched.denominator));
        assert_eq!(warm.to_text(), searched.to_text());
    }
}
