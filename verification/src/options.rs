//! What a fit and a coefficient search can be told.
use crate::value::{cast_or, try_cast_or, Value};
use vstd::prelude::*;

verus! {

/// 1e6, the weight of a constraint that is given none.
pub const DEFAULT_WEIGHT: u64 = 0x412e_8480_0000_0000;

/// 1e-12, the convergence tolerance in double precision.
pub const TOLERANCE_F64: u64 = 0x3d71_9799_812d_ea11;

/// 1e-7, the convergence tolerance in single precision.
pub const TOLERANCE_F32: u64 = 0x3e7a_d7f2_9abc_af48;

/// How to weight fitting errors.
#[derive(Debug, Clone, Copy, PartialEq, Eq, Structural)]
pub enum ErrorWeighting {
    /// Minimize sum of |P(x)/Q(x) - y|^2 (absolute error).
    Absolute,
    /// Minimize sum of |P(x)/Q(x) - y|^2 / |y|^2 (relative error).
    ///
    /// Better for transfer functions where accuracy matters proportionally.
    Relative,
}

impl Default for ErrorWeighting {
    fn default() -> (r: Self)
        ensures
            r == ErrorWeighting::Absolute,
    {
        ErrorWeighting::Absolute
    }
}

/// How constraints are applied across the two fitting phases, the iteratively
/// reweighted linear fit (SK) and the damped refinement (LM).
#[derive(Debug, Clone, Copy, PartialEq, Eq, Structural)]
pub enum ConstraintMode {
    /// Fit entirely unconstrained, then adjust `p[0]` to satisfy the constraints.
    ///
    /// The adjustments follow one another, so that the last constraint is met, and with it
    /// each other one that asks for the same constant term. One that asks for another is
    /// missed: a single constant term cannot meet both.
    ///
    /// Best for piecewise functions where the join point matters: neither phase is
    /// distorted by constraint weights, and the snap only perturbs a DC offset.
    SnapOnly,
    /// Apply constraints during SK only, refine freely, then snap as
    /// [`ConstraintMode::SnapOnly`] does.
    SkThenSnap,
    /// Apply constraints during both phases as weighted residuals.
    Both,
    /// Apply constraints during SK only, no snap.
    SkOnly,
}

impl Default for ConstraintMode {
    fn default() -> (r: Self)
        ensures
            r == ConstraintMode::SnapOnly,
    {
        ConstraintMode::SnapOnly
    }
}

impl ConstraintMode {
    /// The SK phase sees the constraints.
    pub open spec fn in_sk(self) -> bool {
        self != ConstraintMode::SnapOnly
    }

    /// The LM phase sees the constraints.
    pub open spec fn in_lm(self) -> bool {
        self == ConstraintMode::Both
    }

    /// The result is snapped to the constraints.
    pub open spec fn snaps(self) -> bool {
        self == ConstraintMode::SnapOnly || self == ConstraintMode::SkThenSnap
    }
}

/// A point that the rational polynomial should pass through.
///
/// In the least-squares objective a constraint is a soft penalty,
/// `weight * (P(x)/Q(x) - y)^2`, not a hard pin: the fit trades a small violation
/// for a better fit elsewhere. For an exact hit use a [`ConstraintMode`] that
/// snaps.
///
/// The sign of a weight does not matter: a negative weight penalizes the error as the
/// positive one of the same size does. A snap does not look at the weight.
#[derive(Debug, Clone, Copy)]
pub struct Constraint<T> {
    /// The x coordinate of the constraint.
    pub x: T,
    /// The y value the rational polynomial should match.
    pub y: T,
    /// How strongly to weight this constraint in the least-squares objective
    /// (default: 1e6), a multiplier on the squared error.
    pub weight: T,
}

/// How strongly a constraint counts: its weight, without the sign.
pub open spec fn strength<T: Value>(c: Constraint<T>) -> T {
    if c.weight.lt_spec(T::zero_spec()) {
        c.weight.neg_spec()
    } else {
        c.weight
    }
}

/// The factor of a constraint's equation: the square root of its strength, so that the
/// strength multiplies the square.
pub open spec fn penalty_factor<T: Value>(c: Constraint<T>) -> T {
    strength(c).sqrt_spec()
}

impl<T: Value> Constraint<T> {
    /// Create a soft point constraint at `(x, y)` with the default weight 1e6.
    pub fn new(x: T, y: T) -> (r: Self)
        ensures
            r == (Constraint { x, y, weight: cast_or(DEFAULT_WEIGHT, T::one_spec()) }),
    {
        Constraint { x, y, weight: try_cast_or(DEFAULT_WEIGHT, T::one()) }
    }

    /// Create a soft point constraint at `(x, y)` with a caller-chosen penalty
    /// weight.
    pub fn soft(x: T, y: T, weight: T) -> (r: Self)
        ensures
            r == (Constraint { x, y, weight }),
    {
        Constraint { x, y, weight }
    }

    /// Create a constraint with custom weight: another name for
    /// [`Constraint::soft`].
    pub fn with_weight(x: T, y: T, weight: T) -> (r: Self)
        ensures
            r == (Constraint { x, y, weight }),
    {
        Constraint::soft(x, y, weight)
    }

    /// How strongly the constraint counts.
    pub fn strength(&self) -> (r: T)
        ensures
            r == strength(*self),
    {
        if self.weight.lt(T::zero()) {
            self.weight.neg()
        } else {
            self.weight
        }
    }

    /// The factor of the constraint's equation.
    pub fn factor(&self) -> (r: T)
        ensures
            r == penalty_factor(*self),
    {
        self.strength().sqrt()
    }
}

/// Configuration for rational polynomial fitting.
#[derive(Debug, Clone)]
pub struct RationalFitOptions<T> {
    /// Error weighting strategy.
    pub weighting: ErrorWeighting,
    /// Maximum SK iterations (default: 50).
    pub max_iterations: usize,
    /// Convergence tolerance on coefficient change (default: 1e-12 in double
    /// precision, 1e-7 in single precision).
    pub tolerance: T,
    /// Point constraints the fit should satisfy.
    pub constraints: Vec<Constraint<T>>,
    /// Number of sample points for fitting a function (default: 2000).
    /// Uses Chebyshev-spaced nodes for stability.
    pub n_samples: usize,
    /// Maximum LM refinement iterations after SK converges (default: 200).
    /// Set to 0 to disable LM refinement and use SK only.
    pub lm_iterations: usize,
    /// How constraints are applied across the fitting phases (default: `SnapOnly`).
    pub constraint_mode: ConstraintMode,
    /// Number of runs with perturbed initial conditions (default: 1, no restarts).
    /// Each restart perturbs the SK result by up to 5%, re-runs LM, and the best
    /// result is kept.
    pub restarts: usize,
}

impl<T: Value> RationalFitOptions<T> {
    /// The default options with the given tolerance.
    pub open spec fn defaults(&self, tolerance: T) -> bool {
        &&& self.weighting == ErrorWeighting::Absolute
        &&& self.max_iterations == 50
        &&& self.tolerance == tolerance
        &&& self.constraints@.len() == 0
        &&& self.n_samples == 2000
        &&& self.lm_iterations == 200
        &&& self.constraint_mode == ConstraintMode::SnapOnly
        &&& self.restarts == 1
    }

    fn with_tolerance(tolerance: T) -> (r: Self)
        ensures
            r.defaults(tolerance),
    {
        RationalFitOptions {
            weighting: ErrorWeighting::Absolute,
            max_iterations: 50,
            tolerance,
            constraints: Vec::new(),
            n_samples: 2000,
            lm_iterations: 200,
            constraint_mode: ConstraintMode::SnapOnly,
            restarts: 1,
        }
    }

    /// The default options for double precision.
    pub fn default_f64() -> (r: Self)
        ensures
            r.defaults(T::convert_f64_spec(TOLERANCE_F64)),
    {
        RationalFitOptions::with_tolerance(T::convert_f64(TOLERANCE_F64))
    }

    /// The default options for single precision.
    pub fn default_f32() -> (r: Self)
        ensures
            r.defaults(T::convert_f64_spec(TOLERANCE_F32)),
    {
        RationalFitOptions::with_tolerance(T::convert_f64(TOLERANCE_F32))
    }
}

/// How the coefficient search scores candidate coefficients.
#[derive(Debug, Clone, Copy, PartialEq, Eq, Structural)]
pub enum F32ScoreMetric {
    /// Score by ULP distance (best for transfer functions with bounded output).
    Ulp,
    /// Score by absolute error (best when output crosses zero).
    AbsoluteError,
}

impl Default for F32ScoreMetric {
    fn default() -> (r: Self)
        ensures
            r == F32ScoreMetric::Ulp,
    {
        F32ScoreMetric::Ulp
    }
}

/// Configuration for single precision coefficient optimization via local search.
#[derive(Debug, Clone)]
pub struct F32SearchConfig {
    /// Search radius per coefficient in ULPs (default: 3).
    pub radius: i32,
    /// Maximum search rounds (default: 5).
    pub max_rounds: usize,
    /// Scoring metric (default: ULP).
    pub metric: F32ScoreMetric,
    /// Number of sample points. `None` = exhaustive sweep of every single precision
    /// number in the domain (default, slow for wide domains). `Some(n)` =
    /// uniformly-spaced samples.
    pub samples: Option<usize>,
}

impl Default for F32SearchConfig {
    fn default() -> (r: Self)
        ensures
            r == (F32SearchConfig {
                radius: 3,
                max_rounds: 5,
                metric: F32ScoreMetric::Ulp,
                samples: None,
            }),
    {
        F32SearchConfig {
            radius: 3,
            max_rounds: 5,
            metric: F32ScoreMetric::Ulp,
            samples: None,
        }
    }
}

} // verus!
