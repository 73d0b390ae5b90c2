//! A number type that constants and counts cannot be cast to: every fallback is taken.
use polyfit::algebra::{conform, conform_vec, solve_svd, LinearAlgebra, Matrix};
use polyfit::error::Error;
use polyfit::nodes::chebyshev_nodes;
use polyfit::rational::{Constraint, ErrorWeighting, RationalFit, RationalFitOptions};
use polyfit::single::F32;
use polyfit::value::{try_cast_or, try_count_or, Value};

/// A number that only computes.
#[derive(Clone, Copy, Debug, PartialEq)]
struct Bare(f64);

impl Value for Bare {
    fn zero() -> Bare {
        Bare(0.0)
    }
    fn one() -> Bare {
        Bare(1.0)
    }
    fn two() -> Bare {
        Bare(2.0)
    }
    fn half() -> Bare {
        Bare(0.5)
    }
    fn infinity() -> Bare {
        Bare(f64::INFINITY)
    }
    fn neg_infinity() -> Bare {
        Bare(f64::NEG_INFINITY)
    }
    fn epsilon() -> Bare {
        Bare(f64::EPSILON)
    }
    fn default_epsilon() -> Bare {
        Bare(f64::EPSILON)
    }
    fn add(self, rhs: Bare) -> Bare {
        Bare(self.0 + rhs.0)
    }
    fn sub(self, rhs: Bare) -> Bare {
        Bare(self.0 - rhs.0)
    }
    fn mul(self, rhs: Bare) -> Bare {
        Bare(self.0 * rhs.0)
    }
    fn div(self, rhs: Bare) -> Bare {
        Bare(self.0 / rhs.0)
    }
    fn neg(self) -> Bare {
        Bare(-self.0)
    }
    fn abs(self) -> Bare {
        Bare(self.0.abs())
    }
    fn max(self, other: Bare) -> Bare {
        Bare(self.0.max(other.0))
    }
    fn min(self, other: Bare) -> Bare {
        Bare(self.0.min(other.0))
    }
    fn mul_add(self, a: Bare, b: Bare) -> Bare {
        Bare(self.0.mul_add(a.0, b.0))
    }
    fn sqrt(self) -> Bare {
        Bare(self.0.sqrt())
    }
    fn sin(self) -> Bare {
        Bare(self.0.sin())
    }
    fn cos(self) -> Bare {
        Bare(self.0.cos())
    }
    fn lt(self, other: Bare) -> bool {
        self.0 < other.0
    }
    fn is_nan(self) -> bool {
        self.0.is_nan()
    }
    fn is_near_zero(self) -> bool {
        self.0.abs() < f64::EPSILON
    }
    fn try_cast_usize(_n: usize) -> Option<Bare> {
        None
    }
    fn try_cast_f64(_bits: u64) -> Option<Bare> {
        None
    }
    fn convert_f64(bits: u64) -> Bare {
        Bare(f64::from_bits(bits))
    }
    fn from_u64(n: u64) -> Bare {
        Bare(n as f64)
    }
    fn from_f32(v: F32) -> Bare {
        Bare(f64::from(f32::from_bits(v.to_bits())))
    }
    fn to_f32(self) -> F32 {
        F32::from_bits((self.0 as f32).to_bits())
    }
    fn to_bits(self) -> u64 {
        self.0.to_bits()
    }
    fn to_exp(self, digits: usize) -> String {
        format!("{:.*e}", digits, self.0)
    }
    fn to_fixed(self, digits: usize) -> String {
        format!("{:.*}", digits, self.0)
    }
}

/// A library whose decomposition always succeeds.
struct Willing;

impl LinearAlgebra<Bare> for Willing {
    type Svd = ();
    fn svd(&self, _a: &Matrix<Bare>, eps: Bare, max_iters: usize) -> Option<()> {
        assert_eq!(eps.0, 5.0 * f64::EPSILON);
        assert_eq!(max_iters, 1000);
        Some(())
    }
    fn max_singular_value(&self, _svd: &()) -> Bare {
        Bare(1.0)
    }
    fn solve(&self, _svd: &(), _b: &Vec<Bare>, _eps: Bare) -> Result<Vec<Bare>, &'static str> {
        panic!("not reached without a count")
    }
    fn gram(&self, a: &Matrix<Bare>) -> Matrix<Bare> {
        a.clone()
    }
    fn transpose_mul(&self, _a: &Matrix<Bare>, b: &Vec<Bare>) -> Vec<Bare> {
        b.clone()
    }
    fn dot(&self, _a: &Vec<Bare>, _b: &Vec<Bare>) -> Bare {
        Bare(0.0)
    }
}

#[test]
fn casts_fall_back() {
    assert_eq!(try_cast_or(polyfit::nodes::PI, Bare(7.0)), Bare(7.0));
    assert_eq!(try_count_or(3, Bare(8.0)), Bare(8.0));
    assert_eq!(Constraint::new(Bare(0.0), Bare(0.0)).weight, Bare(1.0));
    // Without pi and without counts every node is at the angle 0.
    assert_eq!(chebyshev_nodes(2, Bare(1.0), Bare(3.0)), vec![Bare(3.0), Bare(3.0)]);
}

#[test]
fn missing_count_is_an_error() {
    let a = Matrix { rows: vec![vec![Bare(1.0)]], ncols: 1 };
    assert_eq!(solve_svd(&Willing, &a, &vec![Bare(1.0)]), Err(Error::CastFailed));

    let data = vec![(Bare(0.0), Bare(1.0)), (Bare(1.0), Bare(2.0))];
    let options = RationalFitOptions {
        weighting: ErrorWeighting::Relative,
        ..RationalFitOptions::default_f64()
    };
    let fit = RationalFit::new(data, 1, 0, options, &Willing);
    assert_eq!(fit.err(), Some(Error::CastFailed));
}

#[test]
fn answers_of_the_wrong_shape_are_zero() {
    let ragged = Matrix { rows: vec![vec![Bare(1.0)], vec![]], ncols: 1 };
    let zeros = conform(ragged, 2, 1);
    assert_eq!(zeros.rows, vec![vec![Bare(0.0)], vec![Bare(0.0)]]);
    let fine = conform(Matrix { rows: vec![vec![Bare(1.0)]], ncols: 1 }, 1, 1);
    assert_eq!(fine.rows, vec![vec![Bare(1.0)]]);
    assert_eq!(conform_vec(vec![Bare(1.0)], 2), vec![Bare(0.0), Bare(0.0)]);
    assert_eq!(conform_vec(vec![Bare(1.0)], 1), vec![Bare(1.0)]);
    let tall = Matrix { rows: vec![vec![Bare(1.0)], vec![Bare(2.0)]], ncols: 1 };
    let g = polyfit::algebra::gram(&Willing, &tall);
    assert_eq!(g.rows, vec![vec![Bare(0.0)]]);
    let v = polyfit::algebra::transpose_mul(&Willing, &tall, &vec![Bare(1.0), Bare(1.0)]);
    assert_eq!(v, vec![Bare(0.0)]);
}
