//! Rational polynomial fitting: P(x)/Q(x) approximation.
//!
//! The whole interface in one place: fit with [`RationalFit`], optimize the coefficients
//! of its [`RationalPolynomial`] for single precision, and measure what came out.
pub use crate::boundary::{BoundaryPoint, BoundaryReport};
pub use crate::options::{
    Constraint, ConstraintMode, ErrorWeighting, F32ScoreMetric, F32SearchConfig, RationalFitOptions,
};
pub use crate::polynomial::RationalPolynomial;
pub use crate::rational_fit::RationalFit;
pub use crate::roundtrip::{measure_roundtrip, piecewise_gap, RoundtripReport};
pub use crate::search::F32SearchResult;
