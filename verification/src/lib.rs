//! Rational polynomial fitting: P(x)/Q(x) approximation.
//!
//! Fits a rational polynomial P(x)/Q(x) to data or a known function. Unlike polynomial
//! fitting, which is a linear problem, rational fitting is nonlinear because the
//! denominator's coefficients appear in the divisor. A fit goes through these steps:
//!
//! 1. The Sanathanan-Koerner iteration ([`sk`]) linearizes the problem and reweights the
//!    residuals until it settles.
//! 2. Levenberg-Marquardt refinement ([`lm`]) minimizes the objective ([`residual`])
//!    itself, from there and from perturbations of it ([`fit`]).
//! 3. A snap ([`polynomial`]) moves the constant term so that the quotient passes through
//!    a given point.
//! 4. A local search ([`search`], [`optimize`]) looks for the best single precision
//!    coefficients near the fitted ones, scored over a sweep ([`sweep`]) of the domain.
//!
//! Rational polynomials are good at approximating transfer functions, transcendental
//! functions and others with steep gradients or asymptotic behavior, where a polynomial
//! needs a high degree.
//!
//! # Numbers and linear algebra
//!
//! Everything is generic over the number type, a [`value::Value`], and over the library
//! that decomposes and multiplies matrices, an [`algebra::LinearAlgebra`]. Contracts say
//! which operations are applied to which operands in which order, so they hold of rounded
//! arithmetic. Single precision numbers are bit patterns ([`single`]), whose order and
//! neighbours are computed without any floating point arithmetic.
//!
//! # What is proved beyond the contracts
//!
//! - Fits and searches are deterministic ([`fit_laws`], [`search_laws`]).
//! - Refinement never raises the cost, nor do more restarts; a search never loses ground,
//!   its rounds compose, it stays near the coefficients it starts from, and it keeps the
//!   denominator monic.
//! - The iterations that a fit reports do not depend on the refinement.
//! - Reported figures are those of evaluating the coefficients that are handed back, and
//!   an exhaustive sweep visits every number of its domain ([`search_laws`], [`sweep`],
//!   [`report_laws`]).
//! - Each mode hands the constraints to the phases that it names and to no other, and a fit
//!   is the best of its runs ([`mode_laws`]). What each phase solves, weighs, accepts and
//!   stops at is in [`phase_laws`].
//! - Errors are measured where they are said to be, and counted one by one
//!   ([`measure_laws`]). Evaluation, rounding and the figures of a fit are in
//!   [`formula_laws`], texts in [`text_laws`].
//! - The public operations take every argument and option that they are given, and what one
//!   call answers agrees with what others do ([`call_laws`]).
//! - Over the real numbers the formulas are what they are meant to be: Horner's method is
//!   the polynomial, a snap hits its point ([`exact`]), the Jacobian is the derivative
//!   ([`derivatives`]). The arithmetic that this takes is in [`reals`].
//!
//! # Coefficient convention
//!
//! Coefficients are stored lowest-degree-first:
//! ```text
//! P(x) = p[0] + p[1]*x + p[2]*x^2 + ... + p[m]*x^m
//! Q(x) = q[0] + q[1]*x + q[2]*x^2 + ... + x^n     (monic: leading coeff = 1)
//! ```
pub mod algebra;
pub mod boundary;
pub mod call_laws;
pub mod derivatives;
pub mod error;
pub mod eval;
pub mod exact;
pub mod fit;
pub mod fit_laws;
pub mod formula_laws;
pub mod lm;
pub mod measure_laws;
pub mod mode_laws;
pub mod nodes;
pub mod optimize;
pub mod options;
pub mod phase_laws;
pub mod polynomial;
pub mod rational;
pub mod rational_fit;
pub mod reals;
pub mod report_laws;
pub mod residual;
pub mod roundtrip;
pub mod search;
pub mod search_laws;
pub mod single;
pub mod sk;
pub mod sweep;
pub mod text;
pub mod text_laws;
pub mod value;
