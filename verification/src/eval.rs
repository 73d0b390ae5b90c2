//! Horner-form evaluation of polynomials with fused multiply-adds.
//!
//! Coefficients are always lowest-degree-first (Horner order):
//! ```text
//! P(x) = c[0] + c[1]*x + c[2]*x^2 + ... + c[n]*x^n
//! ```
//!
//! # Choosing an evaluator
//!
//! - [`horner_f32`] evaluates in single precision throughout.
//! - [`horner_f64`] evaluates in double precision throughout.
//! - [`horner_f32_via_f64`] takes single precision coefficients and accumulates
//!   in double precision.
//! - [`rational_horner_f32_via_f64`] does the same for `P(x)/Q(x)`. It is the
//!   evaluator that the coefficient search scores with.
//!
//! All of them return 0 when there are no coefficients; none of them panics. The
//! quotient is not a number or infinite if the denominator is zero, as in any
//! division.
use crate::single::F32;
use crate::value::Value;
use vstd::prelude::*;

verus! {

/// `c[0] + x*(c[1] + x*(c[2] + ...))`, each step rounded once; 0 without
/// coefficients.
pub open spec fn fused_spec<T: Value>(x: T, c: Seq<T>) -> T
    decreases c.len(),
{
    if c.len() == 0 {
        T::zero_spec()
    } else if c.len() == 1 {
        c[0]
    } else {
        fused_spec(x, c.drop_first()).mul_add_spec(x, c[0])
    }
}

/// Single precision coefficients as values.
pub open spec fn widened<D: Value>(c: Seq<F32>) -> Seq<D> {
    Seq::new(c.len(), |i: int| D::from_f32_spec(c[i]))
}

/// A polynomial with single precision coefficients, accumulated in `D`.
pub open spec fn via_spec<D: Value>(x: F32, c: Seq<F32>) -> D {
    fused_spec(D::from_f32_spec(x), widened::<D>(c))
}

/// What [`horner_f32_via_f64`] returns.
pub open spec fn horner_f32_via_f64_spec<D: Value>(x: F32, c: Seq<F32>) -> F32 {
    if c.len() == 0 {
        F32 { bits: 0 }
    } else {
        via_spec::<D>(x, c).to_f32_spec()
    }
}

/// What [`rational_horner_f32_via_f64`] returns.
pub open spec fn rational_horner_f32_via_f64_spec<D: Value>(
    x: F32,
    numerator: Seq<F32>,
    denominator: Seq<F32>,
) -> F32 {
    if denominator.len() == 0 {
        F32 { bits: 0 }
    } else {
        via_spec::<D>(x, numerator).div_spec(via_spec::<D>(x, denominator)).to_f32_spec()
    }
}

/// What [`eval_f32_horner`] returns.
pub open spec fn eval_f32_horner_spec<D: Value>(x: F32, p: Seq<F32>, q: Seq<F32>) -> F32 {
    via_spec::<D>(x, p).div_spec(via_spec::<D>(x, q)).to_f32_spec()
}

/// Evaluate a polynomial at `x` with one rounding per step.
fn fused_horner<T: Value>(x: T, coefficients: &[T]) -> (r: T)
    ensures
        r == fused_spec(x, coefficients@),
{
    if coefficients.len() == 0 {
        return T::zero();
    }
    let mut i: usize = coefficients.len() - 1;
    let mut acc = coefficients[i];
    while i > 0
        invariant
            i < coefficients.len(),
            acc == fused_spec(x, coefficients@.skip(i as int)),
        decreases i,
    {
        i = i - 1;
        assert(coefficients@.skip(i as int).drop_first() =~= coefficients@.skip(i + 1));
        acc = acc.mul_add(x, coefficients[i]);
    }
    assert(coefficients@.skip(0) =~= coefficients@);
    acc
}

/// Evaluate a polynomial at `x` using Horner's method in double precision.
///
/// Returns 0 if there are no coefficients.
pub fn horner_f64<T: Value>(x: T, coefficients: &[T]) -> (r: T)
    ensures
        r == fused_spec(x, coefficients@),
{
    fused_horner(x, coefficients)
}

/// Evaluate a polynomial at `x` using Horner's method in single precision.
///
/// Returns 0 if there are no coefficients. For coefficients that were searched
/// with a double precision accumulator, use the evaluator that matches.
pub fn horner_f32<T: Value>(x: T, coefficients: &[T]) -> (r: T)
    ensures
        r == fused_spec(x, coefficients@),
{
    fused_horner(x, coefficients)
}

/// Evaluate single precision coefficients in `D`, without rounding back.
fn horner_via<D: Value>(x: F32, coefficients: &[F32]) -> (r: D)
    ensures
        r == via_spec::<D>(x, coefficients@),
{
    if coefficients.len() == 0 {
        return D::zero();
    }
    let xd = D::from_f32(x);
    let ghost wide = widened::<D>(coefficients@);
    let mut i: usize = coefficients.len() - 1;
    let mut acc = D::from_f32(coefficients[i]);
    while i > 0
        invariant
            i < coefficients.len(),
            xd == D::from_f32_spec(x),
            wide == widened::<D>(coefficients@),
            acc == fused_spec(xd, wide.skip(i as int)),
        decreases i,
    {
        i = i - 1;
        assert(wide.skip(i as int).drop_first() =~= wide.skip(i + 1));
        acc = acc.mul_add(xd, D::from_f32(coefficients[i]));
    }
    assert(wide.skip(0) =~= wide);
    acc
}

/// Evaluate a polynomial with single precision coefficients at `x` using a double
/// precision accumulator, then round to single precision.
///
/// Returns 0 if there are no coefficients.
pub fn horner_f32_via_f64<D: Value>(x: F32, coefficients: &[F32]) -> (r: F32)
    ensures
        r == horner_f32_via_f64_spec::<D>(x, coefficients@),
{
    if coefficients.len() == 0 {
        return F32::from_bits(0);
    }
    horner_via::<D>(x, coefficients).to_f32()
}

/// Evaluate `P(x)/Q(x)` with single precision coefficients using double precision
/// accumulators, then round to single precision.
///
/// Returns 0 if the denominator has no coefficients.
pub fn rational_horner_f32_via_f64<D: Value>(
    x: F32,
    numerator: &[F32],
    denominator: &[F32],
) -> (r: F32)
    ensures
        r == rational_horner_f32_via_f64_spec::<D>(x, numerator@, denominator@),
{
    let p: D = horner_via(x, numerator);
    if denominator.len() == 0 {
        return F32::from_bits(0);
    }
    let q: D = horner_via(x, denominator);
    p.div(q).to_f32()
}

/// Evaluate `P(x)/Q(x)` as the coefficient search does.
pub fn eval_f32_horner<D: Value>(x: F32, p: &[F32], q: &[F32]) -> (r: F32)
    requires
        p.len() > 0,
        q.len() > 0,
    ensures
        r == eval_f32_horner_spec::<D>(x, p@, q@),
{
    let yp: D = horner_via(x, p);
    let yq: D = horner_via(x, q);
    yp.div(yq).to_f32()
}

/// The public evaluator and the one that the coefficient search scores with agree
/// bit for bit, on every quotient that the search can score.
pub proof fn law_public_evaluator_matches_search<D: Value>(x: F32, p: Seq<F32>, q: Seq<F32>)
    requires
        p.len() > 0,
        q.len() > 0,
    ensures
        rational_horner_f32_via_f64_spec::<D>(x, p, q) == eval_f32_horner_spec::<D>(x, p, q),
{
}

/// The evaluator with single precision coefficients is the double precision one on the
/// widened coefficients, rounded at the end. Without coefficients this takes a zero
/// that rounds to zero.
pub proof fn law_mixed_evaluator_is_the_rounded_double_one<D: Value>(x: F32, c: Seq<F32>)
    requires
        c.len() > 0 || D::zero_spec().to_f32_spec() == (F32 { bits: 0 }),
    ensures
        horner_f32_via_f64_spec::<D>(x, c) == fused_spec(
            D::from_f32_spec(x),
            widened::<D>(c),
        ).to_f32_spec(),
{
}

/// Without coefficients every evaluator gives 0.
pub proof fn law_no_coefficients_give_zero<T: Value>(x: T, s: F32, p: Seq<F32>)
    ensures
        fused_spec(x, Seq::<T>::empty()) == T::zero_spec(),
        horner_f32_via_f64_spec::<T>(s, Seq::empty()).bits == 0,
        rational_horner_f32_via_f64_spec::<T>(s, p, Seq::empty()).bits == 0,
{
}

} // verus!
