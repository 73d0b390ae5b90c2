//! Laws of the public operations, stated of their calls: what one call answers is held
//! against what it was asked, and against what other calls answer.
use crate::algebra::LinearAlgebra;
use crate::boundary::BoundaryReport;
use crate::error::Error;
use crate::eval::{
    eval_f32_horner, horner_f32, horner_f32_via_f64, horner_f64, rational_horner_f32_via_f64,
    widened,
};
use crate::fit::{fit_gives, FitInput};
use crate::nodes::chebyshev_nodes;
use crate::optimize::{freely_refined, rounded};
use crate::options::{
    Constraint, ConstraintMode, ErrorWeighting, F32ScoreMetric, F32SearchConfig, RationalFitOptions,
};
use crate::polynomial::{horner, rational_text, RationalPolynomial};
use crate::rational_fit::{function_result, r_squared_spec, residual_at, RationalFit};
use crate::report_laws::{
    law_max_abs_error_is_the_largest, law_max_rel_error_is_the_largest, ordered, rel_error_at,
};
use crate::roundtrip::{measure_roundtrip, piecewise_gap, roundtrip_report, RoundtripReport};
use crate::search::{f32_local_search, local_search_result, F32SearchResult, Scorer};
use crate::single::{f32_above, f32_below, f32_ulp_distance, F32};
use crate::sweep::Sweep;
use crate::value::{cast_or, Value};
use vstd::prelude::*;

verus! {

/// What a fit is asked for.
pub open spec fn asked<T: Value>(
    data: Seq<(T, T)>,
    p_degree: usize,
    q_degree: usize,
    options: RationalFitOptions<T>,
) -> FitInput<T> {
    FitInput {
        data,
        p_terms: p_degree as nat + 1,
        q_terms: q_degree as nat + 1,
        sk_iters: options.max_iterations as nat,
        lm_iters: options.lm_iterations as nat,
        tolerance: options.tolerance,
        constraints: options.constraints@,
        weighting: options.weighting,
        mode: options.constraint_mode,
        restarts: options.restarts as nat,
    }
}

/// A call to fit data fails without data, and where there are fewer points than free
/// coefficients, with the larger degree. Else it hands every option to the fit, and gives
/// back its error, or its coefficients with the data and the degrees.
pub proof fn law_fitting_data_takes_every_option<T: Value, A: LinearAlgebra<T>>(
    data: Vec<(T, T)>,
    p_degree: usize,
    q_degree: usize,
    options: RationalFitOptions<T>,
    algebra: &A,
    r: Result<RationalFit<T>, Error>,
)
    requires
        call_ensures(
            RationalFit::<T>::new::<A>,
            (data, p_degree, q_degree, options, algebra),
            r,
        ),
    ensures
        data@.len() == 0 ==> r == Err::<RationalFit<T>, Error>(Error::NoData),
        0 < data@.len() <= p_degree + q_degree ==> (r matches Err(Error::DegreeTooHigh(d))
            && (d == p_degree || d == q_degree) && d >= p_degree && d >= q_degree),
        data@.len() > p_degree + q_degree ==> match r {
            Err(e) => fit_gives(*algebra, asked(data@, p_degree, q_degree, options), Err(e)),
            Ok(fit) => {
                &&& fit_gives(
                    *algebra,
                    asked(data@, p_degree, q_degree, options),
                    Ok((fit.p(), fit.q(), fit.used() as nat)),
                )
                &&& fit.points() == data@
                &&& fit.degrees() == (p_degree, q_degree)
            },
        },
{
}

/// A call to fit a function fails where fewer samples are asked for than there are free
/// coefficients. Else it fits that many samples, each what the function gives at its node,
/// and the range of the fit is the domain.
pub proof fn law_fitting_a_function_takes_every_option<
    T: Value,
    F: Fn(T) -> T,
    A: LinearAlgebra<T>,
>(
    f: F,
    domain: (T, T),
    p_degree: usize,
    q_degree: usize,
    options: RationalFitOptions<T>,
    algebra: &A,
    r: Result<RationalFit<T>, Error>,
)
    requires
        call_ensures(
            RationalFit::<T>::from_function::<F, A>,
            (f, domain, p_degree, q_degree, options, algebra),
            r,
        ),
    ensures
        options.n_samples <= p_degree + q_degree ==> (r matches Err(Error::DegreeTooHigh(d))
            && (d == p_degree || d == q_degree) && d >= p_degree && d >= q_degree),
        options.n_samples > p_degree + q_degree ==> (r matches Ok(fit) ==> {
            &&& fit_gives(
                *algebra,
                asked(fit.points(), p_degree, q_degree, options),
                Ok((fit.p(), fit.q(), fit.used() as nat)),
            )
            &&& fit.points().len() == options.n_samples
            &&& fit.range() == domain
            &&& fit.degrees() == (p_degree, q_degree)
            &&& forall|k: int|
                0 <= k < fit.points().len() ==> call_ensures(
                    f,
                    ((#[trigger] fit.points()[k]).0,),
                    fit.points()[k].1,
                )
        }),
{
    assert(function_result(*algebra, f, domain, p_degree, q_degree, options, r));
}

/// A fit of a function is sampled at the nodes that a call for nodes gives, in their order.
pub proof fn law_function_is_sampled_at_the_nodes<
    T: Value,
    F: Fn(T) -> T,
    A: LinearAlgebra<T>,
>(
    f: F,
    domain: (T, T),
    p_degree: usize,
    q_degree: usize,
    options: RationalFitOptions<T>,
    algebra: &A,
    fit: RationalFit<T>,
    nodes: Vec<T>,
    k: int,
)
    requires
        call_ensures(
            RationalFit::<T>::from_function::<F, A>,
            (f, domain, p_degree, q_degree, options, algebra),
            Ok(fit),
        ),
        call_ensures(chebyshev_nodes::<T>, (options.n_samples, domain.0, domain.1), nodes),
        0 <= k < fit.points().len(),
    ensures
        nodes@.len() == fit.points().len(),
        fit.points()[k].0 == nodes@[k],
{
    assert(function_result(
        *algebra,
        f,
        domain,
        p_degree,
        q_degree,
        options,
        Ok::<RationalFit<T>, Error>(fit),
    ));
}

/// A fit hands back what it was made of: its degrees, iterations, range, data and
/// coefficients, and so does a copy.
pub proof fn law_fit_hands_back_what_it_holds<T: Value>(
    fit: &RationalFit<T>,
    degrees: (usize, usize),
    used: usize,
    range: (T, T),
    data: &[(T, T)],
    coefficients: (&[T], &[T]),
    copy: RationalFit<T>,
)
    requires
        call_ensures(RationalFit::<T>::p_degree, (fit,), degrees.0),
        call_ensures(RationalFit::<T>::q_degree, (fit,), degrees.1),
        call_ensures(RationalFit::<T>::iterations, (fit,), used),
        call_ensures(RationalFit::<T>::x_range, (fit,), range),
        call_ensures(RationalFit::<T>::data, (fit,), data),
        call_ensures(RationalFit::<T>::coefficients, (fit,), coefficients),
        call_ensures(RationalFit::<T>::to_owned, (fit,), copy),
    ensures
        degrees == fit.degrees(),
        used == fit.used(),
        range == fit.range(),
        data@ == fit.points(),
        coefficients.0@ == fit.p(),
        coefficients.1@ == fit.q(),
        copy.degrees() == degrees,
        copy.used() == used,
        copy.range() == range,
        copy.points() == data@,
        copy.p() == coefficients.0@,
        copy.q() == coefficients.1@,
{
}

/// The value of a fit is that of its polynomial, which is the quotient of two calls of
/// Horner's method on its coefficients.
pub proof fn law_fit_evaluates_its_polynomial<T: Value>(
    fit: &RationalFit<T>,
    poly: &RationalPolynomial<T>,
    coefficients: (&[T], &[T]),
    x: T,
    y: T,
    z: T,
    num: T,
    den: T,
)
    requires
        call_ensures(RationalFit::<T>::as_polynomial, (fit,), poly),
        call_ensures(RationalPolynomial::<T>::coefficients, (poly,), coefficients),
        call_ensures(RationalFit::<T>::y, (fit, x), y),
        call_ensures(RationalPolynomial::<T>::y, (poly, x), z),
        call_ensures(horner::<T>, (coefficients.0, x), num),
        call_ensures(horner::<T>, (coefficients.1, x), den),
    ensures
        y == z,
        z == num.div_spec(den),
{
}

/// A polynomial holds the coefficients it is made with, and its degrees are one less than
/// their numbers, or 0 without any.
pub proof fn law_polynomial_holds_its_coefficients<T: Value>(
    numerator: Vec<T>,
    denominator: Vec<T>,
    poly: RationalPolynomial<T>,
    num: &[T],
    den: &[T],
    degrees: (usize, usize),
)
    requires
        call_ensures(RationalPolynomial::<T>::new, (numerator, denominator), poly),
        call_ensures(RationalPolynomial::<T>::numerator, (&poly,), num),
        call_ensures(RationalPolynomial::<T>::denominator, (&poly,), den),
        call_ensures(RationalPolynomial::<T>::numerator_degree, (&poly,), degrees.0),
        call_ensures(RationalPolynomial::<T>::denominator_degree, (&poly,), degrees.1),
    ensures
        num@ == numerator@,
        den@ == denominator@,
        numerator@.len() > 0 ==> degrees.0 == numerator@.len() - 1,
        denominator@.len() > 0 ==> degrees.1 == denominator@.len() - 1,
        numerator@.len() == 0 ==> degrees.0 == 0,
        denominator@.len() == 0 ==> degrees.1 == 0,
{
}

/// A residual is the value of the fit less the datum.
pub proof fn law_residual_is_value_less_datum<T: Value>(
    fit: &RationalFit<T>,
    data: &[(T, T)],
    residuals: Vec<T>,
    i: int,
    y: T,
)
    requires
        call_ensures(RationalFit::<T>::data, (fit,), data),
        call_ensures(RationalFit::<T>::residuals, (fit,), residuals),
        0 <= i < data@.len(),
        call_ensures(RationalFit::<T>::y, (fit, data@[i].0), y),
    ensures
        residuals@.len() == data@.len(),
        residuals@[i] == y.sub_spec(data@[i].1),
{
}

/// No residual exceeds the largest absolute error, nor its share in the datum the largest
/// relative error.
pub proof fn law_largest_errors_bound_the_residuals<T: Value>(
    fit: &RationalFit<T>,
    residuals: Vec<T>,
    max_abs: T,
    max_rel: T,
    i: int,
)
    requires
        ordered::<T>(),
        call_ensures(RationalFit::<T>::residuals, (fit,), residuals),
        call_ensures(RationalFit::<T>::max_abs_error, (fit,), max_abs),
        call_ensures(RationalFit::<T>::max_rel_error, (fit,), max_rel),
        0 <= i < fit.points().len(),
        forall|k: int|
            0 <= k < residuals@.len() ==> !(#[trigger] residuals@[k]).abs_spec().is_nan_spec(),
        forall|k: int|
            0 <= k < residuals@.len() && !fit.points()[k].1.abs_spec().is_near_zero_spec()
                ==> !(#[trigger] residuals@[k]).abs_spec().div_spec(
                fit.points()[k].1.abs_spec(),
            ).is_nan_spec(),
    ensures
        !max_abs.lt_spec(residuals@[i].abs_spec()),
        !fit.points()[i].1.abs_spec().is_near_zero_spec() ==> !max_rel.lt_spec(
            residuals@[i].abs_spec().div_spec(fit.points()[i].1.abs_spec()),
        ),
{
    let data = fit.points();
    assert forall|k: int| 0 <= k < data.len() implies !(#[trigger] residual_at(
        data,
        fit.p(),
        fit.q(),
        k,
    )).abs_spec().is_nan_spec() by {
        assert(residuals@[k] == residual_at(data, fit.p(), fit.q(), k));
    }
    assert forall|k: int|
        0 <= k < data.len() && !data[k].1.abs_spec().is_near_zero_spec() implies !(
    #[trigger] rel_error_at(data, fit.p(), fit.q(), k)).is_nan_spec() by {
        assert(residuals@[k] == residual_at(data, fit.p(), fit.q(), k));
    }
    law_max_abs_error_is_the_largest(data, fit.p(), fit.q(), data.len());
    law_max_rel_error_is_the_largest(data, fit.p(), fit.q(), data.len());
    assert(residuals@[i] == residual_at(data, fit.p(), fit.q(), i));
    assert(residuals@[i].abs_spec().div_spec(data[i].1.abs_spec()) == rel_error_at(
        data,
        fit.p(),
        fit.q(),
        i,
    ));
}

/// The coefficient of determination of a fit is that of its own data and coefficients.
pub proof fn law_r_squared_is_that_of_the_fit<T: Value>(
    fit: &RationalFit<T>,
    data: &[(T, T)],
    coefficients: (&[T], &[T]),
    r: T,
)
    requires
        call_ensures(RationalFit::<T>::data, (fit,), data),
        call_ensures(RationalFit::<T>::coefficients, (fit,), coefficients),
        call_ensures(RationalFit::<T>::r_squared, (fit,), r),
    ensures
        r == r_squared_spec(data@, coefficients.0@, coefficients.1@),
{
}

/// What is written is the text of what is there.
pub proof fn law_texts_are_written_as_they_are<T: Value>(
    poly: &RationalPolynomial<T>,
    fit: &RationalFit<T>,
    boundary: &BoundaryReport<T>,
    search: &F32SearchResult<T>,
    roundtrip: &RoundtripReport<T>,
    texts: (String, String, String, String, String),
)
    requires
        call_ensures(RationalPolynomial::<T>::to_text, (poly,), texts.0),
        call_ensures(RationalFit::<T>::to_text, (fit,), texts.1),
        call_ensures(BoundaryReport::<T>::to_text, (boundary,), texts.2),
        call_ensures(F32SearchResult::<T>::to_text, (search,), texts.3),
        call_ensures(RoundtripReport::<T>::to_text, (roundtrip,), texts.4),
    ensures
        texts.0@ == rational_text(poly.p(), poly.q()),
        texts.1@ == fit.text(),
        texts.2@ == boundary.text(),
        texts.3@ == search.text(),
        texts.4@ == roundtrip.text(),
{
}

/// The boundary error is taken at the ends of the range, and what is predicted there is the
/// value of the fit.
pub proof fn law_boundary_error_is_taken_at_the_range<T: Value, F: Fn(T) -> T>(
    fit: &RationalFit<T>,
    reference: F,
    r: BoundaryReport<T>,
    at_lo: T,
    at_hi: T,
)
    requires
        call_ensures(RationalFit::<T>::boundary_error::<F>, (fit, reference), r),
        call_ensures(RationalFit::<T>::y, (fit, fit.range().0), at_lo),
        call_ensures(RationalFit::<T>::y, (fit, fit.range().1), at_hi),
    ensures
        r.lo.x == fit.range().0,
        r.hi.x == fit.range().1,
        r.lo.predicted == at_lo,
        r.hi.predicted == at_hi,
        call_ensures(reference, (fit.range().0,), r.lo.expected),
        call_ensures(reference, (fit.range().1,), r.hi.expected),
        r.reports(fit.p(), fit.q(), fit.range().0, fit.range().1, reference),
{
}

/// Optimizing a polynomial is searching from its rounded coefficients, as the configuration
/// says: what it gives, a call of the search can give.
pub proof fn law_optimizing_searches_from_the_rounded_coefficients<
    T: Value,
    R: Fn(T) -> T,
    X: Fn(F32) -> F32,
>(
    poly: &RationalPolynomial<T>,
    reference: R,
    sweep_lo: F32,
    sweep_hi: F32,
    transform: X,
    config: F32SearchConfig,
    r: F32SearchResult<T>,
    p: Seq<F32>,
    q: Seq<F32>,
)
    requires
        call_ensures(
            RationalPolynomial::<T>::optimize_f32::<R, X>,
            (poly, reference, sweep_lo, sweep_hi, transform, config),
            r,
        ),
        p.len() == poly.p().len(),
        q.len() == poly.q().len(),
        forall|i: int| 0 <= i < p.len() ==> #[trigger] p[i] == poly.p()[i].to_f32_spec(),
        forall|i: int| 0 <= i < q.len() ==> #[trigger] q[i] == poly.q()[i].to_f32_spec(),
    ensures
        local_search_result(
            Scorer {
                reference,
                transform,
                sweep: Sweep { lo: sweep_lo, hi: sweep_hi, samples: config.samples },
                metric: config.metric,
            },
            config.radius as int,
            config.max_rounds as nat,
            p,
            q,
            r,
        ),
{
    assert(rounded(poly.p()) =~= p);
    assert(rounded(poly.q()) =~= q);
}

/// A warm start refines the widened coefficients by the data, the weighting and the number
/// of iterations that were given, and searches from what comes of that, rounded, as the
/// configuration says. The refined coefficients are handed back.
pub proof fn law_warm_start_refines_and_searches<
    T: Value,
    R: Fn(T) -> T,
    X: Fn(F32) -> F32,
    A: LinearAlgebra<T>,
>(
    existing_p: &[F32],
    existing_q: &[F32],
    reference: R,
    data: &[(T, T)],
    sweep_lo: F32,
    sweep_hi: F32,
    transform: X,
    config: F32SearchConfig,
    weighting: ErrorWeighting,
    lm_iters: usize,
    algebra: &A,
    r: F32SearchResult<T>,
) -> (refined: (Seq<T>, Seq<T>))
    requires
        call_ensures(
            RationalPolynomial::<T>::refine_from_f32::<R, X, A>,
            (
                existing_p,
                existing_q,
                reference,
                data,
                sweep_lo,
                sweep_hi,
                transform,
                config,
                weighting,
                lm_iters,
                algebra,
            ),
            r,
        ),
    ensures
        freely_refined(
            *algebra,
            data@,
            weighting,
            lm_iters as nat,
            Seq::new(existing_p@.len(), |i: int| T::from_f32_spec(existing_p@[i])),
            Seq::new(existing_q@.len(), |i: int| T::from_f32_spec(existing_q@[i])),
            refined.0,
            refined.1,
        ),
        local_search_result(
            Scorer {
                reference,
                transform,
                sweep: Sweep { lo: sweep_lo, hi: sweep_hi, samples: config.samples },
                metric: config.metric,
            },
            config.radius as int,
            config.max_rounds as nat,
            Seq::new(refined.0.len(), |i: int| refined.0[i].to_f32_spec()),
            Seq::new(refined.1.len(), |i: int| refined.1[i].to_f32_spec()),
            r,
        ),
{
    let wide_p = Seq::new(existing_p@.len(), |i: int| T::from_f32_spec(existing_p@[i]));
    let wide_q = Seq::new(existing_q@.len(), |i: int| T::from_f32_spec(existing_q@[i]));
    assert(widened::<T>(existing_p@) =~= wide_p);
    assert(widened::<T>(existing_q@) =~= wide_q);
    let scorer = Scorer {
        reference,
        transform,
        sweep: Sweep { lo: sweep_lo, hi: sweep_hi, samples: config.samples },
        metric: config.metric,
    };
    let (p, q) = choose|p: Seq<T>, q: Seq<T>|
        {
            &&& #[trigger] freely_refined(
                *algebra,
                data@,
                weighting,
                lm_iters as nat,
                widened::<T>(existing_p@),
                widened::<T>(existing_q@),
                p,
                q,
            )
            &&& local_search_result(
                scorer,
                config.radius as int,
                config.max_rounds as nat,
                rounded(p),
                rounded(q),
                r,
            )
        };
    assert(rounded(p) =~= Seq::new(p.len(), |i: int| p[i].to_f32_spec()));
    assert(rounded(q) =~= Seq::new(q.len(), |i: int| q[i].to_f32_spec()));
    (p, q)
}

/// The gap that is measured at a join is the distance, as a call for it gives it, between
/// what the linear branch gives just below the threshold and what evaluating the quotient
/// gives at the transformed number just above it.
pub proof fn law_gap_is_measured_between_the_neighbours<
    D: Value,
    L: Fn(F32) -> F32,
    X: Fn(F32) -> F32,
>(
    threshold: F32,
    p: &[F32],
    q: &[F32],
    linear_branch: L,
    transform: X,
    gap: u32,
    below: F32,
    above: F32,
    left: F32,
    t: F32,
    right: F32,
    distance: u32,
)
    requires
        call_ensures(
            piecewise_gap::<D, L, X>,
            (threshold, p, q, linear_branch, transform),
            gap,
        ),
        call_ensures(f32_below, (threshold,), below),
        call_ensures(f32_above, (threshold,), above),
        call_ensures(linear_branch, (below,), left),
        call_ensures(transform, (above,), t),
        forall|other: F32| #[trigger]
            call_ensures(linear_branch, (below,), other) ==> other == left,
        forall|other: F32| #[trigger] call_ensures(transform, (above,), other) ==> other == t,
        call_ensures(eval_f32_horner::<D>, (t, p, q), right),
        call_ensures(f32_ulp_distance, (left, right), distance),
    ensures
        gap == distance,
{
}

/// The neighbours of a number are those with the next bit patterns: away from zero is one
/// up, towards zero one down, whatever the sign. Past zero and past the largest numbers the
/// order goes on. What is not a number goes by its bits alone.
pub proof fn law_neighbours_have_the_next_bit_patterns(v: F32, below: F32, above: F32)
    requires
        v.bits < u32::MAX,
        call_ensures(f32_below, (v,), below),
        call_ensures(f32_above, (v,), above),
    ensures
        v.nan() ==> below.bits == v.bits - 1 && above.bits == v.bits + 1,
        !v.nan() && 0 < v.bits < 0x8000_0000 ==> below.bits == v.bits - 1 && above.bits == v.bits
            + 1,
        !v.nan() && v.bits > 0x8000_0000 ==> below.bits == v.bits + 1 && above.bits == v.bits - 1,
        v.bits == 0 || v.bits == 0x8000_0000 ==> below.bits == 0x8000_0001 && above.bits == 1,
{
}

/// A roundtrip is measured over the sweep that was asked for, there by the first function
/// and back by the second.
pub proof fn law_roundtrip_is_measured_over_the_sweep<
    D: Value,
    F: Fn(F32) -> F32,
    G: Fn(F32) -> F32,
>(
    forward: F,
    inverse: G,
    sweep_lo: F32,
    sweep_hi: F32,
    samples: Option<usize>,
    r: RoundtripReport<D>,
)
    requires
        call_ensures(
            measure_roundtrip::<D, F, G>,
            (forward, inverse, sweep_lo, sweep_hi, samples),
            r,
        ),
    ensures
        roundtrip_report(
            forward,
            inverse,
            Sweep { lo: sweep_lo, hi: sweep_hi, samples },
            r,
        ),
        r.exhaustive == samples is None,
{
}

/// A search is one from the coefficients that were given, with the scorer, the radius and
/// the number of rounds that were given.
pub proof fn law_searching_starts_where_it_is_told<
    D: Value,
    R: Fn(D) -> D,
    X: Fn(F32) -> F32,
>(
    p: &[F32],
    q: &[F32],
    scorer: &Scorer<R, X>,
    radius: i32,
    max_rounds: usize,
    r: F32SearchResult<D>,
)
    requires
        call_ensures(f32_local_search::<D, R, X>, (p, q, scorer, radius, max_rounds), r),
    ensures
        local_search_result(*scorer, radius as int, max_rounds as nat, p@, q@, r),
{
}

/// The evaluators agree: the two of one precision are one, a polynomial that is evaluated
/// in `D` is that of the widened coefficients, rounded, and a quotient is the rounded
/// quotient of two such polynomials, the same as the search evaluates.
pub proof fn law_evaluators_agree<D: Value>(
    x: F32,
    xd: D,
    p: &[F32],
    q: &[F32],
    wide_p: &[D],
    wide_q: &[D],
    num: D,
    den: D,
    again: D,
    single: F32,
    quotient: F32,
    searched: F32,
)
    requires
        xd == D::from_f32_spec(x),
        p@.len() > 0,
        q@.len() > 0,
        wide_p@.len() == p@.len(),
        wide_q@.len() == q@.len(),
        forall|i: int| 0 <= i < p@.len() ==> #[trigger] wide_p@[i] == D::from_f32_spec(p@[i]),
        forall|i: int| 0 <= i < q@.len() ==> #[trigger] wide_q@[i] == D::from_f32_spec(q@[i]),
        call_ensures(horner_f64::<D>, (xd, wide_p), num),
        call_ensures(horner_f64::<D>, (xd, wide_q), den),
        call_ensures(horner_f32::<D>, (xd, wide_p), again),
        call_ensures(horner_f32_via_f64::<D>, (x, p), single),
        call_ensures(rational_horner_f32_via_f64::<D>, (x, p, q), quotient),
        call_ensures(eval_f32_horner::<D>, (x, p, q), searched),
    ensures
        again == num,
        single == num.to_f32_spec(),
        quotient == num.div_spec(den).to_f32_spec(),
        searched == quotient,
{
    assert(widened::<D>(p@) =~= wide_p@);
    assert(widened::<D>(q@) =~= wide_q@);
}

/// A constraint holds the point and the weight that it is made with, under either name, or
/// a weight of a million, and its weight counts without its sign.
pub proof fn law_constraint_holds_its_point<T: Value>(
    x: T,
    y: T,
    weight: T,
    plain: Constraint<T>,
    soft: Constraint<T>,
    weighted: Constraint<T>,
    strength: T,
    factor: T,
)
    requires
        call_ensures(Constraint::<T>::new, (x, y), plain),
        call_ensures(Constraint::<T>::soft, (x, y, weight), soft),
        call_ensures(Constraint::<T>::with_weight, (x, y, weight), weighted),
        call_ensures(Constraint::<T>::strength, (&soft,), strength),
        call_ensures(Constraint::<T>::factor, (&soft,), factor),
    ensures
        plain.x == x && plain.y == y,
        plain.weight == cast_or(0x412e_8480_0000_0000, T::one_spec()),
        soft.x == x && soft.y == y && soft.weight == weight,
        weighted == soft,
        weight.lt_spec(T::zero_spec()) ==> strength == weight.neg_spec(),
        !weight.lt_spec(T::zero_spec()) ==> strength == weight,
        factor == strength.sqrt_spec(),
{
}

/// Left alone, a fit is snapped only, weighs errors as they are, has no constraints and one
/// run, and the two precisions differ in nothing but the tolerance. A search left alone
/// sweeps every number and counts ULPs.
pub proof fn law_defaults_differ_in_the_tolerance<T: Value>(
    double: RationalFitOptions<T>,
    single: RationalFitOptions<T>,
    search: F32SearchConfig,
)
    requires
        call_ensures(RationalFitOptions::<T>::default_f64, (), double),
        call_ensures(RationalFitOptions::<T>::default_f32, (), single),
        call_ensures(F32SearchConfig::default, (), search),
    ensures
        double.weighting == ErrorWeighting::Absolute,
        double.max_iterations == 50,
        double.tolerance == T::convert_f64_spec(0x3d71_9799_812d_ea11),
        double.constraints@.len() == 0,
        double.n_samples == 2000,
        double.lm_iterations == 200,
        double.constraint_mode == ConstraintMode::SnapOnly,
        double.restarts == 1,
        single.weighting == double.weighting,
        single.max_iterations == double.max_iterations,
        single.tolerance == T::convert_f64_spec(0x3e7a_d7f2_9abc_af48),
        single.constraints@.len() == 0,
        single.n_samples == double.n_samples,
        single.lm_iterations == double.lm_iterations,
        single.constraint_mode == double.constraint_mode,
        single.restarts == double.restarts,
        search.radius == 3,
        search.max_rounds == 5,
        search.metric == F32ScoreMetric::Ulp,
        search.samples is None,
{
}

} // verus!
