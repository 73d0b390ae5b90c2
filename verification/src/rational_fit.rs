//! A fitted rational polynomial with its data and diagnostics.
use crate::algebra::LinearAlgebra;
use crate::boundary::{report_boundary, BoundaryReport};
use crate::error::Error;
use crate::fit::{fit_gives, fit_rational, FitInput};
use crate::nodes::{chebyshev_node, chebyshev_nodes};
use crate::options::RationalFitOptions;
use crate::polynomial::{rational_spec, rational_text, RationalPolynomial};
use crate::text::{append_decimal, decimal};
use crate::value::{copied, count_or, try_count_or, Value};
use vstd::prelude::*;
use vstd::string::StringExecFns;

verus! {

/// A fitted rational polynomial with data and diagnostics.
#[derive(Debug)]
pub struct RationalFit<T: Value> {
    data: Vec<(T, T)>,
    x_range: (T, T),
    function: RationalPolynomial<T>,
    p_degree: usize,
    q_degree: usize,
    iterations: usize,
}

/// The smallest x of the first `n` points.
pub open spec fn min_x<T: Value>(data: Seq<(T, T)>, n: nat) -> T
    decreases n,
{
    if n == 0 {
        T::infinity_spec()
    } else {
        min_x(data, (n - 1) as nat).min_spec(data[n - 1].0)
    }
}

/// The largest x of the first `n` points.
pub open spec fn max_x<T: Value>(data: Seq<(T, T)>, n: nat) -> T
    decreases n,
{
    if n == 0 {
        T::neg_infinity_spec()
    } else {
        max_x(data, (n - 1) as nat).max_spec(data[n - 1].0)
    }
}

/// What the options ask of a fit with the given degrees.
pub open spec fn fit_input<T: Value>(
    data: Seq<(T, T)>,
    p_degree: usize,
    q_degree: usize,
    options: RationalFitOptions<T>,
) -> FitInput<T> {
    FitInput {
        data,
        p_terms: (p_degree + 1) as nat,
        q_terms: (q_degree + 1) as nat,
        sk_iters: options.max_iterations as nat,
        lm_iters: options.lm_iterations as nat,
        tolerance: options.tolerance,
        constraints: options.constraints@,
        weighting: options.weighting,
        mode: options.constraint_mode,
        restarts: options.restarts as nat,
    }
}

/// The larger of two degrees.
pub open spec fn larger_degree(a: usize, b: usize) -> usize {
    if a > b {
        a
    } else {
        b
    }
}

/// `r` is what fitting data with enough points can give: the error that stopped the
/// fit, or the fit with its data, its range and its degrees.
pub open spec fn fit_result<T: Value, A: LinearAlgebra<T>>(
    alg: A,
    data: Seq<(T, T)>,
    range: (T, T),
    p_degree: usize,
    q_degree: usize,
    options: RationalFitOptions<T>,
    r: Result<RationalFit<T>, Error>,
) -> bool {
    match r {
        Err(e) => fit_gives(alg, fit_input(data, p_degree, q_degree, options), Err(e)),
        Ok(fit) => {
            &&& fit_gives(
                alg,
                fit_input(data, p_degree, q_degree, options),
                Ok((fit.p(), fit.q(), fit.used() as nat)),
            )
            &&& fit.points() == data
            &&& fit.range() == range
            &&& fit.degrees() == (p_degree, q_degree)
            &&& fit.p().len() == p_degree + 1
            &&& fit.q().len() == q_degree + 1
        },
    }
}

/// The sum of the first `n` values of a function of the index, added up in order.
pub open spec fn sum_upto<T: Value>(f: spec_fn(int) -> T, n: nat) -> T
    decreases n,
{
    if n == 0 {
        T::zero_spec()
    } else {
        sum_upto(f, (n - 1) as nat).add_spec(f(n - 1))
    }
}

/// The square of a difference.
pub open spec fn squared_diff<T: Value>(a: T, b: T) -> T {
    a.sub_spec(b).mul_spec(a.sub_spec(b))
}

/// The mean of the y values.
pub open spec fn mean_y<T: Value>(data: Seq<(T, T)>) -> T {
    sum_upto(|i: int| data[i].1, data.len()).div_spec(
        count_or(data.len() as usize, T::one_spec()),
    )
}

/// Coefficient of determination: 1 less the unexplained part of the variation of y;
/// 1 if y hardly varies, 0 without data.
pub open spec fn r_squared_spec<T: Value>(data: Seq<(T, T)>, p: Seq<T>, q: Seq<T>) -> T {
    let mean = mean_y(data);
    let tot = sum_upto(|i: int| squared_diff(data[i].1, mean), data.len());
    let res = sum_upto(
        |i: int| squared_diff(rational_spec(p, q, data[i].0), data[i].1),
        data.len(),
    );
    if data.len() == 0 {
        T::zero_spec()
    } else if tot.is_near_zero_spec() {
        T::one_spec()
    } else {
        T::one_spec().sub_spec(res.div_spec(tot))
    }
}

/// Predicted minus actual value at a data point.
pub open spec fn residual_at<T: Value>(data: Seq<(T, T)>, p: Seq<T>, q: Seq<T>, i: int) -> T {
    rational_spec(p, q, data[i].0).sub_spec(data[i].1)
}

/// The largest absolute error over the first `n` points.
pub open spec fn max_abs_error_upto<T: Value>(
    data: Seq<(T, T)>,
    p: Seq<T>,
    q: Seq<T>,
    n: nat,
) -> T
    decreases n,
{
    if n == 0 {
        T::zero_spec()
    } else {
        max_abs_error_upto(data, p, q, (n - 1) as nat).max_spec(
            residual_at(data, p, q, n - 1).abs_spec(),
        )
    }
}

/// The largest relative error over the first `n` points, those with a y as good as
/// zero left out.
pub open spec fn max_rel_error_upto<T: Value>(
    data: Seq<(T, T)>,
    p: Seq<T>,
    q: Seq<T>,
    n: nat,
) -> T
    decreases n,
{
    if n == 0 {
        T::zero_spec()
    } else {
        let rest = max_rel_error_upto(data, p, q, (n - 1) as nat);
        let ay = data[n - 1].1.abs_spec();
        if ay.is_near_zero_spec() {
            rest
        } else {
            rest.max_spec(residual_at(data, p, q, n - 1).abs_spec().div_spec(ay))
        }
    }
}

impl<T: Value> RationalFit<T> {
    /// The quotient can be evaluated.
    #[verifier::type_invariant]
    spec fn inv(self) -> bool {
        self.function.evaluable()
    }

    /// The data of the fit.
    pub closed spec fn points(&self) -> Seq<(T, T)> {
        self.data@
    }

    /// The range of x.
    pub closed spec fn range(&self) -> (T, T) {
        self.x_range
    }

    /// The coefficients of the numerator.
    pub closed spec fn p(&self) -> Seq<T> {
        self.function.p()
    }

    /// The coefficients of the denominator.
    pub closed spec fn q(&self) -> Seq<T> {
        self.function.q()
    }

    /// The degrees that were asked for.
    pub closed spec fn degrees(&self) -> (usize, usize) {
        (self.p_degree, self.q_degree)
    }

    /// The iterations of the linear fit.
    pub closed spec fn used(&self) -> usize {
        self.iterations
    }

    /// Fit a rational polynomial P(x)/Q(x) to data.
    ///
    /// - `data`: (x, y) pairs
    /// - `p_degree`: degree of numerator P
    /// - `q_degree`: degree of denominator Q
    /// - `options`: fitting configuration (weighting, constraints, iterations)
    /// - `algebra`: the linear algebra library to solve with
    ///
    /// Returns an error if the data is empty, degrees are too high for the data,
    /// or the solver fails.
    pub fn new<A: LinearAlgebra<T>>(
        data: Vec<(T, T)>,
        p_degree: usize,
        q_degree: usize,
        options: RationalFitOptions<T>,
        algebra: &A,
    ) -> (r: Result<RationalFit<T>, Error>)
        requires
            data@.len() > 0 ==> p_degree + q_degree + 1 <= usize::MAX,
        ensures
            data@.len() == 0 ==> r == Err::<RationalFit<T>, Error>(Error::NoData),
            0 < data@.len() < p_degree + 1 + q_degree ==> r == Err::<RationalFit<T>, Error>(
                Error::DegreeTooHigh(larger_degree(p_degree, q_degree)),
            ),
            data@.len() >= p_degree + 1 + q_degree ==> fit_result(
                *algebra,
                data@,
                (min_x(data@, data@.len()), max_x(data@, data@.len())),
                p_degree,
                q_degree,
                options,
                r,
            ),
            data_result(*algebra, data@, p_degree, q_degree, options, r),
    {
        if data.len() == 0 {
            return Err(Error::NoData);
        }
        if data.len() < p_degree + 1 + q_degree {
            return Err(
                Error::DegreeTooHigh(
                    if p_degree > q_degree {
                        p_degree
                    } else {
                        q_degree
                    },
                ),
            );
        }
        let range = range_of(data.as_slice());
        fit_enough(data, range, p_degree, q_degree, options, algebra)
    }

    /// Fit a rational polynomial to a known function sampled on a domain.
    ///
    /// Generates Chebyshev-spaced sample points for near-minimax conditioning.
    ///
    /// - `f`: the target function
    /// - `domain`: closed interval \[a, b\] to fit over
    /// - `p_degree`: degree of numerator P
    /// - `q_degree`: degree of denominator Q
    /// - `options`: fitting configuration
    /// - `algebra`: the linear algebra library to solve with
    ///
    /// Returns an error if degrees are too high for the sample count, or the solver
    /// fails.
    pub fn from_function<F: Fn(T) -> T, A: LinearAlgebra<T>>(
        f: F,
        domain: (T, T),
        p_degree: usize,
        q_degree: usize,
        options: RationalFitOptions<T>,
        algebra: &A,
    ) -> (r: Result<RationalFit<T>, Error>)
        requires
            2 * options.n_samples <= usize::MAX,
            p_degree + q_degree + 1 <= usize::MAX,
            forall|x: T| #[trigger] call_requires(f, (x,)),
        ensures
            function_result(*algebra, f, domain, p_degree, q_degree, options, r),
    {
        let data = sample(&f, options.n_samples, domain);
        if data.len() < p_degree + 1 + q_degree {
            return Err(
                Error::DegreeTooHigh(
                    if p_degree > q_degree {
                        p_degree
                    } else {
                        q_degree
                    },
                ),
            );
        }
        fit_enough(data, domain, p_degree, q_degree, options, algebra)
    }

    /// Evaluate the fitted rational polynomial at x.
    #[must_use]
    pub fn y(&self, x: T) -> (r: T)
        ensures
            r == rational_spec(self.p(), self.q(), x),
    {
        proof {
            use_type_invariant(self);
        }
        self.function.y(x)
    }

    /// The underlying rational polynomial.
    #[must_use]
    pub fn as_polynomial(&self) -> (r: &RationalPolynomial<T>)
        ensures
            r.p() == self.p(),
            r.q() == self.q(),
            r.evaluable(),
    {
        proof {
            use_type_invariant(self);
        }
        &self.function
    }

    /// Numerator and denominator coefficients (lowest-degree-first).
    #[must_use]
    pub fn coefficients(&self) -> (r: (&[T], &[T]))
        ensures
            r.0@ == self.p(),
            r.1@ == self.q(),
    {
        self.function.coefficients()
    }

    /// The degree of the numerator.
    #[must_use]
    pub fn p_degree(&self) -> (r: usize)
        ensures
            r == self.degrees().0,
    {
        self.p_degree
    }

    /// The degree of the denominator.
    #[must_use]
    pub fn q_degree(&self) -> (r: usize)
        ensures
            r == self.degrees().1,
    {
        self.q_degree
    }

    /// How many Sanathanan-Koerner iterations were used.
    #[must_use]
    pub fn iterations(&self) -> (r: usize)
        ensures
            r == self.used(),
    {
        self.iterations
    }

    /// The x-range of the fitted data.
    #[must_use]
    pub fn x_range(&self) -> (r: (T, T))
        ensures
            r == self.range(),
    {
        self.x_range
    }

    /// The data used for fitting.
    #[must_use]
    pub fn data(&self) -> (r: &[(T, T)])
        ensures
            r@ == self.points(),
    {
        self.data.as_slice()
    }

    /// Coefficient of determination.
    ///
    /// Values near 1 indicate a good fit.
    #[must_use]
    pub fn r_squared(&self) -> (r: T)
        ensures
            r == r_squared_spec(self.points(), self.p(), self.q()),
    {
        proof {
            use_type_invariant(self);
        }
        let n: usize = self.data.len();
        if n == 0 {
            return T::zero();
        }
        let ghost data = self.data@;
        let ghost ys = |i: int| data[i].1;
        let mut sum = T::zero();
        let mut i: usize = 0;
        while i < n
            invariant
                n == self.data.len(),
                data == self.data@,
                ys == (|i: int| data[i].1),
                i <= n,
                sum == sum_upto(ys, i as nat),
            decreases n - i,
        {
            sum = sum.add(self.data[i].1);
            i = i + 1;
        }
        let mean = sum.div(try_count_or(n, T::one()));
        let ghost tot = |i: int| squared_diff(data[i].1, mean);
        let ghost res = |i: int|
            squared_diff(
                rational_spec(self.function.p(), self.function.q(), data[i].0),
                data[i].1,
            );
        let mut ss_tot = T::zero();
        let mut ss_res = T::zero();
        let mut i: usize = 0;
        while i < n
            invariant
                n == self.data.len(),
                data == self.data@,
                self.function.evaluable(),
                tot == (|i: int| squared_diff(data[i].1, mean)),
                res == (|i: int|
                    squared_diff(
                        rational_spec(self.function.p(), self.function.q(), data[i].0),
                        data[i].1,
                    )),
                i <= n,
                ss_tot == sum_upto(tot, i as nat),
                ss_res == sum_upto(res, i as nat),
            decreases n - i,
        {
            let (x, y) = self.data[i];
            let d = y.sub(mean);
            ss_tot = ss_tot.add(d.mul(d));
            let e = self.function.y(x).sub(y);
            ss_res = ss_res.add(e.mul(e));
            i = i + 1;
        }
        if ss_tot.is_near_zero() {
            T::one()
        } else {
            T::one().sub(ss_res.div(ss_tot))
        }
    }

    /// Maximum absolute error across all data points.
    #[must_use]
    pub fn max_abs_error(&self) -> (r: T)
        ensures
            r == max_abs_error_upto(self.points(), self.p(), self.q(), self.points().len()),
    {
        proof {
            use_type_invariant(self);
        }
        let mut r = T::zero();
        let mut i: usize = 0;
        while i < self.data.len()
            invariant
                self.function.evaluable(),
                i <= self.data.len(),
                r == max_abs_error_upto(self.points(), self.p(), self.q(), i as nat),
            decreases self.data.len() - i,
        {
            let (x, y) = self.data[i];
            r = r.max(self.function.y(x).sub(y).abs());
            i = i + 1;
        }
        r
    }

    /// Maximum relative error across all data points.
    ///
    /// Relative error is `|predicted - actual| / |actual|`.
    /// Points where `|actual|` is as good as zero are skipped.
    #[must_use]
    pub fn max_rel_error(&self) -> (r: T)
        ensures
            r == max_rel_error_upto(self.points(), self.p(), self.q(), self.points().len()),
    {
        proof {
            use_type_invariant(self);
        }
        let mut r = T::zero();
        let mut i: usize = 0;
        while i < self.data.len()
            invariant
                self.function.evaluable(),
                i <= self.data.len(),
                r == max_rel_error_upto(self.points(), self.p(), self.q(), i as nat),
            decreases self.data.len() - i,
        {
            let (x, y) = self.data[i];
            let ay = y.abs();
            if !ay.is_near_zero() {
                r = r.max(self.function.y(x).sub(y).abs().div(ay));
            }
            i = i + 1;
        }
        r
    }

    /// Residuals: predicted - actual for each data point.
    #[must_use]
    pub fn residuals(&self) -> (r: Vec<T>)
        ensures
            r@ == Seq::new(
                self.points().len(),
                |i: int| residual_at(self.points(), self.p(), self.q(), i),
            ),
    {
        proof {
            use_type_invariant(self);
        }
        let mut r: Vec<T> = Vec::new();
        let mut i: usize = 0;
        while i < self.data.len()
            invariant
                self.function.evaluable(),
                i <= self.data.len(),
                r@.len() == i,
                forall|k: int|
                    0 <= k < i ==> #[trigger] r@[k] == residual_at(
                        self.points(),
                        self.p(),
                        self.q(),
                        k,
                    ),
            decreases self.data.len() - i,
        {
            let (x, y) = self.data[i];
            r.push(self.function.y(x).sub(y));
            i = i + 1;
        }
        assert(r@ =~= Seq::new(
            self.points().len(),
            |i: int| residual_at(self.points(), self.p(), self.q(), i),
        ));
        r
    }

    /// Error at and near the domain boundaries.
    ///
    /// For piecewise functions, the domain start is where the rational polynomial
    /// joins another segment. This method reports absolute and relative error at both
    /// endpoints, plus extrapolation error at small offsets past the boundary.
    ///
    /// The `reference` function provides ground-truth values for evaluation
    /// points at and beyond the fitted domain.
    #[must_use]
    pub fn boundary_error<F: Fn(T) -> T>(&self, reference: F) -> (r: BoundaryReport<T>)
        requires
            forall|x: T| #[trigger] call_requires(reference, (x,)),
        ensures
            r.reports(self.p(), self.q(), self.range().0, self.range().1, reference),
    {
        proof {
            use_type_invariant(self);
        }
        report_boundary(&self.function, self.x_range.0, self.x_range.1, &reference)
    }

    /// Returns a copy of this fit.
    #[must_use]
    pub fn to_owned(&self) -> (r: RationalFit<T>)
        ensures
            r.points() == self.points(),
            r.range() == self.range(),
            r.p() == self.p(),
            r.q() == self.q(),
            r.degrees() == self.degrees(),
            r.used() == self.used(),
    {
        proof {
            use_type_invariant(self);
        }
        RationalFit {
            data: copied(self.data.as_slice()),
            x_range: self.x_range,
            function: self.function.clone(),
            p_degree: self.p_degree,
            q_degree: self.q_degree,
            iterations: self.iterations,
        }
    }

    /// The text of the fit.
    pub open spec fn text(&self) -> Seq<char> {
        "RationalFit "@ + decimal(self.degrees().0 as nat) + "/"@ + decimal(self.degrees().1 as nat)
            + " (R²="@ + r_squared_spec(self.points(), self.p(), self.q()).fixed_text(6) + ", "@
            + decimal(self.used() as nat) + " iters): "@ + rational_text(self.p(), self.q())
    }

    /// The fit as one line of text.
    pub fn to_text(&self) -> (r: String)
        ensures
            r@ == self.text(),
    {
        let mut out = String::new();
        out.append("RationalFit ");
        append_decimal(&mut out, self.p_degree as u64);
        out.append("/");
        append_decimal(&mut out, self.q_degree as u64);
        out.append(" (R²=");
        out.append(self.r_squared().to_fixed(6).as_str());
        out.append(", ");
        append_decimal(&mut out, self.iterations as u64);
        out.append(" iters): ");
        out.append(self.function.to_text().as_str());
        assert(out@ =~= self.text());
        out
    }
}

impl<T: Value> Clone for RationalFit<T> {
    fn clone(&self) -> (r: Self)
        ensures
            r.points() == self.points(),
            r.range() == self.range(),
            r.p() == self.p(),
            r.q() == self.q(),
            r.degrees() == self.degrees(),
            r.used() == self.used(),
    {
        self.to_owned()
    }
}

/// The data are samples of a function at Chebyshev nodes of a domain.
pub open spec fn sampled<T: Value, F: Fn(T) -> T>(
    f: F,
    n: usize,
    domain: (T, T),
    data: Seq<(T, T)>,
) -> bool {
    &&& data.len() == n
    &&& forall|k: int|
        0 <= k < n ==> (#[trigger] data[k]).0 == chebyshev_node(k, n, domain.0, domain.1)
            && call_ensures(f, (data[k].0,), data[k].1)
}

/// The smallest and the largest x of the data.
fn range_of<T: Value>(data: &[(T, T)]) -> (r: (T, T))
    ensures
        r == (min_x(data@, data@.len()), max_x(data@, data@.len())),
{
    let mut x_min = T::infinity();
    let mut x_max = T::neg_infinity();
    let mut i: usize = 0;
    while i < data.len()
        invariant
            i <= data.len(),
            x_min == min_x(data@, i as nat),
            x_max == max_x(data@, i as nat),
        decreases data.len() - i,
    {
        x_min = x_min.min(data[i].0);
        x_max = x_max.max(data[i].0);
        i = i + 1;
    }
    (x_min, x_max)
}

/// Fit to data with enough points.
fn fit_enough<T: Value, A: LinearAlgebra<T>>(
    data: Vec<(T, T)>,
    x_range: (T, T),
    p_degree: usize,
    q_degree: usize,
    options: RationalFitOptions<T>,
    algebra: &A,
) -> (r: Result<RationalFit<T>, Error>)
    requires
        p_degree + q_degree + 1 <= usize::MAX,
        data@.len() >= p_degree + 1 + q_degree,
    ensures
        fit_result(*algebra, data@, x_range, p_degree, q_degree, options, r),
{
    let fitted = fit_rational(
        algebra,
        data.as_slice(),
        p_degree + 1,
        q_degree + 1,
        options.max_iterations,
        options.lm_iterations,
        options.tolerance,
        options.constraints.as_slice(),
        options.weighting,
        options.constraint_mode,
        options.restarts,
    );
    match fitted {
        Err(e) => Err(e),
        Ok((function, iterations)) => Ok(
            RationalFit { data, x_range, function, p_degree, q_degree, iterations },
        ),
    }
}

/// Sample a function at the Chebyshev nodes of a domain.
fn sample<T: Value, F: Fn(T) -> T>(f: &F, n: usize, domain: (T, T)) -> (data: Vec<(T, T)>)
    requires
        2 * n <= usize::MAX,
        forall|x: T| #[trigger] call_requires(*f, (x,)),
    ensures
        sampled(*f, n, domain, data@),
{
    let xs = chebyshev_nodes(n, domain.0, domain.1);
    let mut data: Vec<(T, T)> = Vec::new();
    let mut i: usize = 0;
    while i < n
        invariant
            forall|x: T| #[trigger] call_requires(*f, (x,)),
            xs@ == Seq::new(n as nat, |k: int| chebyshev_node(k, n, domain.0, domain.1)),
            i <= n,
            data@.len() == i,
            forall|k: int|
                0 <= k < i ==> (#[trigger] data@[k]).0 == chebyshev_node(k, n, domain.0, domain.1)
                    && call_ensures(*f, (data@[k].0,), data@[k].1),
        decreases n - i,
    {
        let x = xs[i];
        let y: T = f(x);
        data.push((x, y));
        i = i + 1;
    }
    data
}

/// `r` is what fitting data can give: an error without data or with fewer points than free
/// coefficients, else what fitting them over their range can give.
pub open spec fn data_result<T: Value, A: LinearAlgebra<T>>(
    alg: A,
    data: Seq<(T, T)>,
    p_degree: usize,
    q_degree: usize,
    options: RationalFitOptions<T>,
    r: Result<RationalFit<T>, Error>,
) -> bool {
    if data.len() == 0 {
        r == Err::<RationalFit<T>, Error>(Error::NoData)
    } else if data.len() < p_degree + 1 + q_degree {
        r == Err::<RationalFit<T>, Error>(Error::DegreeTooHigh(larger_degree(p_degree, q_degree)))
    } else {
        fit_result(
            alg,
            data,
            (min_x(data, data.len()), max_x(data, data.len())),
            p_degree,
            q_degree,
            options,
            r,
        )
    }
}

/// `r` is what fitting a function on a domain can give: an error if there are fewer samples
/// than free coefficients, else what fitting its samples can give.
pub open spec fn function_result<T: Value, F: Fn(T) -> T, A: LinearAlgebra<T>>(
    alg: A,
    f: F,
    domain: (T, T),
    p_degree: usize,
    q_degree: usize,
    options: RationalFitOptions<T>,
    r: Result<RationalFit<T>, Error>,
) -> bool {
    if options.n_samples < p_degree + 1 + q_degree {
        r == Err::<RationalFit<T>, Error>(Error::DegreeTooHigh(larger_degree(p_degree, q_degree)))
    } else {
        exists|data: Seq<(T, T)>| #[trigger]
            sampled(f, options.n_samples, domain, data) && fit_result(
                alg,
                data,
                domain,
                p_degree,
                q_degree,
                options,
                r,
            )
    }
}

} // verus!
