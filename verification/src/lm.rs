//! The second fitting phase: Levenberg-Marquardt refinement with Nielsen damping.
use crate::algebra::{
    dot, dot_of, gram, gram_of, seq_of, shaped, solve_svd, svd_solution, transpose_mul,
    transpose_mul_of, LinearAlgebra, Matrix,
};
use crate::error::Error;
use crate::options::{Constraint, ErrorWeighting};
use crate::polynomial::RationalPolynomial;
use crate::residual::{compute_cost, compute_residuals_jacobian, Objective};
use crate::value::{cast_or, copied, try_cast_or, Value};
use vstd::prelude::*;
use vstd::slice::slice_subrange;

verus! {

/// 1e-3, the initial damping relative to the curvature.
pub const TAU: u64 = 0x3f50_624d_d2f1_a9fc;

/// 1e-6, the initial damping where there is no curvature.
pub const LAMBDA_FLOOR: u64 = 0x3eb0_c6f7_a0b5_ed8d;

/// 1e-15, the tolerance on the gradient, the cost and the step.
pub const LM_TOLERANCE: u64 = 0x3cd2_03af_9ee7_5616;

/// 0.75, the gain above which the damping is reduced.
pub const GOOD_GAIN: u64 = 0x3fe8_0000_0000_0000;

/// 1/3, the largest reduction of the damping.
pub const THIRD: u64 = 0x3fd5_5555_5555_5555;

/// 1e-30, the smallest cost that a reduction is held against.
pub const TINY_COST: u64 = 0x39b4_484b_feeb_c2a0;

/// How many rejected steps in a row are tolerated.
pub const MAX_REJECTS: usize = 30;

/// Where a refinement stands.
pub ghost struct LmPoint<T> {
    pub params: Seq<T>,
    pub cost: T,
    pub lambda: T,
    pub nu: T,
    pub rejects: nat,
}

/// The largest absolute value of the first `n` entries, at least `floor`.
pub open spec fn abs_max<T: Value>(v: Seq<T>, n: nat, floor: T) -> T
    decreases n,
{
    if n == 0 {
        floor
    } else {
        abs_max(v, (n - 1) as nat, floor).max_spec(v[n - 1].abs_spec())
    }
}

/// The diagonal of a matrix.
pub open spec fn diagonal<T>(g: Seq<Seq<T>>) -> Seq<T> {
    Seq::new(g.len(), |i: int| g[i][i])
}

/// The initial damping: `tau` times the largest curvature.
pub open spec fn initial_lambda<T: Value>(g: Seq<Seq<T>>) -> T {
    let lambda = cast_or(TAU, T::one_spec()).mul_spec(
        abs_max(diagonal(g), g.len(), T::zero_spec()),
    );
    if lambda.is_near_zero_spec() {
        cast_or(LAMBDA_FLOOR, T::one_spec())
    } else {
        lambda
    }
}

/// A square matrix with the damping added on its diagonal.
pub open spec fn damped<T: Value>(g: Seq<Seq<T>>, lambda: T) -> Seq<Seq<T>> {
    Seq::new(
        g.len(),
        |i: int|
            Seq::new(
                g.len(),
                |j: int|
                    if i == j {
                        g[i][j].add_spec(lambda)
                    } else {
                        g[i][j]
                    },
            ),
    )
}

/// The vector with every sign changed.
pub open spec fn negated<T: Value>(v: Seq<T>) -> Seq<T> {
    Seq::new(v.len(), |i: int| v[i].neg_spec())
}

/// The sum of two vectors.
pub open spec fn vector_sum<T: Value>(a: Seq<T>, b: Seq<T>) -> Seq<T> {
    Seq::new(a.len(), |i: int| a[i].add_spec(b[i]))
}

/// `lambda * step - J^T r`, whose product with the step is twice the reduction that
/// the linear model predicts.
pub open spec fn model_slope<T: Value>(step: Seq<T>, lambda: T, jtr: Seq<T>) -> Seq<T> {
    Seq::new(step.len(), |i: int| step[i].mul_spec(lambda).sub_spec(jtr[i]))
}

/// The tolerance of the refinement.
pub open spec fn lm_tolerance<T: Value>(tolerance: T) -> T {
    cast_or(LM_TOLERANCE, tolerance)
}

/// Actual over predicted reduction, 0 if next to nothing was predicted.
pub open spec fn gain_ratio<T: Value>(actual: T, predicted: T) -> T {
    if predicted.is_near_zero_spec() {
        T::zero_spec()
    } else {
        actual.div_spec(predicted)
    }
}

/// The damping after an accepted step: reduced, to a third at most, where the gain is
/// good.
pub open spec fn eased<T: Value>(lambda: T, gain: T) -> T {
    let g2 = T::two_spec().mul_spec(gain).sub_spec(T::one_spec());
    lambda.mul_spec(
        cast_or(THIRD, T::one_spec()).max_spec(
            T::one_spec().sub_spec(g2.mul_spec(g2).mul_spec(g2)),
        ),
    )
}

/// Where a refinement stands after a step was computed, and whether it ends there.
///
/// The step is accepted if the cost goes down and the gain is positive. An accepted
/// step ends the refinement if the cost or the parameters hardly change. A rejected
/// step raises the damping, and too many in a row end the refinement.
pub open spec fn decided<T: Value>(
    obj: Objective<T>,
    tolerance: T,
    s: LmPoint<T>,
    step: Seq<T>,
    slope_product: T,
) -> (LmPoint<T>, bool) {
    let trial = vector_sum(s.params, step);
    let trial_cost = obj.cost(trial);
    let actual = s.cost.sub_spec(trial_cost);
    let gain = gain_ratio(actual, slope_product.mul_spec(T::half_spec()));
    if T::zero_spec().lt_spec(gain) && T::zero_spec().lt_spec(actual) {
        let good = cast_or(GOOD_GAIN, T::one_spec()).lt_spec(gain);
        let t = LmPoint {
            params: trial,
            cost: trial_cost,
            lambda: if good {
                eased(s.lambda, gain)
            } else {
                s.lambda
            },
            nu: if good {
                T::two_spec()
            } else {
                s.nu
            },
            rejects: 0,
        };
        let flat = actual.div_spec(
            trial_cost.max_spec(cast_or(TINY_COST, T::one_spec())),
        ).lt_spec(lm_tolerance(tolerance));
        let still = abs_max(step, step.len(), T::zero_spec()).div_spec(
            abs_max(trial, trial.len(), T::one_spec()),
        ).lt_spec(lm_tolerance(tolerance));
        (t, flat || still)
    } else {
        let t = LmPoint {
            lambda: s.lambda.mul_spec(s.nu),
            nu: s.nu.mul_spec(T::two_spec()),
            rejects: s.rejects + 1,
            ..s
        };
        (t, t.rejects > MAX_REJECTS)
    }
}

/// What an iteration can lead to once the products with the Jacobian are known: it
/// ends the refinement if the gradient vanishes or the damped system has no
/// solution, else [`decided`] says what becomes of the step.
pub open spec fn lm_step_from<T: Value, A: LinearAlgebra<T>>(
    alg: A,
    obj: Objective<T>,
    tolerance: T,
    s: LmPoint<T>,
    jtj: Seq<Seq<T>>,
    jtr: Seq<T>,
    t: LmPoint<T>,
    stop: bool,
) -> bool {
    if abs_max(jtr, jtr.len(), T::zero_spec()).lt_spec(lm_tolerance(tolerance)) {
        t == s && stop
    } else {
        exists|sol: Result<Seq<T>, Error>|
            #[trigger] svd_solution(alg, damped(jtj, s.lambda), jtj.len(), negated(jtr), sol)
                && match sol {
                Err(_) => t == s && stop,
                Ok(step) => step_taken(alg, obj, tolerance, s, step, jtr, t, stop),
            }
    }
}

/// What a solution of the damped system can lead to.
pub open spec fn step_taken<T: Value, A: LinearAlgebra<T>>(
    alg: A,
    obj: Objective<T>,
    tolerance: T,
    s: LmPoint<T>,
    step: Seq<T>,
    jtr: Seq<T>,
    t: LmPoint<T>,
    stop: bool,
) -> bool {
    exists|d: T|
        {
            &&& #[trigger] dot_of(alg, step, model_slope(step, s.lambda, jtr), d)
            &&& t == decided(obj, tolerance, s, step, d).0
            &&& stop == decided(obj, tolerance, s, step, d).1
        }
}

/// What an iteration can lead to.
#[verifier::opaque]
pub open spec fn lm_step<T: Value, A: LinearAlgebra<T>>(
    alg: A,
    obj: Objective<T>,
    tolerance: T,
    s: LmPoint<T>,
    t: LmPoint<T>,
    stop: bool,
) -> bool {
    exists|jtj: Seq<Seq<T>>, jtr: Seq<T>|
        {
            &&& #[trigger] gram_of(alg, obj.jacobian(s.params), s.params.len(), jtj)
            &&& #[trigger] transpose_mul_of(
                alg,
                obj.jacobian(s.params),
                s.params.len(),
                obj.residuals(s.params),
                jtr,
            )
            &&& lm_step_from(alg, obj, tolerance, s, jtj, jtr, t, stop)
        }
}

/// Iterations one after the other; lists where the refinement stands before each and
/// at the end. Only the last one can have ended it, and did if `stopped`.
pub open spec fn lm_run<T: Value, A: LinearAlgebra<T>>(
    alg: A,
    obj: Objective<T>,
    tolerance: T,
    steps: Seq<LmPoint<T>>,
    stopped: bool,
) -> bool {
    forall|i: int|
        0 <= i < steps.len() - 1 ==> lm_step(
            alg,
            obj,
            tolerance,
            #[trigger] steps[i],
            steps[i + 1],
            stopped && i == steps.len() - 2,
        )
}

/// Where a refinement can start: the damping is set by the curvature of the data
/// alone, lest the weights of constraints inflate it.
pub open spec fn lm_start<T: Value, A: LinearAlgebra<T>>(
    alg: A,
    obj: Objective<T>,
    params: Seq<T>,
    s: LmPoint<T>,
) -> bool {
    &&& s.params == params
    &&& s.cost == obj.cost(params)
    &&& s.nu == T::two_spec()
    &&& s.rejects == 0
    &&& exists|g: Seq<Seq<T>>|
        #[trigger] gram_of(alg, obj.data_only().jacobian(params), params.len(), g) && s.lambda
            == initial_lambda(g)
}

/// What refining `params` can give: it ends after the last iteration or the first one
/// that ends it.
pub open spec fn lm_refined<T: Value, A: LinearAlgebra<T>>(
    alg: A,
    obj: Objective<T>,
    tolerance: T,
    max_iters: nat,
    params: Seq<T>,
    result: Seq<T>,
    used: nat,
) -> bool {
    exists|steps: Seq<LmPoint<T>>, stopped: bool|
        {
            &&& #[trigger] lm_run(alg, obj, tolerance, steps, stopped)
            &&& steps.len() == used + 1
            &&& used <= max_iters
            &&& stopped ==> used > 0
            &&& used == max_iters || stopped
            &&& lm_start(alg, obj, params, steps.first())
            &&& steps.last().params == result
        }
}

/// The free coefficients of a rational polynomial: all of the numerator, then all of
/// the denominator but the leading one.
pub open spec fn packed<T>(p: Seq<T>, q: Seq<T>) -> Seq<T> {
    p + q.drop_last()
}

/// Pack polynomial coefficients into a vector of parameters.
pub fn pack_params<T: Value>(poly: &RationalPolynomial<T>) -> (r: Vec<T>)
    requires
        poly.q().len() > 0,
    ensures
        r@ == packed(poly.p(), poly.q()),
{
    let (p, q) = poly.coefficients();
    let mut r = copied(p);
    let q_free: usize = q.len() - 1;
    let mut j: usize = 0;
    while j < q_free
        invariant
            p@ == poly.p(),
            q@ == poly.q(),
            q_free == q@.len() - 1,
            j <= q_free,
            r@ == p@ + q@.take(j as int),
        decreases q_free - j,
    {
        r.push(q[j]);
        j = j + 1;
        assert(r@ =~= p@ + q@.take(j as int));
    }
    assert(q@.take(q_free as int) =~= q@.drop_last());
    r
}

fn largest_abs<T: Value>(v: &Vec<T>, floor: T) -> (r: T)
    ensures
        r == abs_max(v@, v@.len(), floor),
{
    let mut r = floor;
    let mut i: usize = 0;
    while i < v.len()
        invariant
            i <= v.len(),
            r == abs_max(v@, i as nat, floor),
        decreases v.len() - i,
    {
        r = r.max(v[i].abs());
        i = i + 1;
    }
    r
}

fn diagonal_of<T: Value>(g: &Matrix<T>) -> (r: Vec<T>)
    requires
        shaped(g@, g.ncols as nat, g.ncols as nat),
    ensures
        r@ == diagonal(g@),
{
    let mut r: Vec<T> = Vec::new();
    let mut i: usize = 0;
    while i < g.ncols
        invariant
            shaped(g@, g.ncols as nat, g.ncols as nat),
            i <= g.ncols,
            r@.len() == i,
            forall|k: int| 0 <= k < i ==> #[trigger] r@[k] == g@[k][k],
        decreases g.ncols - i,
    {
        assert(g@[i as int].len() == g.ncols);
        r.push(g.rows[i][i]);
        i = i + 1;
    }
    assert(r@ =~= diagonal(g@));
    r
}

fn starting_lambda<T: Value>(g: &Matrix<T>) -> (r: T)
    requires
        shaped(g@, g.ncols as nat, g.ncols as nat),
    ensures
        r == initial_lambda(g@),
{
    let lambda = try_cast_or(TAU, T::one()).mul(largest_abs(&diagonal_of(g), T::zero()));
    if lambda.is_near_zero() {
        try_cast_or(LAMBDA_FLOOR, T::one())
    } else {
        lambda
    }
}

fn damp<T: Value>(g: &Matrix<T>, lambda: T) -> (r: Matrix<T>)
    requires
        shaped(g@, g.ncols as nat, g.ncols as nat),
    ensures
        r@ == damped(g@, lambda),
        r.ncols == g.ncols,
        r.wf(),
{
    let n: usize = g.ncols;
    let mut rows: Vec<Vec<T>> = Vec::new();
    let mut i: usize = 0;
    while i < n
        invariant
            n == g.ncols,
            shaped(g@, g.ncols as nat, g.ncols as nat),
            i <= n,
            rows@.len() == i,
            forall|k: int| 0 <= k < i ==> (#[trigger] rows@[k])@ == damped(g@, lambda)[k],
        decreases n - i,
    {
        let mut row: Vec<T> = Vec::new();
        let mut j: usize = 0;
        assert(g@[i as int].len() == n);
        while j < n
            invariant
                n == g.ncols,
                i < n,
                g@.len() == n,
                g@[i as int].len() == n,
                j <= n,
                row@.len() == j,
                forall|k: int|
                    0 <= k < j ==> #[trigger] row@[k] == damped(g@, lambda)[i as int][k],
            decreases n - j,
        {
            let e = g.rows[i][j];
            if i == j {
                row.push(e.add(lambda));
            } else {
                row.push(e);
            }
            j = j + 1;
        }
        assert(row@ =~= damped(g@, lambda)[i as int]);
        rows.push(row);
        i = i + 1;
    }
    let r = Matrix { rows, ncols: n };
    assert(r@ =~= damped(g@, lambda));
    r
}

fn negate<T: Value>(v: &Vec<T>) -> (r: Vec<T>)
    ensures
        r@ == negated(v@),
{
    let mut r: Vec<T> = Vec::new();
    let mut i: usize = 0;
    while i < v.len()
        invariant
            i <= v.len(),
            r@.len() == i,
            forall|k: int| 0 <= k < i ==> #[trigger] r@[k] == v@[k].neg_spec(),
        decreases v.len() - i,
    {
        r.push(v[i].neg());
        i = i + 1;
    }
    assert(r@ =~= negated(v@));
    r
}

fn add_vectors<T: Value>(a: &Vec<T>, b: &Vec<T>) -> (r: Vec<T>)
    requires
        a@.len() == b@.len(),
    ensures
        r@ == vector_sum(a@, b@),
{
    let mut r: Vec<T> = Vec::new();
    let mut i: usize = 0;
    while i < a.len()
        invariant
            a@.len() == b@.len(),
            i <= a.len(),
            r@.len() == i,
            forall|k: int| 0 <= k < i ==> #[trigger] r@[k] == a@[k].add_spec(b@[k]),
        decreases a.len() - i,
    {
        r.push(a[i].add(b[i]));
        i = i + 1;
    }
    assert(r@ =~= vector_sum(a@, b@));
    r
}

fn slope_of_model<T: Value>(step: &Vec<T>, lambda: T, jtr: &Vec<T>) -> (r: Vec<T>)
    requires
        step@.len() == jtr@.len(),
    ensures
        r@ == model_slope(step@, lambda, jtr@),
{
    let mut r: Vec<T> = Vec::new();
    let mut i: usize = 0;
    while i < step.len()
        invariant
            step@.len() == jtr@.len(),
            i <= step.len(),
            r@.len() == i,
            forall|k: int|
                0 <= k < i ==> #[trigger] r@[k] == step@[k].mul_spec(lambda).sub_spec(jtr@[k]),
        decreases step.len() - i,
    {
        r.push(step[i].mul(lambda).sub(jtr[i]));
        i = i + 1;
    }
    assert(r@ =~= model_slope(step@, lambda, jtr@));
    r
}

/// Where a refinement stands.
pub struct LmState<T> {
    /// The coefficients, as [`pack_params`] packs them.
    pub params: Vec<T>,
    /// The cost of the parameters.
    pub cost: T,
    /// The damping.
    pub lambda: T,
    /// The factor by which the next rejection raises the damping.
    pub nu: T,
    /// Rejections in a row.
    pub rejects: usize,
}

impl<T: Value> LmState<T> {
    /// The state over sequences.
    pub open spec fn point(&self) -> LmPoint<T> {
        LmPoint {
            params: self.params@,
            cost: self.cost,
            lambda: self.lambda,
            nu: self.nu,
            rejects: self.rejects as nat,
        }
    }

    /// Accept or reject a step whose product with the slope of the model is known;
    /// returns whether the refinement ends.
    pub fn decide(
        &mut self,
        data: &[(T, T)],
        constraints: &[Constraint<T>],
        weighting: ErrorWeighting,
        p_terms: usize,
        tolerance: T,
        step: &Vec<T>,
        slope_product: T,
    ) -> (stop: bool)
        requires
            0 < p_terms <= old(self).params.len(),
            step@.len() == old(self).params@.len(),
            old(self).rejects <= MAX_REJECTS,
        ensures
            (final(self).point(), stop) == decided(
                Objective {
                    data: data@,
                    constraints: constraints@,
                    weighting,
                    p_terms: p_terms as nat,
                },
                tolerance,
                old(self).point(),
                step@,
                slope_product,
            ),
            final(self).params.len() == old(self).params.len(),
            !stop ==> final(self).rejects <= MAX_REJECTS,
    {
        let tol = try_cast_or(LM_TOLERANCE, tolerance);
        let trial = add_vectors(&self.params, step);
        let trial_cost = compute_cost(data, constraints, &trial, p_terms, weighting);
        let actual = self.cost.sub(trial_cost);
        let predicted = slope_product.mul(T::half());
        let gain = if predicted.is_near_zero() {
            T::zero()
        } else {
            actual.div(predicted)
        };
        if T::zero().lt(gain) && T::zero().lt(actual) {
            // Accept step
            self.params = trial;
            self.cost = trial_cost;
            self.rejects = 0;
            // Nielsen update: reduce the damping if the gain is good
            if try_cast_or(GOOD_GAIN, T::one()).lt(gain) {
                let third = try_cast_or(THIRD, T::one());
                let g2 = T::two().mul(gain).sub(T::one());
                self.lambda = self.lambda.mul(
                    third.max(T::one().sub(g2.mul(g2).mul(g2))),
                );
                self.nu = T::two();
            }
            // Convergence checks
            let rel_reduction = actual.div(self.cost.max(try_cast_or(TINY_COST, T::one())));
            if rel_reduction.lt(tol) {
                return true;
            }
            let step_norm = largest_abs(step, T::zero());
            let param_norm = largest_abs(&self.params, T::one());
            step_norm.div(param_norm).lt(tol)
        } else {
            // Reject: raise the damping
            self.lambda = self.lambda.mul(self.nu);
            self.nu = self.nu.mul(T::two());
            self.rejects = self.rejects + 1;
            self.rejects > MAX_REJECTS
        }
    }

    /// One iteration; returns whether the refinement ends.
    pub fn iterate<A: LinearAlgebra<T>>(
        &mut self,
        alg: &A,
        data: &[(T, T)],
        constraints: &[Constraint<T>],
        weighting: ErrorWeighting,
        p_terms: usize,
        tolerance: T,
    ) -> (stop: bool)
        requires
            0 < p_terms <= old(self).params.len(),
            old(self).rejects <= MAX_REJECTS,
        ensures
            lm_step(
                *alg,
                Objective {
                    data: data@,
                    constraints: constraints@,
                    weighting,
                    p_terms: p_terms as nat,
                },
                tolerance,
                old(self).point(),
                final(self).point(),
                stop,
            ),
            final(self).params.len() == old(self).params.len(),
            !stop ==> final(self).rejects <= MAX_REJECTS,
    {
        let ghost obj = Objective {
            data: data@,
            constraints: constraints@,
            weighting,
            p_terms: p_terms as nat,
        };
        let ghost s = self.point();
        proof {
            reveal(lm_step);
        }
        let (residuals, jacobian) = compute_residuals_jacobian(
            data,
            constraints,
            &self.params,
            p_terms,
            weighting,
        );
        let jtj = gram(alg, &jacobian);
        let jtr = transpose_mul(alg, &jacobian, &residuals);
        assert(gram_of(*alg, obj.jacobian(s.params), s.params.len(), jtj@));
        assert(transpose_mul_of(
            *alg,
            obj.jacobian(s.params),
            s.params.len(),
            obj.residuals(s.params),
            jtr@,
        ));
        // Gradient convergence
        let grad_norm = largest_abs(&jtr, T::zero());
        if grad_norm.lt(try_cast_or(LM_TOLERANCE, tolerance)) {
            assert(lm_step_from(*alg, obj, tolerance, s, jtj@, jtr@, s, true));
            return true;
        }
        // Solve (J^T J + lambda I) step = -J^T r
        let a = damp(&jtj, self.lambda);
        let neg_jtr = negate(&jtr);
        let solved = solve_svd(alg, &a, &neg_jtr);
        assert(svd_solution(*alg, damped(jtj@, s.lambda), jtj@.len(), negated(jtr@), seq_of(solved)));
        let step = match solved {
            Err(_) => {
                assert(lm_step_from(*alg, obj, tolerance, s, jtj@, jtr@, s, true));
                return true;
            },
            Ok(v) => v,
        };
        // Gain ratio: actual reduction / predicted reduction
        let slope = slope_of_model(&step, self.lambda, &jtr);
        let d = dot(alg, &step, &slope);
        assert(dot_of(*alg, step@, model_slope(step@, s.lambda, jtr@), d));
        let stop = self.decide(data, constraints, weighting, p_terms, tolerance, &step, d);
        proof {
            let t = self.point();
            assert(step_taken(*alg, obj, tolerance, s, step@, jtr@, t, stop));
            assert(svd_solution(
                *alg,
                damped(jtj@, s.lambda),
                jtj@.len(),
                negated(jtr@),
                Ok::<Seq<T>, Error>(step@),
            ));
            assert(lm_step_from(*alg, obj, tolerance, s, jtj@, jtr@, t, stop));
        }
        stop
    }
}

/// Refine a rational polynomial using Levenberg-Marquardt with Nielsen damping;
/// returns how many iterations were made.
///
/// Uses the analytical Jacobian of P(x)/Q(x). The leading coefficient of the
/// denominator is left as it is.
pub fn refine_lm<T: Value, A: LinearAlgebra<T>>(
    alg: &A,
    poly: &mut RationalPolynomial<T>,
    data: &[(T, T)],
    constraints: &[Constraint<T>],
    weighting: ErrorWeighting,
    max_iters: usize,
    tolerance: T,
) -> (r: usize)
    requires
        old(poly).evaluable(),
    ensures
        lm_refined(
            *alg,
            Objective {
                data: data@,
                constraints: constraints@,
                weighting,
                p_terms: old(poly).p().len(),
            },
            tolerance,
            max_iters as nat,
            packed(old(poly).p(), old(poly).q()),
            packed(final(poly).p(), final(poly).q()),
            r as nat,
        ),
        final(poly).p().len() == old(poly).p().len(),
        final(poly).q().len() == old(poly).q().len(),
        final(poly).q().last() == old(poly).q().last(),
{
    let p_terms: usize = poly.numerator().len();
    let ghost obj = Objective {
        data: data@,
        constraints: constraints@,
        weighting,
        p_terms: p_terms as nat,
    };
    let params = pack_params(poly);
    let ghost start_params = params@;
    let cost = compute_cost(data, constraints, &params, p_terms, weighting);
    let none: Vec<Constraint<T>> = Vec::new();
    let (_, j_init) = compute_residuals_jacobian(
        data,
        none.as_slice(),
        &params,
        p_terms,
        weighting,
    );
    assert(none@ =~= Seq::empty());
    let jtj_init = gram(alg, &j_init);
    assert(gram_of(*alg, obj.data_only().jacobian(params@), params@.len(), jtj_init@));
    let lambda = starting_lambda(&jtj_init);
    let mut state = LmState { params, cost, lambda, nu: T::two(), rejects: 0 };
    let ghost mut steps: Seq<LmPoint<T>> = seq![state.point()];
    let mut iters_used: usize = 0;
    let mut stopped = false;
    while iters_used < max_iters && !stopped
        invariant
            0 < p_terms <= state.params.len(),
            state.params.len() == start_params.len(),
            obj == (Objective {
                data: data@,
                constraints: constraints@,
                weighting,
                p_terms: p_terms as nat,
            }),
            !stopped ==> state.rejects <= MAX_REJECTS,
            iters_used <= max_iters,
            steps.len() == iters_used + 1,
            stopped ==> iters_used > 0,
            lm_start(*alg, obj, start_params, steps.first()),
            steps.last() == state.point(),
            lm_run(*alg, obj, tolerance, steps, stopped),
        decreases max_iters - iters_used,
    {
        iters_used = iters_used + 1;
        stopped = state.iterate(alg, data, constraints, weighting, p_terms, tolerance);
        proof {
            let earlier = steps;
            steps = steps.push(state.point());
            assert forall|i: int| 0 <= i < steps.len() - 1 implies lm_step(
                *alg,
                obj,
                tolerance,
                #[trigger] steps[i],
                steps[i + 1],
                stopped && i == steps.len() - 2,
            ) by {
                if i < earlier.len() - 1 {
                    assert(steps[i] == earlier[i]);
                }
            }
        }
    }
    // Unpack parameters back into polynomial
    let p = copied(slice_subrange(state.params.as_slice(), 0, p_terms));
    let mut q = copied(slice_subrange(state.params.as_slice(), p_terms, state.params.len()));
    let lead = poly.denominator()[poly.denominator().len() - 1];
    q.push(lead);
    proof {
        assert(packed(p@, q@) =~= state.params@);
        assert(lm_run(*alg, obj, tolerance, steps, stopped));
    }
    *poly = RationalPolynomial::new(p, q);
    iters_used
}

} // verus!
