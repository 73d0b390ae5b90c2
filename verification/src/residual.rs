//! The objective of the second fitting phase: residuals, their sum of squares and
//! their derivatives.
use crate::algebra::Matrix;
use crate::options::{penalty_factor, strength, Constraint, ErrorWeighting};
use crate::polynomial::{horner, horner_spec};
use crate::sk::{error_weight, error_weight_of, monic, power};
use crate::value::{copied, Value};
use vstd::prelude::*;
use vstd::slice::slice_subrange;

verus! {

/// What a fit is held against.
pub ghost struct Objective<T> {
    pub data: Seq<(T, T)>,
    pub constraints: Seq<Constraint<T>>,
    pub weighting: ErrorWeighting,
    pub p_terms: nat,
}

/// The residual at a data point: the error, relative to `|y|` where relative errors
/// count and `y` is not as good as zero.
pub open spec fn data_residual<T: Value>(weighting: ErrorWeighting, pred: T, y: T) -> T {
    match weighting {
        ErrorWeighting::Absolute => pred.sub_spec(y),
        ErrorWeighting::Relative => if y.abs_spec().is_near_zero_spec() {
            pred.sub_spec(y)
        } else {
            pred.sub_spec(y).div_spec(y.abs_spec())
        },
    }
}

/// The residual at a constraint: the error times the root of the size of the weight, so
/// that its square is that size times the squared error.
pub open spec fn constraint_residual<T: Value>(c: Constraint<T>, pred: T) -> T {
    penalty_factor(c).mul_spec(pred.sub_spec(c.y))
}

/// The derivatives of a residual by the coefficients: `w*x^j/Q(x)` by those of `P`,
/// `-w*(P/Q)*x^j/Q(x)` by the free ones of `Q`.
pub open spec fn jacobian_row<T: Value>(w: T, x: T, pred: T, inv_q: T, p_terms: nat, q_free: nat) -> Seq<
    T,
> {
    Seq::new(
        p_terms + q_free,
        |j: int|
            if j < p_terms {
                w.mul_spec(power(x, j as nat)).mul_spec(inv_q)
            } else {
                w.neg_spec().mul_spec(pred).mul_spec(power(x, (j - p_terms) as nat)).mul_spec(inv_q)
            },
    )
}

impl<T: Value> Objective<T> {
    /// The numerator in a vector of parameters.
    pub open spec fn num(self, params: Seq<T>) -> Seq<T> {
        params.take(self.p_terms as int)
    }

    /// The denominator in a vector of parameters, with its leading 1.
    pub open spec fn den(self, params: Seq<T>) -> Seq<T> {
        monic(params, self.p_terms)
    }

    /// The value of the fit at `x`.
    pub open spec fn pred(self, params: Seq<T>, x: T) -> T {
        horner_spec(self.num(params), x).div_spec(horner_spec(self.den(params), x))
    }

    /// How many residuals there are.
    pub open spec fn count(self) -> nat {
        self.data.len() + self.constraints.len()
    }

    /// The `i`-th residual, those of the data first.
    pub open spec fn residual(self, params: Seq<T>, i: int) -> T {
        if i < self.data.len() {
            data_residual(self.weighting, self.pred(params, self.data[i].0), self.data[i].1)
        } else {
            let c = self.constraints[i - self.data.len()];
            constraint_residual(c, self.pred(params, c.x))
        }
    }

    /// All residuals.
    pub open spec fn residuals(self, params: Seq<T>) -> Seq<T> {
        Seq::new(self.count(), |i: int| self.residual(params, i))
    }

    /// The derivatives of the `i`-th residual.
    pub open spec fn gradient(self, params: Seq<T>, i: int) -> Seq<T> {
        let (x, w) = if i < self.data.len() {
            (self.data[i].0, error_weight(self.weighting, self.data[i].1))
        } else {
            let c = self.constraints[i - self.data.len()];
            (c.x, penalty_factor(c))
        };
        jacobian_row(
            w,
            x,
            self.pred(params, x),
            T::one_spec().div_spec(horner_spec(self.den(params), x)),
            self.p_terms,
            (params.len() - self.p_terms) as nat,
        )
    }

    /// The derivatives of all residuals.
    pub open spec fn jacobian(self, params: Seq<T>) -> Seq<Seq<T>> {
        Seq::new(self.count(), |i: int| self.gradient(params, i))
    }

    /// What the `i`-th point adds to the cost: the square of the residual at a data
    /// point, the size of the weight times the squared error at a constraint.
    pub open spec fn term(self, params: Seq<T>, i: int) -> T {
        if i < self.data.len() {
            let r = self.residual(params, i);
            r.mul_spec(r)
        } else {
            let c = self.constraints[i - self.data.len()];
            let e = self.pred(params, c.x).sub_spec(c.y);
            strength(c).mul_spec(e.mul_spec(e))
        }
    }

    /// What the first `n` points add up to.
    pub open spec fn cost_upto(self, params: Seq<T>, n: nat) -> T
        decreases n,
    {
        if n == 0 {
            T::zero_spec()
        } else {
            self.cost_upto(params, (n - 1) as nat).add_spec(self.term(params, n - 1))
        }
    }

    /// The cost of the parameters, which the refinement minimizes.
    pub open spec fn cost(self, params: Seq<T>) -> T {
        self.cost_upto(params, self.count())
    }

    /// The same without the constraints.
    pub open spec fn data_only(self) -> Objective<T> {
        Objective { constraints: Seq::empty(), ..self }
    }
}

fn data_residual_of<T: Value>(weighting: ErrorWeighting, pred: T, y: T) -> (r: T)
    ensures
        r == data_residual(weighting, pred, y),
{
    match weighting {
        ErrorWeighting::Absolute => pred.sub(y),
        ErrorWeighting::Relative => {
            let ay = y.abs();
            if ay.is_near_zero() {
                pred.sub(y)
            } else {
                pred.sub(y).div(ay)
            }
        },
    }
}

fn split_params<T: Value>(params: &Vec<T>, p_terms: usize) -> (r: (Vec<T>, Vec<T>))
    requires
        p_terms <= params.len(),
    ensures
        r.0@ == params@.take(p_terms as int),
        r.1@ == monic(params@, p_terms as nat),
{
    let p = copied(slice_subrange(params.as_slice(), 0, p_terms));
    let mut q = copied(slice_subrange(params.as_slice(), p_terms, params.len()));
    q.push(T::one());
    assert(p@ =~= params@.take(p_terms as int));
    assert(q@ =~= monic(params@, p_terms as nat));
    (p, q)
}

/// Compute total cost: the squared residuals at the data and the weighted squared errors
/// at the constraints.
pub fn compute_cost<T: Value>(
    data: &[(T, T)],
    constraints: &[Constraint<T>],
    params: &Vec<T>,
    p_terms: usize,
    weighting: ErrorWeighting,
) -> (r: T)
    requires
        0 < p_terms <= params.len(),
    ensures
        r == (Objective {
            data: data@,
            constraints: constraints@,
            weighting,
            p_terms: p_terms as nat,
        }).cost(params@),
{
    let ghost obj = Objective {
        data: data@,
        constraints: constraints@,
        weighting,
        p_terms: p_terms as nat,
    };
    let (p, q) = split_params(params, p_terms);
    let mut cost = T::zero();
    let mut i: usize = 0;
    while i < data.len()
        invariant
            p@ == obj.num(params@),
            q@ == obj.den(params@),
            p.len() > 0,
            q.len() > 0,
            obj.data == data@,
            obj.weighting == weighting,
            i <= data.len(),
            cost == obj.cost_upto(params@, i as nat),
        decreases data.len() - i,
    {
        let (x, y) = data[i];
        let pred = horner(p.as_slice(), x).div(horner(q.as_slice(), x));
        let r = data_residual_of(weighting, pred, y);
        cost = cost.add(r.mul(r));
        i = i + 1;
    }
    let mut ci: usize = 0;
    while ci < constraints.len()
        invariant
            p@ == obj.num(params@),
            q@ == obj.den(params@),
            p.len() > 0,
            q.len() > 0,
            obj.constraints == constraints@,
            ci <= constraints.len(),
            cost == obj.cost_upto(params@, (obj.data.len() + ci) as nat),
        decreases constraints.len() - ci,
    {
        let c = constraints[ci];
        let pred = horner(p.as_slice(), c.x).div(horner(q.as_slice(), c.x));
        let e = pred.sub(c.y);
        cost = cost.add(c.strength().mul(e.mul(e)));
        ci = ci + 1;
    }
    cost
}

fn build_jacobian_row<T: Value>(w: T, x: T, pred: T, inv_q: T, p_terms: usize, q_free: usize) -> (r: Vec<
    T,
>)
    requires
        p_terms + q_free <= usize::MAX,
    ensures
        r@ == jacobian_row(w, x, pred, inv_q, p_terms as nat, q_free as nat),
{
    let mut row: Vec<T> = Vec::new();
    let mut xj = T::one();
    let mut j: usize = 0;
    while j < p_terms
        invariant
            p_terms + q_free <= usize::MAX,
            j <= p_terms,
            xj == power(x, j as nat),
            row@.len() == j,
            forall|k: int|
                0 <= k < j ==> #[trigger] row@[k] == w.mul_spec(power(x, k as nat)).mul_spec(inv_q),
        decreases p_terms - j,
    {
        row.push(w.mul(xj).mul(inv_q));
        xj = xj.mul(x);
        j = j + 1;
    }
    let mut xj = T::one();
    let mut j: usize = 0;
    while j < q_free
        invariant
            p_terms + q_free <= usize::MAX,
            j <= q_free,
            xj == power(x, j as nat),
            row@.len() == p_terms + j,
            forall|k: int|
                0 <= k < p_terms ==> #[trigger] row@[k] == w.mul_spec(power(x, k as nat)).mul_spec(
                    inv_q,
                ),
            forall|k: int|
                p_terms <= k < p_terms + j ==> #[trigger] row@[k] == w.neg_spec().mul_spec(
                    pred,
                ).mul_spec(power(x, (k - p_terms) as nat)).mul_spec(inv_q),
        decreases q_free - j,
    {
        row.push(w.neg().mul(pred).mul(xj).mul(inv_q));
        xj = xj.mul(x);
        j = j + 1;
    }
    assert(row@ =~= jacobian_row(w, x, pred, inv_q, p_terms as nat, q_free as nat));
    row
}

/// Compute residual vector and analytical Jacobian.
pub fn compute_residuals_jacobian<T: Value>(
    data: &[(T, T)],
    constraints: &[Constraint<T>],
    params: &Vec<T>,
    p_terms: usize,
    weighting: ErrorWeighting,
) -> (r: (Vec<T>, Matrix<T>))
    requires
        0 < p_terms <= params.len(),
    ensures
        r.0@ == (Objective {
            data: data@,
            constraints: constraints@,
            weighting,
            p_terms: p_terms as nat,
        }).residuals(params@),
        r.1@ == (Objective {
            data: data@,
            constraints: constraints@,
            weighting,
            p_terms: p_terms as nat,
        }).jacobian(params@),
        r.1.ncols == params.len(),
        r.1.wf(),
{
    let ghost obj = Objective {
        data: data@,
        constraints: constraints@,
        weighting,
        p_terms: p_terms as nat,
    };
    let q_free: usize = params.len() - p_terms;
    let (p, q) = split_params(params, p_terms);
    let mut residuals: Vec<T> = Vec::new();
    let mut rows: Vec<Vec<T>> = Vec::new();
    let mut i: usize = 0;
    while i < data.len()
        invariant
            p@ == obj.num(params@),
            q@ == obj.den(params@),
            p.len() > 0,
            q.len() > 0,
            p_terms <= params.len(),
            obj.p_terms == p_terms,
            q_free == params.len() - p_terms,
            obj.data == data@,
            obj.weighting == weighting,
            i <= data.len(),
            residuals@.len() == i,
            rows@.len() == i,
            forall|k: int| 0 <= k < i ==> #[trigger] residuals@[k] == obj.residual(params@, k),
            forall|k: int| 0 <= k < i ==> (#[trigger] rows@[k])@ == obj.gradient(params@, k),
        decreases data.len() - i,
    {
        let (x, y) = data[i];
        let qx = horner(q.as_slice(), x);
        let px = horner(p.as_slice(), x);
        let pred = px.div(qx);
        let inv_q = T::one().div(qx);
        let w = error_weight_of(weighting, y);
        residuals.push(data_residual_of(weighting, pred, y));
        rows.push(build_jacobian_row(w, x, pred, inv_q, p_terms, q_free));
        i = i + 1;
    }
    let n: usize = data.len();
    let mut ci: usize = 0;
    while ci < constraints.len()
        invariant
            p@ == obj.num(params@),
            q@ == obj.den(params@),
            p.len() > 0,
            q.len() > 0,
            p_terms <= params.len(),
            obj.p_terms == p_terms,
            q_free == params.len() - p_terms,
            obj.data == data@,
            n == data@.len(),
            obj.constraints == constraints@,
            ci <= constraints.len(),
            residuals@.len() == n + ci,
            rows@.len() == n + ci,
            forall|k: int| 0 <= k < n + ci ==> #[trigger] residuals@[k] == obj.residual(params@, k),
            forall|k: int| 0 <= k < n + ci ==> (#[trigger] rows@[k])@ == obj.gradient(params@, k),
        decreases constraints.len() - ci,
    {
        let c = constraints[ci];
        let qx = horner(q.as_slice(), c.x);
        let px = horner(p.as_slice(), c.x);
        let pred = px.div(qx);
        let inv_q = T::one().div(qx);
        let w = c.factor();
        residuals.push(w.mul(pred.sub(c.y)));
        rows.push(build_jacobian_row(w, c.x, pred, inv_q, p_terms, q_free));
        ci = ci + 1;
    }
    let jacobian = Matrix { rows, ncols: params.len() };
    assert(residuals@ =~= obj.residuals(params@));
    assert(jacobian@ =~= obj.jacobian(params@));
    (residuals, jacobian)
}

} // verus!
