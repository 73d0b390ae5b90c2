//! The first fitting phase: iteratively reweighted linear least squares
//! (Sanathanan-Koerner iteration).
//!
//! Rational fitting is nonlinear because the denominator's coefficients appear in
//! the divisor. The iteration linearizes it: `P(x) - y*Q(x) = 0` is linear in the
//! coefficients once `Q` is monic, and weighting each equation by `1/|Q(x)|` from
//! the solution before brings the residual back to that of the quotient.
use crate::algebra::{seq_of, solve_svd, svd_solution, LinearAlgebra, Matrix};
use crate::error::Error;
use crate::options::{penalty_factor, Constraint, ErrorWeighting};
use crate::polynomial::{horner, horner_spec, RationalPolynomial};
use crate::value::{cast_or, copied, filled, try_cast_or, Value};
use vstd::prelude::*;
use vstd::slice::slice_subrange;

verus! {

/// 1e10, the weight where the denominator is as good as zero.
pub const POLE_WEIGHT: u64 = 0x4202_a05f_2000_0000;

/// `x` to the power `n`, multiplied up from 1.
pub open spec fn power<T: Value>(x: T, n: nat) -> T
    decreases n,
{
    if n == 0 {
        T::one_spec()
    } else {
        power(x, (n - 1) as nat).mul_spec(x)
    }
}

/// The first `n` powers of `x`, from the 0th on.
pub open spec fn powers<T: Value>(x: T, n: nat) -> Seq<T> {
    Seq::new(n, |j: int| power(x, j as nat))
}

/// Precompute x^0, x^1, ..., x^{max_power-1} for each x value.
pub fn precompute_powers<T: Value>(x_values: &[T], max_power: usize) -> (r: Vec<Vec<T>>)
    ensures
        r@.len() == x_values@.len(),
        forall|i: int|
            0 <= i < r@.len() ==> (#[trigger] r@[i])@ == powers(x_values@[i], max_power as nat),
{
    let mut all: Vec<Vec<T>> = Vec::new();
    let mut i: usize = 0;
    while i < x_values.len()
        invariant
            i <= x_values.len(),
            all@.len() == i,
            forall|k: int|
                0 <= k < i ==> (#[trigger] all@[k])@ == powers(x_values@[k], max_power as nat),
        decreases x_values.len() - i,
    {
        let x = x_values[i];
        let mut row: Vec<T> = Vec::new();
        let mut xj = T::one();
        let mut j: usize = 0;
        while j < max_power
            invariant
                j <= max_power,
                xj == power(x, j as nat),
                row@ == powers(x, j as nat),
            decreases max_power - j,
        {
            row.push(xj);
            xj = xj.mul(x);
            j = j + 1;
            assert(row@ =~= powers(x, j as nat));
        }
        all.push(row);
        i = i + 1;
    }
    all
}

/// One row of the linear system: the factors of the coefficients of `P`, then those
/// of the free coefficients of `Q`, in `w*P(x) - w*y*Q(x)`.
pub open spec fn sk_row<T: Value>(w: T, y: T, xp: Seq<T>, p_terms: nat, q_free: nat) -> Seq<T> {
    Seq::new(
        p_terms + q_free,
        |j: int|
            if j < p_terms {
                w.mul_spec(xp[j])
            } else {
                w.neg_spec().mul_spec(y).mul_spec(xp[j - p_terms])
            },
    )
}

/// The right hand side of a row: what the leading coefficient 1 of `Q` brings.
pub open spec fn sk_target<T: Value>(w: T, y: T, xp: Seq<T>, q_free: nat) -> T {
    w.mul_spec(y).mul_spec(xp[q_free as int])
}

/// The weight of a data point: what the iteration gives it times what the error
/// measure gives it.
pub open spec fn point_weight<T: Value>(sk_w: Seq<T>, err_w: Seq<T>, i: int) -> T {
    sk_w[i].mul_spec(err_w[i])
}

/// The matrix of the system: a row for each data point, then one for each
/// constraint.
pub open spec fn system_matrix<T: Value>(
    data: Seq<(T, T)>,
    x_powers: Seq<Seq<T>>,
    constraints: Seq<Constraint<T>>,
    c_powers: Seq<Seq<T>>,
    sk_w: Seq<T>,
    err_w: Seq<T>,
    p_terms: nat,
    q_free: nat,
) -> Seq<Seq<T>> {
    Seq::new(
        data.len() + constraints.len(),
        |i: int|
            if i < data.len() {
                sk_row(point_weight(sk_w, err_w, i), data[i].1, x_powers[i], p_terms, q_free)
            } else {
                let c = constraints[i - data.len()];
                sk_row(penalty_factor(c), c.y, c_powers[i - data.len()], p_terms, q_free)
            },
    )
}

/// The right hand side of the system.
pub open spec fn system_rhs<T: Value>(
    data: Seq<(T, T)>,
    x_powers: Seq<Seq<T>>,
    constraints: Seq<Constraint<T>>,
    c_powers: Seq<Seq<T>>,
    sk_w: Seq<T>,
    err_w: Seq<T>,
    q_free: nat,
) -> Seq<T> {
    Seq::new(
        data.len() + constraints.len(),
        |i: int|
            if i < data.len() {
                sk_target(point_weight(sk_w, err_w, i), data[i].1, x_powers[i], q_free)
            } else {
                let c = constraints[i - data.len()];
                sk_target(penalty_factor(c), c.y, c_powers[i - data.len()], q_free)
            },
    )
}

/// The rows of a nested vector.
pub open spec fn rows_of<T>(v: Seq<Vec<T>>) -> Seq<Seq<T>> {
    Seq::new(v.len(), |i: int| v[i]@)
}

fn build_row<T: Value>(w: T, y: T, xp: &Vec<T>, p_terms: usize, q_free: usize) -> (r: Vec<T>)
    requires
        p_terms <= xp@.len(),
        q_free <= xp@.len(),
        p_terms + q_free <= usize::MAX,
    ensures
        r@ == sk_row(w, y, xp@, p_terms as nat, q_free as nat),
{
    let mut row: Vec<T> = Vec::new();
    let total: usize = p_terms + q_free;
    let mut j: usize = 0;
    while j < total
        invariant
            p_terms <= xp@.len(),
            q_free <= xp@.len(),
            total == p_terms + q_free,
            j <= total,
            row@.len() == j,
            forall|k: int|
                0 <= k < j ==> #[trigger] row@[k] == sk_row(
                    w,
                    y,
                    xp@,
                    p_terms as nat,
                    q_free as nat,
                )[k],
        decreases total - j,
    {
        if j < p_terms {
            row.push(w.mul(xp[j]));
        } else {
            row.push(w.neg().mul(y).mul(xp[j - p_terms]));
        }
        j = j + 1;
    }
    assert(row@ =~= sk_row(w, y, xp@, p_terms as nat, q_free as nat));
    row
}

/// Build the weighted linear system for one SK iteration.
pub fn build_sk_system<T: Value>(
    data: &[(T, T)],
    x_powers: &Vec<Vec<T>>,
    c_powers: &Vec<Vec<T>>,
    constraints: &[Constraint<T>],
    sk_weights: &Vec<T>,
    error_weights: &Vec<T>,
    p_terms: usize,
    q_free: usize,
) -> (r: (Matrix<T>, Vec<T>))
    requires
        p_terms + q_free <= usize::MAX,
        x_powers@.len() == data@.len(),
        c_powers@.len() == constraints@.len(),
        sk_weights@.len() == data@.len(),
        error_weights@.len() == data@.len(),
        forall|i: int|
            0 <= i < x_powers@.len() ==> p_terms <= (#[trigger] x_powers@[i])@.len() && q_free
                < x_powers@[i]@.len(),
        forall|i: int|
            0 <= i < c_powers@.len() ==> p_terms <= (#[trigger] c_powers@[i])@.len() && q_free
                < c_powers@[i]@.len(),
    ensures
        r.0@ == system_matrix(
            data@,
            rows_of(x_powers@),
            constraints@,
            rows_of(c_powers@),
            sk_weights@,
            error_weights@,
            p_terms as nat,
            q_free as nat,
        ),
        r.0.ncols == p_terms + q_free,
        r.0.wf(),
        r.1@ == system_rhs(
            data@,
            rows_of(x_powers@),
            constraints@,
            rows_of(c_powers@),
            sk_weights@,
            error_weights@,
            q_free as nat,
        ),
{
    let ghost mat = system_matrix(
        data@,
        rows_of(x_powers@),
        constraints@,
        rows_of(c_powers@),
        sk_weights@,
        error_weights@,
        p_terms as nat,
        q_free as nat,
    );
    let ghost target = system_rhs(
        data@,
        rows_of(x_powers@),
        constraints@,
        rows_of(c_powers@),
        sk_weights@,
        error_weights@,
        q_free as nat,
    );
    let mut rows: Vec<Vec<T>> = Vec::new();
    let mut rhs: Vec<T> = Vec::new();
    let mut i: usize = 0;
    while i < data.len()
        invariant
            p_terms + q_free <= usize::MAX,
            x_powers@.len() == data@.len(),
            sk_weights@.len() == data@.len(),
            error_weights@.len() == data@.len(),
            forall|k: int|
                0 <= k < x_powers@.len() ==> p_terms <= (#[trigger] x_powers@[k])@.len() && q_free
                    < x_powers@[k]@.len(),
            mat.len() == data@.len() + constraints@.len(),
            target.len() == data@.len() + constraints@.len(),
            forall|k: int|
                0 <= k < data@.len() ==> #[trigger] mat[k] == sk_row(
                    point_weight(sk_weights@, error_weights@, k),
                    data@[k].1,
                    x_powers@[k]@,
                    p_terms as nat,
                    q_free as nat,
                ),
            forall|k: int|
                0 <= k < data@.len() ==> #[trigger] target[k] == sk_target(
                    point_weight(sk_weights@, error_weights@, k),
                    data@[k].1,
                    x_powers@[k]@,
                    q_free as nat,
                ),
            i <= data.len(),
            rows@.len() == i,
            rhs@.len() == i,
            forall|k: int| 0 <= k < i ==> (#[trigger] rows@[k])@ == mat[k],
            forall|k: int| 0 <= k < i ==> #[trigger] rhs@[k] == target[k],
        decreases data.len() - i,
    {
        let y = data[i].1;
        let w = sk_weights[i].mul(error_weights[i]);
        rows.push(build_row(w, y, &x_powers[i], p_terms, q_free));
        rhs.push(w.mul(y).mul(x_powers[i][q_free]));
        assert(mat[i as int] == rows@[i as int]@);
        assert(target[i as int] == rhs@[i as int]);
        i = i + 1;
    }
    let n: usize = data.len();
    let mut ci: usize = 0;
    while ci < constraints.len()
        invariant
            p_terms + q_free <= usize::MAX,
            n == data@.len(),
            c_powers@.len() == constraints@.len(),
            forall|k: int|
                0 <= k < c_powers@.len() ==> p_terms <= (#[trigger] c_powers@[k])@.len() && q_free
                    < c_powers@[k]@.len(),
            mat.len() == data@.len() + constraints@.len(),
            target.len() == data@.len() + constraints@.len(),
            forall|k: int|
                n <= k < mat.len() ==> #[trigger] mat[k] == sk_row(
                    penalty_factor(constraints@[k - n]),
                    constraints@[k - n].y,
                    c_powers@[k - n]@,
                    p_terms as nat,
                    q_free as nat,
                ),
            forall|k: int|
                n <= k < mat.len() ==> #[trigger] target[k] == sk_target(
                    penalty_factor(constraints@[k - n]),
                    constraints@[k - n].y,
                    c_powers@[k - n]@,
                    q_free as nat,
                ),
            ci <= constraints.len(),
            rows@.len() == n + ci,
            rhs@.len() == n + ci,
            forall|k: int| 0 <= k < n + ci ==> (#[trigger] rows@[k])@ == mat[k],
            forall|k: int| 0 <= k < n + ci ==> #[trigger] rhs@[k] == target[k],
        decreases constraints.len() - ci,
    {
        let c = constraints[ci];
        let w = c.factor();
        rows.push(build_row(w, c.y, &c_powers[ci], p_terms, q_free));
        rhs.push(w.mul(c.y).mul(c_powers[ci][q_free]));
        assert(mat[n + ci] == rows@[n + ci]@);
        assert(target[n + ci] == rhs@[n + ci]);
        ci = ci + 1;
    }
    let m = Matrix { rows, ncols: p_terms + q_free };
    assert(m@ =~= mat);
    assert(rhs@ =~= target);
    (m, rhs)
}

/// What a linear fit is given.
pub ghost struct SkInput<T> {
    pub data: Seq<(T, T)>,
    pub constraints: Seq<Constraint<T>>,
    pub weighting: ErrorWeighting,
    pub p_terms: nat,
    pub q_free: nat,
    pub tolerance: T,
}

impl<T: Value> SkInput<T> {
    /// How many powers of each x are needed.
    pub open spec fn power_count(self) -> nat {
        if self.p_terms > self.q_free + 1 {
            self.p_terms
        } else {
            self.q_free + 1
        }
    }

    /// The powers at the data points.
    pub open spec fn x_powers(self) -> Seq<Seq<T>> {
        Seq::new(self.data.len(), |i: int| powers(self.data[i].0, self.power_count()))
    }

    /// The powers at the constraints.
    pub open spec fn c_powers(self) -> Seq<Seq<T>> {
        Seq::new(self.constraints.len(), |i: int| powers(self.constraints[i].x, self.power_count()))
    }

    /// The weights of the error measure.
    pub open spec fn err_w(self) -> Seq<T> {
        Seq::new(self.data.len(), |i: int| error_weight(self.weighting, self.data[i].1))
    }

    /// The weights of an iteration: 1 at first, then `1/|Q(x)|` with the solution
    /// before.
    pub open spec fn sk_w(self, before: Option<Seq<T>>) -> Seq<T> {
        match before {
            None => Seq::new(self.data.len(), |i: int| T::one_spec()),
            Some(params) => Seq::new(
                self.data.len(),
                |i: int| sk_weight(monic(params, self.p_terms), self.data[i].0),
            ),
        }
    }

    /// The matrix of an iteration.
    pub open spec fn matrix(self, before: Option<Seq<T>>) -> Seq<Seq<T>> {
        system_matrix(
            self.data,
            self.x_powers(),
            self.constraints,
            self.c_powers(),
            self.sk_w(before),
            self.err_w(),
            self.p_terms,
            self.q_free,
        )
    }

    /// The right hand side of an iteration.
    pub open spec fn rhs(self, before: Option<Seq<T>>) -> Seq<T> {
        system_rhs(
            self.data,
            self.x_powers(),
            self.constraints,
            self.c_powers(),
            self.sk_w(before),
            self.err_w(),
            self.q_free,
        )
    }
}

/// The weight of a data point: 1 for absolute errors, `1/|y|` for relative ones
/// unless `y` is as good as zero.
pub open spec fn error_weight<T: Value>(weighting: ErrorWeighting, y: T) -> T {
    match weighting {
        ErrorWeighting::Absolute => T::one_spec(),
        ErrorWeighting::Relative => if y.abs_spec().is_near_zero_spec() {
            T::one_spec()
        } else {
            T::one_spec().div_spec(y.abs_spec())
        },
    }
}

/// `1/|Q(x)|`, large where `Q(x)` is as good as zero.
pub open spec fn sk_weight<T: Value>(q: Seq<T>, x: T) -> T {
    let aqx = horner_spec(q, x).abs_spec();
    if aqx.is_near_zero_spec() {
        cast_or(POLE_WEIGHT, T::one_spec())
    } else {
        T::one_spec().div_spec(aqx)
    }
}

/// The denominator of a solution: its free coefficients and the leading 1.
pub open spec fn monic<T: Value>(params: Seq<T>, p_terms: nat) -> Seq<T> {
    params.skip(p_terms as int).push(T::one_spec())
}

/// By how much a coefficient has changed, relative to its size.
pub open spec fn change<T: Value>(new: T, old: T) -> T {
    let denom = new.abs_spec().max_spec(old.abs_spec());
    if denom.is_near_zero_spec() {
        T::zero_spec()
    } else {
        new.sub_spec(old).abs_spec().div_spec(denom)
    }
}

/// The largest change of the first `n` coefficients.
pub open spec fn max_change<T: Value>(new: Seq<T>, old: Seq<T>, n: nat) -> T
    decreases n,
{
    if n == 0 {
        T::zero_spec()
    } else {
        max_change(new, old, (n - 1) as nat).max_spec(change(new[n - 1], old[n - 1]))
    }
}

/// The solution before the `k`-th one.
pub open spec fn before<T>(steps: Seq<Seq<T>>, k: int) -> Option<Seq<T>> {
    if k == 0 {
        None
    } else {
        Some(steps[k - 1])
    }
}

/// The iteration has settled with the `k`-th solution: it is not the first, and no
/// coefficient has changed by the tolerance or more.
pub open spec fn settled<T: Value>(inp: SkInput<T>, steps: Seq<Seq<T>>, k: int) -> bool {
    k > 0 && max_change(steps[k], steps[k - 1], steps[k].len()).lt_spec(inp.tolerance)
}

/// The next solution of an iteration, after the ones listed, can be `r`.
pub open spec fn next_solution<T: Value, A: LinearAlgebra<T>>(
    alg: A,
    inp: SkInput<T>,
    steps: Seq<Seq<T>>,
    k: int,
    r: Result<Seq<T>, Error>,
) -> bool {
    svd_solution(
        alg,
        inp.matrix(before(steps, k)),
        inp.p_terms + inp.q_free,
        inp.rhs(before(steps, k)),
        r,
    )
}

/// Solutions one after the other, none but the last of which settles.
pub open spec fn sk_run<T: Value, A: LinearAlgebra<T>>(
    alg: A,
    inp: SkInput<T>,
    steps: Seq<Seq<T>>,
) -> bool {
    forall|k: int|
        0 <= k < steps.len() ==> {
            &&& (#[trigger] steps[k]).len() == inp.p_terms + inp.q_free
            &&& next_solution(alg, inp, steps, k, Ok(steps[k]))
            &&& k < steps.len() - 1 ==> !settled(inp, steps, k)
        }
}

/// What a linear fit can give, after the solutions listed: the last one and how many
/// there were, or the error that stopped it. Without any iteration all free coefficients
/// are zero; the denominator is monic all the same.
pub open spec fn sk_outcome<T: Value, A: LinearAlgebra<T>>(
    alg: A,
    inp: SkInput<T>,
    max_iters: nat,
    steps: Seq<Seq<T>>,
    r: Result<(Seq<T>, Seq<T>, nat), Error>,
) -> bool {
    &&& sk_run(alg, inp, steps)
    &&& steps.len() <= max_iters
    &&& match r {
        Ok((p, q, used)) => {
            &&& used == steps.len()
            &&& steps.len() == max_iters || settled(inp, steps, steps.len() - 1)
            &&& steps.len() == 0 ==> p == Seq::new(inp.p_terms, |i: int| T::zero_spec()) && q
                == Seq::new(inp.q_free, |i: int| T::zero_spec()).push(T::one_spec())
            &&& steps.len() > 0 ==> p == steps.last().take(inp.p_terms as int) && q == monic(
                steps.last(),
                inp.p_terms,
            )
        },
        Err(e) => {
            &&& steps.len() < max_iters
            &&& !settled(inp, steps, steps.len() - 1)
            &&& next_solution(alg, inp, steps, steps.len() as int, Err(e))
        },
    }
}

/// What a linear fit can give.
pub open spec fn sk_fit<T: Value, A: LinearAlgebra<T>>(
    alg: A,
    inp: SkInput<T>,
    max_iters: nat,
    r: Result<(Seq<T>, Seq<T>, nat), Error>,
) -> bool {
    exists|steps: Seq<Seq<T>>| #[trigger] sk_outcome(alg, inp, max_iters, steps, r)
}

/// A fit over sequences: numerator, denominator, iterations.
pub open spec fn fit_view<T: Value>(r: Result<(RationalPolynomial<T>, usize), Error>) -> Result<
    (Seq<T>, Seq<T>, nat),
    Error,
> {
    match r {
        Ok((f, n)) => Ok((f.p(), f.q(), n as nat)),
        Err(e) => Err(e),
    }
}

/// The weight of a data point.
pub fn error_weight_of<T: Value>(weighting: ErrorWeighting, y: T) -> (r: T)
    ensures
        r == error_weight(weighting, y),
{
    match weighting {
        ErrorWeighting::Absolute => T::one(),
        ErrorWeighting::Relative => {
            let ay = y.abs();
            if ay.is_near_zero() {
                T::one()
            } else {
                T::one().div(ay)
            }
        },
    }
}

fn weight_at<T: Value>(q: &[T], x: T) -> (r: T)
    requires
        q.len() > 0,
    ensures
        r == sk_weight(q@, x),
{
    let aqx = horner(q, x).abs();
    if aqx.is_near_zero() {
        try_cast_or(POLE_WEIGHT, T::one())
    } else {
        T::one().div(aqx)
    }
}

fn change_between<T: Value>(new: T, old: T) -> (r: T)
    ensures
        r == change(new, old),
{
    let denom = new.abs().max(old.abs());
    if denom.is_near_zero() {
        T::zero()
    } else {
        new.sub(old).abs().div(denom)
    }
}

fn largest_change<T: Value>(new: &Vec<T>, old: &Vec<T>) -> (r: T)
    requires
        new@.len() == old@.len(),
    ensures
        r == max_change(new@, old@, new@.len()),
{
    let mut r = T::zero();
    let mut i: usize = 0;
    while i < new.len()
        invariant
            new@.len() == old@.len(),
            i <= new.len(),
            r == max_change(new@, old@, i as nat),
        decreases new.len() - i,
    {
        r = r.max(change_between(new[i], old[i]));
        i = i + 1;
    }
    r
}

fn first_coordinates<T: Value>(data: &[(T, T)]) -> (r: Vec<T>)
    ensures
        r@ == Seq::new(data@.len(), |i: int| data@[i].0),
{
    let mut r: Vec<T> = Vec::new();
    let mut i: usize = 0;
    while i < data.len()
        invariant
            i <= data.len(),
            r@ == Seq::new(i as nat, |k: int| data@[k].0),
        decreases data.len() - i,
    {
        r.push(data[i].0);
        i = i + 1;
        assert(r@ =~= Seq::new(i as nat, |k: int| data@[k].0));
    }
    r
}

fn constraint_coordinates<T: Value>(constraints: &[Constraint<T>]) -> (r: Vec<T>)
    ensures
        r@ == Seq::new(constraints@.len(), |i: int| constraints@[i].x),
{
    let mut r: Vec<T> = Vec::new();
    let mut i: usize = 0;
    while i < constraints.len()
        invariant
            i <= constraints.len(),
            r@ == Seq::new(i as nat, |k: int| constraints@[k].x),
        decreases constraints.len() - i,
    {
        r.push(constraints[i].x);
        i = i + 1;
        assert(r@ =~= Seq::new(i as nat, |k: int| constraints@[k].x));
    }
    r
}

fn error_weights<T: Value>(data: &[(T, T)], weighting: ErrorWeighting) -> (r: Vec<T>)
    ensures
        r@ == Seq::new(data@.len(), |i: int| error_weight(weighting, data@[i].1)),
{
    let mut r: Vec<T> = Vec::new();
    let mut i: usize = 0;
    while i < data.len()
        invariant
            i <= data.len(),
            r@ == Seq::new(i as nat, |k: int| error_weight(weighting, data@[k].1)),
        decreases data.len() - i,
    {
        r.push(error_weight_of(weighting, data[i].1));
        i = i + 1;
        assert(r@ =~= Seq::new(i as nat, |k: int| error_weight(weighting, data@[k].1)));
    }
    r
}

fn weights_from<T: Value>(data: &[(T, T)], q: &[T]) -> (r: Vec<T>)
    requires
        q.len() > 0,
    ensures
        r@ == Seq::new(data@.len(), |i: int| sk_weight(q@, data@[i].0)),
{
    let mut r: Vec<T> = Vec::new();
    let mut i: usize = 0;
    while i < data.len()
        invariant
            q.len() > 0,
            i <= data.len(),
            r@ == Seq::new(i as nat, |k: int| sk_weight(q@, data@[k].0)),
        decreases data.len() - i,
    {
        r.push(weight_at(q, data[i].0));
        i = i + 1;
        assert(r@ =~= Seq::new(i as nat, |k: int| sk_weight(q@, data@[k].0)));
    }
    r
}

/// Fit P(x)/Q(x) using iteratively reweighted least squares.
///
/// With Q monic, `P(x) - y*Q(x) = 0` is a linear system in the free parameters
/// `[p_0, ..., p_m, q_0, ..., q_{n-1}]`. Each iteration reweights by `1/|Q(x)|` from
/// the previous solution.
pub fn fit_sk<T: Value, A: LinearAlgebra<T>>(
    alg: &A,
    data: &[(T, T)],
    p_terms: usize,
    q_terms: usize,
    max_iters: usize,
    tolerance: T,
    constraints: &[Constraint<T>],
    weighting: ErrorWeighting,
) -> (r: Result<(RationalPolynomial<T>, usize), Error>)
    requires
        data@.len() > 0,
        p_terms > 0,
        q_terms > 0,
        p_terms + q_terms - 1 <= usize::MAX,
    ensures
        sk_fit(
            *alg,
            SkInput {
                data: data@,
                constraints: constraints@,
                weighting,
                p_terms: p_terms as nat,
                q_free: (q_terms - 1) as nat,
                tolerance,
            },
            max_iters as nat,
            fit_view(r),
        ),
        r matches Ok((f, _)) ==> f.p().len() == p_terms && f.q().len() == q_terms,
{
    let q_free: usize = q_terms - 1;
    let ghost inp = SkInput {
        data: data@,
        constraints: constraints@,
        weighting,
        p_terms: p_terms as nat,
        q_free: q_free as nat,
        tolerance,
    };
    let max_power: usize = if p_terms > q_terms {
        p_terms
    } else {
        q_terms
    };
    let data_x = first_coordinates(data);
    let x_powers = precompute_powers(data_x.as_slice(), max_power);
    let constraint_x = constraint_coordinates(constraints);
    let c_powers = precompute_powers(constraint_x.as_slice(), max_power);
    let err_w = error_weights(data, weighting);
    proof {
        assert(rows_of(x_powers@) =~= inp.x_powers());
        assert(rows_of(c_powers@) =~= inp.c_powers());
        assert(err_w@ =~= inp.err_w());
    }

    let mut sk_w = filled(data.len(), T::one());
    let mut prev_params: Vec<T> = filled(p_terms + q_free, T::zero());
    let mut final_p = filled(p_terms, T::zero());
    let mut final_q = filled(q_free, T::zero());
    final_q.push(T::one());
    let ghost mut steps: Seq<Seq<T>> = Seq::empty();
    let mut iter: usize = 0;
    let mut converged = false;
    assert(sk_w@ =~= inp.sk_w(before(steps, 0)));
    while iter < max_iters && !converged
        invariant
            data@.len() > 0,
            p_terms > 0,
            q_terms == q_free + 1,
            p_terms + q_free <= usize::MAX,
            inp == (SkInput {
                data: data@,
                constraints: constraints@,
                weighting,
                p_terms: p_terms as nat,
                q_free: q_free as nat,
                tolerance,
            }),
            max_power == inp.power_count(),
            x_powers@.len() == data@.len(),
            c_powers@.len() == constraints@.len(),
            rows_of(x_powers@) == inp.x_powers(),
            rows_of(c_powers@) == inp.c_powers(),
            forall|i: int| 0 <= i < x_powers@.len() ==> (#[trigger] x_powers@[i])@.len() == max_power,
            forall|i: int| 0 <= i < c_powers@.len() ==> (#[trigger] c_powers@[i])@.len() == max_power,
            err_w@ == inp.err_w(),
            iter <= max_iters,
            steps.len() == iter,
            sk_w@ == inp.sk_w(before(steps, steps.len() as int)),
            prev_params@.len() == p_terms + q_free,
            steps.len() > 0 ==> prev_params@ == steps.last(),
            final_p@.len() == p_terms,
            final_q@.len() == q_terms,
            sk_run(*alg, inp, steps),
            converged == settled(inp, steps, steps.len() - 1),
            steps.len() == 0 ==> final_p@ == Seq::new(inp.p_terms, |i: int| T::zero_spec())
                && final_q@ == Seq::new(inp.q_free, |i: int| T::zero_spec()).push(T::one_spec()),
            steps.len() > 0 ==> final_p@ == steps.last().take(p_terms as int) && final_q@ == monic(
                steps.last(),
                inp.p_terms,
            ),
        decreases max_iters - iter,
    {
        let (mat, rhs) = build_sk_system(
            data,
            &x_powers,
            &c_powers,
            constraints,
            &sk_w,
            &err_w,
            p_terms,
            q_free,
        );
        let solved = solve_svd(alg, &mat, &rhs);
        assert(next_solution(*alg, inp, steps, steps.len() as int, seq_of(solved)));
        let params = match solved {
            Err(e) => {
                assert(sk_outcome(
                    *alg,
                    inp,
                    max_iters as nat,
                    steps,
                    Err::<(Seq<T>, Seq<T>, nat), Error>(e),
                ));
                return Err(e);
            },
            Ok(v) => v,
        };
        let p_part = slice_subrange(params.as_slice(), 0, p_terms);
        let p = copied(p_part);
        let q_part = slice_subrange(params.as_slice(), p_terms, params.len());
        let mut q = copied(q_part);
        q.push(T::one());
        let ghost earlier = steps;
        proof {
            steps = steps.push(params@);
            assert(p@ =~= params@.take(p_terms as int));
            assert(q@ =~= monic(params@, inp.p_terms));
        }
        sk_w = weights_from(data, q.as_slice());
        assert(sk_w@ =~= inp.sk_w(before(steps, steps.len() as int)));
        let max_change_now = largest_change(&params, &prev_params);
        converged = iter > 0 && max_change_now.lt(tolerance);
        prev_params = params;
        final_p = p;
        final_q = q;
        iter = iter + 1;
        proof {
            assert forall|k: int| 0 <= k < steps.len() implies {
                &&& (#[trigger] steps[k]).len() == inp.p_terms + inp.q_free
                &&& next_solution(*alg, inp, steps, k, Ok(steps[k]))
                &&& k < steps.len() - 1 ==> !settled(inp, steps, k)
            } by {
                assert(before(steps, k) == before(earlier, k));
                if k < earlier.len() {
                    assert(steps[k] == earlier[k]);
                    assert(settled(inp, steps, k) == settled(inp, earlier, k));
                }
            }
        }
    }
    proof {
        assert(sk_outcome(
            *alg,
            inp,
            max_iters as nat,
            steps,
            Ok::<(Seq<T>, Seq<T>, nat), Error>((final_p@, final_q@, iter as nat)),
        ));
    }
    Ok((RationalPolynomial::new(final_p, final_q), iter))
}

} // verus!
