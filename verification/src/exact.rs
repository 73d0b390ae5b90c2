//! What the computations mean where nothing is rounded.
//!
//! Machine numbers round, and no contract of this crate says otherwise. The laws here
//! say what the formulas amount to over the real numbers.
use crate::eval::fused_spec;
use crate::fit::{lemma_snaps_keep_length, perturbed_coeff, snapped_to_all, PERTURBATION};
use crate::nodes::{chebyshev_node, PI};
use crate::options::{penalty_factor, strength, Constraint, ErrorWeighting};
use crate::polynomial::{horner_spec, rational_spec, snapped, snapped_constant, upper_terms};
use crate::reals::{
    lemma_associate, lemma_commute, lemma_distribute, lemma_distribute_difference, lemma_negate,
    lemma_node, lemma_one, lemma_over_is_times, lemma_perturbation, lemma_square,
    lemma_square_of_product, lemma_square_of_reciprocal, lemma_times_over, lemma_zero, over, times,
};
use crate::residual::{data_residual, Objective};
use crate::sk::{error_weight, monic, power, powers, sk_row, sk_target};
use crate::value::{cast_or, count_or, Value};
use vstd::prelude::*;

verus! {

/// Values stand for real numbers, and arithmetic on them is exact.
#[verifier::opaque]
pub open spec fn exact<T: Value>(v: spec_fn(T) -> real) -> bool {
    &&& v(T::zero_spec()) == 0 as real
    &&& v(T::one_spec()) == 1 as real
    &&& forall|a: T, b: T| v(#[trigger] a.add_spec(b)) == v(a) + v(b)
    &&& forall|a: T, b: T| v(#[trigger] a.sub_spec(b)) == v(a) - v(b)
    &&& forall|a: T, b: T| v(#[trigger] a.mul_spec(b)) == times(v(a), v(b))
    &&& forall|a: T, b: T|
        v(b) != 0 as real ==> v(#[trigger] a.div_spec(b)) == over(v(a), v(b))
    &&& forall|a: T| v(#[trigger] a.neg_spec()) == -v(a)
    &&& forall|a: T, x: T, b: T| v(#[trigger] a.mul_add_spec(x, b)) == times(v(a), v(x)) + v(b)
    &&& forall|a: T|
        v(#[trigger] a.abs_spec()) == if v(a) < 0 as real {
            -v(a)
        } else {
            v(a)
        }
    &&& forall|a: T|
        v(a) >= 0 as real ==> times(v(#[trigger] a.sqrt_spec()), v(a.sqrt_spec())) == v(a)
    &&& forall|a: T| v(a) == 0 as real ==> #[trigger] a.is_near_zero_spec()
    &&& forall|a: T, b: T| #[trigger] a.lt_spec(b) <==> v(a) < v(b)
}

/// `x` to the power `n`.
pub open spec fn real_power(x: real, n: nat) -> real
    decreases n,
{
    if n == 0 {
        1 as real
    } else {
        times(real_power(x, (n - 1) as nat), x)
    }
}

/// `c[0] + c[1]*x + ... + c[n-1]*x^(n-1)`.
pub open spec fn polynomial<T: Value>(v: spec_fn(T) -> real, c: Seq<T>, x: real, n: nat) -> real
    decreases n,
{
    if n == 0 {
        0 as real
    } else {
        polynomial(v, c, x, (n - 1) as nat) + times(v(c[n - 1]), real_power(x, (n - 1) as nat))
    }
}

/// `P(x)`.
pub open spec fn whole<T: Value>(v: spec_fn(T) -> real, c: Seq<T>, x: real) -> real {
    polynomial(v, c, x, c.len())
}

proof fn lemma_split_first<T: Value>(v: spec_fn(T) -> real, c: Seq<T>, x: real, n: nat)
    requires
        0 < n <= c.len(),
    ensures
        polynomial(v, c, x, n) == v(c[0]) + times(
            x,
            polynomial(v, c.drop_first(), x, (n - 1) as nat),
        ),
    decreases n,
{
    let t = c.drop_first();
    if n == 1 {
        assert(polynomial(v, c, x, 0) == 0 as real);
        assert(real_power(x, 0) == 1 as real);
        lemma_one(v(c[0]));
        lemma_zero(x);
    } else {
        lemma_split_first(v, c, x, (n - 1) as nat);
        assert(t[n - 2] == c[n - 1]);
        let a = v(c[n - 1]);
        let s = polynomial(v, t, x, (n - 2) as nat);
        let w = real_power(x, (n - 2) as nat);
        lemma_distribute(x, s, times(a, w));
        lemma_associate(a, w, x);
        lemma_commute(times(a, w), x);
    }
}

/// Horner's method gives the value of the polynomial.
pub proof fn law_horner_is_the_polynomial<T: Value>(v: spec_fn(T) -> real, c: Seq<T>, x: T)
    requires
        exact(v),
        c.len() > 0,
    ensures
        v(horner_spec(c, x)) == whole(v, c, v(x)),
    decreases c.len(),
{
    reveal(exact);
    lemma_split_first(v, c, v(x), c.len());
    let t = c.drop_first();
    if c.len() > 1 {
        law_horner_is_the_polynomial(v, t, x);
        lemma_commute(v(horner_spec(t, x)), v(x));
    } else {
        lemma_zero(v(x));
    }
}

/// The evaluators with fused steps give the value of the polynomial too.
pub proof fn law_fused_horner_is_the_polynomial<T: Value>(
    v: spec_fn(T) -> real,
    c: Seq<T>,
    x: T,
)
    requires
        exact(v),
    ensures
        v(fused_spec(x, c)) == whole(v, c, v(x)),
    decreases c.len(),
{
    reveal(exact);
    if c.len() > 0 {
        lemma_split_first(v, c, v(x), c.len());
        let t = c.drop_first();
        law_fused_horner_is_the_polynomial(v, t, x);
        lemma_commute(v(fused_spec(x, t)), v(x));
        lemma_zero(v(x));
    }
}

/// After a snap the quotient passes through the point, wherever the denominator is not
/// zero there.
pub proof fn law_snap_hits_the_point<T: Value>(
    v: spec_fn(T) -> real,
    p: Seq<T>,
    q: Seq<T>,
    x: T,
    y: T,
)
    requires
        exact(v),
        p.len() > 0,
        q.len() > 0,
        v(horner_spec(q, x)) != 0 as real,
    ensures
        v(rational_spec(snapped(p, q, x, y), q, x)) == v(y),
{
    reveal(exact);
    let s = snapped(p, q, x, y);
    let t = p.drop_first();
    assert(s.drop_first() =~= t);
    law_horner_is_the_polynomial(v, s, x);
    lemma_split_first(v, s, v(x), s.len());
    let d = v(horner_spec(q, x));
    if p.len() > 1 {
        law_horner_is_the_polynomial(v, t, x);
        assert(v(upper_terms(p, x)) == times(v(x), v(horner_spec(t, x))));
    } else {
        lemma_zero(v(x));
    }
    assert(v(horner_spec(s, x)) == times(v(y), d));
    lemma_times_over(v(y), d);
}

/// A fit that is snapped to its constraints meets the last of them, and so its only one
/// if there is but one. With several, the last snap can undo the ones before it.
pub proof fn law_last_constraint_is_met<T: Value>(
    v: spec_fn(T) -> real,
    p: Seq<T>,
    q: Seq<T>,
    cs: Seq<Constraint<T>>,
)
    requires
        exact(v),
        p.len() > 0,
        q.len() > 0,
        cs.len() > 0,
        v(horner_spec(q, cs.last().x)) != 0 as real,
    ensures
        v(rational_spec(snapped_to_all(p, q, cs), q, cs.last().x)) == v(cs.last().y),
{
    lemma_snaps_keep_length(p, q, cs.drop_last());
    law_snap_hits_the_point(
        v,
        snapped_to_all(p, q, cs.drop_last()),
        q,
        cs.last().x,
        cs.last().y,
    );
}

/// Snaps change the constant term and no other.
pub proof fn lemma_snaps_keep_the_upper_terms<T: Value>(
    p: Seq<T>,
    q: Seq<T>,
    cs: Seq<Constraint<T>>,
)
    requires
        p.len() > 0,
    ensures
        snapped_to_all(p, q, cs).len() == p.len(),
        snapped_to_all(p, q, cs).drop_first() == p.drop_first(),
    decreases cs.len(),
{
    if cs.len() > 0 {
        let before = snapped_to_all(p, q, cs.drop_last());
        lemma_snaps_keep_the_upper_terms(p, q, cs.drop_last());
        assert(snapped_to_all(p, q, cs).drop_first() =~= before.drop_first());
    }
}

/// A fit that is snapped to its constraints meets each of them that asks for the constant
/// term that the last one asks for, and so all of them where one constant term fits all.
pub proof fn law_constraints_that_agree_are_met<T: Value>(
    v: spec_fn(T) -> real,
    p: Seq<T>,
    q: Seq<T>,
    cs: Seq<Constraint<T>>,
    i: int,
)
    requires
        exact(v),
        p.len() > 0,
        q.len() > 0,
        0 <= i < cs.len(),
        v(horner_spec(q, cs[i].x)) != 0 as real,
        v(snapped_constant(p, q, cs[i].x, cs[i].y)) == v(
            snapped_constant(p, q, cs.last().x, cs.last().y),
        ),
    ensures
        v(rational_spec(snapped_to_all(p, q, cs), q, cs[i].x)) == v(cs[i].y),
{
    let x = cs[i].x;
    let s = snapped(p, q, x, cs[i].y);
    let t = snapped_to_all(p, q, cs);
    let before = snapped_to_all(p, q, cs.drop_last());
    lemma_snaps_keep_the_upper_terms(p, q, cs.drop_last());
    lemma_snaps_keep_the_upper_terms(p, q, cs);
    assert(upper_terms(before, cs.last().x) == upper_terms(p, cs.last().x));
    assert(v(t[0]) == v(s[0]));
    assert(s.drop_first() =~= p.drop_first());
    law_horner_is_the_polynomial(v, s, x);
    law_horner_is_the_polynomial(v, t, x);
    lemma_split_first(v, s, v(x), s.len());
    lemma_split_first(v, t, v(x), t.len());
    law_snap_hits_the_point(v, p, q, x, cs[i].y);
    reveal(exact);
}

/// A power of a value is the power of what it stands for.
pub proof fn lemma_power<T: Value>(v: spec_fn(T) -> real, x: T, n: nat)
    requires
        exact(v),
    ensures
        v(power(x, n)) == real_power(v(x), n),
    decreases n,
{
    reveal(exact);
    if n > 0 {
        lemma_power(v, x, (n - 1) as nat);
    }
}

/// The product of the first `n` entries of two vectors.
pub open spec fn product<T: Value>(v: spec_fn(T) -> real, a: Seq<T>, b: Seq<T>, n: nat) -> real
    decreases n,
{
    if n == 0 {
        0 as real
    } else {
        product(v, a, b, (n - 1) as nat) + times(v(a[n - 1]), v(b[n - 1]))
    }
}

proof fn lemma_row_over_p<T: Value>(
    v: spec_fn(T) -> real,
    w: T,
    y: T,
    x: T,
    params: Seq<T>,
    p_terms: nat,
    q_free: nat,
    count: nat,
    n: nat,
)
    requires
        exact(v),
        params.len() == p_terms + q_free,
        p_terms <= count,
        q_free < count,
        n <= p_terms,
    ensures
        product(v, sk_row(w, y, powers(x, count), p_terms, q_free), params, n) == times(
            v(w),
            polynomial(v, params.take(p_terms as int), v(x), n),
        ),
    decreases n,
{
    let row = sk_row(w, y, powers(x, count), p_terms, q_free);
    let num = params.take(p_terms as int);
    let wr = v(w);
    if n == 0 {
        lemma_zero(wr);
    } else {
        reveal(exact);
        let k = (n - 1) as nat;
        lemma_row_over_p(v, w, y, x, params, p_terms, q_free, count, k);
        lemma_power(v, x, k);
        let s = polynomial(v, num, v(x), k);
        let a = v(num[k as int]);
        let xk = real_power(v(x), k);
        assert(v(row[k as int]) == times(wr, xk));
        lemma_distribute(wr, s, times(a, xk));
        lemma_associate(wr, xk, a);
        lemma_commute(xk, a);
    }
}

proof fn lemma_row_over_q<T: Value>(
    v: spec_fn(T) -> real,
    w: T,
    y: T,
    x: T,
    params: Seq<T>,
    p_terms: nat,
    q_free: nat,
    count: nat,
    n: nat,
)
    requires
        exact(v),
        params.len() == p_terms + q_free,
        p_terms <= count,
        q_free < count,
        n <= q_free,
    ensures
        product(v, sk_row(w, y, powers(x, count), p_terms, q_free), params, p_terms + n) == times(
            v(w),
            whole(v, params.take(p_terms as int), v(x)),
        ) - times(times(v(w), v(y)), polynomial(v, monic(params, p_terms), v(x), n)),
    decreases n,
{
    let row = sk_row(w, y, powers(x, count), p_terms, q_free);
    let den = monic(params, p_terms);
    let wr = v(w);
    let yr = v(y);
    let wy = times(wr, yr);
    if n == 0 {
        lemma_row_over_p(v, w, y, x, params, p_terms, q_free, count, p_terms);
        lemma_zero(wy);
    } else {
        reveal(exact);
        let k = (n - 1) as nat;
        lemma_row_over_q(v, w, y, x, params, p_terms, q_free, count, k);
        lemma_power(v, x, k);
        let at = (p_terms + k) as int;
        let s = polynomial(v, den, v(x), k);
        let a = v(den[k as int]);
        let xk = real_power(v(x), k);
        assert(den[k as int] == params[at]);
        assert(v(row[at]) == times(times(-wr, yr), xk));
        lemma_negate(wr, yr);
        lemma_negate(wy, xk);
        lemma_negate(times(wy, xk), a);
        lemma_distribute(wy, s, times(a, xk));
        lemma_associate(wy, xk, a);
        lemma_commute(xk, a);
    }
}

/// The linear system asks for `P(x) = y*Q(x)`: how far a row misses its right hand side
/// is `P(x) - y*Q(x)`, times the weight of the row.
pub proof fn law_linear_system_is_the_linearized_fit<T: Value>(
    v: spec_fn(T) -> real,
    w: T,
    y: T,
    x: T,
    params: Seq<T>,
    p_terms: nat,
    q_free: nat,
    count: nat,
)
    requires
        exact(v),
        params.len() == p_terms + q_free,
        p_terms <= count,
        q_free < count,
    ensures
        product(v, sk_row(w, y, powers(x, count), p_terms, q_free), params, p_terms + q_free) - v(
            sk_target(w, y, powers(x, count), q_free),
        ) == times(
            v(w),
            whole(v, params.take(p_terms as int), v(x)) - times(
                v(y),
                whole(v, monic(params, p_terms), v(x)),
            ),
        ),
{
    reveal(exact);
    lemma_row_over_q(v, w, y, x, params, p_terms, q_free, count, q_free);
    lemma_power(v, x, q_free);
    let den = monic(params, p_terms);
    let wr = v(w);
    let yr = v(y);
    let top = whole(v, params.take(p_terms as int), v(x));
    let bottom = whole(v, den, v(x));
    let s = polynomial(v, den, v(x), q_free);
    let xk = real_power(v(x), q_free);
    assert(den[q_free as int] == T::one_spec());
    lemma_one(xk);
    assert(bottom == s + xk);
    lemma_distribute(times(wr, yr), s, xk);
    lemma_associate(wr, yr, bottom);
    lemma_distribute_difference(wr, top, times(yr, bottom));
}

/// The place of the `i`-th residual.
pub open spec fn place<T: Value>(obj: Objective<T>, i: int) -> T {
    if i < obj.data.len() {
        obj.data[i].0
    } else {
        obj.constraints[i - obj.data.len()].x
    }
}

/// The value that the fit should have at the place of the `i`-th residual.
pub open spec fn target<T: Value>(obj: Objective<T>, i: int) -> T {
    if i < obj.data.len() {
        obj.data[i].1
    } else {
        obj.constraints[i - obj.data.len()].y
    }
}

/// What the error is multiplied with in the `i`-th residual.
pub open spec fn factor<T: Value>(obj: Objective<T>, i: int) -> T {
    if i < obj.data.len() {
        error_weight(obj.weighting, obj.data[i].1)
    } else {
        penalty_factor(obj.constraints[i - obj.data.len()])
    }
}

/// The error of the fit at the place of the `i`-th residual.
pub open spec fn error<T: Value>(
    v: spec_fn(T) -> real,
    obj: Objective<T>,
    params: Seq<T>,
    i: int,
) -> real {
    v(obj.pred(params, place(obj, i))) - v(target(obj, i))
}

proof fn lemma_data_residual<T: Value>(
    v: spec_fn(T) -> real,
    weighting: ErrorWeighting,
    pred: T,
    y: T,
)
    requires
        exact(v),
    ensures
        v(data_residual(weighting, pred, y)) == times(
            v(error_weight(weighting, y)),
            v(pred) - v(y),
        ),
{
    reveal(exact);
    let e = v(pred) - v(y);
    lemma_one(e);
    let a = v(y.abs_spec());
    if a != 0 as real {
        lemma_over_is_times(e, a);
        lemma_commute(e, over(1 as real, a));
    }
}

/// A residual is an error times a factor.
pub proof fn lemma_residual<T: Value>(
    v: spec_fn(T) -> real,
    obj: Objective<T>,
    params: Seq<T>,
    i: int,
)
    requires
        exact(v),
    ensures
        v(obj.residual(params, i)) == times(v(factor(obj, i)), error(v, obj, params, i)),
{
    let pred = obj.pred(params, place(obj, i));
    let y = target(obj, i);
    if i < obj.data.len() {
        lemma_data_residual(v, obj.weighting, pred, y);
    } else {
        reveal(exact);
    }
}

/// What the `i`-th point adds to the objective: the squared error, over `y^2` where
/// relative errors count, times the size of the weight at a constraint.
pub open spec fn penalty<T: Value>(
    v: spec_fn(T) -> real,
    obj: Objective<T>,
    params: Seq<T>,
    i: int,
) -> real {
    let e = error(v, obj, params, i);
    if i < obj.data.len() {
        let y = obj.data[i].1;
        if obj.weighting == ErrorWeighting::Absolute || y.abs_spec().is_near_zero_spec() {
            times(e, e)
        } else {
            over(times(e, e), times(v(y), v(y)))
        }
    } else {
        let w = v(obj.constraints[i - obj.data.len()].weight);
        times(
            if w < 0 as real {
                -w
            } else {
                w
            },
            times(e, e),
        )
    }
}

/// What the first `n` points add to the objective.
pub open spec fn penalties<T: Value>(
    v: spec_fn(T) -> real,
    obj: Objective<T>,
    params: Seq<T>,
    n: nat,
) -> real
    decreases n,
{
    if n == 0 {
        0 as real
    } else {
        penalties(v, obj, params, (n - 1) as nat) + penalty(v, obj, params, n - 1)
    }
}

proof fn lemma_square_of_residual<T: Value>(
    v: spec_fn(T) -> real,
    obj: Objective<T>,
    params: Seq<T>,
    i: int,
)
    requires
        exact(v),
        0 <= i < obj.count(),
    ensures
        times(v(obj.residual(params, i)), v(obj.residual(params, i))) == penalty(
            v,
            obj,
            params,
            i,
        ),
{
    reveal(exact);
    lemma_residual(v, obj, params, i);
    let e = error(v, obj, params, i);
    let f = v(factor(obj, i));
    lemma_square_of_product(f, e);
    lemma_one(1 as real);
    lemma_one(times(e, e));
    if i < obj.data.len() {
        let y = obj.data[i].1;
        let a = v(y.abs_spec());
        lemma_square(v(y));
        if a != 0 as real {
            lemma_square_of_reciprocal(a, times(e, e));
        }
    }
}

proof fn lemma_penalty<T: Value>(
    v: spec_fn(T) -> real,
    obj: Objective<T>,
    params: Seq<T>,
    i: int,
)
    requires
        exact(v),
        0 <= i < obj.count(),
    ensures
        v(obj.term(params, i)) == penalty(v, obj, params, i),
{
    reveal(exact);
    if i < obj.data.len() {
        lemma_square_of_residual(v, obj, params, i);
    }
}

proof fn lemma_penalties<T: Value>(
    v: spec_fn(T) -> real,
    obj: Objective<T>,
    params: Seq<T>,
    n: nat,
)
    requires
        exact(v),
        n <= obj.count(),
    ensures
        v(obj.cost_upto(params, n)) == penalties(v, obj, params, n),
    decreases n,
{
    reveal(exact);
    if n > 0 {
        lemma_penalties(v, obj, params, (n - 1) as nat);
        lemma_penalty(v, obj, params, n - 1);
    }
}

/// The cost is the objective: the squared errors at the data, each over `y^2` where
/// relative errors count, and the squared errors at the constraints, each times the size
/// of its weight.
pub proof fn law_cost_is_the_objective<T: Value>(
    v: spec_fn(T) -> real,
    obj: Objective<T>,
    params: Seq<T>,
)
    requires
        exact(v),
    ensures
        v(obj.cost(params)) == penalties(v, obj, params, obj.count()),
{
    lemma_penalties(v, obj, params, obj.count());
}

/// The residuals are those of the cost: the square of each is what its point adds to the
/// cost.
pub proof fn law_residuals_square_to_the_cost<T: Value>(
    v: spec_fn(T) -> real,
    obj: Objective<T>,
    params: Seq<T>,
    i: int,
)
    requires
        exact(v),
        0 <= i < obj.count(),
    ensures
        times(v(obj.residual(params, i)), v(obj.residual(params, i))) == v(obj.term(params, i)),
{
    lemma_square_of_residual(v, obj, params, i);
    lemma_penalty(v, obj, params, i);
}

/// The sign of a weight does not matter: opposite weights count alike, and neither counts
/// less than nothing.
pub proof fn law_sign_of_a_weight_does_not_matter<T: Value>(
    v: spec_fn(T) -> real,
    a: Constraint<T>,
    b: Constraint<T>,
)
    requires
        exact(v),
        v(a.weight) == -v(b.weight),
    ensures
        v(strength(a)) == v(strength(b)),
        v(strength(a)) >= 0 as real,
        times(v(penalty_factor(a)), v(penalty_factor(a))) == times(
            v(penalty_factor(b)),
            v(penalty_factor(b)),
        ),
{
    reveal(exact);
}

/// Chebyshev nodes lie in the domain.
pub proof fn law_nodes_lie_in_the_domain<T: Value>(
    v: spec_fn(T) -> real,
    k: int,
    n: usize,
    a: T,
    b: T,
)
    requires
        exact(v),
        v(T::half_spec()) + v(T::half_spec()) == 1 as real,
        forall|t: T| -(1 as real) <= v(#[trigger] t.cos_spec()) && v(t.cos_spec()) <= 1 as real,
        v(a) <= v(b),
    ensures
        v(a) <= v(chebyshev_node(k, n, a, b)) <= v(b),
{
    reveal(exact);
    let theta = cast_or(PI, T::zero_spec()).mul_spec(
        count_or((2 * k + 1) as usize, T::zero_spec()),
    ).div_spec(count_or((2 * n) as usize, T::one_spec()));
    lemma_node(v(a), v(b), v(T::half_spec()), v(theta.cos_spec()));
}

/// A restart sets out near the linear fit: it moves no coefficient by more than the size
/// of a perturbation, relative to the coefficient.
pub proof fn law_perturbation_is_small<T: Value>(
    v: spec_fn(T) -> real,
    c: T,
    restart: usize,
    degree: usize,
    restart_phase: u64,
    degree_phase: u64,
)
    requires
        exact(v),
        v(cast_or(PERTURBATION, T::zero_spec())) >= 0 as real,
        forall|t: T| -(1 as real) <= v(#[trigger] t.sin_spec()) && v(t.sin_spec()) <= 1 as real,
    ensures
        v(
            perturbed_coeff(c, restart, degree, restart_phase, degree_phase).sub_spec(c).abs_spec(),
        ) <= times(v(cast_or(PERTURBATION, T::zero_spec())), v(c.abs_spec())),
{
    reveal(exact);
    let size = cast_or(PERTURBATION, T::zero_spec());
    let phase = count_or(restart, T::one_spec()).mul_spec(
        cast_or(restart_phase, T::one_spec()),
    ).add_spec(
        count_or(degree, T::zero_spec()).mul_spec(cast_or(degree_phase, T::one_spec())),
    );
    lemma_perturbation(v(c), v(size), v(phase.sin_spec()), v(c.abs_spec()));
}

} // verus!
