//! What the two phases of a fit solve, step by step.
use crate::algebra::{
    accepted, conformed, conformed_vec, decomposed, dot_of, gram_of, larger, seq_of, solved_with,
    svd_eps, svd_iterations, svd_solution, transpose_mul_of, LinearAlgebra, Matrix,
};
use crate::error::Error;
use crate::exact::{
    exact, law_horner_is_the_polynomial, law_linear_system_is_the_linearized_fit, product,
};
use crate::lm::{
    abs_max, damped, decided, diagonal, initial_lambda, lm_refined, lm_run, lm_start, lm_step,
    lm_step_from, lm_tolerance, model_slope, negated, step_taken, vector_sum, LmPoint,
};
use crate::options::{penalty_factor, Constraint, ErrorWeighting};
use crate::polynomial::{horner_spec, RationalPolynomial};
use crate::reals::{lemma_over_times, lemma_square_of_product, times};
use crate::report_laws::ordered;
use crate::residual::Objective;
use crate::sk::{
    before, change, error_weight, fit_view, max_change, monic, power, powers, settled, sk_fit,
    sk_outcome, sk_row, sk_run, sk_target, sk_weight, SkInput,
};
use crate::value::{cast_or, count_or, Value};
use vstd::prelude::*;

verus! {

/// Powers are multiplied up from 1, one factor at a time.
pub proof fn law_powers_are_multiplied_up<T: Value>(x: T, n: nat)
    ensures
        power(x, 0) == T::one_spec(),
        power(x, n + 1) == power(x, n).mul_spec(x),
{
}

/// The weight of a relative error undoes the size of the value: weight times `|y|` is 1, and
/// an absolute error weighs 1, as does one against a value as good as zero.
pub proof fn law_error_weight_undoes_the_size<T: Value>(v: spec_fn(T) -> real, y: T)
    requires
        exact(v),
        v(y) != 0 as real,
    ensures
        v(error_weight(ErrorWeighting::Absolute, y)) == 1 as real,
        y.abs_spec().is_near_zero_spec() ==> v(error_weight(ErrorWeighting::Relative, y))
            == 1 as real,
        !y.abs_spec().is_near_zero_spec() ==> times(
            v(error_weight(ErrorWeighting::Relative, y)),
            if v(y) < 0 as real {
                -v(y)
            } else {
                v(y)
            },
        ) == 1 as real,
{
    reveal(exact);
    lemma_over_times(1 as real, v(y.abs_spec()));
}

/// The weight of an iteration undoes the denominator before: weight times `|Q(x)|` is 1
/// wherever `Q(x)` is not as good as zero.
pub proof fn law_iteration_weight_undoes_the_denominator<T: Value>(
    v: spec_fn(T) -> real,
    q: Seq<T>,
    x: T,
)
    requires
        exact(v),
        !horner_spec(q, x).abs_spec().is_near_zero_spec(),
    ensures
        times(
            v(sk_weight(q, x)),
            if v(horner_spec(q, x)) < 0 as real {
                -v(horner_spec(q, x))
            } else {
                v(horner_spec(q, x))
            },
        ) == 1 as real,
{
    reveal(exact);
    lemma_over_times(1 as real, v(horner_spec(q, x).abs_spec()));
}

proof fn lemma_linear_row<T: Value>(
    v: spec_fn(T) -> real,
    inp: SkInput<T>,
    w: T,
    y: T,
    x: T,
    params: Seq<T>,
)
    requires
        exact(v),
        inp.p_terms > 0,
        params.len() == inp.p_terms + inp.q_free,
    ensures
        product(
            v,
            sk_row(w, y, powers(x, inp.power_count()), inp.p_terms, inp.q_free),
            params,
            params.len(),
        ) - v(sk_target(w, y, powers(x, inp.power_count()), inp.q_free)) == times(
            v(w),
            v(horner_spec(params.take(inp.p_terms as int), x)) - times(
                v(y),
                v(horner_spec(params.skip(inp.p_terms as int).push(T::one_spec()), x)),
            ),
        ),
{
    law_linear_system_is_the_linearized_fit(
        v,
        w,
        y,
        x,
        params,
        inp.p_terms,
        inp.q_free,
        inp.power_count(),
    );
    law_horner_is_the_polynomial(v, params.take(inp.p_terms as int), x);
    law_horner_is_the_polynomial(v, monic(params, inp.p_terms), x);
}

/// The equation of a data point in the linear fit asks for `P(x) = y*Q(x)`: how far
/// parameters miss it is `P(x) - y*Q(x)`, weighted by the error measure, and from the second
/// iteration on by `1/|Q(x)|` with the denominator before.
pub proof fn law_data_equation_is_the_linearized_error<T: Value>(
    v: spec_fn(T) -> real,
    inp: SkInput<T>,
    earlier: Option<Seq<T>>,
    params: Seq<T>,
    i: int,
)
    requires
        exact(v),
        inp.p_terms > 0,
        params.len() == inp.p_terms + inp.q_free,
        0 <= i < inp.data.len(),
    ensures
        product(v, inp.matrix(earlier)[i], params, params.len()) - v(inp.rhs(earlier)[i]) == times(
            times(
                match earlier {
                    None => 1 as real,
                    Some(e) => v(
                        sk_weight(
                            e.skip(inp.p_terms as int).push(T::one_spec()),
                            inp.data[i].0,
                        ),
                    ),
                },
                v(error_weight(inp.weighting, inp.data[i].1)),
            ),
            v(horner_spec(params.take(inp.p_terms as int), inp.data[i].0)) - times(
                v(inp.data[i].1),
                v(
                    horner_spec(
                        params.skip(inp.p_terms as int).push(T::one_spec()),
                        inp.data[i].0,
                    ),
                ),
            ),
        ),
{
    let w = inp.sk_w(earlier)[i].mul_spec(inp.err_w()[i]);
    lemma_linear_row(v, inp, w, inp.data[i].1, inp.data[i].0, params);
    reveal(exact);
}

/// The equation of a constraint asks for `P(x) = y*Q(x)` too: its factor is the root of the
/// size of the weight, whatever the iteration.
pub proof fn law_constraint_equation_is_the_weighted_error<T: Value>(
    v: spec_fn(T) -> real,
    inp: SkInput<T>,
    earlier: Option<Seq<T>>,
    params: Seq<T>,
    i: int,
)
    requires
        exact(v),
        inp.p_terms > 0,
        params.len() == inp.p_terms + inp.q_free,
        0 <= i < inp.constraints.len(),
    ensures
        inp.matrix(earlier).len() == inp.data.len() + inp.constraints.len(),
        inp.rhs(earlier).len() == inp.data.len() + inp.constraints.len(),
        product(v, inp.matrix(earlier)[inp.data.len() + i], params, params.len()) - v(
            inp.rhs(earlier)[inp.data.len() + i],
        ) == times(
            v(penalty_factor(inp.constraints[i])),
            v(horner_spec(params.take(inp.p_terms as int), inp.constraints[i].x)) - times(
                v(inp.constraints[i].y),
                v(
                    horner_spec(
                        params.skip(inp.p_terms as int).push(T::one_spec()),
                        inp.constraints[i].x,
                    ),
                ),
            ),
        ),
        times(v(penalty_factor(inp.constraints[i])), v(penalty_factor(inp.constraints[i]))) == if v(
            inp.constraints[i].weight,
        ) < 0 as real {
            -v(inp.constraints[i].weight)
        } else {
            v(inp.constraints[i].weight)
        },
{
    let c = inp.constraints[i];
    lemma_linear_row(v, inp, penalty_factor(c), c.y, c.x, params);
    reveal(exact);
}

/// The rows of the system in rounded arithmetic: weight times `x^j` for the numerator, minus
/// weight times `y` times `x^j` for the denominator, against weight times `y` times `x^n`.
pub proof fn law_linear_system_is_made_of_powers<T: Value>(
    inp: SkInput<T>,
    earlier: Option<Seq<T>>,
    w: T,
    x: T,
    y: T,
    i: int,
    j: int,
)
    requires
        0 <= i < inp.data.len() + inp.constraints.len(),
        0 <= j,
        i < inp.data.len() ==> (x, y) == inp.data[i] && w == (match earlier {
            None => T::one_spec(),
            Some(e) => sk_weight(e.skip(inp.p_terms as int).push(T::one_spec()), x),
        }).mul_spec(error_weight(inp.weighting, y)),
        i >= inp.data.len() ==> x == inp.constraints[i - inp.data.len()].x && y
            == inp.constraints[i - inp.data.len()].y && w == penalty_factor(
            inp.constraints[i - inp.data.len()],
        ),
    ensures
        inp.matrix(earlier)[i].len() == inp.p_terms + inp.q_free,
        j < inp.p_terms ==> inp.matrix(earlier)[i][j] == w.mul_spec(power(x, j as nat)),
        j < inp.q_free ==> inp.matrix(earlier)[i][inp.p_terms + j] == w.neg_spec().mul_spec(
            y,
        ).mul_spec(power(x, j as nat)),
        inp.rhs(earlier)[i] == w.mul_spec(y).mul_spec(power(x, inp.q_free)),
{
}

proof fn lemma_max_change_bound<T: Value>(new: Seq<T>, old: Seq<T>, n: nat, tolerance: T)
    requires
        ordered::<T>(),
        n <= new.len(),
        n <= old.len(),
        !tolerance.is_nan_spec(),
        forall|j: int| 0 <= j < n ==> !(#[trigger] change(new[j], old[j])).is_nan_spec(),
    ensures
        !max_change(new, old, n).is_nan_spec(),
        max_change(new, old, n).lt_spec(tolerance) <==> T::zero_spec().lt_spec(tolerance)
            && forall|j: int|
            0 <= j < n ==> (#[trigger] change(new[j], old[j])).lt_spec(tolerance),
    decreases n,
{
    if n > 0 {
        let k = (n - 1) as nat;
        lemma_max_change_bound(new, old, k, tolerance);
        let m = max_change(new, old, k);
        let c = change(new[n - 1], old[n - 1]);
        let r = m.max_spec(c);
        assert(r == max_change(new, old, n));
        if r.lt_spec(tolerance) {
            assert(r.lt_spec(m) || m.lt_spec(tolerance));
            assert(r.lt_spec(c) || c.lt_spec(tolerance));
        }
        if m.lt_spec(tolerance) && c.lt_spec(tolerance) {
            assert(r.lt_spec(tolerance));
        }
    }
}

/// The linear fit settles when no coefficient moves any more: at the second solution or
/// later, once each coefficient has changed, relative to the larger of its two sizes, by less
/// than the tolerance. One whose sizes are as good as zero has not changed.
pub proof fn law_settled_means_nothing_moves<T: Value>(
    inp: SkInput<T>,
    steps: Seq<Seq<T>>,
    k: int,
    moved: spec_fn(int) -> T,
)
    requires
        ordered::<T>(),
        0 < k < steps.len(),
        steps[k].len() == steps[k - 1].len(),
        !inp.tolerance.is_nan_spec(),
        forall|j: int|
            0 <= j < steps[k].len() ==> {
                let (new, old) = (steps[k][j], steps[k - 1][j]);
                let size = new.abs_spec().max_spec(old.abs_spec());
                &&& !(#[trigger] moved(j)).is_nan_spec()
                &&& size.is_near_zero_spec() ==> moved(j) == T::zero_spec()
                &&& !size.is_near_zero_spec() ==> moved(j) == new.sub_spec(old).abs_spec().div_spec(
                    size,
                )
            },
    ensures
        settled(inp, steps, k) <==> T::zero_spec().lt_spec(inp.tolerance) && forall|j: int|
            0 <= j < steps[k].len() ==> (#[trigger] moved(j)).lt_spec(inp.tolerance),
        !settled(inp, steps, 0),
{
    let (new, old) = (steps[k], steps[k - 1]);
    assert forall|j: int| 0 <= j < new.len() implies #[trigger] change(new[j], old[j]) == moved(
        j,
    ) by {}
    lemma_max_change_bound(new, old, new.len(), inp.tolerance);
    if settled(inp, steps, k) {
        assert forall|j: int| 0 <= j < new.len() implies (#[trigger] moved(j)).lt_spec(
            inp.tolerance,
        ) by {
            assert(change(new[j], old[j]).lt_spec(inp.tolerance));
        }
    }
}

#[verifier::opaque]
spec fn is_run<T: Value, A: LinearAlgebra<T>>(
    alg: A,
    inp: SkInput<T>,
    steps: Seq<Seq<T>>,
) -> bool {
    sk_run(alg, inp, steps)
}

proof fn lemma_run_of<T: Value, A: LinearAlgebra<T>>(
    alg: A,
    inp: SkInput<T>,
    max_iters: nat,
    p: Seq<T>,
    q: Seq<T>,
    used: nat,
) -> (steps: Seq<Seq<T>>)
    requires
        sk_fit(alg, inp, max_iters, Ok((p, q, used))),
    ensures
        is_run(alg, inp, steps),
        steps.len() == used,
        used <= max_iters,
        used < max_iters ==> settled(inp, steps, used - 1),
        p.len() == inp.p_terms,
        q.len() == inp.q_free + 1,
        q.last() == T::one_spec(),
        forall|j: int|
            0 <= j < inp.p_terms ==> #[trigger] p[j] == if used == 0 {
                T::zero_spec()
            } else {
                steps[used - 1][j]
            },
        forall|j: int|
            0 <= j < inp.q_free ==> #[trigger] q[j] == if used == 0 {
                T::zero_spec()
            } else {
                steps[used - 1][inp.p_terms + j]
            },
{
    reveal(is_run);
    let r = Ok::<(Seq<T>, Seq<T>, nat), Error>((p, q, used));
    let steps = choose|s: Seq<Seq<T>>| #[trigger] sk_outcome(alg, inp, max_iters, s, r);
    if used > 0 {
        assert(steps[used - 1].len() == inp.p_terms + inp.q_free);
    }
    steps
}

proof fn lemma_run_at<T: Value, A: LinearAlgebra<T>>(
    alg: A,
    inp: SkInput<T>,
    steps: Seq<Seq<T>>,
    k: int,
)
    requires
        is_run(alg, inp, steps),
        0 <= k < steps.len(),
    ensures
        steps[k].len() == inp.p_terms + inp.q_free,
        svd_solution(
            alg,
            inp.matrix(before(steps, k)),
            inp.p_terms + inp.q_free,
            inp.rhs(before(steps, k)),
            Ok(steps[k]),
        ),
        k < steps.len() - 1 ==> !settled(inp, steps, k),
{
    reveal(is_run);
    assert(steps[k].len() == inp.p_terms + inp.q_free);
}

/// A linear fit is the last of its solutions. Each solves the system that the one before has
/// weighted, the first one the system without weights. There are as many as are reported,
/// none but the last has settled, and the last has if there are fewer than allowed. Without
/// any, the numerator is zero and the denominator the leading power.
pub proof fn law_linear_fit_is_its_last_solution<T: Value, A: LinearAlgebra<T>>(
    alg: A,
    inp: SkInput<T>,
    max_iters: nat,
    p: Seq<T>,
    q: Seq<T>,
    used: nat,
) -> (steps: Seq<Seq<T>>)
    requires
        sk_fit(alg, inp, max_iters, Ok((p, q, used))),
    ensures
        steps.len() == used,
        used <= max_iters,
        forall|k: int|
            0 <= k < used ==> {
                &&& (#[trigger] steps[k]).len() == inp.p_terms + inp.q_free
                &&& svd_solution(
                    alg,
                    inp.matrix(
                        if k == 0 {
                            None
                        } else {
                            Some(steps[k - 1])
                        },
                    ),
                    inp.p_terms + inp.q_free,
                    inp.rhs(
                        if k == 0 {
                            None
                        } else {
                            Some(steps[k - 1])
                        },
                    ),
                    Ok(steps[k]),
                )
                &&& k < used - 1 ==> !settled(inp, steps, k)
            },
        used < max_iters ==> settled(inp, steps, used - 1),
        p.len() == inp.p_terms,
        q.len() == inp.q_free + 1,
        q.last() == T::one_spec(),
        forall|j: int|
            0 <= j < inp.p_terms ==> #[trigger] p[j] == if used == 0 {
                T::zero_spec()
            } else {
                steps[used - 1][j]
            },
        forall|j: int|
            0 <= j < inp.q_free ==> #[trigger] q[j] == if used == 0 {
                T::zero_spec()
            } else {
                steps[used - 1][inp.p_terms + j]
            },
{
    let steps = lemma_run_of(alg, inp, max_iters, p, q, used);
    assert forall|k: int| 0 <= k < used implies {
        &&& (#[trigger] steps[k]).len() == inp.p_terms + inp.q_free
        &&& svd_solution(
            alg,
            inp.matrix(
                if k == 0 {
                    None
                } else {
                    Some(steps[k - 1])
                },
            ),
            inp.p_terms + inp.q_free,
            inp.rhs(
                if k == 0 {
                    None
                } else {
                    Some(steps[k - 1])
                },
            ),
            Ok(steps[k]),
        )
        &&& k < used - 1 ==> !settled(inp, steps, k)
    } by {
        lemma_run_at(alg, inp, steps, k);
    }
    steps
}

/// A linear fit fails where the linear algebra library has no solution, and says why: the
/// error is the library's answer to the system of some iteration that is allowed.
pub proof fn law_linear_fit_fails_where_the_library_does<T: Value, A: LinearAlgebra<T>>(
    alg: A,
    inp: SkInput<T>,
    max_iters: nat,
    e: Error,
) -> (earlier: Option<Seq<T>>)
    requires
        sk_fit(alg, inp, max_iters, Err(e)),
    ensures
        max_iters > 0,
        svd_solution(
            alg,
            inp.matrix(earlier),
            inp.p_terms + inp.q_free,
            inp.rhs(earlier),
            Err(e),
        ),
{
    let r = Err::<(Seq<T>, Seq<T>, nat), Error>(e);
    let steps = choose|s: Seq<Seq<T>>| #[trigger] sk_outcome(alg, inp, max_iters, s, r);
    before(steps, steps.len() as int)
}

/// A solution is the library's answer and a usable one: the matrix was decomposed with five
/// times the default tolerance, within as many iterations as the square of its larger
/// dimension says, at least 1000 and at most 10000. Singular values up to the machine
/// epsilon, times the larger dimension, times the largest of them, count as zero. Every
/// entry is a number, and there is one for each column.
pub proof fn law_solution_is_the_answer_of_the_library<T: Value, A: LinearAlgebra<T>>(
    alg: A,
    a: Seq<Seq<T>>,
    c: nat,
    b: Seq<T>,
    x: Seq<T>,
) -> (asked: (Matrix<T>, usize, A::Svd, T, T, Vec<T>, Vec<T>))
    requires
        svd_solution(alg, a, c, b, Ok(x)),
    ensures
        ({
            let (m, iters, dec, size, sigma, rhs, out) = asked;
            let d = if a.len() > c {
                a.len()
            } else {
                c
            };
            &&& m@ == a && m.ncols == c
            &&& 1000 <= iters <= 10000
            &&& 1000 <= d * d <= 10000 ==> iters == d * d
            &&& d * d < 1000 ==> iters == 1000
            &&& d * d > 10000 ==> iters == 10000
            &&& call_ensures(
                A::svd,
                (
                    &alg,
                    &m,
                    T::default_epsilon_spec().mul_spec(T::convert_f64_spec(0x4014_0000_0000_0000)),
                    iters,
                ),
                Some(dec),
            )
            &&& T::try_cast_usize_spec(d as usize) == Some(size)
            &&& call_ensures(A::max_singular_value, (&alg, &dec), sigma)
            &&& rhs@ == b
            &&& call_ensures(
                A::solve,
                (&alg, &dec, &rhs, T::epsilon_spec().mul_spec(size).mul_spec(sigma)),
                Ok(out),
            )
            &&& out@ == x
            &&& x.len() == c
            &&& forall|i: int| 0 <= i < x.len() ==> !(#[trigger] x[i]).is_nan_spec()
        }),
{
    let dec = choose|dec: Option<A::Svd>|
        #[trigger] decomposed(alg, a, c, dec) && match dec {
            None => false,
            Some(d) => match T::try_cast_usize_spec(larger(a.len(), c) as usize) {
                None => false,
                Some(size) => exists|sigma: T, y: Result<Seq<T>, &'static str>|
                    {
                        &&& #[trigger] call_ensures(A::max_singular_value, (&alg, &d), sigma)
                        &&& #[trigger] solved_with(
                            alg,
                            d,
                            b,
                            T::epsilon_spec().mul_spec(size).mul_spec(sigma),
                            y,
                        )
                        &&& Ok::<Seq<T>, Error>(x) == accepted(y, c)
                    },
            },
        };
    let d = dec->0;
    let size = T::try_cast_usize_spec(larger(a.len(), c) as usize)->0;
    let (sigma, y) = choose|sigma: T, y: Result<Seq<T>, &'static str>|
        {
            &&& #[trigger] call_ensures(A::max_singular_value, (&alg, &d), sigma)
            &&& #[trigger] solved_with(
                alg,
                d,
                b,
                T::epsilon_spec().mul_spec(size).mul_spec(sigma),
                y,
            )
            &&& Ok::<Seq<T>, Error>(x) == accepted(y, c)
        };
    let (m, iters) = choose|m: Matrix<T>, iters: usize|
        {
            &&& #[trigger] call_ensures(
                A::svd,
                (&alg, &m, svd_eps::<T>(), iters),
                dec,
            )
            &&& m@ == a
            &&& m.ncols == c
            &&& iters == svd_iterations(larger(a.len(), c))
        };
    let eps = T::epsilon_spec().mul_spec(size).mul_spec(sigma);
    let (rhs, out) = choose|rhs: Vec<T>, out: Result<Vec<T>, &'static str>|
        {
            &&& #[trigger] call_ensures(A::solve, (&alg, &d, &rhs, eps), out)
            &&& rhs@ == b
            &&& y == seq_of(out)
        };
    (m, iters, d, size, sigma, rhs, out->Ok_0)
}

/// The products with a matrix are the library's if they have the right shape, and zero if not.
pub proof fn law_products_are_those_of_the_library<T: Value, A: LinearAlgebra<T>>(
    alg: A,
    a: Seq<Seq<T>>,
    c: nat,
    b: Seq<T>,
    g: Seq<Seq<T>>,
    w: Seq<T>,
) -> (asked: (Matrix<T>, Matrix<T>, Matrix<T>, Vec<T>, Vec<T>))
    requires
        gram_of(alg, a, c, g),
        transpose_mul_of(alg, a, c, b, w),
    ensures
        ({
            let (m, out, m2, x, v) = asked;
            &&& m@ == a && m.ncols == c
            &&& call_ensures(A::gram, (&alg, &m), out)
            &&& g.len() == c
            &&& forall|i: int| 0 <= i < c ==> (#[trigger] g[i]).len() == c
            &&& out@.len() == c && (forall|i: int| 0 <= i < c ==> (#[trigger] out@[i]).len() == c)
                ==> g == out@
            &&& out@.len() != c || (exists|i: int|
                0 <= i < c && (#[trigger] out@[i]).len() != c) ==> forall|i: int, j: int|
                0 <= i < c && 0 <= j < c ==> (#[trigger] g[i][j]) == T::zero_spec()
            &&& m2@ == a && m2.ncols == c && x@ == b
            &&& call_ensures(A::transpose_mul, (&alg, &m2, &x), v)
            &&& w.len() == c
            &&& v@.len() == c ==> w == v@
            &&& v@.len() != c ==> forall|i: int| 0 <= i < c ==> #[trigger] w[i] == T::zero_spec()
        }),
{
    let (m, out) = choose|m: Matrix<T>, out: Matrix<T>|
        {
            &&& #[trigger] call_ensures(A::gram, (&alg, &m), out)
            &&& m@ == a
            &&& m.ncols == c
            &&& g == conformed(out@, c, c)
        };
    let (m2, x, v) = choose|m2: Matrix<T>, x: Vec<T>, v: Vec<T>|
        {
            &&& #[trigger] call_ensures(A::transpose_mul, (&alg, &m2, &x), v)
            &&& m2@ == a
            &&& m2.ncols == c
            &&& x@ == b
            &&& w == conformed_vec(v@, c)
        };
    (m, out, m2, x, v)
}

/// One more data point adds the square of its error to the cost, relative to `|y|` where
/// relative errors count and `y` is not as good as zero. Without points the cost is 0.
pub proof fn law_data_point_adds_its_squared_error<T: Value>(
    obj: Objective<T>,
    params: Seq<T>,
    x: T,
    y: T,
)
    requires
        obj.constraints.len() == 0,
    ensures
        ({
            let more = Objective { data: obj.data.push((x, y)), ..obj };
            let e = horner_spec(params.take(obj.p_terms as int), x).div_spec(
                horner_spec(params.skip(obj.p_terms as int).push(T::one_spec()), x),
            ).sub_spec(y);
            let r = if obj.weighting == ErrorWeighting::Relative
                && !y.abs_spec().is_near_zero_spec() {
                e.div_spec(y.abs_spec())
            } else {
                e
            };
            &&& more.cost(params) == obj.cost(params).add_spec(r.mul_spec(r))
            &&& obj.data.len() == 0 ==> obj.cost(params) == T::zero_spec()
        }),
{
    let more = Objective { data: obj.data.push((x, y)), ..obj };
    assert forall|i: int| 0 <= i < obj.count() implies #[trigger] obj.term(params, i) == more.term(
        params,
        i,
    ) by {}
    lemma_cost_prefix(obj, more, params, obj.count());
}

/// One more constraint adds the size of its weight times the square of its error to the cost,
/// whatever the error measure.
pub proof fn law_constraint_adds_its_weighted_squared_error<T: Value>(
    obj: Objective<T>,
    params: Seq<T>,
    c: Constraint<T>,
)
    ensures
        ({
            let more = Objective { constraints: obj.constraints.push(c), ..obj };
            let e = horner_spec(params.take(obj.p_terms as int), c.x).div_spec(
                horner_spec(params.skip(obj.p_terms as int).push(T::one_spec()), c.x),
            ).sub_spec(c.y);
            let w = if c.weight.lt_spec(T::zero_spec()) {
                c.weight.neg_spec()
            } else {
                c.weight
            };
            more.cost(params) == obj.cost(params).add_spec(w.mul_spec(e.mul_spec(e)))
        }),
{
    let more = Objective { constraints: obj.constraints.push(c), ..obj };
    assert forall|i: int| 0 <= i < obj.count() implies #[trigger] obj.term(params, i) == more.term(
        params,
        i,
    ) by {}
    lemma_cost_prefix(obj, more, params, obj.count());
}

proof fn lemma_cost_prefix<T: Value>(a: Objective<T>, b: Objective<T>, params: Seq<T>, n: nat)
    requires
        forall|i: int| 0 <= i < n ==> #[trigger] a.term(params, i) == b.term(params, i),
    ensures
        a.cost_upto(params, n) == b.cost_upto(params, n),
    decreases n,
{
    if n > 0 {
        lemma_cost_prefix(a, b, params, (n - 1) as nat);
        assert(a.term(params, n - 1) == b.term(params, n - 1));
    }
}

/// A residual is the error of the fit at its place: `P(x)/Q(x) - y` itself for absolute
/// errors, that over `|y|` for relative ones, and at a constraint one whose square is the size
/// of the weight times the squared error. There is one for each data point and then one for
/// each constraint.
pub proof fn law_residual_is_the_error<T: Value>(
    v: spec_fn(T) -> real,
    obj: Objective<T>,
    params: Seq<T>,
    i: int,
    x: T,
    y: T,
)
    requires
        exact(v),
        0 <= i < obj.data.len() + obj.constraints.len(),
        i < obj.data.len() ==> (x, y) == obj.data[i],
        i >= obj.data.len() ==> x == obj.constraints[i - obj.data.len()].x && y
            == obj.constraints[i - obj.data.len()].y,
    ensures
        obj.residuals(params).len() == obj.data.len() + obj.constraints.len(),
        ({
            let e = v(
                horner_spec(params.take(obj.p_terms as int), x).div_spec(
                    horner_spec(params.skip(obj.p_terms as int).push(T::one_spec()), x),
                ),
            ) - v(y);
            let r = v(obj.residuals(params)[i]);
            &&& i < obj.data.len() && (obj.weighting == ErrorWeighting::Absolute
                || y.abs_spec().is_near_zero_spec()) ==> r == e
            &&& i < obj.data.len() && obj.weighting == ErrorWeighting::Relative
                && !y.abs_spec().is_near_zero_spec() ==> times(
                r,
                if v(y) < 0 as real {
                    -v(y)
                } else {
                    v(y)
                },
            ) == e
            &&& i >= obj.data.len() ==> times(r, r) == times(
                if v(obj.constraints[i - obj.data.len()].weight) < 0 as real {
                    -v(obj.constraints[i - obj.data.len()].weight)
                } else {
                    v(obj.constraints[i - obj.data.len()].weight)
                },
                times(e, e),
            )
        }),
{
    reveal(exact);
    assert(obj.residuals(params)[i] == obj.residual(params, i));
    if i < obj.data.len() {
        let a = v(y.abs_spec());
        if a != 0 as real {
            let e = v(obj.pred(params, x)) - v(y);
            lemma_over_times(e, a);
        }
    } else {
        let c = obj.constraints[i - obj.data.len()];
        let e = v(obj.pred(params, x)) - v(y);
        lemma_square_of_product(v(penalty_factor(c)), e);
    }
}

/// What becomes of a step. It is taken if it lowers the cost and the model foretold a change
/// of the same sign; the cost is then that of the new parameters, and the damping eases where
/// the gain is above 0.75, by a factor of `1 - (2*gain - 1)^3` but to no less than a third.
/// Else the parameters stay, the damping grows by the factor `nu` and that factor doubles.
/// The refinement ends if the cost or the parameters hardly changed, or with the 31st step in
/// a row that is not taken.
pub proof fn law_step_is_taken_if_it_pays<T: Value>(
    obj: Objective<T>,
    tolerance: T,
    s: LmPoint<T>,
    step: Seq<T>,
    slope_product: T,
    trial: Seq<T>,
)
    requires
        trial.len() == s.params.len(),
        forall|i: int|
            0 <= i < trial.len() ==> #[trigger] trial[i] == s.params[i].add_spec(step[i]),
    ensures
        ({
            let (t, stop) = decided(obj, tolerance, s, step, slope_product);
            let actual = s.cost.sub_spec(obj.cost(trial));
            let predicted = slope_product.mul_spec(T::half_spec());
            let gain = actual.div_spec(predicted);
            let pays = !predicted.is_near_zero_spec() && T::zero_spec().lt_spec(gain)
                && T::zero_spec().lt_spec(actual);
            let little = cast_or(0x3cd2_03af_9ee7_5616, tolerance);
            let cube = T::two_spec().mul_spec(gain).sub_spec(T::one_spec()).mul_spec(
                T::two_spec().mul_spec(gain).sub_spec(T::one_spec()),
            ).mul_spec(T::two_spec().mul_spec(gain).sub_spec(T::one_spec()));
            &&& !T::zero_spec().lt_spec(T::zero_spec()) && pays ==> {
                &&& t.params == trial
                &&& t.cost == obj.cost(trial)
                &&& t.rejects == 0
                &&& cast_or(0x3fe8_0000_0000_0000, T::one_spec()).lt_spec(gain) ==> t.nu
                    == T::two_spec() && t.lambda == s.lambda.mul_spec(
                    cast_or(0x3fd5_5555_5555_5555, T::one_spec()).max_spec(
                        T::one_spec().sub_spec(cube),
                    ),
                )
                &&& !cast_or(0x3fe8_0000_0000_0000, T::one_spec()).lt_spec(gain) ==> t.nu == s.nu
                    && t.lambda == s.lambda
                &&& stop <==> actual.div_spec(
                    t.cost.max_spec(cast_or(0x39b4_484b_feeb_c2a0, T::one_spec())),
                ).lt_spec(little) || abs_max(step, step.len(), T::zero_spec()).div_spec(
                    abs_max(trial, trial.len(), T::one_spec()),
                ).lt_spec(little)
            }
            &&& !T::zero_spec().lt_spec(T::zero_spec()) && !pays ==> {
                &&& t.params == s.params
                &&& t.cost == s.cost
                &&& t.lambda == s.lambda.mul_spec(s.nu)
                &&& t.nu == s.nu.mul_spec(T::two_spec())
                &&& t.rejects == s.rejects + 1
                &&& stop <==> s.rejects >= 30
            }
        }),
{
    assert(trial =~= vector_sum(s.params, step));
}

/// The largest absolute value is what its name says: no entry exceeds it, and it is one of
/// them or the floor.
pub proof fn law_largest_absolute_value<T: Value>(v: Seq<T>, n: nat, floor: T)
    requires
        ordered::<T>(),
        n <= v.len(),
        !floor.is_nan_spec(),
        forall|i: int| 0 <= i < n ==> !(#[trigger] v[i]).abs_spec().is_nan_spec(),
    ensures
        !abs_max(v, n, floor).is_nan_spec(),
        !abs_max(v, n, floor).lt_spec(floor),
        forall|i: int| 0 <= i < n ==> !abs_max(v, n, floor).lt_spec((#[trigger] v[i]).abs_spec()),
        abs_max(v, n, floor) == floor || exists|i: int|
            0 <= i < n && abs_max(v, n, floor) == (#[trigger] v[i]).abs_spec(),
    decreases n,
{
    if n > 0 {
        let k = (n - 1) as nat;
        law_largest_absolute_value(v, k, floor);
        let m = abs_max(v, k, floor);
        let e = v[n - 1].abs_spec();
        let r = m.max_spec(e);
        assert(r == abs_max(v, n, floor));
        if r.lt_spec(floor) {
            assert(r.lt_spec(m) || m.lt_spec(floor));
        }
        assert forall|i: int| 0 <= i < n implies !r.lt_spec((#[trigger] v[i]).abs_spec()) by {
            if i < k && r.lt_spec(v[i].abs_spec()) {
                assert(r.lt_spec(m) || m.lt_spec(v[i].abs_spec()));
            }
        }
    } else {
        assert(!floor.lt_spec(floor));
    }
}

/// An iteration solves `(J'J + lambda*I) * step = -J'r`, with the Jacobian and the residuals
/// of the objective at the parameters: it ends the refinement if the gradient is below the
/// tolerance everywhere or the library has no solution, else the step is judged by its
/// product with `lambda*step - J'r`.
pub proof fn law_iteration_solves_the_damped_system<T: Value, A: LinearAlgebra<T>>(
    alg: A,
    obj: Objective<T>,
    tolerance: T,
    s: LmPoint<T>,
    t: LmPoint<T>,
    stop: bool,
) -> (r: (Seq<Seq<T>>, Seq<T>, Option<(Seq<Seq<T>>, Seq<T>, Result<Seq<T>, Error>)>, Seq<T>, T))
    requires
        lm_step(alg, obj, tolerance, s, t, stop),
    ensures
        gram_of(alg, obj.jacobian(s.params), s.params.len(), r.0),
        transpose_mul_of(
            alg,
            obj.jacobian(s.params),
            s.params.len(),
            obj.residuals(s.params),
            r.1,
        ),
        match r.2 {
            None => {
                &&& abs_max(r.1, r.1.len(), T::zero_spec()).lt_spec(
                    cast_or(0x3cd2_03af_9ee7_5616, tolerance),
                )
                &&& t == s && stop
            },
            Some((a, b, sol)) => {
                &&& !abs_max(r.1, r.1.len(), T::zero_spec()).lt_spec(
                    cast_or(0x3cd2_03af_9ee7_5616, tolerance),
                )
                &&& a.len() == r.0.len()
                &&& forall|i: int, j: int|
                    0 <= i < a.len() && 0 <= j < a.len() ==> (#[trigger] a[i][j]) == if i == j {
                        r.0[i][j].add_spec(s.lambda)
                    } else {
                        r.0[i][j]
                    }
                &&& b.len() == r.1.len()
                &&& forall|i: int| 0 <= i < b.len() ==> #[trigger] b[i] == r.1[i].neg_spec()
                &&& svd_solution(alg, a, r.0.len(), b, sol)
                &&& sol is Err ==> t == s && stop
                &&& sol matches Ok(step) ==> {
                    &&& r.3.len() == step.len()
                    &&& forall|i: int|
                        0 <= i < step.len() ==> #[trigger] r.3[i] == step[i].mul_spec(
                            s.lambda,
                        ).sub_spec(r.1[i])
                    &&& dot_of(alg, step, r.3, r.4)
                    &&& (t, stop) == decided(obj, tolerance, s, step, r.4)
                }
            },
        },
{
    reveal(lm_step);
    let (jtj, jtr) = choose|jtj: Seq<Seq<T>>, jtr: Seq<T>|
        {
            &&& #[trigger] gram_of(alg, obj.jacobian(s.params), s.params.len(), jtj)
            &&& #[trigger] transpose_mul_of(
                alg,
                obj.jacobian(s.params),
                s.params.len(),
                obj.residuals(s.params),
                jtr,
            )
            &&& lm_step_from(alg, obj, tolerance, s, jtj, jtr, t, stop)
        };
    let none = (jtj, jtr, None::<(Seq<Seq<T>>, Seq<T>, Result<Seq<T>, Error>)>, jtr, s.cost);
    if abs_max(jtr, jtr.len(), T::zero_spec()).lt_spec(lm_tolerance(tolerance)) {
        none
    } else {
        let a = damped(jtj, s.lambda);
        let b = negated(jtr);
        let sol = choose|sol: Result<Seq<T>, Error>|
            #[trigger] svd_solution(alg, a, jtj.len(), b, sol) && match sol {
                Err(_) => t == s && stop,
                Ok(step) => step_taken(alg, obj, tolerance, s, step, jtr, t, stop),
            };
        match sol {
            Err(_) => (jtj, jtr, Some((a, b, sol)), jtr, s.cost),
            Ok(step) => {
                let slope = model_slope(step, s.lambda, jtr);
                let d = choose|d: T|
                    {
                        &&& #[trigger] dot_of(alg, step, slope, d)
                        &&& t == decided(obj, tolerance, s, step, d).0
                        &&& stop == decided(obj, tolerance, s, step, d).1
                    };
                (jtj, jtr, Some((a, b, sol)), slope, d)
            },
        }
    }
}

/// A refinement sets out from the parameters that it is given with their cost, no step
/// refused, a factor of 2, and a damping of 1e-3 times the largest curvature of the data,
/// constraints left out, or 1e-6 where that is as good as zero. It makes one iteration after
/// the other, as many as are reported: all that are allowed, or up to the one that ends it.
pub proof fn law_refinement_is_its_iterations<T: Value, A: LinearAlgebra<T>>(
    alg: A,
    obj: Objective<T>,
    tolerance: T,
    max_iters: nat,
    params: Seq<T>,
    result: Seq<T>,
    used: nat,
) -> (r: (Seq<LmPoint<T>>, bool, Seq<Seq<T>>))
    requires
        lm_refined(alg, obj, tolerance, max_iters, params, result, used),
    ensures
        ({
            let (steps, stopped, g) = r;
            let first = steps[0];
            let curvature = abs_max(
                Seq::new(g.len(), |i: int| g[i][i]),
                g.len(),
                T::zero_spec(),
            );
            let lambda = cast_or(0x3f50_624d_d2f1_a9fc, T::one_spec()).mul_spec(curvature);
            &&& steps.len() == used + 1
            &&& used <= max_iters
            &&& used < max_iters ==> stopped
            &&& stopped ==> used > 0
            &&& first.params == params
            &&& first.cost == obj.cost(params)
            &&& first.nu == T::two_spec()
            &&& first.rejects == 0
            &&& gram_of(
                alg,
                (Objective {
                    data: obj.data,
                    constraints: Seq::empty(),
                    weighting: obj.weighting,
                    p_terms: obj.p_terms,
                }).jacobian(params),
                params.len(),
                g,
            )
            &&& lambda.is_near_zero_spec() ==> first.lambda == cast_or(
                0x3eb0_c6f7_a0b5_ed8d,
                T::one_spec(),
            )
            &&& !lambda.is_near_zero_spec() ==> first.lambda == lambda
            &&& forall|i: int|
                0 <= i < used ==> lm_step(
                    alg,
                    obj,
                    tolerance,
                    #[trigger] steps[i],
                    steps[i + 1],
                    stopped && i == used - 1,
                )
            &&& steps[used as int].params == result
        }),
{
    let (steps, stopped) = choose|steps: Seq<LmPoint<T>>, stopped: bool|
        {
            &&& #[trigger] lm_run(alg, obj, tolerance, steps, stopped)
            &&& steps.len() == used + 1
            &&& used <= max_iters
            &&& stopped ==> used > 0
            &&& used == max_iters || stopped
            &&& lm_start(alg, obj, params, steps.first())
            &&& steps.last().params == result
        };
    let g = choose|g: Seq<Seq<T>>|
        #[trigger] gram_of(alg, obj.data_only().jacobian(params), params.len(), g)
            && steps.first().lambda == initial_lambda(g);
    assert(diagonal(g) =~= Seq::new(g.len(), |i: int| g[i][i]));
    (steps, stopped, g)
}

/// A refinement that is allowed no iteration hands its parameters back, and so does one whose
/// gradient is below the tolerance from the outset.
pub proof fn law_nothing_to_refine<T: Value, A: LinearAlgebra<T>>(
    alg: A,
    obj: Objective<T>,
    tolerance: T,
    max_iters: nat,
    params: Seq<T>,
    result: Seq<T>,
    used: nat,
)
    requires
        lm_refined(alg, obj, tolerance, max_iters, params, result, used),
        max_iters == 0 || forall|w: Seq<T>| #[trigger]
            transpose_mul_of(alg, obj.jacobian(params), params.len(), obj.residuals(params), w)
                ==> abs_max(w, w.len(), T::zero_spec()).lt_spec(
                cast_or(0x3cd2_03af_9ee7_5616, tolerance),
            ),
    ensures
        result == params,
        used <= 1,
{
    let (steps, stopped, g) = law_refinement_is_its_iterations(
        alg,
        obj,
        tolerance,
        max_iters,
        params,
        result,
        used,
    );
    if used > 0 {
        let s0 = steps[0];
        assert(lm_step(alg, obj, tolerance, s0, steps[0int + 1], stopped && 0 == used - 1));
        let parts = law_iteration_solves_the_damped_system(
            alg,
            obj,
            tolerance,
            s0,
            steps[1],
            stopped && 0 == used - 1,
        );
        assert(abs_max(parts.1, parts.1.len(), T::zero_spec()).lt_spec(
            cast_or(0x3cd2_03af_9ee7_5616, tolerance),
        ));
    }
}

/// Where a denominator is as good as zero, the weight of the iteration is 1e10.
pub proof fn law_pole_is_weighted_heavily<T: Value>(q: Seq<T>, x: T)
    requires
        horner_spec(q, x).abs_spec().is_near_zero_spec(),
    ensures
        sk_weight(q, x) == cast_or(0x4202_a05f_2000_0000, T::one_spec()),
{
}

/// The Jacobian has a row for each residual and a column for each parameter.
pub proof fn law_jacobian_has_a_row_for_each_residual<T: Value>(
    obj: Objective<T>,
    params: Seq<T>,
    i: int,
)
    requires
        obj.p_terms <= params.len(),
        0 <= i < obj.data.len() + obj.constraints.len(),
    ensures
        obj.jacobian(params).len() == obj.data.len() + obj.constraints.len(),
        obj.jacobian(params)[i].len() == params.len(),
{
}

/// A failure says why there is no solution: the decomposition did not converge, the dimension
/// has no value, the library said so itself, or its answer cannot be used.
pub proof fn law_failure_says_why<T: Value, A: LinearAlgebra<T>>(
    alg: A,
    a: Seq<Seq<T>>,
    c: nat,
    b: Seq<T>,
    e: Error,
)
    requires
        svd_solution(alg, a, c, b, Err(e)),
    ensures
        e == Error::DidNotConverge || e == Error::CastFailed || e is Algebra,
        e == Error::DidNotConverge ==> exists|m: Matrix<T>, iters: usize|
            m@ == a && m.ncols == c && #[trigger] call_ensures(
                A::svd,
                (
                    &alg,
                    &m,
                    T::default_epsilon_spec().mul_spec(T::convert_f64_spec(0x4014_0000_0000_0000)),
                    iters,
                ),
                None,
            ),
        e == Error::CastFailed ==> T::try_cast_usize_spec(
            (if a.len() > c {
                a.len()
            } else {
                c
            }) as usize,
        ) is None,
{
}

/// What the library hands back is taken as it is if it has the right length and holds numbers
/// only; if not, or if the library says that there is nothing, there is no solution.
pub proof fn law_answer_is_taken_as_it_is<T: Value>(x: Result<Seq<T>, &'static str>, n: nat)
    ensures
        accepted(x, n) is Ok <==> (x matches Ok(w) && w.len() == n && forall|i: int|
            0 <= i < w.len() ==> !(#[trigger] w[i]).is_nan_spec()),
        accepted(x, n) matches Ok(w) ==> x == Ok::<Seq<T>, &'static str>(w),
        x matches Err(e) ==> accepted(x, n) == Err::<Seq<T>, Error>(Error::Algebra(e)),
{
}

/// A cast gives the value where there is one, and the fallback only where there is none.
pub proof fn law_casts_fall_back_only_if_they_must<T: Value>(
    bits: u64,
    n: usize,
    value: T,
    fallback: T,
)
    ensures
        T::try_cast_f64_spec(bits) == Some(value) ==> cast_or(bits, fallback) == value,
        T::try_cast_f64_spec(bits) is None ==> cast_or(bits, fallback) == fallback,
        T::try_cast_usize_spec(n) == Some(value) ==> count_or(n, fallback) == value,
        T::try_cast_usize_spec(n) is None ==> count_or(n, fallback) == fallback,
{
}

/// The weights in rounded arithmetic: `1/|y|`, `1/|Q(x)|` and the root of the size of a
/// constraint's weight.
pub proof fn law_weights_are_reciprocals<T: Value>(q: Seq<T>, x: T, y: T, c: Constraint<T>)
    ensures
        error_weight(ErrorWeighting::Absolute, y) == T::one_spec(),
        error_weight(ErrorWeighting::Relative, y) == if y.abs_spec().is_near_zero_spec() {
            T::one_spec()
        } else {
            T::one_spec().div_spec(y.abs_spec())
        },
        !horner_spec(q, x).abs_spec().is_near_zero_spec() ==> sk_weight(q, x)
            == T::one_spec().div_spec(horner_spec(q, x).abs_spec()),
        c.weight.lt_spec(T::zero_spec()) ==> penalty_factor(c) == c.weight.neg_spec().sqrt_spec(),
        !c.weight.lt_spec(T::zero_spec()) ==> penalty_factor(c) == c.weight.sqrt_spec(),
{
}

/// A residual and its derivatives in rounded arithmetic, from the error `P(x)/Q(x) - y` and the
/// factor `w` of its point: the derivative by the `j`-th coefficient of the numerator is
/// `w*x^j/Q(x)`, that by the `j`-th of the denominator `-w*(P(x)/Q(x))*x^j/Q(x)`.
pub proof fn law_residual_and_derivatives_are_made_of_powers<T: Value>(
    obj: Objective<T>,
    params: Seq<T>,
    i: int,
    j: int,
    x: T,
    y: T,
)
    requires
        obj.p_terms <= params.len(),
        0 <= i < obj.data.len() + obj.constraints.len(),
        0 <= j,
        i < obj.data.len() ==> (x, y) == obj.data[i],
        i >= obj.data.len() ==> x == obj.constraints[i - obj.data.len()].x && y
            == obj.constraints[i - obj.data.len()].y,
    ensures
        ({
            let below = horner_spec(params.skip(obj.p_terms as int).push(T::one_spec()), x);
            let pred = horner_spec(params.take(obj.p_terms as int), x).div_spec(below);
            let w = if i < obj.data.len() {
                error_weight(obj.weighting, y)
            } else {
                penalty_factor(obj.constraints[i - obj.data.len()])
            };
            let r = obj.residuals(params)[i];
            let row = obj.jacobian(params)[i];
            &&& i >= obj.data.len() ==> r == w.mul_spec(pred.sub_spec(y))
            &&& i < obj.data.len() && (obj.weighting == ErrorWeighting::Absolute
                || y.abs_spec().is_near_zero_spec()) ==> r == pred.sub_spec(y)
            &&& i < obj.data.len() && obj.weighting == ErrorWeighting::Relative
                && !y.abs_spec().is_near_zero_spec() ==> r == pred.sub_spec(y).div_spec(
                y.abs_spec(),
            )
            &&& j < obj.p_terms ==> row[j] == w.mul_spec(power(x, j as nat)).mul_spec(
                T::one_spec().div_spec(below),
            )
            &&& j < params.len() - obj.p_terms ==> row[obj.p_terms + j] == w.neg_spec().mul_spec(
                pred,
            ).mul_spec(power(x, j as nat)).mul_spec(T::one_spec().div_spec(below))
        }),
{
    assert(obj.residuals(params)[i] == obj.residual(params, i));
    assert(obj.jacobian(params)[i] == obj.gradient(params, i));
}

/// The largest change and the largest absolute value take one more entry by holding it against
/// what there was.
pub proof fn law_largest_takes_one_more<T: Value>(new: Seq<T>, old: Seq<T>, n: nat, floor: T)
    ensures
        max_change(new, old, 0) == T::zero_spec(),
        abs_max(new, 0, floor) == floor,
        abs_max(new, n + 1, floor) == abs_max(new, n, floor).max_spec(new[n as int].abs_spec()),
        ({
            let size = new[n as int].abs_spec().max_spec(old[n as int].abs_spec());
            max_change(new, old, n + 1) == max_change(new, old, n).max_spec(
                if size.is_near_zero_spec() {
                    T::zero_spec()
                } else {
                    new[n as int].sub_spec(old[n as int]).abs_spec().div_spec(size)
                },
            )
        }),
{
}

/// The models show what is there: a matrix its rows, a solution its entries, a linear or whole
/// fit its numerator, its denominator and its count.
pub proof fn law_models_show_what_is_there<T: Value>(
    m: Matrix<T>,
    i: int,
    v: Vec<T>,
    f: RationalPolynomial<T>,
    n: usize,
    e: Error,
)
    requires
        0 <= i < m.rows@.len(),
    ensures
        m@.len() == m.rows@.len(),
        m@[i] == m.rows@[i]@,
        seq_of::<T, Error>(Ok(v)) == Ok::<Seq<T>, Error>(v@),
        seq_of::<T, Error>(Err(e)) == Err::<Seq<T>, Error>(e),
        fit_view(Ok((f, n))) == Ok::<(Seq<T>, Seq<T>, nat), Error>((f.p(), f.q(), n as nat)),
        fit_view::<T>(Err(e)) == Err::<(Seq<T>, Seq<T>, nat), Error>(e),
{
}

} // verus!
