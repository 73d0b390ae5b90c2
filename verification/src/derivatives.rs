//! The Jacobian of the refinement is the derivative, over the real numbers.
use crate::exact::{
    exact, factor, law_horner_is_the_polynomial, lemma_power, lemma_residual, place, polynomial,
    real_power, target,
};
use crate::polynomial::horner_spec;
use crate::reals::{
    lemma_commute, lemma_denominator_change, lemma_distribute, lemma_numerator_change, times,
};
use crate::residual::{jacobian_row, Objective};
use crate::value::Value;
use vstd::prelude::*;

verus! {

proof fn lemma_changed_coefficient<T: Value>(
    v: spec_fn(T) -> real,
    c: Seq<T>,
    x: real,
    j: int,
    h: T,
    n: nat,
)
    requires
        exact(v),
        0 <= j < c.len(),
        n <= c.len(),
    ensures
        polynomial(v, c.update(j, c[j].add_spec(h)), x, n) == polynomial(v, c, x, n) + if j < n {
            times(v(h), real_power(x, j as nat))
        } else {
            0 as real
        },
    decreases n,
{
    if n > 0 {
        reveal(exact);
        lemma_changed_coefficient(v, c, x, j, h, (n - 1) as nat);
        if j == n - 1 {
            let w = real_power(x, j as nat);
            lemma_distribute(w, v(c[j]), v(h));
            lemma_commute(w, v(c[j]) + v(h));
            lemma_commute(w, v(c[j]));
            lemma_commute(w, v(h));
        }
    }
}

/// The row of the Jacobian that belongs to a residual.
proof fn lemma_row<T: Value>(obj: Objective<T>, params: Seq<T>, i: int)
    requires
        0 <= i < obj.count(),
    ensures
        obj.jacobian(params)[i] == jacobian_row(
            factor(obj, i),
            place(obj, i),
            obj.pred(params, place(obj, i)),
            T::one_spec().div_spec(horner_spec(obj.den(params), place(obj, i))),
            obj.p_terms,
            (params.len() - obj.p_terms) as nat,
        ),
{
    assert(obj.jacobian(params)[i] == obj.gradient(params, i));
}

/// The derivatives by the numerator's coefficients are those of the residuals, and the
/// residuals are linear in them: changing a coefficient by `h` changes a residual by `h`
/// times its derivative.
pub proof fn law_jacobian_of_the_numerator<T: Value>(
    v: spec_fn(T) -> real,
    obj: Objective<T>,
    params: Seq<T>,
    i: int,
    j: int,
    h: T,
)
    requires
        exact(v),
        0 <= i < obj.count(),
        0 <= j < obj.p_terms <= params.len(),
        v(horner_spec(obj.den(params), place(obj, i))) != 0 as real,
    ensures
        v(obj.residual(params.update(j, params[j].add_spec(h)), i)) - v(obj.residual(params, i))
            == times(v(h), v(obj.jacobian(params)[i][j])),
{
    let changed = params.update(j, params[j].add_spec(h));
    let x = place(obj, i);
    let num = obj.num(params);
    let den = obj.den(params);
    assert(obj.num(changed) =~= num.update(j, num[j].add_spec(h)));
    assert(obj.den(changed) =~= den);
    lemma_residual(v, obj, params, i);
    lemma_residual(v, obj, changed, i);
    law_horner_is_the_polynomial(v, num, x);
    law_horner_is_the_polynomial(v, obj.num(changed), x);
    lemma_changed_coefficient(v, num, v(x), j, h, num.len());
    lemma_power(v, x, j as nat);
    lemma_row(obj, params, i);
    lemma_numerator_change(
        v(factor(obj, i)),
        v(target(obj, i)),
        v(horner_spec(num, x)),
        v(horner_spec(obj.num(changed), x)),
        v(horner_spec(den, x)),
        v(h),
        real_power(v(x), j as nat),
    );
    reveal(exact);
}

/// The derivatives by the denominator's free coefficients are those of the residuals:
/// changing a coefficient by `h` changes a residual by `h` times its derivative times
/// `Q(x)/Q'(x)`, with `Q'` the changed denominator, a factor that tends to 1 with `h`
/// to 0.
pub proof fn law_jacobian_of_the_denominator<T: Value>(
    v: spec_fn(T) -> real,
    obj: Objective<T>,
    params: Seq<T>,
    i: int,
    j: int,
    h: T,
)
    requires
        exact(v),
        0 <= i < obj.count(),
        0 < obj.p_terms <= j < params.len(),
        v(horner_spec(obj.den(params), place(obj, i))) != 0 as real,
        v(horner_spec(obj.den(params.update(j, params[j].add_spec(h))), place(obj, i)))
            != 0 as real,
    ensures
        times(
            v(obj.residual(params.update(j, params[j].add_spec(h)), i)) - v(
                obj.residual(params, i),
            ),
            v(horner_spec(obj.den(params.update(j, params[j].add_spec(h))), place(obj, i))),
        ) == times(
            times(v(h), v(obj.jacobian(params)[i][j])),
            v(horner_spec(obj.den(params), place(obj, i))),
        ),
{
    let changed = params.update(j, params[j].add_spec(h));
    let k = j - obj.p_terms;
    let x = place(obj, i);
    let num = obj.num(params);
    let den = obj.den(params);
    assert(obj.num(changed) =~= num);
    assert(obj.den(changed) =~= den.update(k, den[k].add_spec(h)));
    lemma_residual(v, obj, params, i);
    lemma_residual(v, obj, changed, i);
    law_horner_is_the_polynomial(v, den, x);
    law_horner_is_the_polynomial(v, obj.den(changed), x);
    lemma_changed_coefficient(v, den, v(x), k, h, den.len());
    lemma_power(v, x, k as nat);
    lemma_row(obj, params, i);
    lemma_denominator_change(
        v(factor(obj, i)),
        v(target(obj, i)),
        v(horner_spec(num, x)),
        v(horner_spec(den, x)),
        v(horner_spec(obj.den(changed), x)),
        v(h),
        real_power(v(x), k as nat),
    );
    reveal(exact);
}

} // verus!
