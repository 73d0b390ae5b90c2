//! What holds of every fit.
use crate::algebra::{
    decomposed, dot_of, gram_of, solved_with, svd_solution, transpose_mul_of, LinearAlgebra,
};
use crate::error::Error;
use crate::eval::widened;
use crate::exact::{exact, law_constraints_that_agree_are_met, lemma_snaps_keep_the_upper_terms};
use crate::fit::{
    best_run, cost_of, fit_from, fit_gives, kept, lemma_snaps_keep_length, perturbed_p, perturbed_q,
    run_count, run_gives, runs_give, snapped_to_all, Candidate, FitInput,
};
use crate::lm::{
    damped, lm_refined, lm_run, lm_start, lm_step, lm_step_from, model_slope, negated, packed,
    LmPoint, LM_TOLERANCE,
};
use crate::optimize::{freely_refined, rounded, warm_started};
use crate::options::{ConstraintMode, ErrorWeighting, RationalFitOptions};
use crate::polynomial::{horner_spec, rational_spec, snapped_constant, upper_terms};
use crate::rational_fit::{fit_input, fit_result, function_result, sampled, RationalFit};
use crate::residual::Objective;
use crate::search::{local_search_result, strict_order, F32SearchResult, Scorer};
use crate::search_laws::{law_search_result_is_deterministic, repeatable, same_result};
use crate::single::F32;
use crate::sk::{before, settled, sk_fit, sk_outcome, sk_run, SkInput};
use crate::value::Value;
use vstd::prelude::*;

verus! {

/// A linear algebra library whose answers depend on nothing but what it is asked.
#[verifier::opaque]
pub open spec fn repeatable_algebra<T: Value, A: LinearAlgebra<T>>(alg: A) -> bool {
    &&& forall|a: Seq<Seq<T>>, c: nat, d: Option<A::Svd>, e: Option<A::Svd>| #[trigger]
        decomposed(alg, a, c, d) && #[trigger] decomposed(alg, a, c, e) ==> d == e
    &&& forall|d: A::Svd, s: T, t: T| #[trigger]
        call_ensures(A::max_singular_value, (&alg, &d), s) && #[trigger] call_ensures(
            A::max_singular_value,
            (&alg, &d),
            t,
        ) ==> s == t
    &&& forall|
        d: A::Svd,
        b: Seq<T>,
        eps: T,
        x: Result<Seq<T>, &'static str>,
        y: Result<Seq<T>, &'static str>,
    | #[trigger]
        solved_with(alg, d, b, eps, x) && #[trigger] solved_with(alg, d, b, eps, y) ==> x == y
    &&& forall|a: Seq<Seq<T>>, c: nat, g: Seq<Seq<T>>, h: Seq<Seq<T>>| #[trigger]
        gram_of(alg, a, c, g) && #[trigger] gram_of(alg, a, c, h) ==> g == h
    &&& forall|a: Seq<Seq<T>>, c: nat, b: Seq<T>, v: Seq<T>, w: Seq<T>| #[trigger]
        transpose_mul_of(alg, a, c, b, v) && #[trigger] transpose_mul_of(alg, a, c, b, w) ==> v
            == w
    &&& forall|a: Seq<T>, b: Seq<T>, s: T, t: T| #[trigger]
        dot_of(alg, a, b, s) && #[trigger] dot_of(alg, a, b, t) ==> s == t
}

proof fn lemma_solution_unique<T: Value, A: LinearAlgebra<T>>(
    alg: A,
    a: Seq<Seq<T>>,
    c: nat,
    b: Seq<T>,
    r: Result<Seq<T>, Error>,
    s: Result<Seq<T>, Error>,
)
    requires
        repeatable_algebra::<T, A>(alg),
        svd_solution(alg, a, c, b, r),
        svd_solution(alg, a, c, b, s),
    ensures
        r == s,
{
    reveal(repeatable_algebra);
}

proof fn lemma_sk_step<T: Value, A: LinearAlgebra<T>>(
    alg: A,
    inp: SkInput<T>,
    s: Seq<Seq<T>>,
    k: int,
)
    requires
        sk_run(alg, inp, s),
        0 <= k < s.len(),
    ensures
        svd_solution(
            alg,
            inp.matrix(before(s, k)),
            inp.p_terms + inp.q_free,
            inp.rhs(before(s, k)),
            Ok(s[k]),
        ),
        k < s.len() - 1 ==> !settled(inp, s, k),
{
    assert(s[k].len() == inp.p_terms + inp.q_free);
}

/// Two runs of the same linear fit agree as far as both go.
proof fn lemma_sk_same<T: Value, A: LinearAlgebra<T>>(
    alg: A,
    inp: SkInput<T>,
    s: Seq<Seq<T>>,
    t: Seq<Seq<T>>,
    k: int,
)
    requires
        repeatable_algebra::<T, A>(alg),
        sk_run(alg, inp, s),
        sk_run(alg, inp, t),
        0 <= k < s.len(),
        k < t.len(),
    ensures
        s[k] == t[k],
    decreases k,
{
    lemma_sk_step(alg, inp, s, k);
    lemma_sk_step(alg, inp, t, k);
    if k > 0 {
        lemma_sk_same(alg, inp, s, t, k - 1);
    }
    assert(before(s, k) == before(t, k));
    lemma_solution_unique(
        alg,
        inp.matrix(before(s, k)),
        inp.p_terms + inp.q_free,
        inp.rhs(before(s, k)),
        Ok(s[k]),
        Ok(t[k]),
    );
}

/// The shorter of two runs of the same linear fit has stopped where the longer one has
/// gone on, which cannot be.
proof fn lemma_sk_not_shorter<T: Value, A: LinearAlgebra<T>>(
    alg: A,
    inp: SkInput<T>,
    max_iters: nat,
    s: Seq<Seq<T>>,
    r: Result<(Seq<T>, Seq<T>, nat), Error>,
    t: Seq<Seq<T>>,
    u: Result<(Seq<T>, Seq<T>, nat), Error>,
)
    requires
        repeatable_algebra::<T, A>(alg),
        sk_outcome(alg, inp, max_iters, s, r),
        sk_outcome(alg, inp, max_iters, t, u),
    ensures
        s.len() >= t.len(),
{
    if s.len() < t.len() {
        let n = s.len() as int;
        if n > 0 {
            lemma_sk_same(alg, inp, s, t, n - 1);
            if n > 1 {
                lemma_sk_same(alg, inp, s, t, n - 2);
            }
            lemma_sk_step(alg, inp, t, n - 1);
        }
        assert(settled(inp, s, n - 1) == settled(inp, t, n - 1));
        assert(before(s, n) == before(t, n));
        lemma_sk_step(alg, inp, t, n);
        match r {
            Ok(_) => {},
            Err(e) => {
                lemma_solution_unique(
                    alg,
                    inp.matrix(before(s, n)),
                    inp.p_terms + inp.q_free,
                    inp.rhs(before(s, n)),
                    Err(e),
                    Ok(t[n]),
                );
            },
        }
    }
}

proof fn lemma_sk_unique<T: Value, A: LinearAlgebra<T>>(
    alg: A,
    inp: SkInput<T>,
    max_iters: nat,
    r: Result<(Seq<T>, Seq<T>, nat), Error>,
    u: Result<(Seq<T>, Seq<T>, nat), Error>,
)
    requires
        repeatable_algebra::<T, A>(alg),
        sk_fit(alg, inp, max_iters, r),
        sk_fit(alg, inp, max_iters, u),
    ensures
        r == u,
{
    let s = choose|s: Seq<Seq<T>>| #[trigger] sk_outcome(alg, inp, max_iters, s, r);
    let t = choose|t: Seq<Seq<T>>| #[trigger] sk_outcome(alg, inp, max_iters, t, u);
    lemma_sk_not_shorter(alg, inp, max_iters, s, r, t, u);
    lemma_sk_not_shorter(alg, inp, max_iters, t, u, s, r);
    let n = s.len() as int;
    assert forall|k: int| 0 <= k < n implies s[k] == t[k] by {
        lemma_sk_same(alg, inp, s, t, k);
    }
    assert(s =~= t);
    match (r, u) {
        (Err(e), Err(f)) => {
            lemma_solution_unique(
                alg,
                inp.matrix(before(s, n)),
                inp.p_terms + inp.q_free,
                inp.rhs(before(s, n)),
                Err(e),
                Err(f),
            );
        },
        _ => {},
    }
}

proof fn lemma_lm_step_from_unique<T: Value, A: LinearAlgebra<T>>(
    alg: A,
    obj: Objective<T>,
    tolerance: T,
    s: LmPoint<T>,
    jtj: Seq<Seq<T>>,
    jtr: Seq<T>,
    t: LmPoint<T>,
    stop: bool,
    t2: LmPoint<T>,
    stop2: bool,
)
    requires
        repeatable_algebra::<T, A>(alg),
        lm_step_from(alg, obj, tolerance, s, jtj, jtr, t, stop),
        lm_step_from(alg, obj, tolerance, s, jtj, jtr, t2, stop2),
    ensures
        t == t2,
        stop == stop2,
{
    let a = damped(jtj, s.lambda);
    let b = negated(jtr);
    if exists|r: Result<Seq<T>, Error>| #[trigger] svd_solution(alg, a, jtj.len(), b, r) {
        let r = choose|r: Result<Seq<T>, Error>| #[trigger] svd_solution(alg, a, jtj.len(), b, r);
        assert forall|q: Result<Seq<T>, Error>| #[trigger]
            svd_solution(alg, a, jtj.len(), b, q) implies q == r by {
            lemma_solution_unique(alg, a, jtj.len(), b, q, r);
        }
        match r {
            Ok(step) => {
                assert forall|d: T, e: T| #[trigger]
                    dot_of(alg, step, model_slope(step, s.lambda, jtr), d) && #[trigger] dot_of(
                        alg,
                        step,
                        model_slope(step, s.lambda, jtr),
                        e,
                    ) implies d == e by {
                    reveal(repeatable_algebra);
                }
            },
            Err(_) => {},
        }
    }
}

proof fn lemma_lm_step_unique<T: Value, A: LinearAlgebra<T>>(
    alg: A,
    obj: Objective<T>,
    tolerance: T,
    s: LmPoint<T>,
    t: LmPoint<T>,
    stop: bool,
    t2: LmPoint<T>,
    stop2: bool,
)
    requires
        repeatable_algebra::<T, A>(alg),
        lm_step(alg, obj, tolerance, s, t, stop),
        lm_step(alg, obj, tolerance, s, t2, stop2),
    ensures
        t == t2,
        stop == stop2,
{
    reveal(lm_step);
    let jac = obj.jacobian(s.params);
    let c = s.params.len();
    let res = obj.residuals(s.params);
    let (jtj, jtr) = choose|jtj: Seq<Seq<T>>, jtr: Seq<T>|
        {
            &&& #[trigger] gram_of(alg, jac, c, jtj)
            &&& #[trigger] transpose_mul_of(alg, jac, c, res, jtr)
            &&& lm_step_from(alg, obj, tolerance, s, jtj, jtr, t, stop)
        };
    let (jtj2, jtr2) = choose|jtj: Seq<Seq<T>>, jtr: Seq<T>|
        {
            &&& #[trigger] gram_of(alg, jac, c, jtj)
            &&& #[trigger] transpose_mul_of(alg, jac, c, res, jtr)
            &&& lm_step_from(alg, obj, tolerance, s, jtj, jtr, t2, stop2)
        };
    assert(jtj == jtj2 && jtr == jtr2) by {
        reveal(repeatable_algebra);
    }
    lemma_lm_step_from_unique(alg, obj, tolerance, s, jtj, jtr, t, stop, t2, stop2);
}

/// Two refinements from the same start agree as far as both go, and the longer one has
/// not been stopped on the way.
proof fn lemma_lm_same<T: Value, A: LinearAlgebra<T>>(
    alg: A,
    obj: Objective<T>,
    tolerance: T,
    s: Seq<LmPoint<T>>,
    stopped: bool,
    t: Seq<LmPoint<T>>,
    stopped2: bool,
    k: int,
)
    requires
        repeatable_algebra::<T, A>(alg),
        lm_run(alg, obj, tolerance, s, stopped),
        lm_run(alg, obj, tolerance, t, stopped2),
        0 <= k < s.len(),
        k < t.len(),
        s[0] == t[0],
    ensures
        s[k] == t[k],
        k > 0 ==> (stopped && k == s.len() - 1) == (stopped2 && k == t.len() - 1),
    decreases k,
{
    if k > 0 {
        lemma_lm_same(alg, obj, tolerance, s, stopped, t, stopped2, k - 1);
        let sk = s[k - 1];
        let tk = t[k - 1];
        lemma_lm_step_unique(
            alg,
            obj,
            tolerance,
            sk,
            s[k - 1 + 1],
            stopped && k - 1 == s.len() - 2,
            t[k - 1 + 1],
            stopped2 && k - 1 == t.len() - 2,
        );
    }
}

proof fn lemma_lm_start_unique<T: Value, A: LinearAlgebra<T>>(
    alg: A,
    obj: Objective<T>,
    params: Seq<T>,
    s: LmPoint<T>,
    t: LmPoint<T>,
)
    requires
        repeatable_algebra::<T, A>(alg),
        lm_start(alg, obj, params, s),
        lm_start(alg, obj, params, t),
    ensures
        s == t,
{
    reveal(repeatable_algebra);
}

/// Refinements are deterministic, if the linear algebra library answers the same
/// questions the same way.
pub proof fn law_refinement_is_deterministic<T: Value, A: LinearAlgebra<T>>(
    alg: A,
    obj: Objective<T>,
    tolerance: T,
    max_iters: nat,
    params: Seq<T>,
    result: Seq<T>,
    used: nat,
    result2: Seq<T>,
    used2: nat,
)
    requires
        repeatable_algebra::<T, A>(alg),
        lm_refined(alg, obj, tolerance, max_iters, params, result, used),
        lm_refined(alg, obj, tolerance, max_iters, params, result2, used2),
    ensures
        result == result2,
        used == used2,
{
    let (s, stopped) = choose|s: Seq<LmPoint<T>>, stopped: bool|
        {
            &&& #[trigger] lm_run(alg, obj, tolerance, s, stopped)
            &&& s.len() == used + 1
            &&& used <= max_iters
            &&& stopped ==> used > 0
            &&& used == max_iters || stopped
            &&& lm_start(alg, obj, params, s.first())
            &&& s.last().params == result
        };
    let (t, stopped2) = choose|t: Seq<LmPoint<T>>, stopped2: bool|
        {
            &&& #[trigger] lm_run(alg, obj, tolerance, t, stopped2)
            &&& t.len() == used2 + 1
            &&& used2 <= max_iters
            &&& stopped2 ==> used2 > 0
            &&& used2 == max_iters || stopped2
            &&& lm_start(alg, obj, params, t.first())
            &&& t.last().params == result2
        };
    lemma_lm_start_unique(alg, obj, params, s[0], t[0]);
    let k = if used < used2 {
        used as int
    } else {
        used2 as int
    };
    lemma_lm_same(alg, obj, tolerance, s, stopped, t, stopped2, k);
}

proof fn lemma_run_unique<T: Value, A: LinearAlgebra<T>>(
    alg: A,
    inp: FitInput<T>,
    p: Seq<T>,
    q: Seq<T>,
    r: nat,
    c: Candidate<T>,
    d: Candidate<T>,
)
    requires
        repeatable_algebra::<T, A>(alg),
        q.len() > 0,
        run_gives(alg, inp, p, q, r, c),
        run_gives(alg, inp, p, q, r, d),
    ensures
        c == d,
{
    let start = if r == 0 {
        packed(p, q)
    } else {
        packed(perturbed_p(p, r), perturbed_q(q, r))
    };
    law_refinement_is_deterministic(
        alg,
        inp.objective(),
        inp.tolerance,
        inp.lm_iters,
        start,
        packed(c.p, c.q),
        c.used,
        packed(d.p, d.q),
        d.used,
    );
    lemma_packed_unique(c.p, c.q, d.p, d.q);
}

/// Fits are deterministic: the same input gives the same output, if the linear algebra
/// library answers the same questions the same way.
pub proof fn law_fit_is_deterministic<T: Value, A: LinearAlgebra<T>>(
    alg: A,
    inp: FitInput<T>,
    r: Result<(Seq<T>, Seq<T>, nat), Error>,
    s: Result<(Seq<T>, Seq<T>, nat), Error>,
)
    requires
        repeatable_algebra::<T, A>(alg),
        inp.q_terms > 0,
        fit_gives(alg, inp, r),
        fit_gives(alg, inp, s),
    ensures
        r == s,
{
    let base = choose|base: Result<(Seq<T>, Seq<T>, nat), Error>| #[trigger]
        sk_fit(alg, inp.sk_input(), inp.sk_iters, base) && fit_from(alg, inp, base, r);
    let base2 = choose|base: Result<(Seq<T>, Seq<T>, nat), Error>| #[trigger]
        sk_fit(alg, inp.sk_input(), inp.sk_iters, base) && fit_from(alg, inp, base, s);
    lemma_sk_unique(alg, inp.sk_input(), inp.sk_iters, base, base2);
    lemma_sk_shape(alg, inp.sk_input(), inp.sk_iters, base);
    match base {
        Err(_) => {},
        Ok((p, q, used)) => {
            if inp.lm_iters > 0 {
                let a = choose|a: Seq<Candidate<T>>|
                    {
                        &&& #[trigger] runs_give(alg, inp, p, q, a)
                        &&& a.len() == run_count(inp.restarts)
                        &&& r == kept(inp, a, used)
                    };
                let b = choose|b: Seq<Candidate<T>>|
                    {
                        &&& #[trigger] runs_give(alg, inp, p, q, b)
                        &&& b.len() == run_count(inp.restarts)
                        &&& s == kept(inp, b, used)
                    };
                assert forall|i: int| 0 <= i < a.len() implies a[i] == b[i] by {
                    assert(run_gives(alg, inp, p, q, i as nat, a[i]));
                    assert(run_gives(alg, inp, p, q, i as nat, b[i]));
                    lemma_run_unique(alg, inp, p, q, i as nat, a[i], b[i]);
                }
                assert(a =~= b);
            }
        },
    }
}

/// A linear fit has as many coefficients as were asked for, is monic, and makes no more
/// iterations than allowed.
pub proof fn lemma_sk_shape<T: Value, A: LinearAlgebra<T>>(
    alg: A,
    inp: SkInput<T>,
    max_iters: nat,
    r: Result<(Seq<T>, Seq<T>, nat), Error>,
)
    requires
        sk_fit(alg, inp, max_iters, r),
    ensures
        r matches Ok((p, q, used)) ==> {
            &&& p.len() == inp.p_terms
            &&& q.len() == inp.q_free + 1
            &&& q.last() == T::one_spec()
            &&& used <= max_iters
        },
{
    let steps = choose|s: Seq<Seq<T>>| #[trigger] sk_outcome(alg, inp, max_iters, s, r);
    if steps.len() > 0 {
        let k = steps.len() - 1;
        assert(steps[k].len() == inp.p_terms + inp.q_free);
    }
}

pub proof fn lemma_best_run_in_range<T: Value>(inp: FitInput<T>, runs: Seq<Candidate<T>>)
    requires
        runs.len() > 0,
    ensures
        0 <= best_run(inp, runs) < runs.len(),
    decreases runs.len(),
{
    if runs.len() > 1 {
        lemma_best_run_in_range(inp, runs.drop_last());
    }
}

/// A fit has the degrees that were asked for, its denominator is monic, and the linear
/// fit makes no more iterations than allowed.
pub proof fn law_fit_is_monic<T: Value, A: LinearAlgebra<T>>(
    alg: A,
    inp: FitInput<T>,
    p: Seq<T>,
    q: Seq<T>,
    used: nat,
)
    requires
        inp.p_terms > 0,
        inp.q_terms > 0,
        fit_gives(alg, inp, Ok((p, q, used))),
    ensures
        p.len() == inp.p_terms,
        q.len() == inp.q_terms,
        q.last() == T::one_spec(),
        used <= inp.sk_iters,
{
    let r = Ok::<(Seq<T>, Seq<T>, nat), Error>((p, q, used));
    let base = choose|base: Result<(Seq<T>, Seq<T>, nat), Error>| #[trigger]
        sk_fit(alg, inp.sk_input(), inp.sk_iters, base) && fit_from(alg, inp, base, r);
    lemma_sk_shape(alg, inp.sk_input(), inp.sk_iters, base);
    match base {
        Err(_) => {},
        Ok((p0, q0, u0)) => {
            if inp.lm_iters == 0 {
                lemma_snaps_keep_length(p0, q0, inp.constraints);
            } else {
                let runs = choose|runs: Seq<Candidate<T>>|
                    {
                        &&& #[trigger] runs_give(alg, inp, p0, q0, runs)
                        &&& runs.len() == run_count(inp.restarts)
                        &&& r == kept(inp, runs, u0)
                    };
                lemma_best_run_in_range(inp, runs);
                let b = best_run(inp, runs);
                assert(run_gives(alg, inp, p0, q0, b as nat, runs[b]));
                lemma_snaps_keep_length(runs[b].p, runs[b].q, inp.constraints);
            }
        },
    }
}

/// Restarts keep the best result: no run has a lower cost than the one that is kept,
/// and a later run is kept only if its cost is lower than that of the first, the one
/// without perturbation.
pub proof fn law_restarts_keep_the_best<T: Value>(
    inp: FitInput<T>,
    runs: Seq<Candidate<T>>,
    r: int,
)
    requires
        strict_order::<T>(),
        0 <= r < runs.len(),
    ensures
        0 <= best_run(inp, runs) < runs.len(),
        !cost_of(inp, runs[r]).lt_spec(cost_of(inp, runs[best_run(inp, runs)])),
        best_run(inp, runs) == 0 || cost_of(inp, runs[best_run(inp, runs)]).lt_spec(
            cost_of(inp, runs[0]),
        ),
    decreases runs.len(),
{
    let b = best_run(inp, runs);
    if runs.len() > 1 {
        let rest = runs.drop_last();
        let c = best_run(inp, rest);
        let last = cost_of(inp, runs.last());
        if r < rest.len() {
            law_restarts_keep_the_best(inp, rest, r);
        } else {
            law_restarts_keep_the_best(inp, rest, 0);
        }
        assert(rest[c] == runs[c]);
        assert(rest[0] == runs[0]);
        if r < rest.len() {
            assert(rest[r] == runs[r]);
            if last.lt_spec(cost_of(inp, runs[c])) && cost_of(inp, runs[r]).lt_spec(last) {
                assert(cost_of(inp, runs[r]).lt_spec(cost_of(inp, runs[c])));
            }
        }
        if last.lt_spec(cost_of(inp, runs[c])) && c != 0 {
            assert(last.lt_spec(cost_of(inp, runs[0])));
        }
    }
    assert(!cost_of(inp, runs[b]).lt_spec(cost_of(inp, runs[b])));
}

/// A positive difference means that the first number is the larger one, as it does of
/// machine numbers.
pub open spec fn difference_orders<T: Value>() -> bool {
    forall|a: T, b: T|
        T::zero_spec().lt_spec(#[trigger] a.sub_spec(b)) ==> b.lt_spec(a)
}

/// One iteration keeps the parameters or lowers their cost.
proof fn lemma_lm_step_descends<T: Value, A: LinearAlgebra<T>>(
    alg: A,
    obj: Objective<T>,
    tolerance: T,
    s: LmPoint<T>,
    t: LmPoint<T>,
    stop: bool,
)
    requires
        difference_orders::<T>(),
        s.cost == obj.cost(s.params),
        lm_step(alg, obj, tolerance, s, t, stop),
    ensures
        t.cost == obj.cost(t.params),
        t.params == s.params || t.cost.lt_spec(s.cost),
{
    reveal(lm_step);
}

proof fn lemma_lm_descends<T: Value, A: LinearAlgebra<T>>(
    alg: A,
    obj: Objective<T>,
    tolerance: T,
    steps: Seq<LmPoint<T>>,
    stopped: bool,
    k: int,
)
    requires
        strict_order::<T>(),
        difference_orders::<T>(),
        0 <= k < steps.len(),
        steps[0].cost == obj.cost(steps[0].params),
        lm_run(alg, obj, tolerance, steps, stopped),
    ensures
        steps[k].cost == obj.cost(steps[k].params),
        steps[k].params == steps[0].params || steps[k].cost.lt_spec(steps[0].cost),
    decreases k,
{
    if k > 0 {
        lemma_lm_descends(alg, obj, tolerance, steps, stopped, k - 1);
        let s = steps[k - 1];
        lemma_lm_step_descends(
            alg,
            obj,
            tolerance,
            s,
            steps[k - 1 + 1],
            stopped && k - 1 == steps.len() - 2,
        );
        if steps[k].cost.lt_spec(s.cost) && s.cost.lt_spec(steps[0].cost) {
            assert(steps[k].cost.lt_spec(steps[0].cost));
        }
    }
}

/// A refinement never makes matters worse: it gives the parameters back or lowers their
/// cost.
pub proof fn law_refinement_never_raises_the_cost<T: Value, A: LinearAlgebra<T>>(
    alg: A,
    obj: Objective<T>,
    tolerance: T,
    max_iters: nat,
    params: Seq<T>,
    result: Seq<T>,
    used: nat,
)
    requires
        strict_order::<T>(),
        difference_orders::<T>(),
        lm_refined(alg, obj, tolerance, max_iters, params, result, used),
    ensures
        result == params || obj.cost(result).lt_spec(obj.cost(params)),
        used <= max_iters,
{
    let (steps, stopped) = choose|steps: Seq<LmPoint<T>>, stopped: bool|
        {
            &&& #[trigger] lm_run(alg, obj, tolerance, steps, stopped)
            &&& steps.len() == used + 1
            &&& used <= max_iters
            &&& stopped ==> used > 0
            &&& used == max_iters || stopped
            &&& lm_start(alg, obj, params, steps.first())
            &&& steps.last().params == result
        };
    lemma_lm_descends(alg, obj, tolerance, steps, stopped, used as int);
}

/// Where constraints are only snapped to, the fit itself does not see them: it is a fit
/// without constraints whose constant term is then adjusted.
pub proof fn law_snap_only_fits_freely<T: Value, A: LinearAlgebra<T>>(
    alg: A,
    inp: FitInput<T>,
    p: Seq<T>,
    q: Seq<T>,
    used: nat,
)
    requires
        inp.mode == ConstraintMode::SnapOnly,
        fit_gives(alg, inp, Ok((p, q, used))),
    ensures
        exists|free: Seq<T>|
            {
                &&& #[trigger] fit_gives(
                    alg,
                    FitInput { constraints: Seq::empty(), ..inp },
                    Ok((free, q, used)),
                )
                &&& p == snapped_to_all(free, q, inp.constraints)
            },
{
    let r = Ok::<(Seq<T>, Seq<T>, nat), Error>((p, q, used));
    let alone = FitInput { constraints: Seq::empty(), ..inp };
    let base = choose|base: Result<(Seq<T>, Seq<T>, nat), Error>| #[trigger]
        sk_fit(alg, inp.sk_input(), inp.sk_iters, base) && fit_from(alg, inp, base, r);
    assert(alone.sk_input() == inp.sk_input());
    assert(alone.objective() == inp.objective());
    assert(sk_fit(alg, alone.sk_input(), alone.sk_iters, base));
    match base {
        Err(_) => {},
        Ok((p0, q0, u0)) => {
            if inp.lm_iters == 0 {
                assert(alone.finished(p0, q0) == p0);
                assert(fit_from(alg, alone, base, Ok((p0, q0, u0))));
                assert(fit_gives(alg, alone, Ok((p0, q0, u0))));
            } else {
                let runs = choose|runs: Seq<Candidate<T>>|
                    {
                        &&& #[trigger] runs_give(alg, inp, p0, q0, runs)
                        &&& runs.len() == run_count(inp.restarts)
                        &&& r == kept(inp, runs, u0)
                    };
                lemma_runs_same(alg, inp, alone, p0, q0, runs);
                lemma_best_run_same(inp, alone, runs);
                let b = runs[best_run(inp, runs)];
                assert(kept(alone, runs, u0) == Ok::<(Seq<T>, Seq<T>, nat), Error>((b.p, b.q, u0)));
                lemma_fit_from_runs(alg, alone, p0, q0, u0, runs);
                assert(fit_gives(alg, alone, Ok((b.p, b.q, u0))));
            }
        },
    }
}

proof fn lemma_fit_from_runs<T: Value, A: LinearAlgebra<T>>(
    alg: A,
    inp: FitInput<T>,
    p: Seq<T>,
    q: Seq<T>,
    used: nat,
    runs: Seq<Candidate<T>>,
)
    requires
        inp.lm_iters > 0,
        runs_give(alg, inp, p, q, runs),
        runs.len() == run_count(inp.restarts),
    ensures
        fit_from(alg, inp, Ok((p, q, used)), kept(inp, runs, used)),
{
}

/// Runs do not depend on what the objective does not hold.
pub proof fn lemma_runs_same<T: Value, A: LinearAlgebra<T>>(
    alg: A,
    a: FitInput<T>,
    b: FitInput<T>,
    p: Seq<T>,
    q: Seq<T>,
    runs: Seq<Candidate<T>>,
)
    requires
        a.objective() == b.objective(),
        a.tolerance == b.tolerance,
        a.lm_iters == b.lm_iters,
        runs_give(alg, a, p, q, runs),
    ensures
        runs_give(alg, b, p, q, runs),
{
    assert forall|k: int| 0 <= k < runs.len() implies run_gives(
        alg,
        b,
        p,
        q,
        k as nat,
        #[trigger] runs[k],
    ) by {
        assert(run_gives(alg, a, p, q, k as nat, runs[k]));
    }
}

pub proof fn lemma_best_run_same<T: Value>(a: FitInput<T>, b: FitInput<T>, runs: Seq<Candidate<T>>)
    requires
        a.objective() == b.objective(),
    ensures
        best_run(a, runs) == best_run(b, runs),
    decreases runs.len(),
{
    if runs.len() > 1 {
        lemma_best_run_same(a, b, runs.drop_last());
    }
}

/// A fit whose mode snaps passes through the last of its constraints, and through each
/// other one that asks for the same constant term, wherever its denominator is not zero
/// there. With a single constraint that is an exact hit.
pub proof fn law_snapping_fit_meets_its_constraints<T: Value, A: LinearAlgebra<T>>(
    alg: A,
    v: spec_fn(T) -> real,
    inp: FitInput<T>,
    p: Seq<T>,
    q: Seq<T>,
    used: nat,
    i: int,
)
    requires
        exact(v),
        inp.p_terms > 0,
        inp.q_terms > 0,
        inp.mode.snaps(),
        fit_gives(alg, inp, Ok((p, q, used))),
        0 <= i < inp.constraints.len(),
        v(horner_spec(q, inp.constraints[i].x)) != 0 as real,
        v(snapped_constant(p, q, inp.constraints[i].x, inp.constraints[i].y)) == v(
            snapped_constant(p, q, inp.constraints.last().x, inp.constraints.last().y),
        ),
    ensures
        v(rational_spec(p, q, inp.constraints[i].x)) == v(inp.constraints[i].y),
{
    let cs = inp.constraints;
    let free = lemma_snapped_from(alg, inp, p, q, used);
    lemma_snaps_keep_the_upper_terms(free, q, cs);
    assert(upper_terms(p, cs[i].x) == upper_terms(free, cs[i].x));
    assert(upper_terms(p, cs.last().x) == upper_terms(free, cs.last().x));
    law_constraints_that_agree_are_met(v, free, q, cs, i);
}

/// The numerator of a fit whose mode snaps is a snap of some other one.
proof fn lemma_snapped_from<T: Value, A: LinearAlgebra<T>>(
    alg: A,
    inp: FitInput<T>,
    p: Seq<T>,
    q: Seq<T>,
    used: nat,
) -> (free: Seq<T>)
    requires
        inp.p_terms > 0,
        inp.q_terms > 0,
        inp.mode.snaps(),
        fit_gives(alg, inp, Ok((p, q, used))),
    ensures
        free.len() > 0,
        q.len() > 0,
        p == snapped_to_all(free, q, inp.constraints),
{
    let r = Ok::<(Seq<T>, Seq<T>, nat), Error>((p, q, used));
    let base = choose|base: Result<(Seq<T>, Seq<T>, nat), Error>| #[trigger]
        sk_fit(alg, inp.sk_input(), inp.sk_iters, base) && fit_from(alg, inp, base, r);
    lemma_sk_shape(alg, inp.sk_input(), inp.sk_iters, base);
    match base {
        Err(_) => p,
        Ok((p0, q0, u0)) => if inp.lm_iters == 0 {
            p0
        } else {
            let runs = choose|runs: Seq<Candidate<T>>|
                {
                    &&& #[trigger] runs_give(alg, inp, p0, q0, runs)
                    &&& runs.len() == run_count(inp.restarts)
                    &&& r == kept(inp, runs, u0)
                };
            lemma_best_run_in_range(inp, runs);
            let b = best_run(inp, runs);
            assert(run_gives(alg, inp, p0, q0, b as nat, runs[b]));
            runs[b].p
        },
    }
}

/// With refinement switched off, a fit is the linear fit, snapped where the mode says
/// so.
pub proof fn law_no_refinement_is_the_linear_fit<T: Value, A: LinearAlgebra<T>>(
    alg: A,
    inp: FitInput<T>,
    p: Seq<T>,
    q: Seq<T>,
    used: nat,
)
    requires
        inp.lm_iters == 0,
        fit_gives(alg, inp, Ok((p, q, used))),
    ensures
        exists|linear: Seq<T>|
            {
                &&& #[trigger] sk_fit(
                    alg,
                    inp.sk_input(),
                    inp.sk_iters,
                    Ok((linear, q, used)),
                )
                &&& p == if inp.mode.snaps() {
                    snapped_to_all(linear, q, inp.constraints)
                } else {
                    linear
                }
            },
{
    let r = Ok::<(Seq<T>, Seq<T>, nat), Error>((p, q, used));
    let base = choose|base: Result<(Seq<T>, Seq<T>, nat), Error>| #[trigger]
        sk_fit(alg, inp.sk_input(), inp.sk_iters, base) && fit_from(alg, inp, base, r);
    match base {
        Err(_) => {},
        Ok((p0, q0, u0)) => {
            assert(sk_fit(alg, inp.sk_input(), inp.sk_iters, Ok((p0, q0, u0))));
        },
    }
}

/// The two fits are the same in all that can be seen of them, or both failed with the same
/// error.
pub open spec fn same_fit<T: Value>(
    r: Result<RationalFit<T>, Error>,
    s: Result<RationalFit<T>, Error>,
) -> bool {
    match (r, s) {
        (Ok(a), Ok(b)) => {
            &&& a.p() == b.p()
            &&& a.q() == b.q()
            &&& a.used() == b.used()
            &&& a.points() == b.points()
            &&& a.range() == b.range()
            &&& a.degrees() == b.degrees()
        },
        (Err(e), Err(f)) => e == f,
        _ => false,
    }
}

/// Two fits to the same data with the same options agree: both fail with the same
/// error, or both have the same coefficients, the same count of iterations and the rest.
pub proof fn law_fit_result_is_deterministic<T: Value, A: LinearAlgebra<T>>(
    alg: A,
    data: Seq<(T, T)>,
    range: (T, T),
    p_degree: usize,
    q_degree: usize,
    options: RationalFitOptions<T>,
    r: Result<RationalFit<T>, Error>,
    s: Result<RationalFit<T>, Error>,
)
    requires
        repeatable_algebra::<T, A>(alg),
        fit_result(alg, data, range, p_degree, q_degree, options, r),
        fit_result(alg, data, range, p_degree, q_degree, options, s),
    ensures
        same_fit(r, s),
{
    let inp = fit_input(data, p_degree, q_degree, options);
    let view = |r: Result<RationalFit<T>, Error>|
        match r {
            Ok(f) => Ok::<(Seq<T>, Seq<T>, nat), Error>((f.p(), f.q(), f.used() as nat)),
            Err(e) => Err(e),
        };
    law_fit_is_deterministic(alg, inp, view(r), view(s));
}

/// A function that gives the same output for the same input is sampled the same way
/// each time.
pub proof fn law_sampling_is_deterministic<T: Value, F: Fn(T) -> T>(
    f: F,
    n: usize,
    domain: (T, T),
    a: Seq<(T, T)>,
    b: Seq<(T, T)>,
)
    requires
        repeatable::<T, T, F>(f),
        sampled(f, n, domain, a),
        sampled(f, n, domain, b),
    ensures
        a == b,
{
    assert forall|k: int| 0 <= k < n implies a[k] == b[k] by {
        assert(call_ensures(f, (a[k].0,), a[k].1));
        assert(call_ensures(f, (b[k].0,), b[k].1));
    }
    assert(a =~= b);
}

/// Fitting a function twice with the same options gives the same fit, if the function and
/// the linear algebra library repeat themselves.
pub proof fn law_function_fit_is_deterministic<T: Value, F: Fn(T) -> T, A: LinearAlgebra<T>>(
    alg: A,
    f: F,
    domain: (T, T),
    p_degree: usize,
    q_degree: usize,
    options: RationalFitOptions<T>,
    r: Result<RationalFit<T>, Error>,
    s: Result<RationalFit<T>, Error>,
)
    requires
        repeatable_algebra::<T, A>(alg),
        repeatable::<T, T, F>(f),
        function_result(alg, f, domain, p_degree, q_degree, options, r),
        function_result(alg, f, domain, p_degree, q_degree, options, s),
    ensures
        same_fit(r, s),
{
    if options.n_samples >= p_degree + 1 + q_degree {
        let a = choose|data: Seq<(T, T)>| #[trigger]
            sampled(f, options.n_samples, domain, data) && fit_result(
                alg,
                data,
                domain,
                p_degree,
                q_degree,
                options,
                r,
            );
        let b = choose|data: Seq<(T, T)>| #[trigger]
            sampled(f, options.n_samples, domain, data) && fit_result(
                alg,
                data,
                domain,
                p_degree,
                q_degree,
                options,
                s,
            );
        law_sampling_is_deterministic(f, options.n_samples, domain, a, b);
        law_fit_result_is_deterministic(alg, a, domain, p_degree, q_degree, options, r, s);
    }
}

/// The iterations that a fit reports are those of the linear fit: however many iterations
/// and restarts the refinement is allowed, none at all included, the count is the same,
/// and so is whether the fit fails and how. There are no more than were allowed.
pub proof fn law_iterations_are_those_of_the_linear_fit<T: Value, A: LinearAlgebra<T>>(
    alg: A,
    inp: FitInput<T>,
    lm_iters: nat,
    restarts: nat,
    r: Result<(Seq<T>, Seq<T>, nat), Error>,
    s: Result<(Seq<T>, Seq<T>, nat), Error>,
)
    requires
        repeatable_algebra::<T, A>(alg),
        fit_gives(alg, inp, r),
        fit_gives(alg, FitInput { lm_iters, restarts, ..inp }, s),
    ensures
        match (r, s) {
            (Ok((_, _, a)), Ok((_, _, b))) => a == b && a <= inp.sk_iters,
            (Err(e), Err(f)) => e == f,
            _ => false,
        },
{
    let other = FitInput { lm_iters, restarts, ..inp };
    let base = choose|base: Result<(Seq<T>, Seq<T>, nat), Error>| #[trigger]
        sk_fit(alg, inp.sk_input(), inp.sk_iters, base) && fit_from(alg, inp, base, r);
    let base2 = choose|base: Result<(Seq<T>, Seq<T>, nat), Error>| #[trigger]
        sk_fit(alg, other.sk_input(), other.sk_iters, base) && fit_from(alg, other, base, s);
    assert(other.sk_input() == inp.sk_input());
    lemma_sk_unique(alg, inp.sk_input(), inp.sk_iters, base, base2);
    lemma_sk_shape(alg, inp.sk_input(), inp.sk_iters, base);
}

/// The same of whole fits: options that differ in the refinement alone give the same count of
/// iterations, at most the number allowed.
pub proof fn law_fit_iterations_are_those_of_the_linear_fit<T: Value, A: LinearAlgebra<T>>(
    alg: A,
    data: Seq<(T, T)>,
    range: (T, T),
    p_degree: usize,
    q_degree: usize,
    options: RationalFitOptions<T>,
    others: RationalFitOptions<T>,
    r: Result<RationalFit<T>, Error>,
    s: Result<RationalFit<T>, Error>,
)
    requires
        repeatable_algebra::<T, A>(alg),
        others.max_iterations == options.max_iterations,
        others.tolerance == options.tolerance,
        others.constraints@ == options.constraints@,
        others.weighting == options.weighting,
        others.constraint_mode == options.constraint_mode,
        fit_result(alg, data, range, p_degree, q_degree, options, r),
        fit_result(alg, data, range, p_degree, q_degree, others, s),
    ensures
        match (r, s) {
            (Ok(a), Ok(b)) => a.used() == b.used() && a.used() <= options.max_iterations,
            (Err(e), Err(f)) => e == f,
            _ => false,
        },
{
    let inp = fit_input(data, p_degree, q_degree, options);
    let lm_iters = others.lm_iterations as nat;
    let restarts = others.restarts as nat;
    assert(fit_input(data, p_degree, q_degree, others) == FitInput { lm_iters, restarts, ..inp });
    let view = |r: Result<RationalFit<T>, Error>|
        match r {
            Ok(f) => Ok::<(Seq<T>, Seq<T>, nat), Error>((f.p(), f.q(), f.used() as nat)),
            Err(e) => Err(e),
        };
    law_iterations_are_those_of_the_linear_fit(alg, inp, lm_iters, restarts, view(r), view(s));
}

/// The best of more runs is the best of the first ones, or has a lower cost.
proof fn lemma_best_of_more<T: Value>(
    inp: FitInput<T>,
    a: Seq<Candidate<T>>,
    b: Seq<Candidate<T>>,
)
    requires
        strict_order::<T>(),
        0 < a.len() <= b.len(),
        forall|i: int| 0 <= i < a.len() ==> a[i] == #[trigger] b[i],
    ensures
        b[best_run(inp, b)] == a[best_run(inp, a)] || cost_of(inp, b[best_run(inp, b)]).lt_spec(
            cost_of(inp, a[best_run(inp, a)]),
        ),
    decreases b.len(),
{
    lemma_best_run_in_range(inp, a);
    if b.len() == a.len() {
        assert(a =~= b);
    } else {
        let rest = b.drop_last();
        lemma_best_of_more(inp, a, rest);
        lemma_best_run_in_range(inp, rest);
        assert(rest[best_run(inp, rest)] == b[best_run(inp, rest)]);
    }
}

/// More restarts never raise the cost: of two fits that differ in the number of restarts
/// alone, the one with more has the coefficients of the other or a lower cost. Without
/// restarts and with one, which is the run without perturbation, the fit is the same. The
/// cost is that which the refinement sees, and nothing is snapped afterwards.
pub proof fn law_more_restarts_never_raise_the_cost<T: Value, A: LinearAlgebra<T>>(
    alg: A,
    inp: FitInput<T>,
    restarts: nat,
    p1: Seq<T>,
    q1: Seq<T>,
    used1: nat,
    p2: Seq<T>,
    q2: Seq<T>,
    used2: nat,
)
    requires
        repeatable_algebra::<T, A>(alg),
        strict_order::<T>(),
        inp.q_terms > 0,
        inp.restarts <= restarts,
        inp.constraints.len() == 0 || !inp.mode.snaps(),
        fit_gives(alg, inp, Ok((p1, q1, used1))),
        fit_gives(alg, FitInput { restarts, ..inp }, Ok((p2, q2, used2))),
    ensures
        p2 == p1 && q2 == q1 || inp.objective().cost(packed(p2, q2)).lt_spec(
            inp.objective().cost(packed(p1, q1)),
        ),
        !inp.objective().cost(packed(p1, q1)).lt_spec(inp.objective().cost(packed(p2, q2))),
        inp.restarts == 0 && restarts == 1 ==> p2 == p1 && q2 == q1,
        inp.lm_iters == 0 ==> p2 == p1 && q2 == q1,
        used1 == used2,
{
    let other = FitInput { restarts, ..inp };
    let r = Ok::<(Seq<T>, Seq<T>, nat), Error>((p1, q1, used1));
    let s = Ok::<(Seq<T>, Seq<T>, nat), Error>((p2, q2, used2));
    let base = choose|base: Result<(Seq<T>, Seq<T>, nat), Error>| #[trigger]
        sk_fit(alg, inp.sk_input(), inp.sk_iters, base) && fit_from(alg, inp, base, r);
    let base2 = choose|base: Result<(Seq<T>, Seq<T>, nat), Error>| #[trigger]
        sk_fit(alg, other.sk_input(), other.sk_iters, base) && fit_from(alg, other, base, s);
    assert(other.sk_input() == inp.sk_input());
    assert(other.objective() == inp.objective());
    lemma_sk_unique(alg, inp.sk_input(), inp.sk_iters, base, base2);
    lemma_sk_shape(alg, inp.sk_input(), inp.sk_iters, base);
    match base {
        Err(_) => {},
        Ok((p, q, used)) => {
            if inp.lm_iters > 0 {
                let a = choose|a: Seq<Candidate<T>>|
                    {
                        &&& #[trigger] runs_give(alg, inp, p, q, a)
                        &&& a.len() == run_count(inp.restarts)
                        &&& r == kept(inp, a, used)
                    };
                let b = choose|b: Seq<Candidate<T>>|
                    {
                        &&& #[trigger] runs_give(alg, other, p, q, b)
                        &&& b.len() == run_count(restarts)
                        &&& s == kept(other, b, used)
                    };
                lemma_runs_same(alg, other, inp, p, q, b);
                lemma_best_run_same(inp, other, b);
                assert forall|i: int| 0 <= i < a.len() implies a[i] == #[trigger] b[i] by {
                    assert(run_gives(alg, inp, p, q, i as nat, a[i]));
                    assert(run_gives(alg, inp, p, q, i as nat, b[i]));
                    lemma_run_unique(alg, inp, p, q, i as nat, a[i], b[i]);
                }
                lemma_best_of_more(inp, a, b);
                if a.len() == b.len() {
                    assert(a =~= b);
                }
            }
        },
    }
    let (c1, c2) = (
        inp.objective().cost(packed(p1, q1)),
        inp.objective().cost(packed(p2, q2)),
    );
    if c1.lt_spec(c2) && c2.lt_spec(c1) {
        assert(c1.lt_spec(c1));
    }
}

/// A warm start is deterministic up to the search: refining the same coefficients on the
/// same data gives the same coefficients.
pub proof fn law_warm_start_is_deterministic<T: Value, A: LinearAlgebra<T>>(
    alg: A,
    data: Seq<(T, T)>,
    weighting: ErrorWeighting,
    max_iters: nat,
    p: Seq<T>,
    q: Seq<T>,
    p1: Seq<T>,
    q1: Seq<T>,
    p2: Seq<T>,
    q2: Seq<T>,
)
    requires
        repeatable_algebra::<T, A>(alg),
        q.len() > 0,
        freely_refined(alg, data, weighting, max_iters, p, q, p1, q1),
        freely_refined(alg, data, weighting, max_iters, p, q, p2, q2),
    ensures
        p1 == p2,
        q1 == q2,
{
    let obj = Objective { data, constraints: Seq::empty(), weighting, p_terms: p.len() };
    let tolerance = T::convert_f64_spec(LM_TOLERANCE);
    let used1 = choose|used: nat| #[trigger]
        lm_refined(alg, obj, tolerance, max_iters, packed(p, q), packed(p1, q1), used);
    let used2 = choose|used: nat| #[trigger]
        lm_refined(alg, obj, tolerance, max_iters, packed(p, q), packed(p2, q2), used);
    law_refinement_is_deterministic(
        alg,
        obj,
        tolerance,
        max_iters,
        packed(p, q),
        packed(p1, q1),
        used1,
        packed(p2, q2),
        used2,
    );
    lemma_packed_unique(p1, q1, p2, q2);
}

/// A warm start without refinement is a search from the widened coefficients, rounded back:
/// its result is one that `optimize_f32` can give on them, and the one that it gives if the
/// functions repeat themselves. The data, the weighting and the linear algebra library do
/// not matter. Where rounding undoes widening, the search sets out from the coefficients
/// themselves.
pub proof fn law_warm_start_without_refinement_is_a_search<
    T: Value,
    R: Fn(T) -> T,
    X: Fn(F32) -> F32,
    A: LinearAlgebra<T>,
>(
    alg: A,
    data: Seq<(T, T)>,
    weighting: ErrorWeighting,
    p: Seq<F32>,
    q: Seq<F32>,
    scorer: Scorer<R, X>,
    radius: int,
    max_rounds: nat,
    r: F32SearchResult<T>,
    s: F32SearchResult<T>,
)
    requires
        q.len() > 0,
        warm_started(alg, data, weighting, 0, p, q, scorer, radius, max_rounds, r),
        local_search_result(
            scorer,
            radius,
            max_rounds,
            rounded(widened::<T>(p)),
            rounded(widened::<T>(q)),
            s,
        ),
    ensures
        local_search_result(
            scorer,
            radius,
            max_rounds,
            rounded(widened::<T>(p)),
            rounded(widened::<T>(q)),
            r,
        ),
        repeatable::<T, T, R>(scorer.reference) && repeatable::<F32, F32, X>(scorer.transform)
            ==> same_result(r, s),
        rounded(widened::<T>(p)) == p && rounded(widened::<T>(q)) == q ==> local_search_result(
            scorer,
            radius,
            max_rounds,
            p,
            q,
            r,
        ),
{
    let wide_p = widened::<T>(p);
    let wide_q = widened::<T>(q);
    let (p1, q1) = choose|p1: Seq<T>, q1: Seq<T>|
        {
            &&& #[trigger] freely_refined(alg, data, weighting, 0, wide_p, wide_q, p1, q1)
            &&& local_search_result(scorer, radius, max_rounds, rounded(p1), rounded(q1), r)
        };
    lemma_packed_unique(p1, q1, wide_p, wide_q);
    if repeatable::<T, T, R>(scorer.reference) && repeatable::<F32, F32, X>(scorer.transform) {
        law_search_result_is_deterministic(
            scorer,
            radius,
            max_rounds,
            rounded(wide_p),
            rounded(wide_q),
            r,
            s,
        );
    }
}

proof fn lemma_packed_unique<T>(p1: Seq<T>, q1: Seq<T>, p2: Seq<T>, q2: Seq<T>)
    requires
        p1.len() == p2.len(),
        0 < q1.len() == q2.len(),
        q1.last() == q2.last(),
        packed(p1, q1) == packed(p2, q2),
    ensures
        p1 == p2,
        q1 == q2,
{
    assert forall|i: int| 0 <= i < p1.len() implies p1[i] == p2[i] by {
        assert(packed(p1, q1)[i] == p1[i]);
        assert(packed(p2, q2)[i] == p2[i]);
    }
    assert forall|i: int| 0 <= i < q1.len() implies q1[i] == q2[i] by {
        if i < q1.len() - 1 {
            assert(packed(p1, q1)[p1.len() + i] == q1[i]);
            assert(packed(p2, q2)[p2.len() + i] == q2[i]);
        }
    }
    assert(p1 =~= p2);
    assert(q1 =~= q2);
}

} // verus!
