//! What a fit does with its constraints, its restarts and its options, spelled out.
use crate::algebra::LinearAlgebra;
use crate::error::Error;
use crate::exact::lemma_snaps_keep_the_upper_terms;
use crate::fit::{
    best_run, cost_of, fit_from, fit_gives, kept, perturbed_p, perturbed_q, run_count, run_gives,
    runs_give, snapped_to_all, Candidate, FitInput,
};
use crate::fit_laws::{
    difference_orders, law_fit_is_monic, law_refinement_never_raises_the_cost,
    law_restarts_keep_the_best, lemma_best_run_in_range, lemma_best_run_same, lemma_runs_same,
    lemma_sk_shape,
};
use crate::lm::{lm_refined, packed};
use crate::options::{Constraint, ConstraintMode, RationalFitOptions};
use crate::phase_laws::law_linear_fit_fails_where_the_library_does;
use crate::polynomial::horner_spec;
use crate::rational_fit::{
    data_result, fit_input, fit_result, function_result, larger_degree, max_x, min_x, sampled,
    RationalFit,
};
use crate::report_laws::{law_range_is_that_of_the_data, ordered};
use crate::residual::Objective;
use crate::search::strict_order;
use crate::sk::{sk_fit, SkInput};
use crate::value::{cast_or, count_or, Value};
use vstd::prelude::*;

verus! {

proof fn lemma_refined_run<T: Value, A: LinearAlgebra<T>>(
    alg: A,
    inp: FitInput<T>,
    p: Seq<T>,
    q: Seq<T>,
    used: nat,
) -> (r: (Seq<T>, Seq<T>, Seq<Candidate<T>>))
    requires
        inp.p_terms > 0,
        inp.q_terms > 0,
        inp.lm_iters > 0,
        fit_gives(alg, inp, Ok((p, q, used))),
    ensures
        sk_fit(alg, inp.sk_input(), inp.sk_iters, Ok((r.0, r.1, used))),
        r.0.len() == inp.p_terms,
        r.1.len() == inp.q_terms,
        r.1.last() == T::one_spec(),
        runs_give(alg, inp, r.0, r.1, r.2),
        r.2.len() == run_count(inp.restarts),
        0 <= best_run(inp, r.2) < r.2.len(),
        p == inp.finished(r.2[best_run(inp, r.2)].p, q),
        q == r.2[best_run(inp, r.2)].q,
{
    let res = Ok::<(Seq<T>, Seq<T>, nat), Error>((p, q, used));
    let base = choose|base: Result<(Seq<T>, Seq<T>, nat), Error>| #[trigger]
        sk_fit(alg, inp.sk_input(), inp.sk_iters, base) && fit_from(alg, inp, base, res);
    lemma_sk_shape(alg, inp.sk_input(), inp.sk_iters, base);
    match base {
        Err(_) => (p, q, Seq::empty()),
        Ok((p0, q0, u0)) => {
            let runs = choose|runs: Seq<Candidate<T>>|
                {
                    &&& #[trigger] runs_give(alg, inp, p0, q0, runs)
                    &&& runs.len() == run_count(inp.restarts)
                    &&& res == kept(inp, runs, u0)
                };
            lemma_best_run_in_range(inp, runs);
            (p0, q0, runs)
        },
    }
}

proof fn lemma_finished<T: Value>(inp: FitInput<T>, free: Seq<T>, q: Seq<T>)
    requires
        free.len() > 0,
    ensures
        inp.finished(free, q).len() == free.len(),
        inp.finished(free, q).drop_first() == free.drop_first(),
{
    lemma_snaps_keep_the_upper_terms(free, q, inp.constraints);
}

/// The refinement sees constraints in `Both` and in no other mode: the denominator of a fit,
/// and its numerator but for the constant term, end a refinement whose objective is the
/// data alone, or the data and all constraints in `Both`. Where nothing is snapped, in
/// `Both` and `SkOnly`, so does the constant term.
pub proof fn law_refinement_sees_constraints_in_both_only<T: Value, A: LinearAlgebra<T>>(
    alg: A,
    inp: FitInput<T>,
    p: Seq<T>,
    q: Seq<T>,
    used: nat,
)
    requires
        inp.p_terms > 0,
        inp.q_terms > 0,
        inp.lm_iters > 0,
        fit_gives(alg, inp, Ok((p, q, used))),
    ensures
        inp.mode == ConstraintMode::Both ==> exists|start: Seq<T>, n: nat| #[trigger]
            lm_refined(
                alg,
                Objective {
                    data: inp.data,
                    constraints: inp.constraints,
                    weighting: inp.weighting,
                    p_terms: inp.p_terms,
                },
                inp.tolerance,
                inp.lm_iters,
                start,
                packed(p, q),
                n,
            ),
        inp.mode == ConstraintMode::SkOnly ==> exists|start: Seq<T>, n: nat| #[trigger]
            lm_refined(
                alg,
                Objective {
                    data: inp.data,
                    constraints: Seq::empty(),
                    weighting: inp.weighting,
                    p_terms: inp.p_terms,
                },
                inp.tolerance,
                inp.lm_iters,
                start,
                packed(p, q),
                n,
            ),
        inp.mode == ConstraintMode::SnapOnly || inp.mode == ConstraintMode::SkThenSnap ==> exists|
            start: Seq<T>,
            free: Seq<T>,
            n: nat,
        |
            {
                &&& #[trigger] lm_refined(
                    alg,
                    Objective {
                        data: inp.data,
                        constraints: Seq::empty(),
                        weighting: inp.weighting,
                        p_terms: inp.p_terms,
                    },
                    inp.tolerance,
                    inp.lm_iters,
                    start,
                    packed(free, q),
                    n,
                )
                &&& free.len() == p.len()
                &&& free.drop_first() == p.drop_first()
            },
{
    let (p0, q0, runs) = lemma_refined_run(alg, inp, p, q, used);
    let b = best_run(inp, runs);
    assert(run_gives(alg, inp, p0, q0, b as nat, runs[b]));
    lemma_finished(inp, runs[b].p, q);
}

proof fn lemma_linear_start<T: Value, A: LinearAlgebra<T>>(
    alg: A,
    inp: FitInput<T>,
    p: Seq<T>,
    q: Seq<T>,
    used: nat,
) -> (r: (Seq<T>, Seq<T>))
    requires
        inp.p_terms > 0,
        inp.q_terms > 0,
        fit_gives(alg, inp, Ok((p, q, used))),
    ensures
        sk_fit(alg, inp.sk_input(), inp.sk_iters, Ok((r.0, r.1, used))),
        r.0.len() == inp.p_terms,
        r.1.len() == inp.q_terms,
        r.1.last() == T::one_spec(),
        inp.lm_iters == 0 ==> q == r.1 && p == inp.finished(r.0, q),
{
    let res = Ok::<(Seq<T>, Seq<T>, nat), Error>((p, q, used));
    let base = choose|base: Result<(Seq<T>, Seq<T>, nat), Error>| #[trigger]
        sk_fit(alg, inp.sk_input(), inp.sk_iters, base) && fit_from(alg, inp, base, res);
    lemma_sk_shape(alg, inp.sk_input(), inp.sk_iters, base);
    match base {
        Err(_) => (p, q),
        Ok((p0, q0, u0)) => (p0, q0),
    }
}

/// The linear fit that a fit sets out from sees all constraints in `SkThenSnap`, `SkOnly`
/// and `Both`, and none in `SnapOnly`. Its iterations are the ones that are reported, and
/// without refinement its coefficients are those of the fit, but for the constant term where
/// that is snapped.
pub proof fn law_linear_fit_sees_constraints_unless_only_snapped<T: Value, A: LinearAlgebra<T>>(
    alg: A,
    inp: FitInput<T>,
    p: Seq<T>,
    q: Seq<T>,
    used: nat,
)
    requires
        inp.p_terms > 0,
        inp.q_terms > 0,
        fit_gives(alg, inp, Ok((p, q, used))),
    ensures
        inp.mode == ConstraintMode::SnapOnly ==> exists|p0: Seq<T>, q0: Seq<T>|
            {
                &&& #[trigger] sk_fit(
                    alg,
                    SkInput {
                        data: inp.data,
                        constraints: Seq::empty(),
                        weighting: inp.weighting,
                        p_terms: inp.p_terms,
                        q_free: (inp.q_terms - 1) as nat,
                        tolerance: inp.tolerance,
                    },
                    inp.sk_iters,
                    Ok((p0, q0, used)),
                )
                &&& p0.len() == inp.p_terms
                &&& inp.lm_iters == 0 ==> q == q0 && p.drop_first() == p0.drop_first()
            },
        inp.mode != ConstraintMode::SnapOnly ==> exists|p0: Seq<T>, q0: Seq<T>|
            {
                &&& #[trigger] sk_fit(
                    alg,
                    SkInput {
                        data: inp.data,
                        constraints: inp.constraints,
                        weighting: inp.weighting,
                        p_terms: inp.p_terms,
                        q_free: (inp.q_terms - 1) as nat,
                        tolerance: inp.tolerance,
                    },
                    inp.sk_iters,
                    Ok((p0, q0, used)),
                )
                &&& p0.len() == inp.p_terms
                &&& inp.lm_iters == 0 ==> q == q0 && p.drop_first() == p0.drop_first()
                &&& inp.lm_iters == 0 && inp.mode != ConstraintMode::SkThenSnap ==> p == p0
            },
{
    let (p0, q0) = lemma_linear_start(alg, inp, p, q, used);
    lemma_finished(inp, p0, q0);
}

/// A fit is snapped in `SnapOnly` and `SkThenSnap`: its constant term is the one with which
/// it comes to the last constraint, `y*Q(x)` less the other terms of `P` at `x`.
pub proof fn law_fit_is_snapped_to_its_last_constraint<T: Value, A: LinearAlgebra<T>>(
    alg: A,
    inp: FitInput<T>,
    p: Seq<T>,
    q: Seq<T>,
    used: nat,
)
    requires
        inp.p_terms > 0,
        inp.q_terms > 0,
        inp.constraints.len() > 0,
        inp.mode == ConstraintMode::SnapOnly || inp.mode == ConstraintMode::SkThenSnap,
        fit_gives(alg, inp, Ok((p, q, used))),
    ensures
        ({
            let c = inp.constraints.last();
            p[0] == c.y.mul_spec(horner_spec(q, c.x)).sub_spec(
                if inp.p_terms > 1 {
                    c.x.mul_spec(horner_spec(p.drop_first(), c.x))
                } else {
                    T::zero_spec()
                },
            )
        }),
{
    if inp.lm_iters == 0 {
        let (p0, q0) = lemma_linear_start(alg, inp, p, q, used);
        lemma_last_snap(inp.constraints, p0, q);
    } else {
        let (p0, q0, runs) = lemma_refined_run(alg, inp, p, q, used);
        let b = best_run(inp, runs);
        assert(run_gives(alg, inp, p0, q0, b as nat, runs[b]));
        lemma_last_snap(inp.constraints, runs[b].p, q);
    }
}

proof fn lemma_last_snap<T: Value>(cs: Seq<Constraint<T>>, free: Seq<T>, q: Seq<T>)
    requires
        free.len() > 0,
        cs.len() > 0,
    ensures
        snapped_to_all(free, q, cs).len() == free.len(),
        snapped_to_all(free, q, cs)[0] == cs.last().y.mul_spec(
            horner_spec(q, cs.last().x),
        ).sub_spec(
            if free.len() > 1 {
                cs.last().x.mul_spec(
                    horner_spec(snapped_to_all(free, q, cs).drop_first(), cs.last().x),
                )
            } else {
                T::zero_spec()
            },
        ),
{
    lemma_snaps_keep_the_upper_terms(free, q, cs);
    lemma_snaps_keep_the_upper_terms(free, q, cs.drop_last());
}

/// Where the `r`-th run of a fit sets out: from the linear fit itself, or with each coefficient
/// `c` moved to `c * (1 + 0.05*sin(phase))`, at a phase of `7.319*r + 2.903*i` for the `i`-th of
/// the numerator and `5.147*r + 3.571*i` for the `i`-th of the denominator.
pub open spec fn set_out<T: Value>(p: Seq<T>, q: Seq<T>, r: int) -> Seq<T> {
    Seq::new(
        (p.len() + q.len() - 1) as nat,
        |i: int|
            {
                let above = i < p.len();
                let c = if above {
                    p[i]
                } else {
                    q[i - p.len()]
                };
                let degree: int = if above {
                    i
                } else {
                    i - p.len()
                };
                let turn: u64 = if above {
                    0x401d_46a7_ef9d_b22d
                } else {
                    0x4014_9687_2b02_0c4a
                };
                let shift: u64 = if above {
                    0x4007_3958_1062_4dd3
                } else {
                    0x400c_9168_72b0_20c5
                };
                let phase = count_or(r as usize, T::one_spec()).mul_spec(
                    cast_or(turn, T::one_spec()),
                ).add_spec(
                    count_or(degree as usize, T::zero_spec()).mul_spec(
                        cast_or(shift, T::one_spec()),
                    ),
                );
                if r == 0 {
                    c
                } else {
                    c.mul_spec(
                        T::one_spec().add_spec(
                            cast_or(0x3fa9_9999_9999_999a, T::zero_spec()).mul_spec(
                                phase.sin_spec(),
                            ),
                        ),
                    )
                }
            },
    )
}

proof fn lemma_sets_out<T: Value, A: LinearAlgebra<T>>(
    alg: A,
    inp: FitInput<T>,
    p: Seq<T>,
    q: Seq<T>,
    r: int,
    c: Candidate<T>,
)
    requires
        q.len() > 0,
        r >= 0,
        run_gives(alg, inp, p, q, r as nat, c),
    ensures
        lm_refined(
            alg,
            inp.objective(),
            inp.tolerance,
            inp.lm_iters,
            set_out(p, q, r),
            packed(c.p, c.q),
            c.used,
        ),
{
    if r == 0 {
        assert(set_out(p, q, r) =~= packed(p, q));
    } else {
        assert(set_out(p, q, r) =~= packed(perturbed_p(p, r as nat), perturbed_q(q, r as nat)));
    }
}

/// What is said of the runs of a fit: how they end, after how many iterations, and which of
/// them is handed back.
pub ghost struct Runs<T> {
    pub p: Seq<T>,
    pub q: Seq<T>,
    pub ends: Seq<Seq<T>>,
    pub counts: Seq<nat>,
    pub best: int,
}

proof fn lemma_runs<T: Value, A: LinearAlgebra<T>>(
    alg: A,
    inp: FitInput<T>,
    obj: Objective<T>,
    p: Seq<T>,
    q: Seq<T>,
    used: nat,
) -> (r: Runs<T>)
    requires
        strict_order::<T>(),
        inp.p_terms > 0,
        inp.q_terms > 0,
        inp.lm_iters > 0,
        fit_gives(alg, inp, Ok((p, q, used))),
        obj == inp.objective(),
    ensures
        sk_fit(alg, inp.sk_input(), inp.sk_iters, Ok((r.p, r.q, used))),
        r.p.len() == inp.p_terms,
        r.q.len() == inp.q_terms,
        r.ends.len() == run_count(inp.restarts),
        r.counts.len() == r.ends.len(),
        forall|k: int|
            0 <= k < r.ends.len() ==> lm_refined(
                alg,
                obj,
                inp.tolerance,
                inp.lm_iters,
                set_out(r.p, r.q, k),
                #[trigger] r.ends[k],
                r.counts[k],
            ),
        0 <= r.best < r.ends.len(),
        forall|k: int|
            0 <= k < r.ends.len() ==> !obj.cost(#[trigger] r.ends[k]).lt_spec(
                obj.cost(r.ends[r.best]),
            ),
        r.ends[r.best].len() == packed(p, q).len(),
        forall|i: int|
            0 < i < r.ends[r.best].len() ==> #[trigger] r.ends[r.best][i] == packed(p, q)[i],
        !inp.mode.snaps() ==> r.ends[r.best] == packed(p, q),
{
    let (p0, q0, runs) = lemma_refined_run(alg, inp, p, q, used);
    let b = best_run(inp, runs);
    let ends = Seq::new(runs.len(), |k: int| packed(runs[k].p, runs[k].q));
    let counts = Seq::new(runs.len(), |k: int| runs[k].used);
    assert forall|k: int| 0 <= k < ends.len() implies lm_refined(
        alg,
        obj,
        inp.tolerance,
        inp.lm_iters,
        set_out(p0, q0, k),
        #[trigger] ends[k],
        counts[k],
    ) by {
        assert(run_gives(alg, inp, p0, q0, k as nat, runs[k]));
        lemma_sets_out(alg, inp, p0, q0, k, runs[k]);
    }
    assert forall|k: int| 0 <= k < ends.len() implies !obj.cost(#[trigger] ends[k]).lt_spec(
        obj.cost(ends[b]),
    ) by {
        law_restarts_keep_the_best(inp, runs, k);
    }
    assert(run_gives(alg, inp, p0, q0, b as nat, runs[b]));
    let free = runs[b].p;
    lemma_finished(inp, free, q);
    assert forall|i: int| 0 < i < ends[b].len() implies #[trigger] ends[b][i] == packed(p, q)[i] by {
        if i < free.len() {
            assert(free.drop_first()[i - 1] == p.drop_first()[i - 1]);
        }
    }
    Runs { p: p0, q: q0, ends, counts, best: b }
}

/// A fit is the best of its runs: there is a run for each restart, at least one; each refines
/// the linear fit or a perturbation of it, and none ends with a lower cost than the one that
/// is handed back. The cost counts the constraints in `Both` alone. Only a snap moves the
/// result afterwards, and only its constant term.
pub proof fn law_fit_is_the_best_of_its_runs<T: Value, A: LinearAlgebra<T>>(
    alg: A,
    inp: FitInput<T>,
    obj: Objective<T>,
    p: Seq<T>,
    q: Seq<T>,
    used: nat,
) -> (r: Runs<T>)
    requires
        strict_order::<T>(),
        inp.p_terms > 0,
        inp.q_terms > 0,
        inp.lm_iters > 0,
        fit_gives(alg, inp, Ok((p, q, used))),
        obj.data == inp.data,
        inp.mode == ConstraintMode::Both ==> obj.constraints == inp.constraints,
        inp.mode != ConstraintMode::Both ==> obj.constraints == Seq::<Constraint<T>>::empty(),
        obj.weighting == inp.weighting,
        obj.p_terms == inp.p_terms,
    ensures
        sk_fit(alg, inp.sk_input(), inp.sk_iters, Ok((r.p, r.q, used))),
        r.ends.len() == inp.restarts || r.ends.len() == 1 && inp.restarts == 0,
        forall|k: int|
            0 <= k < r.ends.len() ==> lm_refined(
                alg,
                obj,
                inp.tolerance,
                inp.lm_iters,
                set_out(r.p, r.q, k),
                #[trigger] r.ends[k],
                r.counts[k],
            ),
        0 <= r.best < r.ends.len(),
        forall|k: int|
            0 <= k < r.ends.len() ==> !obj.cost(#[trigger] r.ends[k]).lt_spec(
                obj.cost(r.ends[r.best]),
            ),
        r.ends[r.best].len() == packed(p, q).len(),
        forall|i: int|
            0 < i < r.ends[r.best].len() ==> #[trigger] r.ends[r.best][i] == packed(p, q)[i],
        inp.mode == ConstraintMode::Both || inp.mode == ConstraintMode::SkOnly
            ==> r.ends[r.best] == packed(p, q),
{
    lemma_runs(alg, inp, obj, p, q, used)
}

proof fn lemma_no_worse_than_start<T: Value, A: LinearAlgebra<T>>(
    alg: A,
    inp: FitInput<T>,
    obj: Objective<T>,
    p: Seq<T>,
    q: Seq<T>,
    used: nat,
) -> (r: (Seq<T>, Seq<T>))
    requires
        strict_order::<T>(),
        difference_orders::<T>(),
        inp.p_terms > 0,
        inp.q_terms > 0,
        !inp.mode.snaps(),
        fit_gives(alg, inp, Ok((p, q, used))),
        obj == inp.objective(),
    ensures
        sk_fit(alg, inp.sk_input(), inp.sk_iters, Ok((r.0, r.1, used))),
        !obj.cost(packed(r.0, r.1)).lt_spec(obj.cost(packed(p, q))),
{
    if inp.lm_iters == 0 {
        lemma_linear_start(alg, inp, p, q, used)
    } else {
        let runs = lemma_runs(alg, inp, obj, p, q, used);
        let (p0, q0) = (runs.p, runs.q);
        let first = runs.ends[0];
        assert(set_out(p0, q0, 0) =~= packed(p0, q0));
        law_refinement_never_raises_the_cost(
            alg,
            obj,
            inp.tolerance,
            inp.lm_iters,
            packed(p0, q0),
            first,
            runs.counts[0],
        );
        lemma_no_rise(obj.cost(packed(p0, q0)), obj.cost(first), obj.cost(packed(p, q)));
        (p0, q0)
    }
}

proof fn lemma_no_rise<T: Value>(start: T, first: T, end: T)
    requires
        strict_order::<T>(),
        first == start || first.lt_spec(start),
        !first.lt_spec(end),
    ensures
        !start.lt_spec(end),
{
    if start.lt_spec(end) && first.lt_spec(start) {
        assert(first.lt_spec(end));
    }
}

/// Refinement pays in its own terms: what a fit hands back where nothing is snapped has a cost
/// no higher than the linear fit that it set out from, which saw all constraints. The cost is
/// that of the data by the error measure that was asked for, with the constraints in `Both`
/// alone.
pub proof fn law_fit_is_no_worse_than_its_linear_start<T: Value, A: LinearAlgebra<T>>(
    alg: A,
    inp: FitInput<T>,
    obj: Objective<T>,
    p: Seq<T>,
    q: Seq<T>,
    used: nat,
) -> (r: (Seq<T>, Seq<T>))
    requires
        strict_order::<T>(),
        difference_orders::<T>(),
        inp.p_terms > 0,
        inp.q_terms > 0,
        inp.mode == ConstraintMode::Both || inp.mode == ConstraintMode::SkOnly,
        fit_gives(alg, inp, Ok((p, q, used))),
        obj.data == inp.data,
        inp.mode == ConstraintMode::Both ==> obj.constraints == inp.constraints,
        inp.mode != ConstraintMode::Both ==> obj.constraints == Seq::<Constraint<T>>::empty(),
        obj.weighting == inp.weighting,
        obj.p_terms == inp.p_terms,
    ensures
        sk_fit(
            alg,
            SkInput {
                data: inp.data,
                constraints: inp.constraints,
                weighting: inp.weighting,
                p_terms: inp.p_terms,
                q_free: (inp.q_terms - 1) as nat,
                tolerance: inp.tolerance,
            },
            inp.sk_iters,
            Ok((r.0, r.1, used)),
        ),
        !obj.cost(packed(r.0, r.1)).lt_spec(obj.cost(packed(p, q))),
{
    lemma_no_worse_than_start(alg, inp, obj, p, q, used)
}

/// Without constraints the mode does not matter: whatever a fit can give in one mode it can
/// give in any other.
pub proof fn law_mode_does_not_matter_without_constraints<T: Value, A: LinearAlgebra<T>>(
    alg: A,
    inp: FitInput<T>,
    mode: ConstraintMode,
    r: Result<(Seq<T>, Seq<T>, nat), Error>,
)
    requires
        inp.constraints.len() == 0,
        fit_gives(alg, inp, r),
    ensures
        fit_gives(alg, FitInput { mode, ..inp }, r),
{
    let other = FitInput { mode, ..inp };
    let base = choose|base: Result<(Seq<T>, Seq<T>, nat), Error>| #[trigger]
        sk_fit(alg, inp.sk_input(), inp.sk_iters, base) && fit_from(alg, inp, base, r);
    assert(inp.constraints =~= Seq::empty());
    assert(other.sk_input() == inp.sk_input());
    assert(other.objective() == inp.objective());
    assert(sk_fit(alg, other.sk_input(), other.sk_iters, base));
    match base {
        Err(_) => {},
        Ok((p, q, used)) => {
            assert(other.finished(p, q) == inp.finished(p, q));
            if inp.lm_iters > 0 {
                let runs = choose|runs: Seq<Candidate<T>>|
                    {
                        &&& #[trigger] runs_give(alg, inp, p, q, runs)
                        &&& runs.len() == run_count(inp.restarts)
                        &&& r == kept(inp, runs, used)
                    };
                lemma_runs_same(alg, inp, other, p, q, runs);
                lemma_best_run_same(inp, other, runs);
                assert(kept(inp, runs, used) == kept(other, runs, used));
            }
        },
    }
}

/// What a fit takes from its options: the linear fit makes at most `max_iterations`
/// iterations and the refinement at most `lm_iterations`, both with the tolerance, the
/// constraints, the weighting, the mode and the restarts that were asked for, and there is
/// one more coefficient than the degree.
pub proof fn law_fit_takes_its_options<T: Value, A: LinearAlgebra<T>>(
    alg: A,
    data: Seq<(T, T)>,
    range: (T, T),
    p_degree: usize,
    q_degree: usize,
    options: RationalFitOptions<T>,
    r: Result<RationalFit<T>, Error>,
)
    requires
        fit_result(alg, data, range, p_degree, q_degree, options, r),
    ensures
        fit_gives(
            alg,
            FitInput {
                data,
                p_terms: (p_degree + 1) as nat,
                q_terms: (q_degree + 1) as nat,
                sk_iters: options.max_iterations as nat,
                lm_iters: options.lm_iterations as nat,
                tolerance: options.tolerance,
                constraints: options.constraints@,
                weighting: options.weighting,
                mode: options.constraint_mode,
                restarts: options.restarts as nat,
            },
            match r {
                Ok(f) => Ok((f.p(), f.q(), f.used() as nat)),
                Err(e) => Err(e),
            },
        ),
        r matches Ok(f) ==> {
            &&& f.points() == data
            &&& f.range() == range
            &&& f.degrees() == (p_degree, q_degree)
            &&& f.p().len() == p_degree + 1
            &&& f.q().len() == q_degree + 1
            &&& f.q().last() == T::one_spec()
            &&& f.used() <= options.max_iterations
        },
{
    match r {
        Ok(f) => {
            law_fit_is_monic(
                alg,
                fit_input(data, p_degree, q_degree, options),
                f.p(),
                f.q(),
                f.used() as nat,
            );
        },
        Err(_) => {},
    }
}

/// A fit of a function is a fit to as many samples of it as were asked for, at the Chebyshev
/// nodes of the domain, `(a + b)/2 + (b - a)/2 * cos(pi*(2k + 1)/(2n))`, and its range is the
/// domain. With fewer samples than free coefficients there is none.
pub proof fn law_function_fit_is_a_fit_to_samples<T: Value, F: Fn(T) -> T, A: LinearAlgebra<T>>(
    alg: A,
    f: F,
    domain: (T, T),
    p_degree: usize,
    q_degree: usize,
    options: RationalFitOptions<T>,
    r: Result<RationalFit<T>, Error>,
)
    requires
        function_result(alg, f, domain, p_degree, q_degree, options, r),
    ensures
        options.n_samples < p_degree + q_degree + 1 ==> (r matches Err(Error::DegreeTooHigh(d))
            && (d == p_degree || d == q_degree) && d >= p_degree && d >= q_degree),
        options.n_samples >= p_degree + q_degree + 1 ==> exists|data: Seq<(T, T)>|
            {
                &&& #[trigger] fit_result(alg, data, domain, p_degree, q_degree, options, r)
                &&& data.len() == options.n_samples
                &&& forall|k: int|
                    0 <= k < data.len() ==> call_ensures(
                        f,
                        ((#[trigger] data[k]).0,),
                        data[k].1,
                    ) && data[k].0 == domain.0.add_spec(domain.1).mul_spec(
                        T::half_spec(),
                    ).add_spec(
                        domain.1.sub_spec(domain.0).mul_spec(T::half_spec()).mul_spec(
                            cast_or(0x4009_21fb_5444_2d18, T::zero_spec()).mul_spec(
                                count_or((2 * k + 1) as usize, T::zero_spec()),
                            ).div_spec(
                                count_or((2 * options.n_samples) as usize, T::one_spec()),
                            ).cos_spec(),
                        ),
                    )
            },
{
    if options.n_samples >= p_degree + q_degree + 1 {
        let data = choose|data: Seq<(T, T)>| #[trigger]
            sampled(f, options.n_samples, domain, data) && fit_result(
                alg,
                data,
                domain,
                p_degree,
                q_degree,
                options,
                r,
            );
        assert(fit_result(alg, data, domain, p_degree, q_degree, options, r));
    }
}

/// A fit fails where its linear fit does, with the same error, and nowhere else.
pub proof fn law_fit_fails_where_its_linear_fit_does<T: Value, A: LinearAlgebra<T>>(
    alg: A,
    inp: FitInput<T>,
    e: Error,
)
    requires
        inp.q_terms > 0,
        fit_gives(alg, inp, Err(e)),
    ensures
        inp.sk_iters > 0,
        inp.mode == ConstraintMode::SnapOnly ==> sk_fit(
            alg,
            SkInput {
                data: inp.data,
                constraints: Seq::empty(),
                weighting: inp.weighting,
                p_terms: inp.p_terms,
                q_free: (inp.q_terms - 1) as nat,
                tolerance: inp.tolerance,
            },
            inp.sk_iters,
            Err(e),
        ),
        inp.mode != ConstraintMode::SnapOnly ==> sk_fit(
            alg,
            SkInput {
                data: inp.data,
                constraints: inp.constraints,
                weighting: inp.weighting,
                p_terms: inp.p_terms,
                q_free: (inp.q_terms - 1) as nat,
                tolerance: inp.tolerance,
            },
            inp.sk_iters,
            Err(e),
        ),
{
    let res = Err::<(Seq<T>, Seq<T>, nat), Error>(e);
    let base = choose|base: Result<(Seq<T>, Seq<T>, nat), Error>| #[trigger]
        sk_fit(alg, inp.sk_input(), inp.sk_iters, base) && fit_from(alg, inp, base, res);
    assert(base == res);
    law_linear_fit_fails_where_the_library_does(alg, inp.sk_input(), inp.sk_iters, e);
}

/// Among runs of equal cost the earliest is kept: a run is kept only if its cost is lower than
/// that of each run before it, those without a cost left out.
pub proof fn law_earlier_run_wins_ties<T: Value>(
    inp: FitInput<T>,
    runs: Seq<Candidate<T>>,
    k: int,
)
    requires
        ordered::<T>(),
        runs.len() > 0,
        0 <= k < best_run(inp, runs),
        !inp.objective().cost(packed(runs[k].p, runs[k].q)).is_nan_spec(),
    ensures
        best_run(inp, runs) < runs.len(),
        inp.objective().cost(
            packed(runs[best_run(inp, runs)].p, runs[best_run(inp, runs)].q),
        ).lt_spec(inp.objective().cost(packed(runs[k].p, runs[k].q))),
    decreases runs.len(),
{
    lemma_best_run_in_range(inp, runs);
    if runs.len() > 1 {
        let rest = runs.drop_last();
        lemma_best_run_in_range(inp, rest);
        let c = best_run(inp, rest);
        let b = best_run(inp, runs);
        assert(rest[c] == runs[c]);
        assert(rest[k] == runs[k]);
        let (ck, cc, cb) = (cost_of(inp, runs[k]), cost_of(inp, runs[c]), cost_of(inp, runs[b]));
        if b == c {
            law_earlier_run_wins_ties(inp, rest, k);
        } else {
            law_restarts_keep_the_best(inp, rest, k);
            assert(cb.lt_spec(cc));
            assert(cb.lt_spec(ck) || ck.lt_spec(cc));
        }
    }
}

/// An error of too high a degree names the larger degree.
pub proof fn law_larger_degree_is_named(a: usize, b: usize)
    ensures
        larger_degree(a, b) >= a,
        larger_degree(a, b) >= b,
        larger_degree(a, b) == a || larger_degree(a, b) == b,
{
}

/// A fit to data is refused without data, and with fewer points than the `p_degree + 1`
/// coefficients above and the `q_degree` free ones below. Else it is a fit to all of the data,
/// over a range that covers every x and starts and ends at one of them.
pub proof fn law_data_fit_needs_a_point_for_each_coefficient<T: Value, A: LinearAlgebra<T>>(
    alg: A,
    data: Seq<(T, T)>,
    p_degree: usize,
    q_degree: usize,
    options: RationalFitOptions<T>,
    r: Result<RationalFit<T>, Error>,
) -> (range: (T, T))
    requires
        data_result(alg, data, p_degree, q_degree, options, r),
    ensures
        data.len() == 0 ==> r == Err::<RationalFit<T>, Error>(Error::NoData),
        0 < data.len() <= p_degree + q_degree ==> (r matches Err(Error::DegreeTooHigh(d)) && (d
            == p_degree || d == q_degree) && d >= p_degree && d >= q_degree),
        data.len() > p_degree + q_degree ==> {
            &&& fit_result(alg, data, range, p_degree, q_degree, options, r)
            &&& ordered::<T>() && (forall|i: int|
                0 <= i < data.len() ==> !(#[trigger] data[i]).0.is_nan_spec()) ==> {
                &&& forall|i: int|
                    0 <= i < data.len() ==> !(#[trigger] data[i]).0.lt_spec(range.0)
                        && !range.1.lt_spec(data[i].0)
                &&& exists|i: int| 0 <= i < data.len() && (#[trigger] data[i]).0 == range.0
                &&& exists|i: int| 0 <= i < data.len() && (#[trigger] data[i]).0 == range.1
            }
        },
{
    if ordered::<T>() && (forall|i: int|
        0 <= i < data.len() ==> !(#[trigger] data[i]).0.is_nan_spec()) {
        law_range_is_that_of_the_data(data, data.len());
    }
    (min_x(data, data.len()), max_x(data, data.len()))
}

} // verus!
