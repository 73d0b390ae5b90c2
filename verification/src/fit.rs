//! A whole fit: linear fit, refinement, restarts, snap.
use crate::algebra::LinearAlgebra;
use crate::error::Error;
use crate::lm::{lm_refined, pack_params, packed, refine_lm};
use crate::options::{Constraint, ConstraintMode, ErrorWeighting};
use crate::polynomial::{snapped, RationalPolynomial};
use crate::residual::{compute_cost, Objective};
use crate::sk::{fit_sk, fit_view, sk_fit, SkInput};
use crate::value::{cast_or, count_or, try_cast_or, try_count_or, Value};
use vstd::prelude::*;

verus! {

/// 7.319, how the phase of a numerator coefficient moves with the restart.
pub const P_RESTART_PHASE: u64 = 0x401d_46a7_ef9d_b22d;

/// 2.903, how the phase of a numerator coefficient moves with its degree.
pub const P_DEGREE_PHASE: u64 = 0x4007_3958_1062_4dd3;

/// 5.147, how the phase of a denominator coefficient moves with the restart.
pub const Q_RESTART_PHASE: u64 = 0x4014_9687_2b02_0c4a;

/// 3.571, how the phase of a denominator coefficient moves with its degree.
pub const Q_DEGREE_PHASE: u64 = 0x400c_9168_72b0_20c5;

/// 0.05, the relative size of a perturbation.
pub const PERTURBATION: u64 = 0x3fa9_9999_9999_999a;

/// What a fit is given.
pub ghost struct FitInput<T> {
    pub data: Seq<(T, T)>,
    pub p_terms: nat,
    pub q_terms: nat,
    pub sk_iters: nat,
    pub lm_iters: nat,
    pub tolerance: T,
    pub constraints: Seq<Constraint<T>>,
    pub weighting: ErrorWeighting,
    pub mode: ConstraintMode,
    pub restarts: nat,
}

impl<T: Value> FitInput<T> {
    /// What the linear fit sees.
    pub open spec fn sk_input(self) -> SkInput<T> {
        SkInput {
            data: self.data,
            constraints: if self.mode.in_sk() {
                self.constraints
            } else {
                Seq::empty()
            },
            weighting: self.weighting,
            p_terms: self.p_terms,
            q_free: (self.q_terms - 1) as nat,
            tolerance: self.tolerance,
        }
    }

    /// What the refinement sees.
    pub open spec fn objective(self) -> Objective<T> {
        Objective {
            data: self.data,
            constraints: if self.mode.in_lm() {
                self.constraints
            } else {
                Seq::empty()
            },
            weighting: self.weighting,
            p_terms: self.p_terms,
        }
    }

    /// The numerator in the end: snapped to the constraints if the mode says so.
    pub open spec fn finished(self, p: Seq<T>, q: Seq<T>) -> Seq<T> {
        if self.mode.snaps() {
            snapped_to_all(p, q, self.constraints)
        } else {
            p
        }
    }
}

/// The numerator after a snap to each of the points, in order.
pub open spec fn snapped_to_all<T: Value>(p: Seq<T>, q: Seq<T>, cs: Seq<Constraint<T>>) -> Seq<T>
    decreases cs.len(),
{
    if cs.len() == 0 {
        p
    } else {
        snapped(snapped_to_all(p, q, cs.drop_last()), q, cs.last().x, cs.last().y)
    }
}

/// Snaps change no more than a coefficient.
pub proof fn lemma_snaps_keep_length<T: Value>(p: Seq<T>, q: Seq<T>, cs: Seq<Constraint<T>>)
    requires
        p.len() > 0,
    ensures
        snapped_to_all(p, q, cs).len() == p.len(),
    decreases cs.len(),
{
    if cs.len() > 0 {
        lemma_snaps_keep_length(p, q, cs.drop_last());
    }
}

/// A coefficient, perturbed by up to 5%. The phases are fixed, so that a restart can
/// be repeated.
pub open spec fn perturbed_coeff<T: Value>(
    c: T,
    restart: usize,
    degree: usize,
    restart_phase: u64,
    degree_phase: u64,
) -> T {
    let phase = count_or(restart, T::one_spec()).mul_spec(
        cast_or(restart_phase, T::one_spec()),
    ).add_spec(
        count_or(degree, T::zero_spec()).mul_spec(cast_or(degree_phase, T::one_spec())),
    );
    c.mul_spec(
        T::one_spec().add_spec(cast_or(PERTURBATION, T::zero_spec()).mul_spec(phase.sin_spec())),
    )
}

/// The numerator from which a restart sets out.
pub open spec fn perturbed_p<T: Value>(p: Seq<T>, restart: nat) -> Seq<T> {
    Seq::new(
        p.len(),
        |i: int|
            perturbed_coeff(p[i], restart as usize, i as usize, P_RESTART_PHASE, P_DEGREE_PHASE),
    )
}

/// The denominator from which a restart sets out; its leading coefficient is kept.
pub open spec fn perturbed_q<T: Value>(q: Seq<T>, restart: nat) -> Seq<T> {
    Seq::new(
        q.len(),
        |i: int|
            if i < q.len() - 1 {
                perturbed_coeff(q[i], restart as usize, i as usize, Q_RESTART_PHASE, Q_DEGREE_PHASE)
            } else {
                q[i]
            },
    )
}

/// The result of one refinement.
pub ghost struct Candidate<T> {
    pub p: Seq<T>,
    pub q: Seq<T>,
    pub used: nat,
}

/// What the `r`-th run can give: the first refines the linear fit itself, each other
/// one a perturbation of it.
pub open spec fn run_gives<T: Value, A: LinearAlgebra<T>>(
    alg: A,
    inp: FitInput<T>,
    p: Seq<T>,
    q: Seq<T>,
    r: nat,
    c: Candidate<T>,
) -> bool {
    let start_p = if r == 0 {
        p
    } else {
        perturbed_p(p, r)
    };
    let start_q = if r == 0 {
        q
    } else {
        perturbed_q(q, r)
    };
    &&& c.p.len() == p.len()
    &&& c.q.len() == q.len()
    &&& c.q.last() == q.last()
    &&& lm_refined(
        alg,
        inp.objective(),
        inp.tolerance,
        inp.lm_iters,
        packed(start_p, start_q),
        packed(c.p, c.q),
        c.used,
    )
}

/// What the first runs can give.
pub open spec fn runs_give<T: Value, A: LinearAlgebra<T>>(
    alg: A,
    inp: FitInput<T>,
    p: Seq<T>,
    q: Seq<T>,
    runs: Seq<Candidate<T>>,
) -> bool {
    forall|r: int|
        0 <= r < runs.len() ==> run_gives(alg, inp, p, q, r as nat, #[trigger] runs[r])
}

/// The cost of a candidate.
pub open spec fn cost_of<T: Value>(inp: FitInput<T>, c: Candidate<T>) -> T {
    inp.objective().cost(packed(c.p, c.q))
}

/// Which of the runs is kept: the first whose cost no later one undercuts.
pub open spec fn best_run<T: Value>(inp: FitInput<T>, runs: Seq<Candidate<T>>) -> int
    decreases runs.len(),
{
    if runs.len() <= 1 {
        0
    } else {
        let b = best_run(inp, runs.drop_last());
        if cost_of(inp, runs.last()).lt_spec(cost_of(inp, runs[b])) {
            runs.len() - 1
        } else {
            b
        }
    }
}

/// How many runs there are.
pub open spec fn run_count(restarts: nat) -> nat {
    if restarts > 1 {
        restarts
    } else {
        1
    }
}

/// What a fit can give once the linear fit is known.
pub open spec fn fit_from<T: Value, A: LinearAlgebra<T>>(
    alg: A,
    inp: FitInput<T>,
    base: Result<(Seq<T>, Seq<T>, nat), Error>,
    r: Result<(Seq<T>, Seq<T>, nat), Error>,
) -> bool {
    match base {
        Err(e) => r == Err::<(Seq<T>, Seq<T>, nat), Error>(e),
        Ok((p, q, used)) => if inp.lm_iters == 0 {
            r == Ok::<(Seq<T>, Seq<T>, nat), Error>((inp.finished(p, q), q, used))
        } else {
            exists|runs: Seq<Candidate<T>>|
                {
                    &&& #[trigger] runs_give(alg, inp, p, q, runs)
                    &&& runs.len() == run_count(inp.restarts)
                    &&& r == kept(inp, runs, used)
                }
        },
    }
}

/// The run that is kept, snapped if the mode says so, with the iterations of the
/// linear fit.
pub open spec fn kept<T: Value>(inp: FitInput<T>, runs: Seq<Candidate<T>>, used: nat) -> Result<
    (Seq<T>, Seq<T>, nat),
    Error,
> {
    let b = runs[best_run(inp, runs)];
    Ok((inp.finished(b.p, b.q), b.q, used))
}

/// What a fit can give.
pub open spec fn fit_gives<T: Value, A: LinearAlgebra<T>>(
    alg: A,
    inp: FitInput<T>,
    r: Result<(Seq<T>, Seq<T>, nat), Error>,
) -> bool {
    exists|base: Result<(Seq<T>, Seq<T>, nat), Error>|
        #[trigger] sk_fit(alg, inp.sk_input(), inp.sk_iters, base) && fit_from(alg, inp, base, r)
}

fn perturb<T: Value>(c: T, restart: usize, degree: usize, restart_phase: u64, degree_phase: u64) -> (r:
    T)
    ensures
        r == perturbed_coeff(c, restart, degree, restart_phase, degree_phase),
{
    let phase = try_count_or(restart, T::one()).mul(try_cast_or(restart_phase, T::one())).add(
        try_count_or(degree, T::zero()).mul(try_cast_or(degree_phase, T::one())),
    );
    c.mul(T::one().add(try_cast_or(PERTURBATION, T::zero()).mul(phase.sin())))
}

fn perturb_all<T: Value>(poly: &RationalPolynomial<T>, restart: usize) -> (r: RationalPolynomial<T>)
    requires
        poly.q().len() > 0,
    ensures
        r.p() == perturbed_p(poly.p(), restart as nat),
        r.q() == perturbed_q(poly.q(), restart as nat),
{
    let (p, q) = poly.coefficients();
    let mut new_p: Vec<T> = Vec::new();
    let mut i: usize = 0;
    while i < p.len()
        invariant
            i <= p.len(),
            new_p@.len() == i,
            forall|k: int|
                0 <= k < i ==> #[trigger] new_p@[k] == perturbed_p(p@, restart as nat)[k],
        decreases p.len() - i,
    {
        new_p.push(perturb(p[i], restart, i, P_RESTART_PHASE, P_DEGREE_PHASE));
        i = i + 1;
    }
    let mut new_q: Vec<T> = Vec::new();
    let q_free: usize = q.len() - 1;
    let mut i: usize = 0;
    while i < q_free
        invariant
            q_free == q.len() - 1,
            i <= q_free,
            new_q@.len() == i,
            forall|k: int|
                0 <= k < i ==> #[trigger] new_q@[k] == perturbed_q(q@, restart as nat)[k],
        decreases q_free - i,
    {
        new_q.push(perturb(q[i], restart, i, Q_RESTART_PHASE, Q_DEGREE_PHASE));
        i = i + 1;
    }
    new_q.push(q[q_free]);
    assert(new_p@ =~= perturbed_p(p@, restart as nat));
    assert(new_q@ =~= perturbed_q(q@, restart as nat));
    RationalPolynomial::new(new_p, new_q)
}

fn snap_to_all<T: Value>(poly: &mut RationalPolynomial<T>, constraints: &[Constraint<T>])
    requires
        old(poly).evaluable(),
    ensures
        final(poly).p() == snapped_to_all(old(poly).p(), old(poly).q(), constraints@),
        final(poly).q() == old(poly).q(),
        final(poly).p().len() == old(poly).p().len(),
{
    let mut i: usize = 0;
    assert(constraints@.take(0) =~= Seq::empty());
    while i < constraints.len()
        invariant
            i <= constraints.len(),
            poly.evaluable(),
            poly.p() == snapped_to_all(old(poly).p(), old(poly).q(), constraints@.take(i as int)),
            poly.q() == old(poly).q(),
            poly.p().len() == old(poly).p().len(),
        decreases constraints.len() - i,
    {
        let c = constraints[i];
        poly.snap_boundary(c.x, c.y);
        proof {
            let after = constraints@.take(i + 1);
            assert(after.drop_last() =~= constraints@.take(i as int));
            assert(after.last() == c);
        }
        i = i + 1;
    }
    assert(constraints@.take(constraints@.len() as int) =~= constraints@);
}

/// Fit P(x)/Q(x) using a linear fit, refinement, and multi-restart. Returns the
/// quotient and how many iterations the linear fit used.
pub fn fit_rational<T: Value, A: LinearAlgebra<T>>(
    alg: &A,
    data: &[(T, T)],
    p_terms: usize,
    q_terms: usize,
    sk_iters: usize,
    lm_iters: usize,
    tolerance: T,
    constraints: &[Constraint<T>],
    weighting: ErrorWeighting,
    constraint_mode: ConstraintMode,
    restarts: usize,
) -> (r: Result<(RationalPolynomial<T>, usize), Error>)
    requires
        data@.len() > 0,
        p_terms > 0,
        q_terms > 0,
        p_terms + q_terms - 1 <= usize::MAX,
    ensures
        fit_gives(
            *alg,
            FitInput {
                data: data@,
                p_terms: p_terms as nat,
                q_terms: q_terms as nat,
                sk_iters: sk_iters as nat,
                lm_iters: lm_iters as nat,
                tolerance,
                constraints: constraints@,
                weighting,
                mode: constraint_mode,
                restarts: restarts as nat,
            },
            fit_view(r),
        ),
        r matches Ok((f, _)) ==> f.p().len() == p_terms && f.q().len() == q_terms,
{
    let ghost inp = FitInput {
        data: data@,
        p_terms: p_terms as nat,
        q_terms: q_terms as nat,
        sk_iters: sk_iters as nat,
        lm_iters: lm_iters as nat,
        tolerance,
        constraints: constraints@,
        weighting,
        mode: constraint_mode,
        restarts: restarts as nat,
    };
    let none: Vec<Constraint<T>> = Vec::new();
    assert(none@ =~= Seq::empty());
    let sk_constraints: &[Constraint<T>] = match constraint_mode {
        ConstraintMode::SnapOnly => none.as_slice(),
        ConstraintMode::SkThenSnap | ConstraintMode::SkOnly | ConstraintMode::Both => constraints,
    };
    let lm_constraints: &[Constraint<T>] = match constraint_mode {
        ConstraintMode::Both => constraints,
        _ => none.as_slice(),
    };
    let snap = match constraint_mode {
        ConstraintMode::SnapOnly | ConstraintMode::SkThenSnap => true,
        _ => false,
    };
    let fitted = fit_sk(
        alg,
        data,
        p_terms,
        q_terms,
        sk_iters,
        tolerance,
        sk_constraints,
        weighting,
    );
    let ghost base = fit_view(fitted);
    assert(sk_fit(*alg, inp.sk_input(), inp.sk_iters, base));
    let (base_poly, sk_used) = match fitted {
        Err(e) => {
            return Err(e);
        },
        Ok(f) => f,
    };
    if lm_iters == 0 {
        let mut poly = base_poly;
        if snap {
            snap_to_all(&mut poly, constraints);
        }
        return Ok((poly, sk_used));
    }
    // Run LM from SK result (restart 0)
    let mut best_poly = base_poly.clone();
    let lm_used: usize = refine_lm(
        alg,
        &mut best_poly,
        data,
        lm_constraints,
        weighting,
        lm_iters,
        tolerance,
    );
    let mut best_cost = compute_cost(
        data,
        lm_constraints,
        &pack_params(&best_poly),
        p_terms,
        weighting,
    );
    let ghost first = Candidate { p: best_poly.p(), q: best_poly.q(), used: lm_used as nat };
    let ghost mut runs: Seq<Candidate<T>> = seq![first];
    // Multi-restart: perturb SK result, re-run LM, keep best
    let mut r: usize = 1;
    while r < restarts
        invariant
            p_terms > 0,
            inp.objective() == (Objective {
                data: data@,
                constraints: lm_constraints@,
                weighting,
                p_terms: p_terms as nat,
            }),
            inp.tolerance == tolerance,
            inp.lm_iters == lm_iters,
            base_poly.p().len() == p_terms,
            base_poly.q().len() > 0,
            best_poly.p().len() == p_terms,
            best_poly.q().len() == base_poly.q().len(),
            1 <= r,
            restarts > 1 ==> r <= restarts,
            restarts <= 1 ==> r == 1,
            runs.len() == r,
            runs_give(*alg, inp, base_poly.p(), base_poly.q(), runs),
            0 <= best_run(inp, runs) < runs.len(),
            runs[best_run(inp, runs)].p == best_poly.p(),
            runs[best_run(inp, runs)].q == best_poly.q(),
            best_cost == cost_of(inp, runs[best_run(inp, runs)]),
        decreases restarts - r,
    {
        let mut poly = perturb_all(&base_poly, r);
        let lm_used: usize = refine_lm(
            alg,
            &mut poly,
            data,
            lm_constraints,
            weighting,
            lm_iters,
            tolerance,
        );
        let cost = compute_cost(data, lm_constraints, &pack_params(&poly), p_terms, weighting);
        proof {
            let earlier = runs;
            let c = Candidate { p: poly.p(), q: poly.q(), used: lm_used as nat };
            runs = runs.push(c);
            assert(runs.drop_last() =~= earlier);
            assert(run_gives(*alg, inp, base_poly.p(), base_poly.q(), r as nat, c));
            assert forall|k: int| 0 <= k < runs.len() implies run_gives(
                *alg,
                inp,
                base_poly.p(),
                base_poly.q(),
                k as nat,
                #[trigger] runs[k],
            ) by {
                if k < earlier.len() {
                    assert(runs[k] == earlier[k]);
                }
            }
        }
        if cost.lt(best_cost) {
            best_poly = poly;
            best_cost = cost;
        }
        r = r + 1;
    }
    assert(runs_give(*alg, inp, base_poly.p(), base_poly.q(), runs));
    // Post-hoc snap
    if snap {
        snap_to_all(&mut best_poly, constraints);
    }
    Ok((best_poly, sk_used))
}

} // verus!
