//! What is measured, in terms of what the functions measured give.
use crate::algebra::LinearAlgebra;
use crate::eval::{eval_f32_horner_spec, widened};
use crate::fit_laws::{difference_orders, law_refinement_never_raises_the_cost};
use crate::lm::{lm_refined, packed, LM_TOLERANCE};
use crate::optimize::{freely_refined, rounded, warm_started};
use crate::options::Constraint;
use crate::residual::Objective;
use crate::roundtrip::{
    gap_spec, over_count, roundtrip_report, roundtrip_swept, there_and_back, RoundtripReport,
};
use crate::search::{
    evaluated, local_search_result, score_of, scored, strict_order, F32SearchResult, Score, Scorer,
};
use crate::search_laws::repeatable;
use crate::single::{above_spec, below_spec, ulp_distance_spec, F32};
use crate::sweep::{
    law_max_ulp_is_maximum, max_abs_of, max_ulp_of, mono_of, observable, sum_abs_of, sum_ulp_of,
    Sweep,
};
use crate::value::Value;
use vstd::prelude::*;
use vstd::set_lib::{lemma_int_range, lemma_len_subset, set_int_range};

verus! {

/// The gap at a join is that between what the linear branch gives one ULP below the
/// threshold and the quotient at what the transform gives one ULP above it. The linear
/// branch is not transformed, and nothing else that either function gives matters.
pub proof fn law_gap_is_between_the_branches<D: Value, L: Fn(F32) -> F32, X: Fn(F32) -> F32>(
    threshold: F32,
    p: Seq<F32>,
    q: Seq<F32>,
    linear_branch: L,
    transform: X,
    gap: int,
    left: F32,
    t: F32,
)
    requires
        gap_spec::<D, L, X>(threshold, p, q, linear_branch, transform, gap),
        call_ensures(linear_branch, (below_spec(threshold),), left),
        call_ensures(transform, (above_spec(threshold),), t),
        forall|other: F32| #[trigger]
            call_ensures(linear_branch, (below_spec(threshold),), other) ==> other == left,
        forall|other: F32| #[trigger]
            call_ensures(transform, (above_spec(threshold),), other) ==> other == t,
    ensures
        gap == ulp_distance_spec(left, eval_f32_horner_spec::<D>(t, p, q)),
{
}

/// The indices below `n` at which something holds.
pub open spec fn places(holds: spec_fn(int) -> bool, n: nat) -> Set<int> {
    set_int_range(0, n as int).filter(holds)
}

proof fn lemma_places(holds: spec_fn(int) -> bool, n: nat)
    ensures
        places(holds, n).finite(),
        places(holds, 0).len() == 0,
        places(holds, n + 1).len() == places(holds, n).len() + if holds(n as int) {
            1int
        } else {
            0
        },
{
    lemma_int_range(0, n as int);
    lemma_int_range(0, 0);
    assert(places(holds, 0) =~= Set::empty());
    lemma_len_subset(places(holds, n), set_int_range(0, n as int));
    if holds(n as int) {
        assert(places(holds, n + 1) =~= places(holds, n).insert(n as int));
    } else {
        assert(places(holds, n + 1) =~= places(holds, n));
    }
}

proof fn lemma_places_same(f: spec_fn(int) -> bool, g: spec_fn(int) -> bool, n: nat)
    requires
        forall|i: int| 0 <= i < n ==> #[trigger] f(i) == g(i),
    ensures
        places(f, n) == places(g, n),
{
    assert(places(f, n) =~= places(g, n));
}

/// A miss is counted where its own error exceeds the step and nowhere else: the count is
/// the number of places at which the output is off the input by more than the step.
pub proof fn law_misses_are_counted_one_by_one<D: Value>(obs: Seq<(F32, F32)>, step: D)
    ensures
        over_count(obs, step) == places(
            |i: int|
                step.lt_spec(
                    D::from_f32_spec(obs[i].0).sub_spec(D::from_f32_spec(obs[i].1)).abs_spec(),
                ),
            obs.len(),
        ).len(),
    decreases obs.len(),
{
    let off = |i: int|
        step.lt_spec(D::from_f32_spec(obs[i].0).sub_spec(D::from_f32_spec(obs[i].1)).abs_spec());
    if obs.len() == 0 {
        lemma_places(off, 0);
    } else {
        let rest = obs.drop_last();
        let n = rest.len();
        law_misses_are_counted_one_by_one(rest, step);
        let before = |i: int|
            step.lt_spec(
                D::from_f32_spec(rest[i].0).sub_spec(D::from_f32_spec(rest[i].1)).abs_spec(),
            );
        lemma_places_same(off, before, n);
        lemma_places(off, n);
    }
}

/// One more trip changes the count by itself alone: it adds one if its own error exceeds the
/// step and nothing if not, whatever came before.
pub proof fn law_one_more_trip_counts_for_itself<D: Value>(
    obs: Seq<(F32, F32)>,
    step: D,
    out: F32,
    v: F32,
)
    ensures
        over_count(obs.push((out, v)), step) == over_count(obs, step) + if step.lt_spec(
            D::from_f32_spec(out).sub_spec(D::from_f32_spec(v)).abs_spec(),
        ) {
            1int
        } else {
            0
        },
{
    assert(obs.push((out, v)).drop_last() =~= obs);
}

/// Monotonicity is violated once for each result that is smaller than the one just before it.
pub proof fn law_violations_are_counted_one_by_one(obs: Seq<(F32, F32)>)
    ensures
        mono_of(obs) == places(
            |i: int| i > 0 && obs[i].0.less(obs[i - 1].0),
            obs.len(),
        ).len(),
    decreases obs.len(),
{
    let falls = |i: int| i > 0 && obs[i].0.less(obs[i - 1].0);
    lemma_places(falls, 0);
    if obs.len() == 1 {
        lemma_places(falls, 0);
    } else if obs.len() > 1 {
        let rest = obs.drop_last();
        let n = rest.len();
        law_violations_are_counted_one_by_one(rest);
        let before = |i: int| i > 0 && rest[i].0.less(rest[i - 1].0);
        lemma_places_same(falls, before, n);
        lemma_places(falls, n);
    }
}

/// The sum of the ULP distances is one: a single value adds its own distance, and the sum of
/// two lists together is the sum of their sums.
pub proof fn law_ulp_distances_add_up(a: Seq<(F32, F32)>, b: Seq<(F32, F32)>, o: (F32, F32))
    ensures
        sum_ulp_of(seq![o]) == ulp_distance_spec(o.0, o.1),
        sum_ulp_of(a + b) == sum_ulp_of(a) + sum_ulp_of(b),
    decreases b.len(),
{
    reveal_with_fuel(sum_ulp_of, 2);
    assert(seq![o].drop_last() =~= Seq::empty());
    if b.len() == 0 {
        assert(a + b =~= a);
    } else {
        law_ulp_distances_add_up(a, b.drop_last(), o);
        assert((a + b).drop_last() =~= a + b.drop_last());
    }
}

/// Absolute errors are added up in order, each once.
pub proof fn law_absolute_errors_add_up<D: Value>(obs: Seq<(F32, F32)>, got: F32, expected: F32)
    ensures
        sum_abs_of::<D>(Seq::empty()) == D::zero_spec(),
        sum_abs_of::<D>(obs.push((got, expected))) == sum_abs_of::<D>(obs).add_spec(
            D::from_f32_spec(got).sub_spec(D::from_f32_spec(expected)).abs_spec(),
        ),
{
    assert(obs.push((got, expected)).drop_last() =~= obs);
}

/// The numbers of a sweep: all from `lo` to `hi` in order, or `n + 1` samples
/// `lo + (hi - lo)*i/n`, rounded. Beside each stands what the reference is asked.
pub proof fn law_sweep_goes_from_lo_to_hi<D: Value>(s: Sweep, i: int)
    requires
        s.finite(),
        0 <= i < s.count(),
    ensures
        s.samples matches Some(n) ==> s.count() == n + 1 && s.point::<D>(i).1 == D::from_f32_spec(
            s.lo,
        ).add_spec(
            D::from_f32_spec(s.hi).sub_spec(D::from_f32_spec(s.lo)).mul_spec(
                D::from_u64_spec(i as u64),
            ).div_spec(D::from_u64_spec(n as u64)),
        ) && s.point::<D>(i).0 == s.point::<D>(i).1.to_f32_spec(),
        s.samples is None ==> s.lo.ordinal() + s.count() - 1 == s.hi.ordinal() && s.point::<D>(
            i,
        ).1 == D::from_f32_spec(s.point::<D>(i).0) && s.point::<D>(i).0.ordinal()
            == s.lo.ordinal() + i && !s.point::<D>(i).0.nan() && (i == 0 ==> s.point::<D>(i).0
            == s.lo),
{
}

spec fn observed<D: Value, R: Fn(D) -> D, X: Fn(F32) -> F32>(
    scorer: Scorer<R, X>,
    p: Seq<F32>,
    q: Seq<F32>,
    i: int,
    o: (F32, F32),
    w: (F32, D),
) -> bool {
    &&& call_ensures(scorer.transform, (scorer.sweep.point::<D>(i).0,), w.0)
    &&& call_ensures(scorer.reference, (scorer.sweep.point::<D>(i).1,), w.1)
    &&& o.0 == eval_f32_horner_spec::<D>(w.0, p, q)
    &&& o.1 == w.1.to_f32_spec()
}

proof fn lemma_observed<D: Value, R: Fn(D) -> D, X: Fn(F32) -> F32>(
    scorer: Scorer<R, X>,
    p: Seq<F32>,
    q: Seq<F32>,
    i: int,
    o: (F32, F32),
)
    requires
        observable::<D, R, X>(
            scorer.reference,
            scorer.transform,
            p,
            q,
            scorer.sweep.point::<D>(i),
            o,
        ),
    ensures
        exists|w: (F32, D)| #[trigger] observed(scorer, p, q, i, o, w),
{
    let point = scorer.sweep.point::<D>(i);
    let (t, y) = choose|t: F32, y: D|
        {
            &&& #[trigger] call_ensures(scorer.transform, (point.0,), t)
            &&& #[trigger] call_ensures(scorer.reference, (point.1,), y)
            &&& o.0 == eval_f32_horner_spec::<D>(t, p, q)
            &&& o.1 == y.to_f32_spec()
        };
    assert(observed(scorer, p, q, i, o, (t, y)));
}

/// What the outcome of a search reports are the errors of the coefficients that it hands
/// back. There is one observation for each number of the sweep, the quotient of those
/// coefficients at the transformed number against the reference, rounded: `max_ulp` is the
/// largest ULP distance among them, and the averages, the largest absolute error and the
/// violations are theirs too.
pub proof fn law_search_reports_what_it_hands_back<D: Value, R: Fn(D) -> D, X: Fn(F32) -> F32>(
    scorer: Scorer<R, X>,
    radius: int,
    max_rounds: nat,
    p: Seq<F32>,
    q: Seq<F32>,
    r: F32SearchResult<D>,
) -> (seen: (Seq<(F32, F32)>, Seq<F32>, Seq<D>))
    requires
        local_search_result(scorer, radius, max_rounds, p, q, r),
    ensures
        seen.0.len() == r.values_scored,
        seen.0.len() == scorer.sweep.count(),
        forall|i: int|
            0 <= i < seen.0.len() ==> {
                &&& call_ensures(scorer.transform, (scorer.sweep.point::<D>(i).0,), seen.1[i])
                &&& call_ensures(scorer.reference, (scorer.sweep.point::<D>(i).1,), seen.2[i])
                &&& (#[trigger] seen.0[i]).0 == eval_f32_horner_spec::<D>(
                    seen.1[i],
                    r.numerator@,
                    r.denominator@,
                )
                &&& seen.0[i].1 == seen.2[i].to_f32_spec()
            },
        forall|i: int|
            0 <= i < seen.0.len() ==> ulp_distance_spec((#[trigger] seen.0[i]).0, seen.0[i].1) <= r.max_ulp,
        seen.0.len() > 0 ==> exists|i: int|
            0 <= i < seen.0.len() && ulp_distance_spec((#[trigger] seen.0[i]).0, seen.0[i].1) == r.max_ulp,
        seen.0.len() == 0 ==> r.max_ulp == 0,
        r.avg_ulp == D::from_u64_spec(sum_ulp_of(seen.0) as u64).div_spec(
            D::from_u64_spec(
                if r.values_scored == 0 {
                    1
                } else {
                    r.values_scored
                },
            ),
        ),
        r.mono_violations == places(
            |i: int| i > 0 && seen.0[i].0.less(seen.0[i - 1].0),
            seen.0.len(),
        ).len(),
        r.max_abs_err == max_abs_of::<D>(seen.0),
        r.avg_abs_err == sum_abs_of::<D>(seen.0).div_spec(
            D::from_u64_spec(
                if r.values_scored == 0 {
                    1
                } else {
                    r.values_scored
                },
            ),
        ),
        r.exhaustive <==> scorer.sweep.samples is None,
{
    let (obs, start) = choose|obs: Seq<(F32, F32)>, start: (F32, F32)|
        #[trigger] evaluated::<D, R, X>(scorer, r.numerator@, r.denominator@, obs, start)
            && r.reports(scorer.sweep, obs, start);
    let both = Seq::new(
        obs.len(),
        |i: int| choose|w: (F32, D)| #[trigger]
            observed(scorer, r.numerator@, r.denominator@, i, obs[i], w),
    );
    let ts = Seq::new(obs.len(), |i: int| both[i].0);
    let ys = Seq::new(obs.len(), |i: int| both[i].1);
    assert forall|i: int| 0 <= i < obs.len() implies {
        &&& call_ensures(scorer.transform, (scorer.sweep.point::<D>(i).0,), ts[i])
        &&& call_ensures(scorer.reference, (scorer.sweep.point::<D>(i).1,), ys[i])
        &&& (#[trigger] obs[i]).0 == eval_f32_horner_spec::<D>(
            ts[i],
            r.numerator@,
            r.denominator@,
        )
        &&& obs[i].1 == ys[i].to_f32_spec()
    } by {
        lemma_observed(scorer, r.numerator@, r.denominator@, i, obs[i]);
        assert(observed(scorer, r.numerator@, r.denominator@, i, obs[i], both[i]));
    }
    law_max_ulp_is_maximum(obs);
    law_violations_are_counted_one_by_one(obs);
    (obs, ts, ys)
}

/// The error at the boundary is the error at the start of the domain: the ULP distance
/// between the quotient that is handed back, at the transform of `lo`, and the reference at
/// `lo`. In an exhaustive sweep that is the error at the first number.
pub proof fn law_boundary_error_is_that_at_the_start<D: Value, R: Fn(D) -> D, X: Fn(F32) -> F32>(
    scorer: Scorer<R, X>,
    radius: int,
    max_rounds: nat,
    p: Seq<F32>,
    q: Seq<F32>,
    r: F32SearchResult<D>,
    t: F32,
    y: D,
)
    requires
        repeatable::<D, D, R>(scorer.reference),
        repeatable::<F32, F32, X>(scorer.transform),
        local_search_result(scorer, radius, max_rounds, p, q, r),
        call_ensures(scorer.transform, (scorer.sweep.lo,), t),
        call_ensures(scorer.reference, (D::from_f32_spec(scorer.sweep.lo),), y),
    ensures
        r.boundary_ulp == ulp_distance_spec(
            eval_f32_horner_spec::<D>(t, r.numerator@, r.denominator@),
            y.to_f32_spec(),
        ),
        scorer.sweep.samples is None && scorer.sweep.lo.at_most(scorer.sweep.hi)
            ==> r.boundary_ulp <= r.max_ulp,
{
    let (obs, start) = choose|obs: Seq<(F32, F32)>, start: (F32, F32)|
        #[trigger] evaluated::<D, R, X>(scorer, r.numerator@, r.denominator@, obs, start)
            && r.reports(scorer.sweep, obs, start);
    assert(start.0 == eval_f32_horner_spec::<D>(t, r.numerator@, r.denominator@));
    assert(start.1 == y.to_f32_spec());
    if scorer.sweep.samples is None && scorer.sweep.lo.at_most(scorer.sweep.hi) {
        assert(observable::<D, R, X>(
            scorer.reference,
            scorer.transform,
            r.numerator@,
            r.denominator@,
            scorer.sweep.point::<D>(0),
            obs[0],
        ));
        assert(obs[0].0 == start.0 && obs[0].1 == start.1);
        law_max_ulp_is_maximum(obs);
    }
}

/// A candidate is scored by the same figures as are reported: whatever a search scores, the
/// boundary figure is that of the start of the domain, and the rest that of the sweep.
pub proof fn law_candidates_are_scored_at_the_start<D: Value, R: Fn(D) -> D, X: Fn(F32) -> F32>(
    scorer: Scorer<R, X>,
    p: Seq<F32>,
    q: Seq<F32>,
    s: Score<D>,
    t: F32,
    y: D,
)
    requires
        repeatable::<D, D, R>(scorer.reference),
        repeatable::<F32, F32, X>(scorer.transform),
        scored(scorer, p, q, s),
        call_ensures(scorer.transform, (scorer.sweep.lo,), t),
        call_ensures(scorer.reference, (D::from_f32_spec(scorer.sweep.lo),), y),
    ensures
        s.boundary == ulp_distance_spec(eval_f32_horner_spec::<D>(t, p, q), y.to_f32_spec()),
{
    let (obs, start) = choose|obs: Seq<(F32, F32)>, start: (F32, F32)|
        #[trigger] evaluated::<D, R, X>(scorer, p, q, obs, start) && s == score_of::<D>(
            scorer.metric,
            obs,
            start,
        );
    assert(start.0 == eval_f32_horner_spec::<D>(t, p, q));
    assert(start.1 == y.to_f32_spec());
}

/// What a roundtrip report says are the errors of going there and back: there is one trip
/// for each number of the sweep, from the number through `forward` and then `inverse`. The
/// counts are of the trips that are off by more than 1/65535 and by more than 0.5/255.
pub proof fn law_roundtrip_reports_its_trips<D: Value, F: Fn(F32) -> F32, G: Fn(F32) -> F32>(
    forward: F,
    inverse: G,
    sweep: Sweep,
    r: RoundtripReport<D>,
) -> (trips: (Seq<(F32, F32)>, Seq<F32>))
    requires
        roundtrip_report(forward, inverse, sweep, r),
    ensures
        trips.0.len() == r.values_scored,
        trips.0.len() == sweep.count(),
        forall|i: int|
            0 <= i < trips.0.len() ==> {
                &&& (#[trigger] trips.0[i]).1 == sweep.point::<D>(i).0
                &&& call_ensures(forward, (trips.0[i].1,), trips.1[i])
                &&& call_ensures(inverse, (trips.1[i],), trips.0[i].0)
            },
        forall|i: int|
            0 <= i < trips.0.len() ==> ulp_distance_spec((#[trigger] trips.0[i]).0, trips.0[i].1) <= r.max_ulp,
        trips.0.len() > 0 ==> exists|i: int|
            0 <= i < trips.0.len() && ulp_distance_spec((#[trigger] trips.0[i]).0, trips.0[i].1) == r.max_ulp,
        trips.0.len() == 0 ==> r.max_ulp == 0,
        r.u16_over_1 == places(
            |i: int|
                D::convert_f64_spec(0x3ef0_0010_0010_0010).lt_spec(
                    D::from_f32_spec(trips.0[i].0).sub_spec(D::from_f32_spec(trips.0[i].1)).abs_spec(),
                ),
            trips.0.len(),
        ).len(),
        r.u8_over_half == places(
            |i: int|
                D::convert_f64_spec(0x3f60_1010_1010_1010).lt_spec(
                    D::from_f32_spec(trips.0[i].0).sub_spec(D::from_f32_spec(trips.0[i].1)).abs_spec(),
                ),
            trips.0.len(),
        ).len(),
        r.max_abs_err == max_abs_of::<D>(trips.0),
        r.avg_abs_err == sum_abs_of::<D>(trips.0).div_spec(
            D::from_u64_spec(
                if r.values_scored == 0 {
                    1
                } else {
                    r.values_scored
                },
            ),
        ),
        r.exhaustive <==> sweep.samples is None,
{
    let obs = choose|obs: Seq<(F32, F32)>|
        #[trigger] roundtrip_swept::<D, F, G>(forward, inverse, sweep, obs) && r.reports(
            sweep,
            obs,
        );
    let us = Seq::new(
        obs.len(),
        |i: int| choose|u: F32|
            #[trigger] call_ensures(forward, (obs[i].1,), u) && call_ensures(
                inverse,
                (u,),
                obs[i].0,
            ),
    );
    assert forall|i: int| 0 <= i < obs.len() implies {
        &&& (#[trigger] obs[i]).1 == sweep.point::<D>(i).0
        &&& call_ensures(forward, (obs[i].1,), us[i])
        &&& call_ensures(inverse, (us[i],), obs[i].0)
    } by {
        assert(there_and_back(forward, inverse, obs[i].1, obs[i].0));
    }
    law_max_ulp_is_maximum(obs);
    law_misses_are_counted_one_by_one(obs, D::convert_f64_spec(0x3ef0_0010_0010_0010));
    law_misses_are_counted_one_by_one(obs, D::convert_f64_spec(0x3f60_1010_1010_1010));
    (obs, us)
}

/// A free refinement minimizes what it was asked to: it is a refinement of the objective of
/// the data alone, by the weighting that was given, from the coefficients that were given.
/// It never raises that objective, and moves neither the numbers of coefficients nor the
/// leading one of the denominator.
pub proof fn law_free_refinement_minimizes_what_was_asked<T: Value, A: LinearAlgebra<T>>(
    alg: A,
    obj: Objective<T>,
    max_iters: nat,
    p: Seq<T>,
    q: Seq<T>,
    new_p: Seq<T>,
    new_q: Seq<T>,
) -> (used: nat)
    requires
        obj.constraints == Seq::<Constraint<T>>::empty(),
        obj.p_terms == p.len(),
        freely_refined(alg, obj.data, obj.weighting, max_iters, p, q, new_p, new_q),
    ensures
        lm_refined(
            alg,
            obj,
            T::convert_f64_spec(0x3cd2_03af_9ee7_5616),
            max_iters,
            p + q.drop_last(),
            new_p + new_q.drop_last(),
            used,
        ),
        used <= max_iters,
        new_p.len() == p.len(),
        new_q.len() == q.len(),
        new_q.last() == q.last(),
        strict_order::<T>() && difference_orders::<T>() ==> !obj.cost(
            p + q.drop_last(),
        ).lt_spec(obj.cost(new_p + new_q.drop_last())),
{
    let tolerance = T::convert_f64_spec(LM_TOLERANCE);
    let used = choose|used: nat| #[trigger]
        lm_refined(alg, obj, tolerance, max_iters, packed(p, q), packed(new_p, new_q), used);
    if strict_order::<T>() && difference_orders::<T>() {
        law_refinement_never_raises_the_cost(
            alg,
            obj,
            tolerance,
            max_iters,
            packed(p, q),
            packed(new_p, new_q),
            used,
        );
        let (a, b) = (obj.cost(packed(p, q)), obj.cost(packed(new_p, new_q)));
        if a.lt_spec(b) && b.lt_spec(a) {
            assert(a.lt_spec(a));
        }
    }
    used
}

/// A warm start widens the coefficients that it is given, refines them on the data by the
/// weighting that was asked for, and searches from what that rounds to. The refinement never
/// raises the objective of that weighting.
pub proof fn law_warm_start_refines_by_the_weighting<
    T: Value,
    R: Fn(T) -> T,
    X: Fn(F32) -> F32,
    A: LinearAlgebra<T>,
>(
    alg: A,
    obj: Objective<T>,
    lm_iters: nat,
    p: Seq<F32>,
    q: Seq<F32>,
    scorer: Scorer<R, X>,
    radius: int,
    max_rounds: nat,
    r: F32SearchResult<T>,
) -> (refined: (Seq<T>, Seq<T>, nat))
    requires
        q.len() > 0,
        obj.constraints == Seq::<Constraint<T>>::empty(),
        obj.p_terms == p.len(),
        warm_started(
            alg,
            obj.data,
            obj.weighting,
            lm_iters,
            p,
            q,
            scorer,
            radius,
            max_rounds,
            r,
        ),
    ensures
        ({
            let (new_p, new_q, used) = refined;
            let start = Seq::new(
                (p.len() + q.len() - 1) as nat,
                |i: int|
                    T::from_f32_spec(
                        if i < p.len() {
                            p[i]
                        } else {
                            q[i - p.len()]
                        },
                    ),
            );
            &&& new_p.len() == p.len()
            &&& new_q.len() == q.len()
            &&& new_q.last() == T::from_f32_spec(q.last())
            &&& lm_refined(
                alg,
                obj,
                T::convert_f64_spec(0x3cd2_03af_9ee7_5616),
                lm_iters,
                start,
                new_p + new_q.drop_last(),
                used,
            )
            &&& strict_order::<T>() && difference_orders::<T>() ==> !obj.cost(start).lt_spec(
                obj.cost(new_p + new_q.drop_last()),
            )
            &&& local_search_result(
                scorer,
                radius,
                max_rounds,
                Seq::new(new_p.len(), |i: int| new_p[i].to_f32_spec()),
                Seq::new(new_q.len(), |i: int| new_q[i].to_f32_spec()),
                r,
            )
        }),
{
    let wide_p = widened::<T>(p);
    let wide_q = widened::<T>(q);
    let (new_p, new_q) = choose|new_p: Seq<T>, new_q: Seq<T>|
        {
            &&& #[trigger] freely_refined(
                alg,
                obj.data,
                obj.weighting,
                lm_iters,
                wide_p,
                wide_q,
                new_p,
                new_q,
            )
            &&& local_search_result(scorer, radius, max_rounds, rounded(new_p), rounded(new_q), r)
        };
    let used = law_free_refinement_minimizes_what_was_asked(
        alg,
        obj,
        lm_iters,
        wide_p,
        wide_q,
        new_p,
        new_q,
    );
    let start = Seq::new(
        (p.len() + q.len() - 1) as nat,
        |i: int|
            T::from_f32_spec(
                if i < p.len() {
                    p[i]
                } else {
                    q[i - p.len()]
                },
            ),
    );
    assert(start =~= wide_p + wide_q.drop_last());
    assert(rounded(new_p) =~= Seq::new(new_p.len(), |i: int| new_p[i].to_f32_spec()));
    assert(rounded(new_q) =~= Seq::new(new_q.len(), |i: int| new_q[i].to_f32_spec()));
    (new_p, new_q, used)
}

/// The largest errors take one more observation: they grow to its error if that is larger, and
/// stay if not.
pub proof fn law_largest_errors_take_one_more<D: Value>(
    obs: Seq<(F32, F32)>,
    got: F32,
    expected: F32,
)
    ensures
        ({
            let e = D::from_f32_spec(got).sub_spec(D::from_f32_spec(expected)).abs_spec();
            let d = ulp_distance_spec(got, expected);
            &&& max_abs_of::<D>(Seq::empty()) == D::zero_spec()
            &&& max_abs_of::<D>(obs).lt_spec(e) ==> max_abs_of::<D>(obs.push((got, expected))) == e
            &&& !max_abs_of::<D>(obs).lt_spec(e) ==> max_abs_of::<D>(obs.push((got, expected)))
                == max_abs_of::<D>(obs)
            &&& max_ulp_of(Seq::empty()) == 0
            &&& max_ulp_of(obs) < d ==> max_ulp_of(obs.push((got, expected))) == d
            &&& max_ulp_of(obs) >= d ==> max_ulp_of(obs.push((got, expected))) == max_ulp_of(obs)
        }),
{
    assert(obs.push((got, expected)).drop_last() =~= obs);
}

} // verus!
