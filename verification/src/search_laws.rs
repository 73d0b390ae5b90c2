//! What holds of every coefficient search.
use crate::options::F32ScoreMetric;
use crate::search::{
    after_pick, better, candidates_scored, coeff, coeff_tried, coeffs_tried, evaluated, free_count,
    law_better_is_strict_order, law_pick_is_best, lemma_pick_range, local_search_result, nudge_at,
    nudge_count, p_with, pick, q_with, round_run, rounds_tried, score_of, scored, searched,
    strict_order, F32SearchResult, Score, Scorer, Standing,
};
use crate::single::{nudge_spec, ulp_distance_spec, F32, INFINITY_BITS};
use crate::sweep::{law_max_ulp_is_maximum, observable};
use crate::value::Value;
use vstd::prelude::*;

verus! {

/// Not worse: the same score or a better one.
pub open spec fn no_worse<D: Value>(a: Score<D>, b: Score<D>) -> bool {
    a == b || better(a, b)
}

/// A step of a search keeps what must not change and does not lose ground.
spec fn step_keeps<D: Value, R: Fn(D) -> D, X: Fn(F32) -> F32>(
    scorer: Scorer<R, X>,
    s: Standing<D>,
    t: Standing<D>,
) -> bool {
    &&& t.p.len() == s.p.len()
    &&& t.q.len() == s.q.len()
    &&& t.q.last() == s.q.last()
    &&& scored(scorer, t.p, t.q, t.best)
    &&& no_worse(t.best, s.best)
}

proof fn lemma_coeff_step<D: Value, R: Fn(D) -> D, X: Fn(F32) -> F32>(
    scorer: Scorer<R, X>,
    radius: int,
    ci: int,
    s: Standing<D>,
    t: Standing<D>,
)
    requires
        strict_order::<D>(),
        s.q.len() > 0,
        0 <= ci < free_count(s.p, s.q),
        scored(scorer, s.p, s.q, s.best),
        coeff_tried(scorer, radius, ci, s, t),
    ensures
        step_keeps(scorer, s, t),
{
    let scores = choose|scores: Seq<Score<D>>|
        #[trigger] candidates_scored(scorer, radius, ci, s, scores) && t == after_pick(
            radius,
            ci,
            s,
            scores,
        );
    law_pick_is_best(s.best, scores);
    match pick(s.best, scores) {
        Some(k) => {
            assert(scored(scorer, t.p, t.q, scores[k]));
        },
        None => {},
    }
}

proof fn lemma_round<D: Value, R: Fn(D) -> D, X: Fn(F32) -> F32>(
    scorer: Scorer<R, X>,
    radius: int,
    steps: Seq<Standing<D>>,
    i: int,
)
    requires
        strict_order::<D>(),
        0 <= i < steps.len(),
        steps[0].q.len() > 0,
        steps.len() <= free_count(steps[0].p, steps[0].q) + 1,
        scored(scorer, steps[0].p, steps[0].q, steps[0].best),
        coeffs_tried(scorer, radius, steps),
    ensures
        step_keeps(scorer, steps[0], steps[i]),
    decreases i,
{
    if i > 0 {
        lemma_round(scorer, radius, steps, i - 1);
        assert(coeff_tried(scorer, radius, i - 1, steps[i - 1], steps[i - 1 + 1]));
        lemma_coeff_step(scorer, radius, i - 1, steps[i - 1], steps[i]);
        law_better_is_strict_order(steps[i].best, steps[i - 1].best, steps[0].best);
    }
}

proof fn lemma_rounds<D: Value, R: Fn(D) -> D, X: Fn(F32) -> F32>(
    scorer: Scorer<R, X>,
    radius: int,
    steps: Seq<Standing<D>>,
    i: int,
)
    requires
        strict_order::<D>(),
        0 <= i < steps.len(),
        steps[0].q.len() > 0,
        scored(scorer, steps[0].p, steps[0].q, steps[0].best),
        rounds_tried(scorer, radius, steps),
    ensures
        step_keeps(scorer, steps[0], steps[i]),
    decreases i,
{
    if i > 0 {
        lemma_rounds(scorer, radius, steps, i - 1);
        let s = steps[i - 1];
        let n = free_count(s.p, s.q);
        let s0 = Standing { improved: false, ..s };
        assert(round_run(scorer, radius, n, s0, steps[i - 1 + 1]));
        let inner = choose|inner: Seq<Standing<D>>|
            {
                &&& #[trigger] coeffs_tried(scorer, radius, inner)
                &&& inner.len() == n + 1
                &&& inner.first() == s0
                &&& inner.last() == steps[i]
            };
        lemma_round(scorer, radius, inner, n as int);
        law_better_is_strict_order(steps[i].best, s.best, steps[0].best);
    }
}

/// Lists where a search stands before each round and at the end.
spec fn traces<D: Value, R: Fn(D) -> D, X: Fn(F32) -> F32>(
    scorer: Scorer<R, X>,
    radius: int,
    max_rounds: nat,
    p: Seq<F32>,
    q: Seq<F32>,
    t: Standing<D>,
    steps: Seq<Standing<D>>,
) -> bool {
    &&& rounds_tried(scorer, radius, steps)
    &&& 1 <= steps.len() <= max_rounds + 1
    &&& steps.first().p == p && steps.first().q == q && steps.first().improved
    &&& scored(scorer, p, q, steps.first().best)
    &&& steps.last() == t
    &&& steps.len() == max_rounds + 1 || !t.improved
}

proof fn trace<D: Value, R: Fn(D) -> D, X: Fn(F32) -> F32>(
    scorer: Scorer<R, X>,
    radius: int,
    max_rounds: nat,
    p: Seq<F32>,
    q: Seq<F32>,
    t: Standing<D>,
) -> (steps: Seq<Standing<D>>)
    requires
        searched(scorer, radius, max_rounds, p, q, t),
    ensures
        traces(scorer, radius, max_rounds, p, q, t, steps),
{
    choose|steps: Seq<Standing<D>>|
        {
            &&& #[trigger] rounds_tried(scorer, radius, steps)
            &&& 1 <= steps.len() <= max_rounds + 1
            &&& steps.first().p == p && steps.first().q == q && steps.first().improved
            &&& scored(scorer, p, q, steps.first().best)
            &&& steps.last() == t
            &&& steps.len() == max_rounds + 1 || !t.improved
        }
}

/// A search never loses ground. It ends with coefficients whose score is one that
/// the coefficients it started from got, or a better one. The number of
/// coefficients stays, and so does the leading coefficient of the denominator.
pub proof fn law_search_never_loses_ground<D: Value, R: Fn(D) -> D, X: Fn(F32) -> F32>(
    scorer: Scorer<R, X>,
    radius: int,
    max_rounds: nat,
    p: Seq<F32>,
    q: Seq<F32>,
    t: Standing<D>,
)
    requires
        strict_order::<D>(),
        q.len() > 0,
        searched(scorer, radius, max_rounds, p, q, t),
    ensures
        scored(scorer, t.p, t.q, t.best),
        exists|start: Score<D>| #[trigger] scored(scorer, p, q, start) && no_worse(t.best, start),
        t.p.len() == p.len(),
        t.q.len() == q.len(),
        t.q.last() == q.last(),
{
    let steps = trace(scorer, radius, max_rounds, p, q, t);
    lemma_rounds(scorer, radius, steps, steps.len() - 1);
    assert(scored(scorer, p, q, steps[0].best));
}

/// As many coefficients, and the same leading one of the denominator.
spec fn same_shape<D: Value>(s: Standing<D>, t: Standing<D>) -> bool {
    &&& t.p.len() == s.p.len()
    &&& t.q.len() == s.q.len()
    &&& t.q.last() == s.q.last()
}

proof fn lemma_round_keeps_shape<D: Value, R: Fn(D) -> D, X: Fn(F32) -> F32>(
    scorer: Scorer<R, X>,
    radius: int,
    steps: Seq<Standing<D>>,
    i: int,
)
    requires
        0 <= i < steps.len(),
        steps[0].q.len() > 0,
        steps.len() <= free_count(steps[0].p, steps[0].q) + 1,
        coeffs_tried(scorer, radius, steps),
    ensures
        same_shape(steps[0], steps[i]),
    decreases i,
{
    if i > 0 {
        lemma_round_keeps_shape(scorer, radius, steps, i - 1);
        assert(coeff_tried(scorer, radius, i - 1, steps[i - 1], steps[i - 1 + 1]));
    }
}

proof fn lemma_rounds_keep_shape<D: Value, R: Fn(D) -> D, X: Fn(F32) -> F32>(
    scorer: Scorer<R, X>,
    radius: int,
    steps: Seq<Standing<D>>,
    i: int,
)
    requires
        0 <= i < steps.len(),
        steps[0].q.len() > 0,
        rounds_tried(scorer, radius, steps),
    ensures
        same_shape(steps[0], steps[i]),
    decreases i,
{
    if i > 0 {
        lemma_rounds_keep_shape(scorer, radius, steps, i - 1);
        let s = steps[i - 1];
        let n = free_count(s.p, s.q);
        let s0 = Standing { improved: false, ..s };
        assert(round_run(scorer, radius, n, s0, steps[i - 1 + 1]));
        let inner = choose|inner: Seq<Standing<D>>|
            {
                &&& #[trigger] coeffs_tried(scorer, radius, inner)
                &&& inner.len() == n + 1
                &&& inner.first() == s0
                &&& inner.last() == steps[i]
            };
        lemma_round_keeps_shape(scorer, radius, inner, n as int);
    }
}

/// A search keeps the shape of what it is given: as many coefficients above and below, and
/// the leading coefficient of the denominator to the bit, so that a monic denominator stays
/// monic.
pub proof fn law_search_keeps_the_shape<D: Value, R: Fn(D) -> D, X: Fn(F32) -> F32>(
    scorer: Scorer<R, X>,
    radius: int,
    max_rounds: nat,
    p: Seq<F32>,
    q: Seq<F32>,
    r: F32SearchResult<D>,
)
    requires
        q.len() > 0,
        local_search_result(scorer, radius, max_rounds, p, q, r),
    ensures
        r.numerator@.len() == p.len(),
        r.denominator@.len() == q.len(),
        r.denominator@.last() == q.last(),
{
    let t = choose|t: Standing<D>|
        #[trigger] searched(scorer, radius, max_rounds, p, q, t) && t.p == r.numerator@ && t.q
            == r.denominator@;
    let steps = trace(scorer, radius, max_rounds, p, q, t);
    lemma_rounds_keep_shape(scorer, radius, steps, steps.len() - 1);
}

/// A search says how it measured: over every number of the range, each counted once, or
/// over one sample more than there are steps between them.
pub proof fn law_search_counts_what_it_scores<D: Value, R: Fn(D) -> D, X: Fn(F32) -> F32>(
    scorer: Scorer<R, X>,
    radius: int,
    max_rounds: nat,
    p: Seq<F32>,
    q: Seq<F32>,
    r: F32SearchResult<D>,
)
    requires
        local_search_result(scorer, radius, max_rounds, p, q, r),
    ensures
        r.exhaustive <==> scorer.sweep.samples is None,
        scorer.sweep.samples matches Some(n) ==> r.values_scored == n + 1,
        scorer.sweep.samples is None && scorer.sweep.lo.at_most(scorer.sweep.hi)
            ==> r.values_scored == ulp_distance_spec(scorer.sweep.lo, scorer.sweep.hi) + 1,
        scorer.sweep.samples is None && !scorer.sweep.lo.at_most(scorer.sweep.hi)
            ==> r.values_scored == 0,
{
}

/// A function that gives the same output whenever it gets the same input.
pub open spec fn repeatable<A, B, F: Fn(A) -> B>(f: F) -> bool {
    forall|a: A, b: B, c: B|
        #[trigger] call_ensures(f, (a,), b) && #[trigger] call_ensures(f, (a,), c) ==> b == c
}

proof fn lemma_observable_unique<D: Value, R: Fn(D) -> D, X: Fn(F32) -> F32>(
    reference: R,
    transform: X,
    p: Seq<F32>,
    q: Seq<F32>,
    point: (F32, D),
    a: (F32, F32),
    b: (F32, F32),
)
    requires
        repeatable::<D, D, R>(reference),
        repeatable::<F32, F32, X>(transform),
        observable(reference, transform, p, q, point, a),
        observable(reference, transform, p, q, point, b),
    ensures
        a == b,
{
}

proof fn lemma_evaluated_unique<D: Value, R: Fn(D) -> D, X: Fn(F32) -> F32>(
    scorer: Scorer<R, X>,
    p: Seq<F32>,
    q: Seq<F32>,
    obs: Seq<(F32, F32)>,
    start: (F32, F32),
    obs2: Seq<(F32, F32)>,
    start2: (F32, F32),
)
    requires
        repeatable::<D, D, R>(scorer.reference),
        repeatable::<F32, F32, X>(scorer.transform),
        evaluated::<D, R, X>(scorer, p, q, obs, start),
        evaluated::<D, R, X>(scorer, p, q, obs2, start2),
    ensures
        obs == obs2,
        start == start2,
{
    lemma_observable_unique::<D, R, X>(
        scorer.reference,
        scorer.transform,
        p,
        q,
        (scorer.sweep.lo, D::from_f32_spec(scorer.sweep.lo)),
        start,
        start2,
    );
    assert forall|i: int| 0 <= i < obs.len() implies obs[i] == obs2[i] by {
        lemma_observable_unique::<D, R, X>(
            scorer.reference,
            scorer.transform,
            p,
            q,
            scorer.sweep.point::<D>(i),
            obs[i],
            obs2[i],
        );
    }
    assert(obs =~= obs2);
}

proof fn lemma_scored_unique<D: Value, R: Fn(D) -> D, X: Fn(F32) -> F32>(
    scorer: Scorer<R, X>,
    p: Seq<F32>,
    q: Seq<F32>,
    a: Score<D>,
    b: Score<D>,
)
    requires
        repeatable::<D, D, R>(scorer.reference),
        repeatable::<F32, F32, X>(scorer.transform),
        scored(scorer, p, q, a),
        scored(scorer, p, q, b),
    ensures
        a == b,
{
    let (o1, s1) = choose|obs: Seq<(F32, F32)>, start: (F32, F32)|
        #[trigger] evaluated::<D, R, X>(scorer, p, q, obs, start) && a == score_of::<D>(
            scorer.metric,
            obs,
            start,
        );
    let (o2, s2) = choose|obs: Seq<(F32, F32)>, start: (F32, F32)|
        #[trigger] evaluated::<D, R, X>(scorer, p, q, obs, start) && b == score_of::<D>(
            scorer.metric,
            obs,
            start,
        );
    lemma_evaluated_unique::<D, R, X>(scorer, p, q, o1, s1, o2, s2);
}

proof fn lemma_coeff_tried_unique<D: Value, R: Fn(D) -> D, X: Fn(F32) -> F32>(
    scorer: Scorer<R, X>,
    radius: int,
    ci: int,
    s: Standing<D>,
    a: Standing<D>,
    b: Standing<D>,
)
    requires
        repeatable::<D, D, R>(scorer.reference),
        repeatable::<F32, F32, X>(scorer.transform),
        coeff_tried(scorer, radius, ci, s, a),
        coeff_tried(scorer, radius, ci, s, b),
    ensures
        a == b,
{
    let n = nudge_count(radius);
    let s1 = choose|scores: Seq<Score<D>>|
        #[trigger] candidates_scored(scorer, radius, ci, s, scores) && scores.len() == n && a
            == after_pick(radius, ci, s, scores);
    let s2 = choose|scores: Seq<Score<D>>|
        #[trigger] candidates_scored(scorer, radius, ci, s, scores) && scores.len() == n && b
            == after_pick(radius, ci, s, scores);
    assert forall|k: int| 0 <= k < n implies s1[k] == s2[k] by {
        let v = nudge_spec(coeff(s.p, s.q, ci), nudge_at(radius, k));
        lemma_scored_unique(scorer, p_with(s.p, ci, v), q_with(s.p, s.q, ci, v), s1[k], s2[k]);
    }
    assert(s1 =~= s2);
}

proof fn lemma_coeffs_tried_unique<D: Value, R: Fn(D) -> D, X: Fn(F32) -> F32>(
    scorer: Scorer<R, X>,
    radius: int,
    a: Seq<Standing<D>>,
    b: Seq<Standing<D>>,
    i: int,
)
    requires
        repeatable::<D, D, R>(scorer.reference),
        repeatable::<F32, F32, X>(scorer.transform),
        coeffs_tried(scorer, radius, a),
        coeffs_tried(scorer, radius, b),
        a[0] == b[0],
        0 <= i < a.len(),
        i < b.len(),
    ensures
        a[i] == b[i],
    decreases i,
{
    if i > 0 {
        lemma_coeffs_tried_unique(scorer, radius, a, b, i - 1);
        assert(coeff_tried(scorer, radius, i - 1, a[i - 1], a[i - 1 + 1]));
        assert(coeff_tried(scorer, radius, i - 1, b[i - 1], b[i - 1 + 1]));
        lemma_coeff_tried_unique(scorer, radius, i - 1, a[i - 1], a[i], b[i]);
    }
}

proof fn lemma_round_unique<D: Value, R: Fn(D) -> D, X: Fn(F32) -> F32>(
    scorer: Scorer<R, X>,
    radius: int,
    n: nat,
    s: Standing<D>,
    a: Standing<D>,
    b: Standing<D>,
)
    requires
        repeatable::<D, D, R>(scorer.reference),
        repeatable::<F32, F32, X>(scorer.transform),
        round_run(scorer, radius, n, s, a),
        round_run(scorer, radius, n, s, b),
    ensures
        a == b,
{
    let u = choose|steps: Seq<Standing<D>>|
        {
            &&& #[trigger] coeffs_tried(scorer, radius, steps)
            &&& steps.len() == n + 1
            &&& steps.first() == s
            &&& steps.last() == a
        };
    let v = choose|steps: Seq<Standing<D>>|
        {
            &&& #[trigger] coeffs_tried(scorer, radius, steps)
            &&& steps.len() == n + 1
            &&& steps.first() == s
            &&& steps.last() == b
        };
    lemma_coeffs_tried_unique(scorer, radius, u, v, n as int);
}

proof fn lemma_rounds_unique<D: Value, R: Fn(D) -> D, X: Fn(F32) -> F32>(
    scorer: Scorer<R, X>,
    radius: int,
    a: Seq<Standing<D>>,
    b: Seq<Standing<D>>,
    i: int,
)
    requires
        repeatable::<D, D, R>(scorer.reference),
        repeatable::<F32, F32, X>(scorer.transform),
        rounds_tried(scorer, radius, a),
        rounds_tried(scorer, radius, b),
        a[0] == b[0],
        0 <= i < a.len(),
        i < b.len(),
    ensures
        a[i] == b[i],
    decreases i,
{
    if i > 0 {
        lemma_rounds_unique(scorer, radius, a, b, i - 1);
        assert(a[i - 1].improved && b[i - 1].improved);
        let s = Standing { improved: false, ..a[i - 1] };
        let n = free_count(s.p, s.q);
        assert(round_run(scorer, radius, n, s, a[i - 1 + 1]));
        assert(round_run(scorer, radius, n, s, b[i - 1 + 1]));
        lemma_round_unique(scorer, radius, n, s, a[i], b[i]);
    }
}

/// A search is deterministic: with functions that repeat themselves, the same input
/// gives the same coefficients and the same score.
pub proof fn law_search_is_deterministic<D: Value, R: Fn(D) -> D, X: Fn(F32) -> F32>(
    scorer: Scorer<R, X>,
    radius: int,
    max_rounds: nat,
    p: Seq<F32>,
    q: Seq<F32>,
    a: Standing<D>,
    b: Standing<D>,
)
    requires
        repeatable::<D, D, R>(scorer.reference),
        repeatable::<F32, F32, X>(scorer.transform),
        searched(scorer, radius, max_rounds, p, q, a),
        searched(scorer, radius, max_rounds, p, q, b),
    ensures
        a == b,
{
    let u = trace(scorer, radius, max_rounds, p, q, a);
    let v = trace(scorer, radius, max_rounds, p, q, b);
    lemma_scored_unique(scorer, p, q, u[0].best, v[0].best);
    assert(u[0] == v[0]);
    if u.len() < v.len() {
        lemma_rounds_unique(scorer, radius, u, v, u.len() - 1);
        assert(v[u.len() - 1].improved);
    } else if v.len() < u.len() {
        lemma_rounds_unique(scorer, radius, u, v, v.len() - 1);
        assert(u[v.len() - 1].improved);
    } else {
        lemma_rounds_unique(scorer, radius, u, v, u.len() - 1);
    }
}

/// Two results hold the same coefficients and the same figures.
pub open spec fn same_result<D: Value>(a: F32SearchResult<D>, b: F32SearchResult<D>) -> bool {
    &&& a.numerator@ == b.numerator@
    &&& a.denominator@ == b.denominator@
    &&& a.max_ulp == b.max_ulp
    &&& a.avg_ulp == b.avg_ulp
    &&& a.boundary_ulp == b.boundary_ulp
    &&& a.mono_violations == b.mono_violations
    &&& a.max_abs_err == b.max_abs_err
    &&& a.avg_abs_err == b.avg_abs_err
    &&& a.values_scored == b.values_scored
    &&& a.exhaustive == b.exhaustive
}

proof fn lemma_same_figures<D: Value, R: Fn(D) -> D, X: Fn(F32) -> F32>(
    scorer: Scorer<R, X>,
    a: F32SearchResult<D>,
    b: F32SearchResult<D>,
)
    requires
        repeatable::<D, D, R>(scorer.reference),
        repeatable::<F32, F32, X>(scorer.transform),
        exists|obs: Seq<(F32, F32)>, start: (F32, F32)|
            #[trigger] evaluated::<D, R, X>(scorer, a.numerator@, a.denominator@, obs, start)
                && a.reports(scorer.sweep, obs, start),
        exists|obs: Seq<(F32, F32)>, start: (F32, F32)|
            #[trigger] evaluated::<D, R, X>(scorer, b.numerator@, b.denominator@, obs, start)
                && b.reports(scorer.sweep, obs, start),
        a.numerator@ == b.numerator@,
        a.denominator@ == b.denominator@,
    ensures
        same_result(a, b),
{
    let (o1, s1) = choose|obs: Seq<(F32, F32)>, start: (F32, F32)|
        #[trigger] evaluated::<D, R, X>(scorer, a.numerator@, a.denominator@, obs, start)
            && a.reports(scorer.sweep, obs, start);
    let (o2, s2) = choose|obs: Seq<(F32, F32)>, start: (F32, F32)|
        #[trigger] evaluated::<D, R, X>(scorer, b.numerator@, b.denominator@, obs, start)
            && b.reports(scorer.sweep, obs, start);
    lemma_evaluated_unique::<D, R, X>(scorer, a.numerator@, a.denominator@, o1, s1, o2, s2);
}

/// Two results of one search hold the same coefficients and the same figures, if
/// the functions repeat themselves.
pub proof fn law_search_result_is_deterministic<D: Value, R: Fn(D) -> D, X: Fn(F32) -> F32>(
    scorer: Scorer<R, X>,
    radius: int,
    max_rounds: nat,
    p: Seq<F32>,
    q: Seq<F32>,
    a: F32SearchResult<D>,
    b: F32SearchResult<D>,
)
    requires
        repeatable::<D, D, R>(scorer.reference),
        repeatable::<F32, F32, X>(scorer.transform),
        local_search_result(scorer, radius, max_rounds, p, q, a),
        local_search_result(scorer, radius, max_rounds, p, q, b),
    ensures
        same_result(a, b),
{
    let s = choose|t: Standing<D>|
        #[trigger] searched(scorer, radius, max_rounds, p, q, t) && t.p == a.numerator@ && t.q
            == a.denominator@;
    let t = choose|t: Standing<D>|
        #[trigger] searched(scorer, radius, max_rounds, p, q, t) && t.p == b.numerator@ && t.q
            == b.denominator@;
    law_search_is_deterministic(scorer, radius, max_rounds, p, q, s, t);
    lemma_same_figures(scorer, a, b);
}

/// The figures of a result are self-consistent: they agree with the score that the
/// search kept, and with any other evaluation of the coefficients over the same
/// sweep, if the functions repeat themselves.
pub proof fn law_search_result_is_self_consistent<D: Value, R: Fn(D) -> D, X: Fn(F32) -> F32>(
    scorer: Scorer<R, X>,
    p: Seq<F32>,
    q: Seq<F32>,
    r: F32SearchResult<D>,
    kept: Score<D>,
    obs: Seq<(F32, F32)>,
    start: (F32, F32),
)
    requires
        repeatable::<D, D, R>(scorer.reference),
        repeatable::<F32, F32, X>(scorer.transform),
        exists|o: Seq<(F32, F32)>, s: (F32, F32)|
            #[trigger] evaluated::<D, R, X>(scorer, p, q, o, s) && r.reports(scorer.sweep, o, s),
        scored(scorer, p, q, kept),
        evaluated::<D, R, X>(scorer, p, q, obs, start),
    ensures
        r.reports(scorer.sweep, obs, start),
        kept == score_of::<D>(scorer.metric, obs, start),
        scorer.metric == F32ScoreMetric::Ulp ==> kept.primary == r.max_ulp && kept.avg
            == r.avg_ulp,
        scorer.metric == F32ScoreMetric::AbsoluteError ==> kept.primary
            == r.max_abs_err.to_bits_spec() && kept.avg == r.avg_abs_err,
        kept.boundary == r.boundary_ulp,
        kept.mono == r.mono_violations,
{
    let (o, s) = choose|o: Seq<(F32, F32)>, s: (F32, F32)|
        #[trigger] evaluated::<D, R, X>(scorer, p, q, o, s) && r.reports(scorer.sweep, o, s);
    lemma_evaluated_unique::<D, R, X>(scorer, p, q, o, s, obs, start);
    lemma_scored_unique(scorer, p, q, kept, score_of::<D>(scorer.metric, obs, start));
    law_max_ulp_is_maximum(obs);
}

/// `b` is a number at most `k` ULPs from `a`.
pub open spec fn within(a: F32, b: F32, k: nat) -> bool {
    !b.nan() && ulp_distance_spec(a, b) <= k
}

/// `a` is a number that lies `k` ULPs or more from the end of the range either way.
pub open spec fn has_room(a: F32, k: nat) -> bool {
    !a.nan() && -INFINITY_BITS <= a.ordinal() - k && a.ordinal() + k <= INFINITY_BITS
}

/// Trying the nudges of one coefficient changes at most that one, by the radius.
proof fn lemma_coeff_stays_near<D: Value, R: Fn(D) -> D, X: Fn(F32) -> F32>(
    scorer: Scorer<R, X>,
    radius: nat,
    ci: int,
    s: Standing<D>,
    t: Standing<D>,
    c: int,
)
    requires
        0 <= ci < s.p.len() + s.q.len(),
        0 <= c < s.p.len() + s.q.len(),
        has_room(coeff(s.p, s.q, c), radius),
        coeff_tried(scorer, radius as int, ci, s, t),
    ensures
        t.p.len() == s.p.len(),
        t.q.len() == s.q.len(),
        c == ci ==> within(coeff(s.p, s.q, c), coeff(t.p, t.q, c), radius),
        c != ci ==> coeff(t.p, t.q, c) == coeff(s.p, s.q, c),
{
    let scores = choose|scores: Seq<Score<D>>|
        #[trigger] candidates_scored(scorer, radius as int, ci, s, scores) && scores.len()
            == nudge_count(radius as int) && t == after_pick(radius as int, ci, s, scores);
    lemma_pick_range(s.best, scores);
    match pick(s.best, scores) {
        Some(k) => {
            let v = nudge_spec(coeff(s.p, s.q, ci), nudge_at(radius as int, k));
            assert(coeff(t.p, t.q, ci) == v);
        },
        None => {},
    }
}

proof fn lemma_round_stays_near<D: Value, R: Fn(D) -> D, X: Fn(F32) -> F32>(
    scorer: Scorer<R, X>,
    radius: nat,
    steps: Seq<Standing<D>>,
    i: int,
    c: int,
)
    requires
        0 <= i < steps.len(),
        steps[0].q.len() > 0,
        steps.len() <= free_count(steps[0].p, steps[0].q) + 1,
        0 <= c < steps[0].p.len() + steps[0].q.len(),
        has_room(coeff(steps[0].p, steps[0].q, c), radius),
        coeffs_tried(scorer, radius as int, steps),
    ensures
        steps[i].p.len() == steps[0].p.len(),
        steps[i].q.len() == steps[0].q.len(),
        c < i ==> within(
            coeff(steps[0].p, steps[0].q, c),
            coeff(steps[i].p, steps[i].q, c),
            radius,
        ),
        c >= i ==> coeff(steps[i].p, steps[i].q, c) == coeff(steps[0].p, steps[0].q, c),
    decreases i,
{
    if i > 0 {
        lemma_round_stays_near(scorer, radius, steps, i - 1, c);
        assert(coeff_tried(scorer, radius as int, i - 1, steps[i - 1], steps[i - 1 + 1]));
        if c >= i - 1 {
            lemma_coeff_stays_near(scorer, radius, i - 1, steps[i - 1], steps[i], c);
        } else {
            lemma_coeff_changes_one(scorer, radius as int, i - 1, steps[i - 1], steps[i], c);
        }
    }
}

/// Trying the nudges of one coefficient leaves the others as they are.
proof fn lemma_coeff_changes_one<D: Value, R: Fn(D) -> D, X: Fn(F32) -> F32>(
    scorer: Scorer<R, X>,
    radius: int,
    ci: int,
    s: Standing<D>,
    t: Standing<D>,
    c: int,
)
    requires
        0 <= ci < s.p.len() + s.q.len(),
        0 <= c < s.p.len() + s.q.len(),
        c != ci,
        coeff_tried(scorer, radius, ci, s, t),
    ensures
        t.p.len() == s.p.len(),
        t.q.len() == s.q.len(),
        coeff(t.p, t.q, c) == coeff(s.p, s.q, c),
{
}

proof fn lemma_rounds_stay_near<D: Value, R: Fn(D) -> D, X: Fn(F32) -> F32>(
    scorer: Scorer<R, X>,
    radius: nat,
    steps: Seq<Standing<D>>,
    i: int,
    c: int,
)
    requires
        0 <= i < steps.len(),
        steps[0].q.len() > 0,
        0 <= c < steps[0].p.len() + steps[0].q.len(),
        has_room(coeff(steps[0].p, steps[0].q, c), (i * radius) as nat),
        rounds_tried(scorer, radius as int, steps),
    ensures
        steps[i].p.len() == steps[0].p.len(),
        steps[i].q.len() == steps[0].q.len(),
        within(
            coeff(steps[0].p, steps[0].q, c),
            coeff(steps[i].p, steps[i].q, c),
            (i * radius) as nat,
        ),
    decreases i,
{
    if i > 0 {
        assert((i - 1) * radius + radius == i * radius) by (nonlinear_arith);
        assert((i - 1) * radius >= 0) by (nonlinear_arith)
            requires
                i >= 1,
        ;
        lemma_rounds_stay_near(scorer, radius, steps, i - 1, c);
        let s = steps[i - 1];
        let n = free_count(s.p, s.q);
        let s0 = Standing { improved: false, ..s };
        assert(round_run(scorer, radius as int, n, s0, steps[i - 1 + 1]));
        let inner = choose|inner: Seq<Standing<D>>|
            {
                &&& #[trigger] coeffs_tried(scorer, radius as int, inner)
                &&& inner.len() == n + 1
                &&& inner.first() == s0
                &&& inner.last() == steps[i]
            };
        lemma_round_stays_near(scorer, radius, inner, n as int, c);
    } else {
        assert(i * radius == 0) by (nonlinear_arith)
            requires
                i == 0,
        ;
    }
}

/// A search stays near the coefficients it starts from: no coefficient ends more ULPs from
/// where it began than the radius in each round, past zero too, unless the rounds could
/// take it past infinity.
pub proof fn law_search_stays_near<D: Value, R: Fn(D) -> D, X: Fn(F32) -> F32>(
    scorer: Scorer<R, X>,
    radius: nat,
    max_rounds: nat,
    p: Seq<F32>,
    q: Seq<F32>,
    t: Standing<D>,
    c: int,
)
    requires
        q.len() > 0,
        0 <= c < p.len() + q.len(),
        has_room(coeff(p, q, c), max_rounds * radius),
        searched(scorer, radius as int, max_rounds, p, q, t),
    ensures
        !coeff(t.p, t.q, c).nan(),
        ulp_distance_spec(coeff(p, q, c), coeff(t.p, t.q, c)) <= max_rounds * radius,
{
    let steps = trace(scorer, radius as int, max_rounds, p, q, t);
    let n = (steps.len() - 1) as nat;
    assert(n * radius <= max_rounds * radius) by (nonlinear_arith)
        requires
            n <= max_rounds,
    ;
    lemma_rounds_stay_near(scorer, radius, steps, n as int, c);
}

/// The coefficients of a standing have the score that it holds.
proof fn lemma_coeff_scored<D: Value, R: Fn(D) -> D, X: Fn(F32) -> F32>(
    scorer: Scorer<R, X>,
    radius: int,
    ci: int,
    s: Standing<D>,
    t: Standing<D>,
)
    requires
        scored(scorer, s.p, s.q, s.best),
        coeff_tried(scorer, radius, ci, s, t),
    ensures
        scored(scorer, t.p, t.q, t.best),
        !t.improved ==> t == s,
{
    let scores = choose|scores: Seq<Score<D>>|
        #[trigger] candidates_scored(scorer, radius, ci, s, scores) && scores.len() == nudge_count(
            radius,
        ) && t == after_pick(radius, ci, s, scores);
    lemma_pick_range(s.best, scores);
    match pick(s.best, scores) {
        Some(k) => {
            assert(scored(scorer, t.p, t.q, scores[k]));
        },
        None => {},
    }
}

proof fn lemma_coeffs_scored<D: Value, R: Fn(D) -> D, X: Fn(F32) -> F32>(
    scorer: Scorer<R, X>,
    radius: int,
    steps: Seq<Standing<D>>,
    i: int,
)
    requires
        0 <= i < steps.len(),
        scored(scorer, steps[0].p, steps[0].q, steps[0].best),
        coeffs_tried(scorer, radius, steps),
    ensures
        scored(scorer, steps[i].p, steps[i].q, steps[i].best),
        !steps[i].improved ==> steps[i] == steps[0],
    decreases i,
{
    if i > 0 {
        lemma_coeffs_scored(scorer, radius, steps, i - 1);
        assert(coeff_tried(scorer, radius, i - 1, steps[i - 1], steps[i - 1 + 1]));
        lemma_coeff_scored(scorer, radius, i - 1, steps[i - 1], steps[i]);
    }
}

/// After a round the coefficients have the score that is kept, and a round that improves
/// nothing changes nothing.
proof fn lemma_round_scored<D: Value, R: Fn(D) -> D, X: Fn(F32) -> F32>(
    scorer: Scorer<R, X>,
    radius: int,
    n: nat,
    s: Standing<D>,
    t: Standing<D>,
)
    requires
        scored(scorer, s.p, s.q, s.best),
        round_run(scorer, radius, n, s, t),
    ensures
        scored(scorer, t.p, t.q, t.best),
        !t.improved ==> t == s,
{
    let steps = choose|steps: Seq<Standing<D>>|
        {
            &&& #[trigger] coeffs_tried(scorer, radius, steps)
            &&& steps.len() == n + 1
            &&& steps.first() == s
            &&& steps.last() == t
        };
    lemma_coeffs_scored(scorer, radius, steps, n as int);
}

proof fn lemma_rounds_scored<D: Value, R: Fn(D) -> D, X: Fn(F32) -> F32>(
    scorer: Scorer<R, X>,
    radius: int,
    steps: Seq<Standing<D>>,
    i: int,
)
    requires
        0 <= i < steps.len(),
        scored(scorer, steps[0].p, steps[0].q, steps[0].best),
        rounds_tried(scorer, radius, steps),
    ensures
        scored(scorer, steps[i].p, steps[i].q, steps[i].best),
    decreases i,
{
    if i > 0 {
        lemma_rounds_scored(scorer, radius, steps, i - 1);
        let s = steps[i - 1];
        let n = free_count(s.p, s.q);
        let s0 = Standing { improved: false, ..s };
        assert(round_run(scorer, radius, n, s0, steps[i - 1 + 1]));
        lemma_round_scored(scorer, radius, n, s0, steps[i]);
    }
}

/// One list of rounds and another that goes on from its end make one list.
proof fn lemma_rounds_join<D: Value, R: Fn(D) -> D, X: Fn(F32) -> F32>(
    scorer: Scorer<R, X>,
    radius: int,
    u: Seq<Standing<D>>,
    w: Seq<Standing<D>>,
)
    requires
        rounds_tried(scorer, radius, u),
        rounds_tried(scorer, radius, w),
        u.len() > 0,
        w.len() > 0,
        u.last() == w.first(),
    ensures
        rounds_tried(scorer, radius, u + w.drop_first()),
        (u + w.drop_first()).first() == u.first(),
        (u + w.drop_first()).last() == w.last(),
{
    let all = u + w.drop_first();
    assert forall|i: int| 0 <= i < all.len() - 1 implies (#[trigger] all[i]).improved && round_run(
        scorer,
        radius,
        free_count(all[i].p, all[i].q),
        Standing { improved: false, ..all[i] },
        all[i + 1],
    ) by {
        if i < u.len() - 1 {
            assert(all[i] == u[i] && all[i + 1] == u[i + 1]);
        } else {
            let k = i - (u.len() - 1);
            assert(all[i] == w[k] && all[i + 1] == w[k + 1]);
        }
    }
}

/// Where a search ended with a round that improved nothing, another one from there
/// changes nothing.
proof fn lemma_nothing_more<D: Value, R: Fn(D) -> D, X: Fn(F32) -> F32>(
    scorer: Scorer<R, X>,
    radius: int,
    u: Seq<Standing<D>>,
    w: Seq<Standing<D>>,
)
    requires
        repeatable::<D, D, R>(scorer.reference),
        repeatable::<F32, F32, X>(scorer.transform),
        rounds_tried(scorer, radius, u),
        rounds_tried(scorer, radius, w),
        u.len() > 0,
        w.len() > 0,
        scored(scorer, u.first().p, u.first().q, u.first().best),
        u.first().improved,
        !u.last().improved,
        w.first() == (Standing { improved: true, ..u.last() }),
    ensures
        w.last().p == u.last().p,
        w.last().q == u.last().q,
        w.last().best == u.last().best,
{
    let last = u.len() - 1;
    let a = u[last];
    let s = u[last - 1];
    let k = free_count(s.p, s.q);
    let s0 = Standing { improved: false, ..s };
    lemma_rounds_scored(scorer, radius, u, last - 1);
    assert(round_run(scorer, radius, k, s0, u[last - 1 + 1]));
    lemma_round_scored(scorer, radius, k, s0, a);
    if w.len() > 1 {
        assert(Standing { improved: false, ..w[0] } == a);
        assert(round_run(scorer, radius, k, a, w[0int + 1]));
        lemma_round_unique(scorer, radius, k, a, a, w[1]);
        if w.len() > 2 {
            assert(w[1].improved);
        }
    }
}

/// Rounds compose: a search of `m` rounds and a search of `n` more from where it ended
/// come to the same as one of `m + n` rounds, if the functions repeat themselves.
/// Stopping after a round that improves nothing loses nothing.
pub proof fn law_rounds_compose<D: Value, R: Fn(D) -> D, X: Fn(F32) -> F32>(
    scorer: Scorer<R, X>,
    radius: int,
    m: nat,
    n: nat,
    p: Seq<F32>,
    q: Seq<F32>,
    a: Standing<D>,
    b: Standing<D>,
    c: Standing<D>,
)
    requires
        repeatable::<D, D, R>(scorer.reference),
        repeatable::<F32, F32, X>(scorer.transform),
        searched(scorer, radius, m, p, q, a),
        searched(scorer, radius, n, a.p, a.q, b),
        searched(scorer, radius, m + n, p, q, c),
    ensures
        b.p == c.p,
        b.q == c.q,
        b.best == c.best,
{
    let u = trace(scorer, radius, m, p, q, a);
    let w = trace(scorer, radius, n, a.p, a.q, b);
    lemma_rounds_scored(scorer, radius, u, u.len() - 1);
    lemma_scored_unique(scorer, a.p, a.q, a.best, w[0].best);
    if a.improved {
        lemma_rounds_join(scorer, radius, u, w);
        lemma_traced(scorer, radius, m + n, p, q, b, u + w.drop_first());
        law_search_is_deterministic(scorer, radius, m + n, p, q, b, c);
    } else {
        lemma_traced(scorer, radius, m + n, p, q, a, u);
        law_search_is_deterministic(scorer, radius, m + n, p, q, a, c);
        lemma_nothing_more(scorer, radius, u, w);
    }
}

/// The result of `m` rounds followed by `n` more has the coefficients and the figures of
/// the result of `m + n` rounds, if the functions repeat themselves.
pub proof fn law_search_results_compose<D: Value, R: Fn(D) -> D, X: Fn(F32) -> F32>(
    scorer: Scorer<R, X>,
    radius: int,
    m: nat,
    n: nat,
    p: Seq<F32>,
    q: Seq<F32>,
    a: F32SearchResult<D>,
    b: F32SearchResult<D>,
    c: F32SearchResult<D>,
)
    requires
        repeatable::<D, D, R>(scorer.reference),
        repeatable::<F32, F32, X>(scorer.transform),
        local_search_result(scorer, radius, m, p, q, a),
        local_search_result(scorer, radius, n, a.numerator@, a.denominator@, b),
        local_search_result(scorer, radius, m + n, p, q, c),
    ensures
        same_result(b, c),
{
    let s = choose|t: Standing<D>|
        #[trigger] searched(scorer, radius, m, p, q, t) && t.p == a.numerator@ && t.q
            == a.denominator@;
    let t = choose|t: Standing<D>|
        #[trigger] searched(scorer, radius, n, s.p, s.q, t) && t.p == b.numerator@ && t.q
            == b.denominator@;
    let u = choose|t: Standing<D>|
        #[trigger] searched(scorer, radius, m + n, p, q, t) && t.p == c.numerator@ && t.q
            == c.denominator@;
    law_rounds_compose(scorer, radius, m, n, p, q, s, t, u);
    lemma_same_figures(scorer, b, c);
}

/// The figures of a result as a score.
pub open spec fn result_score<D: Value>(metric: F32ScoreMetric, r: F32SearchResult<D>) -> Score<D> {
    Score {
        primary: match metric {
            F32ScoreMetric::Ulp => r.max_ulp as u64,
            F32ScoreMetric::AbsoluteError => r.max_abs_err.to_bits_spec(),
        },
        boundary: r.boundary_ulp as u64,
        avg: match metric {
            F32ScoreMetric::Ulp => r.avg_ulp,
            F32ScoreMetric::AbsoluteError => r.avg_abs_err,
        },
        mono: r.mono_violations,
    }
}

/// What a result reports is the score that the search kept.
proof fn lemma_reported_score<D: Value, R: Fn(D) -> D, X: Fn(F32) -> F32>(
    scorer: Scorer<R, X>,
    r: F32SearchResult<D>,
    kept: Score<D>,
)
    requires
        repeatable::<D, D, R>(scorer.reference),
        repeatable::<F32, F32, X>(scorer.transform),
        exists|o: Seq<(F32, F32)>, s: (F32, F32)|
            #[trigger] evaluated::<D, R, X>(scorer, r.numerator@, r.denominator@, o, s)
                && r.reports(scorer.sweep, o, s),
        scored(scorer, r.numerator@, r.denominator@, kept),
    ensures
        kept == result_score(scorer.metric, r),
{
    let (o, s) = choose|o: Seq<(F32, F32)>, s: (F32, F32)|
        #[trigger] evaluated::<D, R, X>(scorer, r.numerator@, r.denominator@, o, s) && r.reports(
            scorer.sweep,
            o,
            s,
        );
    law_search_result_is_self_consistent(scorer, r.numerator@, r.denominator@, r, kept, o, s);
}

proof fn lemma_rounds_suffix<D: Value, R: Fn(D) -> D, X: Fn(F32) -> F32>(
    scorer: Scorer<R, X>,
    radius: int,
    v: Seq<Standing<D>>,
    k: int,
)
    requires
        rounds_tried(scorer, radius, v),
        0 <= k < v.len(),
    ensures
        rounds_tried(scorer, radius, v.skip(k)),
{
    let w = v.skip(k);
    assert forall|i: int| 0 <= i < w.len() - 1 implies (#[trigger] w[i]).improved && round_run(
        scorer,
        radius,
        free_count(w[i].p, w[i].q),
        Standing { improved: false, ..w[i] },
        w[i + 1],
    ) by {
        assert(w[i] == v[k + i] && w[i + 1] == v[k + i + 1]);
    }
}

/// A search of `m` rounds stands where one of `n` rounds stood on its way, `m` at most `n`.
proof fn lemma_on_the_way<D: Value, R: Fn(D) -> D, X: Fn(F32) -> F32>(
    scorer: Scorer<R, X>,
    radius: int,
    m: nat,
    n: nat,
    p: Seq<F32>,
    q: Seq<F32>,
    s: Standing<D>,
    t: Standing<D>,
    u: Seq<Standing<D>>,
    v: Seq<Standing<D>>,
)
    requires
        repeatable::<D, D, R>(scorer.reference),
        repeatable::<F32, F32, X>(scorer.transform),
        m <= n,
        traces(scorer, radius, m, p, q, s, u),
        traces(scorer, radius, n, p, q, t, v),
    ensures
        u.len() <= v.len(),
        v[u.len() - 1] == s,
{
    lemma_scored_unique(scorer, p, q, u[0].best, v[0].best);
    assert(u[0] == v[0]);
    if u.len() > v.len() {
        lemma_rounds_unique(scorer, radius, u, v, v.len() - 1);
        assert(u[v.len() - 1].improved);
    }
    lemma_rounds_unique(scorer, radius, u, v, u.len() - 1);
}

proof fn lemma_later_is_no_worse<D: Value, R: Fn(D) -> D, X: Fn(F32) -> F32>(
    scorer: Scorer<R, X>,
    radius: int,
    v: Seq<Standing<D>>,
    k: int,
)
    requires
        strict_order::<D>(),
        0 <= k < v.len(),
        v.first().q.len() > 0,
        scored(scorer, v.first().p, v.first().q, v.first().best),
        rounds_tried(scorer, radius, v),
    ensures
        scored(scorer, v[k].p, v[k].q, v[k].best),
        scored(scorer, v.last().p, v.last().q, v.last().best),
        no_worse(v.last().best, v[k].best),
{
    let w = v.skip(k);
    assert(w.first() == v[k]);
    assert(w.last() == v.last());
    assert(step_keeps(scorer, v.first(), v[k])) by {
        lemma_rounds(scorer, radius, v, k);
    }
    assert(step_keeps(scorer, v[k], v.last())) by {
        lemma_rounds_suffix(scorer, radius, v, k);
        lemma_rounds(scorer, radius, w, w.len() - 1);
    }
}

proof fn lemma_more_rounds<D: Value, R: Fn(D) -> D, X: Fn(F32) -> F32>(
    scorer: Scorer<R, X>,
    radius: int,
    m: nat,
    n: nat,
    p: Seq<F32>,
    q: Seq<F32>,
    s: Standing<D>,
    t: Standing<D>,
)
    requires
        strict_order::<D>(),
        repeatable::<D, D, R>(scorer.reference),
        repeatable::<F32, F32, X>(scorer.transform),
        q.len() > 0,
        m <= n,
        searched(scorer, radius, m, p, q, s),
        searched(scorer, radius, n, p, q, t),
    ensures
        scored(scorer, s.p, s.q, s.best),
        scored(scorer, t.p, t.q, t.best),
        no_worse(t.best, s.best),
{
    let u = trace(scorer, radius, m, p, q, s);
    let v = trace(scorer, radius, n, p, q, t);
    lemma_on_the_way(scorer, radius, m, n, p, q, s, t, u, v);
    lemma_later_is_no_worse(scorer, radius, v, u.len() - 1);
}

/// More rounds never make a result worse: with functions that repeat themselves, a search of
/// `n` rounds reports the figures that one of `m` rounds reports, `m` at most `n`, or
/// better ones. Above all this holds of no rounds at all: monotonicity is not
/// lost, and where both are monotone or neither is, the largest error does not grow, nor
/// does the error at the boundary where the largest error stays.
pub proof fn law_more_rounds_are_never_worse<D: Value, R: Fn(D) -> D, X: Fn(F32) -> F32>(
    scorer: Scorer<R, X>,
    radius: int,
    m: nat,
    n: nat,
    p: Seq<F32>,
    q: Seq<F32>,
    a: F32SearchResult<D>,
    b: F32SearchResult<D>,
)
    requires
        strict_order::<D>(),
        repeatable::<D, D, R>(scorer.reference),
        repeatable::<F32, F32, X>(scorer.transform),
        q.len() > 0,
        m <= n,
        local_search_result(scorer, radius, m, p, q, a),
        local_search_result(scorer, radius, n, p, q, b),
    ensures
        no_worse(result_score(scorer.metric, b), result_score(scorer.metric, a)),
        a.mono_violations == 0 ==> b.mono_violations == 0,
        scorer.metric == F32ScoreMetric::Ulp && (a.mono_violations == 0 <==> b.mono_violations
            == 0) ==> {
            &&& b.max_ulp <= a.max_ulp
            &&& b.max_ulp == a.max_ulp ==> b.boundary_ulp <= a.boundary_ulp
            &&& b.max_ulp == a.max_ulp && b.boundary_ulp == a.boundary_ulp ==> b.avg_ulp
                == a.avg_ulp || b.avg_ulp.lt_spec(a.avg_ulp)
        },
{
    let s = choose|t: Standing<D>|
        #[trigger] searched(scorer, radius, m, p, q, t) && t.p == a.numerator@ && t.q
            == a.denominator@;
    let t = choose|t: Standing<D>|
        #[trigger] searched(scorer, radius, n, p, q, t) && t.p == b.numerator@ && t.q
            == b.denominator@;
    lemma_more_rounds(scorer, radius, m, n, p, q, s, t);
    lemma_reported_score(scorer, a, s.best);
    lemma_reported_score(scorer, b, t.best);
}

proof fn lemma_traced<D: Value, R: Fn(D) -> D, X: Fn(F32) -> F32>(
    scorer: Scorer<R, X>,
    radius: int,
    max_rounds: nat,
    p: Seq<F32>,
    q: Seq<F32>,
    t: Standing<D>,
    steps: Seq<Standing<D>>,
)
    requires
        traces(scorer, radius, max_rounds, p, q, t, steps),
    ensures
        searched(scorer, radius, max_rounds, p, q, t),
{
}

/// The order of scores, spelled out: a score without violations beats one with any. Where both
/// have none or both have some, the lower primary figure wins, at equal ones the lower boundary
/// figure, at equal ones the lower average.
pub proof fn law_scores_are_compared_in_order<D: Value>(a: Score<D>, b: Score<D>)
    ensures
        a.mono == 0 && b.mono != 0 ==> better(a, b) && !better(b, a),
        (a.mono == 0 <==> b.mono == 0) && a.primary != b.primary ==> (better(a, b) <==> a.primary
            < b.primary),
        (a.mono == 0 <==> b.mono == 0) && a.primary == b.primary && a.boundary != b.boundary ==> (
        better(a, b) <==> a.boundary < b.boundary),
        (a.mono == 0 <==> b.mono == 0) && a.primary == b.primary && a.boundary == b.boundary ==> (
        better(a, b) <==> a.avg.lt_spec(b.avg)),
{
}

/// The coefficients with the one numbered `ci` nudged by `d` ULPs.
pub open spec fn nudged_pair(p: Seq<F32>, q: Seq<F32>, ci: int, d: int) -> (Seq<F32>, Seq<F32>) {
    if ci < p.len() {
        (p.update(ci, nudge_spec(p[ci], d)), q)
    } else {
        (p, q.update(ci - p.len(), nudge_spec(q[ci - p.len()], d)))
    }
}

/// A coefficient gets its best nudge. Afterwards no nudge of it within the radius, either way,
/// scores better than what is kept, and what is kept is the coefficients as they were or with
/// that one nudged within the radius.
pub proof fn law_coefficient_gets_its_best_nudge<D: Value, R: Fn(D) -> D, X: Fn(F32) -> F32>(
    scorer: Scorer<R, X>,
    radius: int,
    ci: int,
    s: Standing<D>,
    t: Standing<D>,
    d: int,
    other: Score<D>,
)
    requires
        strict_order::<D>(),
        repeatable::<D, D, R>(scorer.reference),
        repeatable::<F32, F32, X>(scorer.transform),
        0 <= ci < s.p.len() + s.q.len(),
        coeff_tried(scorer, radius, ci, s, t),
        -radius <= d <= radius,
        d != 0,
        scored(
            scorer,
            nudged_pair(s.p, s.q, ci, d).0,
            nudged_pair(s.p, s.q, ci, d).1,
            other,
        ),
    ensures
        !better(other, t.best),
        t.p == s.p && t.q == s.q && t.best == s.best || better(t.best, s.best) && exists|e: int|
            -radius <= e <= radius && e != 0 && (t.p, t.q) == #[trigger] nudged_pair(
                s.p,
                s.q,
                ci,
                e,
            ),
{
    let scores = choose|scores: Seq<Score<D>>|
        #[trigger] candidates_scored(scorer, radius, ci, s, scores) && scores.len() == nudge_count(
            radius,
        ) && t == after_pick(radius, ci, s, scores);
    let k = if d < 0 {
        d + radius
    } else {
        d + radius - 1
    };
    assert(nudge_at(radius, k) == d);
    let v = nudge_spec(coeff(s.p, s.q, ci), d);
    assert(scored(scorer, p_with(s.p, ci, v), q_with(s.p, s.q, ci, v), scores[k]));
    lemma_scored_unique(
        scorer,
        nudged_pair(s.p, s.q, ci, d).0,
        nudged_pair(s.p, s.q, ci, d).1,
        other,
        scores[k],
    );
    law_pick_is_best(s.best, scores);
    lemma_pick_range(s.best, scores);
    match pick(s.best, scores) {
        Some(m) => {
            let e = nudge_at(radius, m);
            assert((t.p, t.q) == nudged_pair(s.p, s.q, ci, e));
        },
        None => {},
    }
}

proof fn lemma_improvement_stays<D: Value, R: Fn(D) -> D, X: Fn(F32) -> F32>(
    scorer: Scorer<R, X>,
    radius: int,
    steps: Seq<Standing<D>>,
    i: int,
    j: int,
)
    requires
        coeffs_tried(scorer, radius, steps),
        0 <= i <= j < steps.len(),
        steps[i].improved,
    ensures
        steps[j].improved,
    decreases j - i,
{
    if i < j {
        lemma_improvement_stays(scorer, radius, steps, i, j - 1);
        assert(coeff_tried(scorer, radius, j - 1, steps[j - 1], steps[j - 1 + 1]));
    }
}

/// A round that improves nothing tried everything: each coefficient from where it stands, to
/// where it stands.
proof fn lemma_idle_round<D: Value, R: Fn(D) -> D, X: Fn(F32) -> F32>(
    scorer: Scorer<R, X>,
    radius: int,
    n: nat,
    s: Standing<D>,
    t: Standing<D>,
    ci: int,
)
    requires
        scored(scorer, s.p, s.q, s.best),
        round_run(scorer, radius, n, s, t),
        !t.improved,
        0 <= ci < n,
    ensures
        t == s,
        coeff_tried(scorer, radius, ci, s, s),
{
    let steps = choose|steps: Seq<Standing<D>>|
        {
            &&& #[trigger] coeffs_tried(scorer, radius, steps)
            &&& steps.len() == n + 1
            &&& steps.first() == s
            &&& steps.last() == t
        };
    if steps[ci].improved {
        lemma_improvement_stays(scorer, radius, steps, ci, n as int);
    }
    if steps[ci + 1].improved {
        lemma_improvement_stays(scorer, radius, steps, ci + 1, n as int);
    }
    lemma_coeffs_scored(scorer, radius, steps, ci);
    lemma_coeffs_scored(scorer, radius, steps, ci + 1);
    lemma_coeffs_scored(scorer, radius, steps, n as int);
    assert(coeff_tried(scorer, radius, ci, steps[ci], steps[ci + 1]));
}

/// A search that changes nothing has found a local optimum: no nudge of any single
/// coefficient within the radius, the leading one of the denominator left out, gets a better
/// score than the coefficients have.
pub proof fn law_unmoved_by_a_search_is_a_local_optimum<
    D: Value,
    R: Fn(D) -> D,
    X: Fn(F32) -> F32,
>(
    scorer: Scorer<R, X>,
    radius: int,
    max_rounds: nat,
    p: Seq<F32>,
    q: Seq<F32>,
    t: Standing<D>,
    ci: int,
    d: int,
    own: Score<D>,
    other: Score<D>,
)
    requires
        strict_order::<D>(),
        repeatable::<D, D, R>(scorer.reference),
        repeatable::<F32, F32, X>(scorer.transform),
        q.len() > 0,
        max_rounds > 0,
        searched(scorer, radius, max_rounds, p, q, t),
        t.p == p,
        t.q == q,
        0 <= ci < p.len() + q.len() - 1,
        -radius <= d <= radius,
        d != 0,
        scored(scorer, p, q, own),
        scored(scorer, nudged_pair(p, q, ci, d).0, nudged_pair(p, q, ci, d).1, other),
    ensures
        !better(other, own),
{
    let steps = trace(scorer, radius, max_rounds, p, q, t);
    lemma_scored_unique(scorer, p, q, own, steps[0].best);
    lemma_later_is_no_worse(scorer, radius, steps, 1);
    lemma_scored_unique(scorer, p, q, own, t.best);
    let first = steps[0];
    let second = steps[1];
    let s0 = Standing { improved: false, ..first };
    let n = free_count(p, q);
    assert(round_run(scorer, radius, n, s0, steps[0int + 1]));
    assert(second.best == first.best) by {
        lemma_later_is_no_worse(scorer, radius, steps.take(2), 0);
        law_better_is_strict_order(t.best, second.best, first.best);
        law_better_is_strict_order(second.best, first.best, second.best);
    }
    assert(!second.improved) by {
        if second.improved {
            lemma_improved_round_is_better(scorer, radius, n, s0, second);
            law_better_is_strict_order(second.best, second.best, second.best);
        }
    }
    lemma_idle_round(scorer, radius, n, s0, second, ci);
    law_coefficient_gets_its_best_nudge(scorer, radius, ci, s0, s0, d, other);
}

/// A round that improves something ends with a better score.
proof fn lemma_improved_round_is_better<D: Value, R: Fn(D) -> D, X: Fn(F32) -> F32>(
    scorer: Scorer<R, X>,
    radius: int,
    n: nat,
    s: Standing<D>,
    t: Standing<D>,
)
    requires
        strict_order::<D>(),
        !s.improved,
        t.improved,
        round_run(scorer, radius, n, s, t),
    ensures
        better(t.best, s.best),
{
    let steps = choose|steps: Seq<Standing<D>>|
        {
            &&& #[trigger] coeffs_tried(scorer, radius, steps)
            &&& steps.len() == n + 1
            &&& steps.first() == s
            &&& steps.last() == t
        };
    lemma_improved_is_better(scorer, radius, steps, n as int);
}

proof fn lemma_improved_is_better<D: Value, R: Fn(D) -> D, X: Fn(F32) -> F32>(
    scorer: Scorer<R, X>,
    radius: int,
    steps: Seq<Standing<D>>,
    i: int,
)
    requires
        strict_order::<D>(),
        coeffs_tried(scorer, radius, steps),
        0 <= i < steps.len(),
        !steps[0].improved,
    ensures
        steps[i].improved ==> better(steps[i].best, steps[0].best),
        !steps[i].improved ==> steps[i].best == steps[0].best,
    decreases i,
{
    if i > 0 {
        lemma_improved_is_better(scorer, radius, steps, i - 1);
        let (s, t) = (steps[i - 1], steps[i]);
        assert(coeff_tried(scorer, radius, i - 1, steps[i - 1], steps[i - 1 + 1]));
        let scores = choose|scores: Seq<Score<D>>|
            #[trigger] candidates_scored(scorer, radius, i - 1, s, scores) && scores.len()
                == nudge_count(radius) && t == after_pick(radius, i - 1, s, scores);
        lemma_pick_range(s.best, scores);
        law_better_is_strict_order(t.best, s.best, steps[0].best);
    }
}

/// Where there is nothing to try, with no rounds or a radius below one, a search hands its
/// coefficients back.
pub proof fn law_nothing_to_search<D: Value, R: Fn(D) -> D, X: Fn(F32) -> F32>(
    scorer: Scorer<R, X>,
    radius: int,
    max_rounds: nat,
    p: Seq<F32>,
    q: Seq<F32>,
    r: F32SearchResult<D>,
)
    requires
        q.len() > 0,
        max_rounds == 0 || radius < 1,
        local_search_result(scorer, radius, max_rounds, p, q, r),
    ensures
        r.numerator@ == p,
        r.denominator@ == q,
{
    let t = choose|t: Standing<D>|
        #[trigger] searched(scorer, radius, max_rounds, p, q, t) && t.p == r.numerator@ && t.q
            == r.denominator@;
    let steps = trace(scorer, radius, max_rounds, p, q, t);
    if radius < 1 && steps.len() > 1 {
        let n = free_count(p, q);
        let s0 = Standing { improved: false, ..steps[0] };
        assert(round_run(scorer, radius, n, s0, steps[0int + 1]));
        let inner = choose|inner: Seq<Standing<D>>|
            {
                &&& #[trigger] coeffs_tried(scorer, radius, inner)
                &&& inner.len() == n + 1
                &&& inner.first() == s0
                &&& inner.last() == steps[1]
            };
        lemma_nothing_tried(scorer, radius, inner, n as int);
        if steps.len() > 2 {
            assert(steps[1].improved);
        }
    }
}

proof fn lemma_nothing_tried<D: Value, R: Fn(D) -> D, X: Fn(F32) -> F32>(
    scorer: Scorer<R, X>,
    radius: int,
    steps: Seq<Standing<D>>,
    i: int,
)
    requires
        radius < 1,
        coeffs_tried(scorer, radius, steps),
        0 <= i < steps.len(),
    ensures
        steps[i] == steps[0],
    decreases i,
{
    if i > 0 {
        lemma_nothing_tried(scorer, radius, steps, i - 1);
        assert(coeff_tried(scorer, radius, i - 1, steps[i - 1], steps[i - 1 + 1]));
    }
}

/// Among candidates of equal score the first is kept: the one that is kept scores better than
/// each before it.
pub proof fn law_earlier_candidate_wins_ties<D: Value>(
    best: Score<D>,
    scores: Seq<Score<D>>,
    j: int,
)
    requires
        strict_order::<D>(),
        forall|a: D, b: D, c: D|
            !b.is_nan_spec() && #[trigger] a.lt_spec(c) ==> #[trigger] a.lt_spec(b) || b.lt_spec(c),
        pick(best, scores) matches Some(k) && 0 <= j < k,
        !scores[j].avg.is_nan_spec(),
    ensures
        pick(best, scores) matches Some(k) && k < scores.len() && better(scores[k], scores[j]),
    decreases scores.len(),
{
    lemma_pick_range(best, scores);
    if scores.len() > 0 {
        let rest = scores.drop_last();
        let k = pick(best, scores)->0;
        assert(rest[j] == scores[j]);
        if k < scores.len() - 1 {
            assert(pick(best, rest) == Some(k));
            law_earlier_candidate_wins_ties(best, rest, j);
            assert(rest[k] == scores[k]);
        } else {
            law_pick_is_best(best, rest);
            match pick(best, rest) {
                Some(m) => {
                    assert(rest[m] == scores[m]);
                    lemma_between(scores[k], scores[j], scores[m]);
                },
                None => {
                    lemma_between(scores[k], scores[j], best);
                },
            }
        }
    }
}

/// What is not better than something worse than `a` is worse than `a`.
proof fn lemma_between<D: Value>(a: Score<D>, b: Score<D>, c: Score<D>)
    requires
        forall|x: D, y: D, z: D|
            !y.is_nan_spec() && #[trigger] x.lt_spec(z) ==> #[trigger] x.lt_spec(y) || y.lt_spec(z),
        !b.avg.is_nan_spec(),
        better(a, c),
        !better(b, c),
    ensures
        better(a, b),
{
    if a.avg.lt_spec(c.avg) {
        assert(a.avg.lt_spec(b.avg) || b.avg.lt_spec(c.avg));
    }
}

/// A search is rounds, one after the other, from the coefficients given and their score: each
/// tries every coefficient but the leading one of the denominator, in order. It ends after the
/// last round that is allowed or the first that improves nothing.
pub proof fn law_search_goes_round_by_round<D: Value, R: Fn(D) -> D, X: Fn(F32) -> F32>(
    scorer: Scorer<R, X>,
    radius: int,
    max_rounds: nat,
    p: Seq<F32>,
    q: Seq<F32>,
    t: Standing<D>,
) -> (steps: Seq<Standing<D>>)
    requires
        q.len() > 0,
        searched(scorer, radius, max_rounds, p, q, t),
    ensures
        1 <= steps.len() <= max_rounds + 1,
        steps[0].p == p,
        steps[0].q == q,
        scored(scorer, p, q, steps[0].best),
        forall|k: int|
            0 <= k < steps.len() - 1 ==> round_run(
                scorer,
                radius,
                (p.len() + q.len() - 1) as nat,
                Standing {
                    p: (#[trigger] steps[k]).p,
                    q: steps[k].q,
                    best: steps[k].best,
                    improved: false,
                },
                steps[k + 1],
            ),
        forall|k: int| 0 < k < steps.len() - 1 ==> (#[trigger] steps[k]).improved,
        steps.len() < max_rounds + 1 ==> steps.len() > 1 && !t.improved,
        steps.last() == t,
{
    let steps = trace(scorer, radius, max_rounds, p, q, t);
    assert forall|k: int| 0 <= k < steps.len() - 1 implies round_run(
        scorer,
        radius,
        (p.len() + q.len() - 1) as nat,
        Standing {
            p: (#[trigger] steps[k]).p,
            q: steps[k].q,
            best: steps[k].best,
            improved: false,
        },
        steps[k + 1],
    ) by {
        lemma_rounds_keep_shape(scorer, radius, steps, k);
        assert(free_count(steps[k].p, steps[k].q) == (p.len() + q.len() - 1) as nat);
    }
    steps
}

/// A round tries the first coefficient, then the second, and so on, each from where the one
/// before has left things.
pub proof fn law_round_goes_from_first_to_last<D: Value, R: Fn(D) -> D, X: Fn(F32) -> F32>(
    scorer: Scorer<R, X>,
    radius: int,
    n: nat,
    s: Standing<D>,
    t: Standing<D>,
) -> (steps: Seq<Standing<D>>)
    requires
        round_run(scorer, radius, n, s, t),
    ensures
        steps.len() == n + 1,
        steps[0] == s,
        steps[n as int] == t,
        forall|i: int|
            0 <= i < n ==> coeff_tried(scorer, radius, i, #[trigger] steps[i], steps[i + 1]),
{
    choose|steps: Seq<Standing<D>>|
        {
            &&& #[trigger] coeffs_tried(scorer, radius, steps)
            &&& steps.len() == n + 1
            &&& steps.first() == s
            &&& steps.last() == t
        }
}

} // verus!
