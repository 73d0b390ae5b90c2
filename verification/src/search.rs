//! Local search for single precision coefficients.
//!
//! Rounding the coefficients of a fit to single precision moves its values. The
//! search nudges one coefficient at a time by a few ULPs, scores each candidate
//! over a sweep and keeps the best, round after round, until a round brings
//! nothing.
use crate::options::F32ScoreMetric;
use crate::single::{f32_nudge, f32_ulp_distance, nudge_spec, ulp_distance_spec, F32};
use crate::sweep::{
    average, max_abs_of, max_ulp_of, measure, mono_of, observable, observe_at, sum_abs_of,
    sum_ulp_of, swept, Sweep, Tally,
};
use crate::text::{
    append_decimal, append_mode, append_right_aligned, decimal, mode_text, right_aligned, to_decimal,
};
use crate::value::{copied, Value};
use vstd::prelude::*;
use vstd::string::StringExecFns;

verus! {

/// How good a set of coefficients is; compared by [`is_better`].
#[derive(Debug, Clone, Copy)]
pub struct Score<D> {
    /// The largest error: in ULPs, or the bits of the largest absolute error.
    pub primary: u64,
    /// ULP distance at the start of the sweep.
    pub boundary: u64,
    /// The average error.
    pub avg: D,
    /// Number of monotonicity violations.
    pub mono: u64,
}

/// The order of scores: one without monotonicity violations beats one with any;
/// among the others the largest error decides, then the error at the boundary,
/// then the average.
pub open spec fn better<D: Value>(a: Score<D>, b: Score<D>) -> bool {
    if a.mono > 0 && b.mono == 0 {
        false
    } else if a.mono == 0 && b.mono > 0 {
        true
    } else {
        ||| a.primary < b.primary
        ||| a.primary == b.primary && a.boundary < b.boundary
        ||| a.primary == b.primary && a.boundary == b.boundary && a.avg.lt_spec(b.avg)
    }
}

/// Whether score `a` is better than score `b`.
pub fn is_better<D: Value>(a: Score<D>, b: Score<D>) -> (r: bool)
    ensures
        r == better(a, b),
{
    if a.mono > 0 && b.mono == 0 {
        return false;
    }
    if a.mono == 0 && b.mono > 0 {
        return true;
    }
    if a.primary != b.primary {
        return a.primary < b.primary;
    }
    if a.boundary != b.boundary {
        return a.boundary < b.boundary;
    }
    a.avg.lt(b.avg)
}

/// The comparison of values is a strict order, as that of machine numbers is.
pub open spec fn strict_order<D: Value>() -> bool {
    &&& forall|a: D| !#[trigger] a.lt_spec(a)
    &&& forall|a: D, b: D, c: D|
        #[trigger] a.lt_spec(b) && #[trigger] b.lt_spec(c) ==> a.lt_spec(c)
}

/// Where values are ordered strictly, so are scores.
pub proof fn law_better_is_strict_order<D: Value>(a: Score<D>, b: Score<D>, c: Score<D>)
    requires
        strict_order::<D>(),
    ensures
        !better(a, a),
        better(a, b) ==> !better(b, a),
        better(a, b) && better(b, c) ==> better(a, c),
{
    assert(!a.avg.lt_spec(a.avg));
    if a.avg.lt_spec(b.avg) && b.avg.lt_spec(a.avg) {
        assert(a.avg.lt_spec(a.avg));
    }
    if a.avg.lt_spec(b.avg) && b.avg.lt_spec(c.avg) {
        assert(a.avg.lt_spec(c.avg));
    }
}

/// How candidates are scored: against what, after what change of the input, over
/// which numbers, by which metric.
pub struct Scorer<R, X> {
    pub reference: R,
    pub transform: X,
    pub sweep: Sweep,
    pub metric: F32ScoreMetric,
}

impl<R, X> Scorer<R, X> {
    /// Candidates can be scored: the sweep is bounded and the functions take every
    /// input.
    pub open spec fn usable<D: Value>(&self) -> bool where R: Fn(D) -> D, X: Fn(F32) -> F32 {
        &&& self.sweep.bounded()
        &&& forall|d: D| #[trigger] call_requires(self.reference, (d,))
        &&& forall|s: F32| #[trigger] call_requires(self.transform, (s,))
    }
}

/// The score of what was observed over the sweep and at its start.
pub open spec fn score_of<D: Value>(
    metric: F32ScoreMetric,
    obs: Seq<(F32, F32)>,
    start: (F32, F32),
) -> Score<D> {
    Score {
        primary: match metric {
            F32ScoreMetric::Ulp => max_ulp_of(obs) as u64,
            F32ScoreMetric::AbsoluteError => max_abs_of::<D>(obs).to_bits_spec(),
        },
        boundary: ulp_distance_spec(start.0, start.1) as u64,
        avg: match metric {
            F32ScoreMetric::Ulp => average(D::from_u64_spec(sum_ulp_of(obs) as u64), obs.len()),
            F32ScoreMetric::AbsoluteError => average(sum_abs_of::<D>(obs), obs.len()),
        },
        mono: mono_of(obs) as u64,
    }
}

/// What evaluating the coefficients over the sweep and at its start can give.
pub open spec fn evaluated<D: Value, R: Fn(D) -> D, X: Fn(F32) -> F32>(
    scorer: Scorer<R, X>,
    p: Seq<F32>,
    q: Seq<F32>,
    obs: Seq<(F32, F32)>,
    start: (F32, F32),
) -> bool {
    &&& swept::<D, R, X>(scorer.reference, scorer.transform, scorer.sweep, p, q, obs)
    &&& observable::<D, R, X>(
        scorer.reference,
        scorer.transform,
        p,
        q,
        (scorer.sweep.lo, D::from_f32_spec(scorer.sweep.lo)),
        start,
    )
}

/// `s` is a score that the coefficients can get.
pub open spec fn scored<D: Value, R: Fn(D) -> D, X: Fn(F32) -> F32>(
    scorer: Scorer<R, X>,
    p: Seq<F32>,
    q: Seq<F32>,
    s: Score<D>,
) -> bool {
    exists|obs: Seq<(F32, F32)>, start: (F32, F32)|
        #[trigger] evaluated::<D, R, X>(scorer, p, q, obs, start) && s == score_of::<D>(
            scorer.metric,
            obs,
            start,
        )
}

/// Evaluate coefficients over the sweep and at its start.
fn evaluate<D: Value, R: Fn(D) -> D, X: Fn(F32) -> F32>(
    scorer: &Scorer<R, X>,
    p: &[F32],
    q: &[F32],
) -> (r: (Tally<D>, u32))
    requires
        scorer.usable::<D>(),
        p.len() > 0,
        q.len() > 0,
    ensures
        exists|obs: Seq<(F32, F32)>, start: (F32, F32)|
            #[trigger] evaluated::<D, R, X>(*scorer, p@, q@, obs, start) && r.0.sums_up(obs)
                && r.1 == ulp_distance_spec(start.0, start.1),
{
    let tally = measure::<D, R, X>(&scorer.reference, &scorer.transform, &scorer.sweep, p, q);
    let lo = scorer.sweep.lo;
    let start = observe_at(&scorer.reference, &scorer.transform, p, q, lo, D::from_f32(lo));
    proof {
        let obs = choose|obs: Seq<(F32, F32)>|
            #[trigger] swept::<D, R, X>(
                scorer.reference,
                scorer.transform,
                scorer.sweep,
                p@,
                q@,
                obs,
            ) && tally.sums_up(obs);
        assert(evaluated::<D, R, X>(*scorer, p@, q@, obs, start));
    }
    (tally, f32_ulp_distance(start.0, start.1))
}

/// Score coefficients.
pub fn score<D: Value, R: Fn(D) -> D, X: Fn(F32) -> F32>(
    scorer: &Scorer<R, X>,
    p: &[F32],
    q: &[F32],
) -> (r: Score<D>)
    requires
        scorer.usable::<D>(),
        p.len() > 0,
        q.len() > 0,
    ensures
        scored(*scorer, p@, q@, r),
{
    let (tally, boundary) = evaluate::<D, R, X>(scorer, p, q);
    let r = match scorer.metric {
        F32ScoreMetric::Ulp => Score {
            primary: tally.max_ulp as u64,
            boundary: boundary as u64,
            avg: tally.avg_ulp(),
            mono: tally.mono,
        },
        F32ScoreMetric::AbsoluteError => Score {
            primary: tally.max_abs.to_bits(),
            boundary: boundary as u64,
            avg: tally.avg_abs(),
            mono: tally.mono,
        },
    };
    proof {
        let (obs, start) = choose|obs: Seq<(F32, F32)>, start: (F32, F32)|
            #[trigger] evaluated::<D, R, X>(*scorer, p@, q@, obs, start) && tally.sums_up(obs)
                && boundary == ulp_distance_spec(start.0, start.1);
        assert(evaluated::<D, R, X>(*scorer, p@, q@, obs, start));
        assert(r == score_of::<D>(scorer.metric, obs, start));
    }
    r
}

/// The coefficient with the given number, those of the numerator first.
pub open spec fn coeff(p: Seq<F32>, q: Seq<F32>, ci: int) -> F32 {
    if ci < p.len() {
        p[ci]
    } else {
        q[ci - p.len()]
    }
}

/// The numerator with one coefficient of the pair replaced.
pub open spec fn p_with(p: Seq<F32>, ci: int, v: F32) -> Seq<F32> {
    if ci < p.len() {
        p.update(ci, v)
    } else {
        p
    }
}

/// The denominator with one coefficient of the pair replaced.
pub open spec fn q_with(p: Seq<F32>, q: Seq<F32>, ci: int, v: F32) -> Seq<F32> {
    if ci < p.len() {
        q
    } else {
        q.update(ci - p.len(), v)
    }
}

/// How many nudges are tried: all up to the radius either way, without the one
/// that changes nothing.
pub open spec fn nudge_count(radius: int) -> int {
    if radius > 0 {
        2 * radius
    } else {
        0
    }
}

/// The nudges in the order in which they are tried, from `-radius` to `radius`.
pub open spec fn nudge_at(radius: int, k: int) -> int {
    if k < radius {
        k - radius
    } else {
        k - radius + 1
    }
}

/// Which candidate is kept, if any: one that is better than the best so far, and
/// better than the candidate kept before it.
pub open spec fn pick<D: Value>(best: Score<D>, scores: Seq<Score<D>>) -> Option<int>
    decreases scores.len(),
{
    if scores.len() == 0 {
        None
    } else {
        let kept = pick(best, scores.drop_last());
        let s = scores.last();
        let beats_kept = match kept {
            Some(k) => better(s, scores[k]),
            None => true,
        };
        if better(s, best) && beats_kept {
            Some(scores.len() - 1)
        } else {
            kept
        }
    }
}

/// The candidate that is kept is better than the best so far, and no other
/// candidate is better than it; if none is kept, none is better than the best so
/// far.
pub proof fn law_pick_is_best<D: Value>(best: Score<D>, scores: Seq<Score<D>>)
    requires
        strict_order::<D>(),
    ensures
        pick(best, scores) matches Some(k) ==> 0 <= k < scores.len() && better(scores[k], best)
            && forall|j: int|
            0 <= j < scores.len() ==> !better(#[trigger] scores[j], scores[k]),
        pick(best, scores) is None ==> forall|j: int|
            0 <= j < scores.len() ==> !better(#[trigger] scores[j], best),
    decreases scores.len(),
{
    if scores.len() > 0 {
        let rest = scores.drop_last();
        law_pick_is_best(best, rest);
        lemma_pick_range(best, rest);
        let s = scores.last();
        let n = scores.len() - 1;
        assert forall|j: int|
            0 <= j < scores.len() && pick(best, scores) is Some implies !better(
            #[trigger] scores[j],
            scores[pick(best, scores)->0],
        ) by {
            let k = pick(best, scores)->0;
            if j < n {
                assert(rest[j] == scores[j]);
            }
            match pick(best, rest) {
                Some(m) => {
                    assert(rest[m] == scores[m]);
                    law_better_is_strict_order(scores[j], s, scores[m]);
                    law_better_is_strict_order(s, s, s);
                    law_better_is_strict_order(s, scores[m], best);
                },
                None => {
                    law_better_is_strict_order(scores[j], s, best);
                    law_better_is_strict_order(s, s, s);
                },
            }
        }
        assert forall|j: int|
            0 <= j < scores.len() && pick(best, scores) is None implies !better(
            #[trigger] scores[j],
            best,
        ) by {
            if j < n {
                assert(rest[j] == scores[j]);
            }
        }
    }
}

/// A candidate that is kept is one of those listed.
pub proof fn lemma_pick_range<D: Value>(best: Score<D>, scores: Seq<Score<D>>)
    ensures
        pick(best, scores) matches Some(k) ==> 0 <= k < scores.len() && better(scores[k], best),
    decreases scores.len(),
{
    if scores.len() > 0 {
        lemma_pick_range(best, scores.drop_last());
    }
}

/// Where a search stands: the coefficients, the score that they got, and whether
/// the current round has changed anything.
pub ghost struct Standing<D> {
    pub p: Seq<F32>,
    pub q: Seq<F32>,
    pub best: Score<D>,
    pub improved: bool,
}

/// Trying the nudges of one coefficient: each candidate gets a score, and the
/// candidate that [`pick`] keeps, if any, replaces the coefficient.
pub open spec fn coeff_tried<D: Value, R: Fn(D) -> D, X: Fn(F32) -> F32>(
    scorer: Scorer<R, X>,
    radius: int,
    ci: int,
    s: Standing<D>,
    t: Standing<D>,
) -> bool {
    exists|scores: Seq<Score<D>>|
        #[trigger] candidates_scored(scorer, radius, ci, s, scores) && scores.len() == nudge_count(
            radius,
        ) && t == after_pick(radius, ci, s, scores)
}

/// Each of the first candidates has the score listed.
pub open spec fn candidates_scored<D: Value, R: Fn(D) -> D, X: Fn(F32) -> F32>(
    scorer: Scorer<R, X>,
    radius: int,
    ci: int,
    s: Standing<D>,
    scores: Seq<Score<D>>,
) -> bool {
    forall|k: int|
        0 <= k < scores.len() ==> {
            let v = nudge_spec(coeff(s.p, s.q, ci), nudge_at(radius, k));
            scored(scorer, p_with(s.p, ci, v), q_with(s.p, s.q, ci, v), #[trigger] scores[k])
        }
}

/// Where the search stands once the candidates of one coefficient are scored.
pub open spec fn after_pick<D: Value>(
    radius: int,
    ci: int,
    s: Standing<D>,
    scores: Seq<Score<D>>,
) -> Standing<D> {
    match pick(s.best, scores) {
        Some(k) => {
            let v = nudge_spec(coeff(s.p, s.q, ci), nudge_at(radius, k));
            Standing {
                p: p_with(s.p, ci, v),
                q: q_with(s.p, s.q, ci, v),
                best: scores[k],
                improved: true,
            }
        },
        None => s,
    }
}

/// Trying coefficients one after the other, from the first one on; lists where the
/// search stands before each and at the end.
pub open spec fn coeffs_tried<D: Value, R: Fn(D) -> D, X: Fn(F32) -> F32>(
    scorer: Scorer<R, X>,
    radius: int,
    steps: Seq<Standing<D>>,
) -> bool {
    forall|i: int|
        0 <= i < steps.len() - 1 ==> coeff_tried(
            scorer,
            radius,
            i,
            #[trigger] steps[i],
            steps[i + 1],
        )
}

/// Trying the first `n` coefficients, from one standing to another.
pub open spec fn round_run<D: Value, R: Fn(D) -> D, X: Fn(F32) -> F32>(
    scorer: Scorer<R, X>,
    radius: int,
    n: nat,
    s: Standing<D>,
    t: Standing<D>,
) -> bool {
    exists|steps: Seq<Standing<D>>|
        {
            &&& #[trigger] coeffs_tried(scorer, radius, steps)
            &&& steps.len() == n + 1
            &&& steps.first() == s
            &&& steps.last() == t
        }
}

/// How many coefficients are nudged: all but the leading one of the denominator.
pub open spec fn free_count(p: Seq<F32>, q: Seq<F32>) -> nat {
    (p.len() + q.len() - 1) as nat
}

/// Rounds one after the other; lists where the search stands before each and at the
/// end. A round is followed by another only if it has improved something.
pub open spec fn rounds_tried<D: Value, R: Fn(D) -> D, X: Fn(F32) -> F32>(
    scorer: Scorer<R, X>,
    radius: int,
    steps: Seq<Standing<D>>,
) -> bool {
    forall|i: int|
        0 <= i < steps.len() - 1 ==> (#[trigger] steps[i]).improved && round_run(
            scorer,
            radius,
            free_count(steps[i].p, steps[i].q),
            Standing { improved: false, ..steps[i] },
            steps[i + 1],
        )
}

/// A whole search: it starts with the score of the given coefficients and ends
/// after the last round, or after the first one that improves nothing.
pub open spec fn searched<D: Value, R: Fn(D) -> D, X: Fn(F32) -> F32>(
    scorer: Scorer<R, X>,
    radius: int,
    max_rounds: nat,
    p: Seq<F32>,
    q: Seq<F32>,
    t: Standing<D>,
) -> bool {
    exists|steps: Seq<Standing<D>>|
        {
            &&& #[trigger] rounds_tried(scorer, radius, steps)
            &&& 1 <= steps.len() <= max_rounds + 1
            &&& steps.first().p == p && steps.first().q == q && steps.first().improved
            &&& scored(scorer, p, q, steps.first().best)
            &&& steps.last() == t
            &&& steps.len() == max_rounds + 1 || !t.improved
        }
}

/// Result of single precision coefficient optimization.
#[derive(Debug, Clone)]
pub struct F32SearchResult<D> {
    /// Optimized numerator coefficients.
    pub numerator: Vec<F32>,
    /// Optimized denominator coefficients.
    pub denominator: Vec<F32>,
    /// Maximum ULP error across the sweep domain.
    pub max_ulp: u32,
    /// Average ULP error across the sweep domain.
    pub avg_ulp: D,
    /// ULP error at the domain start (boundary).
    pub boundary_ulp: u32,
    /// Number of monotonicity violations.
    pub mono_violations: u64,
    /// Maximum absolute error.
    pub max_abs_err: D,
    /// Average absolute error.
    pub avg_abs_err: D,
    /// Number of values scored (exhaustive) or sample count (sampled).
    pub values_scored: u64,
    /// `true` if every number in the sweep domain was evaluated,
    /// `false` if uniform sampling was used.
    pub exhaustive: bool,
}

impl<D: Value> F32SearchResult<D> {
    /// The figures are those of the given observations.
    pub open spec fn reports(&self, sweep: Sweep, obs: Seq<(F32, F32)>, start: (F32, F32)) -> bool {
        &&& self.max_ulp == max_ulp_of(obs)
        &&& self.avg_ulp == average(D::from_u64_spec(sum_ulp_of(obs) as u64), obs.len())
        &&& self.boundary_ulp == ulp_distance_spec(start.0, start.1)
        &&& self.mono_violations == mono_of(obs)
        &&& self.max_abs_err == max_abs_of::<D>(obs)
        &&& self.avg_abs_err == average(sum_abs_of::<D>(obs), obs.len())
        &&& self.values_scored == sweep.count()
        &&& self.exhaustive == (sweep.samples is None)
    }

    /// The text of the result.
    pub open spec fn text(&self) -> Seq<char> {
        "max_ulp="@ + right_aligned(decimal(self.max_ulp as nat), 4) + " avg_ulp="@ + right_aligned(
            self.avg_ulp.fixed_text(3),
            7,
        ) + " bnd="@ + decimal(self.boundary_ulp as nat) + " mono="@ + decimal(
            self.mono_violations as nat,
        ) + " max_abs="@ + self.max_abs_err.exp_text(3) + mode_text(
            self.exhaustive,
            self.values_scored as nat,
        )
    }

    /// The figures of the result as one line of text.
    pub fn to_text(&self) -> (r: String)
        ensures
            r@ == self.text(),
    {
        let mut out = String::new();
        out.append("max_ulp=");
        append_right_aligned(&mut out, to_decimal(self.max_ulp as u64).as_str(), 4);
        out.append(" avg_ulp=");
        append_right_aligned(&mut out, self.avg_ulp.to_fixed(3).as_str(), 7);
        out.append(" bnd=");
        append_decimal(&mut out, self.boundary_ulp as u64);
        out.append(" mono=");
        append_decimal(&mut out, self.mono_violations);
        out.append(" max_abs=");
        out.append(self.max_abs_err.to_exp(3).as_str());
        append_mode(&mut out, self.exhaustive, self.values_scored);
        assert(out@ =~= self.text());
        out
    }
}

/// The result of a whole search: the coefficients are those with which the search
/// ended, and the figures are those of evaluating them once more.
pub open spec fn local_search_result<D: Value, R: Fn(D) -> D, X: Fn(F32) -> F32>(
    scorer: Scorer<R, X>,
    radius: int,
    max_rounds: nat,
    p: Seq<F32>,
    q: Seq<F32>,
    r: F32SearchResult<D>,
) -> bool {
    &&& exists|t: Standing<D>|
        #[trigger] searched(scorer, radius, max_rounds, p, q, t) && t.p == r.numerator@ && t.q
            == r.denominator@
    &&& exists|obs: Seq<(F32, F32)>, start: (F32, F32)|
        #[trigger] evaluated::<D, R, X>(scorer, r.numerator@, r.denominator@, obs, start)
            && r.reports(scorer.sweep, obs, start)
}

fn set_coeff(p: &mut Vec<F32>, q: &mut Vec<F32>, ci: usize, v: F32)
    requires
        ci < old(p).len() + old(q).len(),
    ensures
        final(p)@ == p_with(old(p)@, ci as int, v),
        final(q)@ == q_with(old(p)@, old(q)@, ci as int, v),
{
    let len: usize = p.len();
    if ci < len {
        p.set(ci, v);
    } else {
        q.set(ci - len, v);
    }
}

fn get_coeff(p: &Vec<F32>, q: &Vec<F32>, ci: usize) -> (r: F32)
    requires
        ci < p.len() + q.len(),
    ensures
        r == coeff(p@, q@, ci as int),
{
    let len: usize = p.len();
    if ci < len {
        p[ci]
    } else {
        q[ci - len]
    }
}

/// Try the nudges of one coefficient; returns the best score and whether it is new.
fn try_coeff<D: Value, R: Fn(D) -> D, X: Fn(F32) -> F32>(
    scorer: &Scorer<R, X>,
    radius: i32,
    ci: usize,
    p: &mut Vec<F32>,
    q: &mut Vec<F32>,
    best: Score<D>,
    improved: bool,
) -> (r: (Score<D>, bool))
    requires
        scorer.usable::<D>(),
        radius > i32::MIN,
        old(p).len() > 0,
        old(q).len() > 0,
        ci < old(p).len() + old(q).len(),
    ensures
        coeff_tried(
            *scorer,
            radius as int,
            ci as int,
            Standing { p: old(p)@, q: old(q)@, best, improved },
            Standing { p: final(p)@, q: final(q)@, best: r.0, improved: r.1 },
        ),
        final(p).len() == old(p).len(),
        final(q).len() == old(q).len(),
{
    let original = get_coeff(p, q, ci);
    let ghost s = Standing { p: p@, q: q@, best, improved };
    let ghost mut scores: Seq<Score<D>> = Seq::empty();
    let mut best_delta: i32 = 0;
    let mut best_score: Option<Score<D>> = None;
    let mut delta: i64 = -(radius as i64);
    while delta <= radius as i64
        invariant
            scorer.usable::<D>(),
            radius > i32::MIN,
            p.len() > 0,
            q.len() > 0,
            ci < p.len() + q.len(),
            s == (Standing { p: p@, q: q@, best, improved }),
            original == coeff(s.p, s.q, ci as int),
            -(radius as i64) <= delta,
            radius >= 0 ==> delta <= radius + 1,
            candidates_scored(*scorer, radius as int, ci as int, s, scores),
            radius <= 0 ==> scores.len() == 0,
            radius > 0 && delta <= 0 ==> scores.len() == delta + radius,
            radius > 0 && delta > 0 ==> scores.len() == delta + radius - 1,
            match pick(best, scores) {
                Some(k) => best_score == Some(scores[k]) && 0 <= k < scores.len() && best_delta
                    == nudge_at(radius as int, k),
                None => best_score is None,
            },
        decreases radius - delta + 1,
    {
        if delta != 0 {
            let nudged = f32_nudge(original, delta as i32);
            set_coeff(p, q, ci, nudged);
            let sc = score::<D, R, X>(scorer, p.as_slice(), q.as_slice());
            let dominated = match best_score {
                Some(bs) => !is_better(sc, bs),
                None => false,
            };
            let ghost earlier = scores;
            proof {
                assert(nudge_at(radius as int, scores.len() as int) == delta);
                scores = scores.push(sc);
                assert(scores.drop_last() =~= earlier);
                lemma_pick_range(best, earlier);
            }
            if is_better(sc, best) && !dominated {
                best_delta = delta as i32;
                best_score = Some(sc);
            }
            set_coeff(p, q, ci, original);
            assert(p@ =~= s.p);
            assert(q@ =~= s.q);
        }
        delta = delta + 1;
    }
    assert(candidates_scored(*scorer, radius as int, ci as int, s, scores));
    match best_score {
        Some(sc) => {
            let nudged = f32_nudge(original, best_delta);
            set_coeff(p, q, ci, nudged);
            (sc, true)
        },
        None => (best, improved),
    }
}

/// Try all coefficients; returns the best score and whether it is new.
fn run_round<D: Value, R: Fn(D) -> D, X: Fn(F32) -> F32>(
    scorer: &Scorer<R, X>,
    radius: i32,
    p: &mut Vec<F32>,
    q: &mut Vec<F32>,
    best: Score<D>,
) -> (r: (Score<D>, bool))
    requires
        scorer.usable::<D>(),
        radius > i32::MIN,
        old(p).len() > 0,
        old(q).len() > 0,
        old(p).len() + old(q).len() - 1 <= usize::MAX,
    ensures
        round_run(
            *scorer,
            radius as int,
            free_count(old(p)@, old(q)@),
            Standing { p: old(p)@, q: old(q)@, best, improved: false },
            Standing { p: final(p)@, q: final(q)@, best: r.0, improved: r.1 },
        ),
        final(p).len() == old(p).len(),
        final(q).len() == old(q).len(),
{
    let ghost s = Standing { p: p@, q: q@, best, improved: false };
    let ghost mut steps: Seq<Standing<D>> = seq![s];
    let n_coeffs: usize = p.len() + (q.len() - 1);
    let mut best = best;
    let mut improved = false;
    let mut ci: usize = 0;
    while ci < n_coeffs
        invariant
            scorer.usable::<D>(),
            radius > i32::MIN,
            p.len() == s.p.len(),
            q.len() == s.q.len(),
            p.len() > 0,
            q.len() > 0,
            ci <= n_coeffs,
            n_coeffs == s.p.len() + s.q.len() - 1,
            coeffs_tried(*scorer, radius as int, steps),
            steps.len() == ci + 1,
            steps.first() == s,
            steps.last() == (Standing { p: p@, q: q@, best, improved }),
        decreases n_coeffs - ci,
    {
        let (b, i) = try_coeff::<D, R, X>(scorer, radius, ci, p, q, best, improved);
        best = b;
        improved = i;
        ci = ci + 1;
        proof {
            let earlier = steps;
            steps = steps.push(Standing { p: p@, q: q@, best, improved });
            assert forall|i: int| 0 <= i < steps.len() - 1 implies coeff_tried(
                *scorer,
                radius as int,
                i,
                #[trigger] steps[i],
                steps[i + 1],
            ) by {
                if i < earlier.len() - 1 {
                    assert(steps[i] == earlier[i]);
                }
            }
        }
    }
    assert(coeffs_tried(*scorer, radius as int, steps));
    (best, improved)
}

/// Search for single precision coefficients near the given ones.
pub fn f32_local_search<D: Value, R: Fn(D) -> D, X: Fn(F32) -> F32>(
    initial_p: &[F32],
    initial_q: &[F32],
    scorer: &Scorer<R, X>,
    radius: i32,
    max_rounds: usize,
) -> (r: F32SearchResult<D>)
    requires
        scorer.usable::<D>(),
        radius > i32::MIN,
        initial_p.len() > 0,
        initial_q.len() > 0,
        initial_p.len() + initial_q.len() - 1 <= usize::MAX,
    ensures
        local_search_result(*scorer, radius as int, max_rounds as nat, initial_p@, initial_q@, r),
{
    let mut p = copied(initial_p);
    let mut q = copied(initial_q);
    let mut best = score::<D, R, X>(scorer, p.as_slice(), q.as_slice());
    let ghost mut steps: Seq<Standing<D>> = seq![Standing { p: p@, q: q@, best, improved: true }];
    let mut improved = true;
    let mut round: usize = 0;
    while round < max_rounds && improved
        invariant
            scorer.usable::<D>(),
            radius > i32::MIN,
            p.len() > 0,
            q.len() > 0,
            p.len() + q.len() - 1 <= usize::MAX,
            round <= max_rounds,
            rounds_tried(*scorer, radius as int, steps),
            steps.len() == round + 1,
            steps.first().p == initial_p@,
            steps.first().q == initial_q@,
            steps.first().improved,
            scored(*scorer, initial_p@, initial_q@, steps.first().best),
            steps.last() == (Standing { p: p@, q: q@, best, improved }),
        decreases max_rounds - round,
    {
        let (b, i) = run_round::<D, R, X>(scorer, radius, &mut p, &mut q, best);
        best = b;
        improved = i;
        round = round + 1;
        proof {
            let earlier = steps;
            steps = steps.push(Standing { p: p@, q: q@, best, improved });
            assert forall|i: int| 0 <= i < steps.len() - 1 implies (#[trigger] steps[i]).improved
                && round_run(
                *scorer,
                radius as int,
                free_count(steps[i].p, steps[i].q),
                Standing { improved: false, ..steps[i] },
                steps[i + 1],
            ) by {
                if i < earlier.len() - 1 {
                    assert(steps[i] == earlier[i]);
                }
            }
        }
    }
    let (tally, bnd) = evaluate::<D, R, X>(scorer, p.as_slice(), q.as_slice());
    let ghost t = Standing { p: p@, q: q@, best, improved };
    let r = F32SearchResult {
        numerator: p,
        denominator: q,
        max_ulp: tally.max_ulp,
        avg_ulp: tally.avg_ulp(),
        boundary_ulp: bnd,
        mono_violations: tally.mono,
        max_abs_err: tally.max_abs,
        avg_abs_err: tally.avg_abs(),
        values_scored: tally.count,
        exhaustive: scorer.sweep.samples.is_none(),
    };
    proof {
        assert(rounds_tried(*scorer, radius as int, steps));
        assert(searched(*scorer, radius as int, max_rounds as nat, initial_p@, initial_q@, t));
        let (obs, start) = choose|obs: Seq<(F32, F32)>, start: (F32, F32)|
            #[trigger] evaluated::<D, R, X>(*scorer, t.p, t.q, obs, start) && tally.sums_up(obs)
                && bnd == ulp_distance_spec(start.0, start.1);
        assert(evaluated::<D, R, X>(*scorer, r.numerator@, r.denominator@, obs, start));
        assert(r.reports(scorer.sweep, obs, start));
    }
    r
}

} // verus!
