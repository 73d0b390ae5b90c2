//! From fitted coefficients to single precision ones.
use crate::algebra::LinearAlgebra;
use crate::eval::widened;
use crate::lm::{lm_refined, packed, refine_lm, LM_TOLERANCE};
use crate::options::{Constraint, ErrorWeighting, F32SearchConfig};
use crate::polynomial::RationalPolynomial;
use crate::residual::Objective;
use crate::search::{f32_local_search, local_search_result, F32SearchResult, Scorer};
use crate::single::F32;
use crate::sweep::Sweep;
use crate::value::Value;
use vstd::prelude::*;

verus! {

/// Values rounded to single precision.
pub open spec fn rounded<T: Value>(c: Seq<T>) -> Seq<F32> {
    Seq::new(c.len(), |i: int| c[i].to_f32_spec())
}

/// What refining `p` and `q` freely can give: the free coefficients move, the leading
/// one of the denominator stays.
pub open spec fn freely_refined<T: Value, A: LinearAlgebra<T>>(
    alg: A,
    data: Seq<(T, T)>,
    weighting: ErrorWeighting,
    max_iters: nat,
    p: Seq<T>,
    q: Seq<T>,
    new_p: Seq<T>,
    new_q: Seq<T>,
) -> bool {
    &&& new_p.len() == p.len()
    &&& new_q.len() == q.len()
    &&& new_q.last() == q.last()
    &&& exists|used: nat| #[trigger]
        lm_refined(
            alg,
            Objective { data, constraints: Seq::empty(), weighting, p_terms: p.len() },
            T::convert_f64_spec(LM_TOLERANCE),
            max_iters,
            packed(p, q),
            packed(new_p, new_q),
            used,
        )
}

/// What a warm start can give: the coefficients are widened, refined freely, rounded and
/// searched from there.
pub open spec fn warm_started<T: Value, R: Fn(T) -> T, X: Fn(F32) -> F32, A: LinearAlgebra<T>>(
    alg: A,
    data: Seq<(T, T)>,
    weighting: ErrorWeighting,
    lm_iters: nat,
    existing_p: Seq<F32>,
    existing_q: Seq<F32>,
    scorer: Scorer<R, X>,
    radius: int,
    max_rounds: nat,
    r: F32SearchResult<T>,
) -> bool {
    exists|p: Seq<T>, q: Seq<T>|
        {
            &&& #[trigger] freely_refined(
                alg,
                data,
                weighting,
                lm_iters,
                widened::<T>(existing_p),
                widened::<T>(existing_q),
                p,
                q,
            )
            &&& local_search_result(scorer, radius, max_rounds, rounded(p), rounded(q), r)
        }
}

fn round_all<T: Value>(c: &[T]) -> (r: Vec<F32>)
    ensures
        r@ == rounded(c@),
{
    let mut r: Vec<F32> = Vec::new();
    let mut i: usize = 0;
    while i < c.len()
        invariant
            i <= c.len(),
            r@ == rounded(c@).take(i as int),
        decreases c.len() - i,
    {
        r.push(c[i].to_f32());
        i = i + 1;
        assert(r@ =~= rounded(c@).take(i as int));
    }
    assert(r@ =~= rounded(c@));
    r
}

fn widen_all<T: Value>(c: &[F32]) -> (r: Vec<T>)
    ensures
        r@ == widened::<T>(c@),
{
    let mut r: Vec<T> = Vec::new();
    let mut i: usize = 0;
    while i < c.len()
        invariant
            i <= c.len(),
            r@ == widened::<T>(c@).take(i as int),
        decreases c.len() - i,
    {
        r.push(T::from_f32(c[i]));
        i = i + 1;
        assert(r@ =~= widened::<T>(c@).take(i as int));
    }
    assert(r@ =~= widened::<T>(c@));
    r
}

impl<T: Value> RationalPolynomial<T> {
    /// Round to single precision and locally search for the best coefficients there.
    ///
    /// This is the final optimization step for transfer function approximations:
    /// the fit finds the right basin, rounding moves its values, and this search
    /// explores perturbations of up to `radius` ULPs per coefficient to find the
    /// combination with the lowest error.
    ///
    /// The `transform` maps domain values to polynomial input (e.g. a square root).
    /// Evaluation accumulates in `T`, as
    /// [`rational_horner_f32_via_f64`](crate::eval::rational_horner_f32_via_f64) does.
    pub fn optimize_f32<R: Fn(T) -> T, X: Fn(F32) -> F32>(
        &self,
        reference: R,
        sweep_lo: F32,
        sweep_hi: F32,
        transform: X,
        config: F32SearchConfig,
    ) -> (r: F32SearchResult<T>)
        requires
            self.evaluable(),
            self.p().len() + self.q().len() - 1 <= usize::MAX,
            config.radius > i32::MIN,
            (Sweep { lo: sweep_lo, hi: sweep_hi, samples: config.samples }).bounded(),
            forall|d: T| #[trigger] call_requires(reference, (d,)),
            forall|s: F32| #[trigger] call_requires(transform, (s,)),
        ensures
            local_search_result(
                Scorer {
                    reference,
                    transform,
                    sweep: Sweep { lo: sweep_lo, hi: sweep_hi, samples: config.samples },
                    metric: config.metric,
                },
                config.radius as int,
                config.max_rounds as nat,
                rounded(self.p()),
                rounded(self.q()),
                r,
            ),
    {
        let p = round_all(self.numerator());
        let q = round_all(self.denominator());
        let sweep = Sweep { lo: sweep_lo, hi: sweep_hi, samples: config.samples };
        let scorer = Scorer { reference, transform, sweep, metric: config.metric };
        f32_local_search(p.as_slice(), q.as_slice(), &scorer, config.radius, config.max_rounds)
    }

    /// Warm-start single precision optimization from existing coefficients.
    ///
    /// Promotes to `T`, refines there, rounds back, then runs the local search. Use
    /// this when you already have good coefficients and want to explore nearby
    /// basins. The refinement takes the leading coefficient of the denominator to
    /// be 1 and leaves it as it is.
    pub fn refine_from_f32<R: Fn(T) -> T, X: Fn(F32) -> F32, A: LinearAlgebra<T>>(
        existing_p: &[F32],
        existing_q: &[F32],
        reference: R,
        data: &[(T, T)],
        sweep_lo: F32,
        sweep_hi: F32,
        transform: X,
        config: F32SearchConfig,
        weighting: ErrorWeighting,
        lm_iters: usize,
        algebra: &A,
    ) -> (r: F32SearchResult<T>)
        requires
            existing_p.len() > 0,
            existing_q.len() > 0,
            existing_p.len() + existing_q.len() - 1 <= usize::MAX,
            config.radius > i32::MIN,
            (Sweep { lo: sweep_lo, hi: sweep_hi, samples: config.samples }).bounded(),
            forall|d: T| #[trigger] call_requires(reference, (d,)),
            forall|s: F32| #[trigger] call_requires(transform, (s,)),
        ensures
            warm_started(
                *algebra,
                data@,
                weighting,
                lm_iters as nat,
                existing_p@,
                existing_q@,
                Scorer {
                    reference,
                    transform,
                    sweep: Sweep { lo: sweep_lo, hi: sweep_hi, samples: config.samples },
                    metric: config.metric,
                },
                config.radius as int,
                config.max_rounds as nat,
                r,
            ),
    {
        let mut poly = RationalPolynomial::new(widen_all(existing_p), widen_all(existing_q));
        let none: Vec<Constraint<T>> = Vec::new();
        assert(none@ =~= Seq::empty());
        let used: usize = refine_lm(
            algebra,
            &mut poly,
            data,
            none.as_slice(),
            weighting,
            lm_iters,
            T::convert_f64(LM_TOLERANCE),
        );
        assert(freely_refined(
            *algebra,
            data@,
            weighting,
            lm_iters as nat,
            widened::<T>(existing_p@),
            widened::<T>(existing_q@),
            poly.p(),
            poly.q(),
        )) by {
            assert(lm_refined(
                *algebra,
                Objective {
                    data: data@,
                    constraints: Seq::empty(),
                    weighting,
                    p_terms: existing_p@.len(),
                },
                T::convert_f64_spec(LM_TOLERANCE),
                lm_iters as nat,
                packed(widened::<T>(existing_p@), widened::<T>(existing_q@)),
                packed(poly.p(), poly.q()),
                used as nat,
            ));
        }
        poly.optimize_f32(reference, sweep_lo, sweep_hi, transform, config)
    }
}

} // verus!
