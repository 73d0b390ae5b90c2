//! Errors of composed functions: round trips and joins.
use crate::eval::{eval_f32_horner, eval_f32_horner_spec};
use crate::single::{
    above_spec, below_spec, f32_above, f32_below, f32_next, f32_ulp_distance, ulp_distance_spec, F32,
};
use crate::sweep::{
    abs_error, abs_error_between, average, max_abs_of, max_ulp_of, sum_abs_of, Sweep,
};
use crate::text::{append_decimal, append_mode, decimal, mode_text};
use crate::value::Value;
use vstd::prelude::*;
use vstd::string::StringExecFns;

verus! {

/// 1/65535, one step of a 16-bit channel.
pub const U16_STEP: u64 = 0x3ef0_0010_0010_0010;

/// 0.5/255, half a step of an 8-bit channel.
pub const U8_HALF: u64 = 0x3f60_1010_1010_1010;

/// What the gap at a join can come to: the linear branch is taken one ULP below the
/// threshold, the polynomial one ULP above it.
pub open spec fn gap_spec<D: Value, L: Fn(F32) -> F32, X: Fn(F32) -> F32>(
    threshold: F32,
    p: Seq<F32>,
    q: Seq<F32>,
    linear_branch: L,
    transform: X,
    gap: int,
) -> bool {
    exists|left: F32, t: F32|
        {
            &&& #[trigger] call_ensures(linear_branch, (below_spec(threshold),), left)
            &&& #[trigger] call_ensures(transform, (above_spec(threshold),), t)
            &&& gap == ulp_distance_spec(left, eval_f32_horner_spec::<D>(t, p, q))
        }
}

/// Measure the ULP gap at a piecewise join point.
///
/// Piecewise transfer functions have a threshold where the polynomial meets a
/// linear segment. The practical continuity metric is the gap between the two
/// branches at the numbers next to the threshold. It differs from the error of the
/// polynomial against the reference at the threshold: a fit that is close to the
/// reference there can still produce a visible discontinuity.
///
/// - `threshold`: the input at which the two branches meet
/// - `poly_p`, `poly_q`: the coefficients of the rational polynomial
/// - `linear_branch`: the linear segment
/// - `poly_input_transform`: maps the threshold value to polynomial input
#[must_use]
pub fn piecewise_gap<D: Value, L: Fn(F32) -> F32, X: Fn(F32) -> F32>(
    threshold: F32,
    poly_p: &[F32],
    poly_q: &[F32],
    linear_branch: L,
    poly_input_transform: X,
) -> (r: u32)
    requires
        threshold.bits < u32::MAX,
        poly_p.len() > 0,
        poly_q.len() > 0,
        forall|s: F32| #[trigger] call_requires(linear_branch, (s,)),
        forall|s: F32| #[trigger] call_requires(poly_input_transform, (s,)),
    ensures
        gap_spec::<D, L, X>(threshold, poly_p@, poly_q@, linear_branch, poly_input_transform, r as int),
{
    let below = f32_below(threshold);
    let above = f32_above(threshold);
    let left: F32 = linear_branch(below);
    let t: F32 = poly_input_transform(above);
    let right = eval_f32_horner::<D>(t, poly_p, poly_q);
    proof {
        assert(call_ensures(linear_branch, (below,), left));
        assert(call_ensures(poly_input_transform, (above,), t));
    }
    f32_ulp_distance(left, right)
}

/// In how many places the absolute error exceeds a step.
pub open spec fn over_count<D: Value>(obs: Seq<(F32, F32)>, step: D) -> int
    decreases obs.len(),
{
    if obs.len() == 0 {
        0
    } else {
        over_count(obs.drop_last(), step) + if step.lt_spec(
            abs_error::<D>(obs.last().0, obs.last().1),
        ) {
            1int
        } else {
            0
        }
    }
}

/// Report of composed-function error (roundtrip).
///
/// When two functions `f` and `g` are meant to be inverse, `g(f(v))` should return
/// `v`. This measures how well that holds across a sweep domain.
#[derive(Debug, Clone)]
pub struct RoundtripReport<D> {
    /// Maximum absolute error across the sweep domain.
    pub max_abs_err: D,
    /// Average absolute error.
    pub avg_abs_err: D,
    /// Maximum ULP distance between roundtrip output and input.
    pub max_ulp: u32,
    /// Number of inputs where roundtrip error exceeds 1/65535 (one u16 step).
    pub u16_over_1: u64,
    /// Number of inputs where roundtrip error exceeds 0.5/255 (half u8 step).
    pub u8_over_half: u64,
    /// Number of values scored.
    pub values_scored: u64,
    /// True if every number in the sweep domain was evaluated.
    pub exhaustive: bool,
}

impl<D: Value> RoundtripReport<D> {
    /// The figures are those of the given outputs (first) and inputs (second).
    pub open spec fn reports(&self, sweep: Sweep, obs: Seq<(F32, F32)>) -> bool {
        &&& self.max_abs_err == max_abs_of::<D>(obs)
        &&& self.avg_abs_err == average(sum_abs_of::<D>(obs), obs.len())
        &&& self.max_ulp == max_ulp_of(obs)
        &&& self.u16_over_1 == over_count(obs, D::convert_f64_spec(U16_STEP))
        &&& self.u8_over_half == over_count(obs, D::convert_f64_spec(U8_HALF))
        &&& self.values_scored == sweep.count()
        &&& self.exhaustive == (sweep.samples is None)
    }

    /// The text of the report.
    pub open spec fn text(&self) -> Seq<char> {
        "max_ulp="@ + decimal(self.max_ulp as nat) + " max_abs="@ + self.max_abs_err.exp_text(3)
            + " avg_abs="@ + self.avg_abs_err.exp_text(3) + " u16>1="@ + decimal(
            self.u16_over_1 as nat,
        ) + " u8>0.5="@ + decimal(self.u8_over_half as nat) + mode_text(
            self.exhaustive,
            self.values_scored as nat,
        )
    }

    /// The report as one line of text.
    pub fn to_text(&self) -> (r: String)
        ensures
            r@ == self.text(),
    {
        let mut out = String::new();
        out.append("max_ulp=");
        append_decimal(&mut out, self.max_ulp as u64);
        out.append(" max_abs=");
        out.append(self.max_abs_err.to_exp(3).as_str());
        out.append(" avg_abs=");
        out.append(self.avg_abs_err.to_exp(3).as_str());
        out.append(" u16>1=");
        append_decimal(&mut out, self.u16_over_1);
        out.append(" u8>0.5=");
        append_decimal(&mut out, self.u8_over_half);
        append_mode(&mut out, self.exhaustive, self.values_scored);
        assert(out@ =~= self.text());
        out
    }
}

/// `out` is what going there and back from `v` can give.
pub open spec fn there_and_back<F: Fn(F32) -> F32, G: Fn(F32) -> F32>(
    forward: F,
    inverse: G,
    v: F32,
    out: F32,
) -> bool {
    exists|u: F32|
        #[trigger] call_ensures(forward, (v,), u) && call_ensures(inverse, (u,), out)
}

/// The first numbers of a sweep (second) and what going there and back from them
/// can give (first).
pub open spec fn roundtrips<D: Value, F: Fn(F32) -> F32, G: Fn(F32) -> F32>(
    forward: F,
    inverse: G,
    sweep: Sweep,
    obs: Seq<(F32, F32)>,
) -> bool {
    &&& obs.len() <= sweep.count()
    &&& forall|i: int|
        0 <= i < obs.len() ==> (#[trigger] obs[i]).1 == sweep.point::<D>(i).0 && there_and_back(
            forward,
            inverse,
            obs[i].1,
            obs[i].0,
        )
}

/// A whole sweep of round trips.
pub open spec fn roundtrip_swept<D: Value, F: Fn(F32) -> F32, G: Fn(F32) -> F32>(
    forward: F,
    inverse: G,
    sweep: Sweep,
    obs: Seq<(F32, F32)>,
) -> bool {
    obs.len() == sweep.count() && roundtrips::<D, F, G>(forward, inverse, sweep, obs)
}

/// The report is that of a sweep of round trips.
pub open spec fn roundtrip_report<D: Value, F: Fn(F32) -> F32, G: Fn(F32) -> F32>(
    forward: F,
    inverse: G,
    sweep: Sweep,
    r: RoundtripReport<D>,
) -> bool {
    exists|obs: Seq<(F32, F32)>|
        #[trigger] roundtrip_swept::<D, F, G>(forward, inverse, sweep, obs) && r.reports(sweep, obs)
}

/// Running figures over round trips.
struct Trips<D> {
    max_ulp: u32,
    max_abs: D,
    sum_abs: D,
    u16_over: u64,
    u8_over: u64,
    count: u64,
}

impl<D: Value> Trips<D> {
    spec fn sums_up(self, obs: Seq<(F32, F32)>) -> bool {
        &&& self.max_ulp == max_ulp_of(obs)
        &&& self.max_abs == max_abs_of::<D>(obs)
        &&& self.sum_abs == sum_abs_of::<D>(obs)
        &&& self.u16_over == over_count(obs, D::convert_f64_spec(U16_STEP))
        &&& self.u8_over == over_count(obs, D::convert_f64_spec(U8_HALF))
        &&& self.count == obs.len()
    }

    fn start() -> (r: Self)
        ensures
            r.sums_up(Seq::empty()),
    {
        Trips {
            max_ulp: 0,
            max_abs: D::zero(),
            sum_abs: D::zero(),
            u16_over: 0,
            u8_over: 0,
            count: 0,
        }
    }

    fn observe(&mut self, rt: F32, v: F32, Ghost(obs): Ghost<Seq<(F32, F32)>>)
        requires
            old(self).sums_up(obs),
            obs.len() < u64::MAX,
        ensures
            final(self).sums_up(obs.push((rt, v))),
    {
        let abs_err: D = abs_error_between(rt, v);
        let ulp: u32 = f32_ulp_distance(rt, v);
        proof {
            lemma_over_count_bounded(obs, D::convert_f64_spec(U16_STEP));
            lemma_over_count_bounded(obs, D::convert_f64_spec(U8_HALF));
            assert(obs.push((rt, v)).drop_last() =~= obs);
        }
        if ulp > self.max_ulp {
            self.max_ulp = ulp;
        }
        if self.max_abs.lt(abs_err) {
            self.max_abs = abs_err;
        }
        self.sum_abs = self.sum_abs.add(abs_err);
        if D::convert_f64(U16_STEP).lt(abs_err) {
            self.u16_over = self.u16_over + 1;
        }
        if D::convert_f64(U8_HALF).lt(abs_err) {
            self.u8_over = self.u8_over + 1;
        }
        self.count = self.count + 1;
    }
}

proof fn lemma_over_count_bounded<D: Value>(obs: Seq<(F32, F32)>, step: D)
    ensures
        0 <= over_count(obs, step) <= obs.len(),
    decreases obs.len(),
{
    if obs.len() > 0 {
        lemma_over_count_bounded(obs.drop_last(), step);
    }
}

fn go_there_and_back<F: Fn(F32) -> F32, G: Fn(F32) -> F32>(
    forward: &F,
    inverse: &G,
    v: F32,
) -> (r: F32)
    requires
        forall|s: F32| #[trigger] call_requires(*forward, (s,)),
        forall|s: F32| #[trigger] call_requires(*inverse, (s,)),
    ensures
        there_and_back(*forward, *inverse, v, r),
{
    let u: F32 = forward(v);
    let r: F32 = inverse(u);
    assert(call_ensures(*forward, (v,), u) && call_ensures(*inverse, (u,), r));
    r
}

/// Measure roundtrip error of `inverse(forward(v))` across a sweep domain.
///
/// - `sweep_lo`, `sweep_hi`: range to sweep
/// - `samples`: `None` = exhaustive sweep, `Some(n)` = n uniform steps
pub fn measure_roundtrip<D: Value, F: Fn(F32) -> F32, G: Fn(F32) -> F32>(
    forward: F,
    inverse: G,
    sweep_lo: F32,
    sweep_hi: F32,
    samples: Option<usize>,
) -> (r: RoundtripReport<D>)
    requires
        (Sweep { lo: sweep_lo, hi: sweep_hi, samples }).finite(),
        forall|s: F32| #[trigger] call_requires(forward, (s,)),
        forall|s: F32| #[trigger] call_requires(inverse, (s,)),
    ensures
        roundtrip_report(forward, inverse, Sweep { lo: sweep_lo, hi: sweep_hi, samples }, r),
{
    let sweep = Sweep { lo: sweep_lo, hi: sweep_hi, samples };
    let mut trips = Trips::<D>::start();
    let ghost mut obs: Seq<(F32, F32)> = Seq::empty();
    match samples {
        Some(n) => {
            let mut i: usize = 0;
            let mut done: bool = false;
            while !done
                invariant
                    sweep.samples == Some(n),
                    sweep.finite(),
                    forall|s: F32| #[trigger] call_requires(forward, (s,)),
                    forall|s: F32| #[trigger] call_requires(inverse, (s,)),
                    i <= n,
                    obs.len() == if done {
                        n + 1
                    } else {
                        i as int
                    },
                    trips.sums_up(obs),
                    roundtrips::<D, F, G>(forward, inverse, sweep, obs),
                decreases
                    n - i + if done {
                        0int
                    } else {
                        1
                    },
            {
                let v: F32 = sweep.sample_at::<D>(i, n).to_f32();
                let rt = go_there_and_back(&forward, &inverse, v);
                trips.observe(rt, v, Ghost(obs));
                proof {
                    obs = obs.push((rt, v));
                }
                if i < n {
                    i = i + 1;
                } else {
                    done = true;
                }
            }
        },
        None => {
            let mut v = sweep_lo;
            while v.le(sweep_hi)
                invariant
                    sweep == (Sweep { lo: sweep_lo, hi: sweep_hi, samples: None }),
                    sweep.finite(),
                    forall|s: F32| #[trigger] call_requires(forward, (s,)),
                    forall|s: F32| #[trigger] call_requires(inverse, (s,)),
                    v == sweep.number(obs.len() as int),
                    v.at_most(sweep.hi) ==> obs.len() < sweep.count(),
                    !v.at_most(sweep.hi) ==> obs.len() == sweep.count(),
                    sweep.lo.at_most(sweep.hi) ==> v.ordinal() == sweep.lo.ordinal() + obs.len(),
                    trips.sums_up(obs),
                    roundtrips::<D, F, G>(forward, inverse, sweep, obs),
                decreases sweep.hi.ordinal() - v.ordinal() + 1,
            {
                let rt = go_there_and_back(&forward, &inverse, v);
                trips.observe(rt, v, Ghost(obs));
                proof {
                    obs = obs.push((rt, v));
                }
                v = f32_next(v);
            }
        },
    }
    assert(roundtrip_swept::<D, F, G>(forward, inverse, sweep, obs));
    let n: u64 = if trips.count == 0 {
        1
    } else {
        trips.count
    };
    RoundtripReport {
        max_abs_err: trips.max_abs,
        avg_abs_err: trips.sum_abs.div(D::from_u64(n)),
        max_ulp: trips.max_ulp,
        u16_over_1: trips.u16_over,
        u8_over_half: trips.u8_over,
        values_scored: trips.count,
        exhaustive: samples.is_none(),
    }
}

/// Where going there and back gives the input each time, nothing is off by an ULP.
pub proof fn law_exact_roundtrip_has_no_ulp_error(obs: Seq<(F32, F32)>)
    requires
        forall|i: int| 0 <= i < obs.len() ==> (#[trigger] obs[i]).0.same(obs[i].1),
    ensures
        max_ulp_of(obs) == 0,
    decreases obs.len(),
{
    if obs.len() > 0 {
        let rest = obs.drop_last();
        assert forall|i: int| 0 <= i < rest.len() implies (#[trigger] rest[i]).0.same(
            rest[i].1,
        ) by {
            assert(rest[i] == obs[i]);
        }
        law_exact_roundtrip_has_no_ulp_error(rest);
        let last = obs[obs.len() - 1];
        assert(last.0.same(last.1));
    }
}

} // verus!
