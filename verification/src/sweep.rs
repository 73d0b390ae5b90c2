//! Sweeps over a range of single precision numbers, and what is measured on them.
use crate::eval::{eval_f32_horner, eval_f32_horner_spec};
use crate::single::{
    at_ordinal, f32_next, f32_ulp_distance, next_spec, ulp_distance_spec, F32, MAX_BITS,
};
use crate::value::Value;
use vstd::prelude::*;

verus! {

/// The largest number of samples whose ULP distances are sure to add up in 64 bits.
pub const MAX_SAMPLES: u64 = 0x1_0000_0000;

/// A range of single precision numbers: every number from `lo` to `hi`, or
/// `samples + 1` numbers spaced evenly between the two.
#[derive(Debug, Clone, Copy)]
pub struct Sweep {
    pub lo: F32,
    pub hi: F32,
    pub samples: Option<usize>,
}

impl Sweep {
    /// The sweep comes to an end: there is a number after the last one, and the
    /// samples can be counted.
    pub open spec fn finite(self) -> bool {
        match self.samples {
            Some(n) => n < u64::MAX,
            None => self.lo.at_most(self.hi) ==> self.hi.ordinal() < MAX_BITS,
        }
    }

    /// The sweep comes to an end and its ULP distances are sure to add up.
    pub open spec fn bounded(self) -> bool {
        self.finite() && (self.samples matches Some(n) ==> n <= MAX_SAMPLES)
    }

    /// How many numbers are visited.
    pub open spec fn count(self) -> nat {
        match self.samples {
            Some(n) => (n + 1) as nat,
            None => if self.lo.at_most(self.hi) {
                (self.hi.ordinal() - self.lo.ordinal() + 1) as nat
            } else {
                0
            },
        }
    }

    /// The `i`-th of the evenly spaced numbers: `lo + (hi - lo) * i / n`.
    pub open spec fn sample<D: Value>(self, i: int, n: usize) -> D {
        let lo = D::from_f32_spec(self.lo);
        let hi = D::from_f32_spec(self.hi);
        lo.add_spec(
            hi.sub_spec(lo).mul_spec(D::from_u64_spec(i as u64)).div_spec(
                D::from_u64_spec(n as u64),
            ),
        )
    }

    /// The `i`-th number, in single precision and as the reference takes it.
    pub open spec fn point<D: Value>(self, i: int) -> (F32, D) {
        match self.samples {
            Some(n) => {
                let x = self.sample::<D>(i, n);
                (x.to_f32_spec(), x)
            },
            None => {
                let v = self.number(i);
                (v, D::from_f32_spec(v))
            },
        }
    }

    /// The `i`-th number from `lo` upward.
    pub open spec fn number(self, i: int) -> F32 {
        if i == 0 {
            self.lo
        } else {
            at_ordinal(self.lo.ordinal() + i)
        }
    }

    /// The `i`-th evenly spaced number.
    pub fn sample_at<D: Value>(&self, i: usize, n: usize) -> (r: D)
        ensures
            r == self.sample::<D>(i as int, n),
    {
        let lo = D::from_f32(self.lo);
        let hi = D::from_f32(self.hi);
        lo.add(hi.sub(lo).mul(D::from_u64(i as u64)).div(D::from_u64(n as u64)))
    }
}

/// An exhaustive sweep visits the numbers from `lo` to `hi` in order, each exactly
/// once: the first is `lo`, each other one is next to the one before, and a number
/// lies in the range exactly if it compares equal to one that is visited.
pub proof fn law_exhaustive_sweep_visits_every_number(s: Sweep, v: F32)
    requires
        s.samples is None,
        s.lo.at_most(s.hi),
        s.bounded(),
    ensures
        s.number(0) == s.lo,
        forall|i: int| 0 < i < s.count() ==> #[trigger] s.number(i) == next_spec(s.number(i - 1)),
        forall|i: int, j: int|
            0 <= i < j < s.count() ==> (#[trigger] s.number(i)).less(#[trigger] s.number(j)),
        s.lo.at_most(v) && v.at_most(s.hi) <==> exists|i: int|
            0 <= i < s.count() && v.same(#[trigger] s.number(i)),
{
    assert forall|i: int| 0 <= i < s.count() implies #[trigger] s.number(i).ordinal()
        == s.lo.ordinal() + i by {}
    if s.lo.at_most(v) && v.at_most(s.hi) {
        let i = v.ordinal() - s.lo.ordinal();
        assert(v.same(s.number(i)));
    }
}

/// Absolute error of a single precision result.
pub open spec fn abs_error<D: Value>(got: F32, expected: F32) -> D {
    D::from_f32_spec(got).sub_spec(D::from_f32_spec(expected)).abs_spec()
}

/// Absolute error of a single precision result.
pub fn abs_error_between<D: Value>(got: F32, expected: F32) -> (r: D)
    ensures
        r == abs_error::<D>(got, expected),
{
    D::from_f32(got).sub(D::from_f32(expected)).abs()
}

/// The larger of a running maximum and a new value, the maximum if they do not
/// compare.
pub open spec fn raised<D: Value>(max: D, v: D) -> D {
    if max.lt_spec(v) {
        v
    } else {
        max
    }
}

/// The largest ULP distance between what came out (first) and what was expected
/// (second).
pub open spec fn max_ulp_of(obs: Seq<(F32, F32)>) -> int
    decreases obs.len(),
{
    if obs.len() == 0 {
        0
    } else {
        let rest = max_ulp_of(obs.drop_last());
        let ulp = ulp_distance_spec(obs.last().0, obs.last().1);
        if ulp > rest {
            ulp
        } else {
            rest
        }
    }
}

/// The sum of the ULP distances.
pub open spec fn sum_ulp_of(obs: Seq<(F32, F32)>) -> int
    decreases obs.len(),
{
    if obs.len() == 0 {
        0
    } else {
        sum_ulp_of(obs.drop_last()) + ulp_distance_spec(obs.last().0, obs.last().1)
    }
}

/// The largest absolute error.
pub open spec fn max_abs_of<D: Value>(obs: Seq<(F32, F32)>) -> D
    decreases obs.len(),
{
    if obs.len() == 0 {
        D::zero_spec()
    } else {
        raised(max_abs_of::<D>(obs.drop_last()), abs_error::<D>(obs.last().0, obs.last().1))
    }
}

/// The sum of the absolute errors, added up in order.
pub open spec fn sum_abs_of<D: Value>(obs: Seq<(F32, F32)>) -> D
    decreases obs.len(),
{
    if obs.len() == 0 {
        D::zero_spec()
    } else {
        sum_abs_of::<D>(obs.drop_last()).add_spec(abs_error::<D>(obs.last().0, obs.last().1))
    }
}

/// How often a result is smaller than the one before it.
pub open spec fn mono_of(obs: Seq<(F32, F32)>) -> int
    decreases obs.len(),
{
    if obs.len() <= 1 {
        0
    } else {
        mono_of(obs.drop_last()) + if obs.last().0.less(obs[obs.len() - 2].0) {
            1int
        } else {
            0
        }
    }
}

/// An average: the sum divided by the number of values, at least 1.
pub open spec fn average<D: Value>(sum: D, count: nat) -> D {
    sum.div_spec(
        D::from_u64_spec(
            if count == 0 {
                1
            } else {
                count as u64
            },
        ),
    )
}

/// The largest of the ULP distances is one of them, and none is larger.
pub proof fn law_max_ulp_is_maximum(obs: Seq<(F32, F32)>)
    ensures
        0 <= max_ulp_of(obs) <= u32::MAX,
        forall|i: int|
            0 <= i < obs.len() ==> ulp_distance_spec((#[trigger] obs[i]).0, obs[i].1) <= max_ulp_of(
                obs,
            ),
        obs.len() > 0 ==> exists|i: int|
            0 <= i < obs.len() && ulp_distance_spec((#[trigger] obs[i]).0, obs[i].1) == max_ulp_of(
                obs,
            ),
    decreases obs.len(),
{
    if obs.len() > 0 {
        let rest = obs.drop_last();
        law_max_ulp_is_maximum(rest);
        let n = obs.len() - 1;
        assert forall|i: int| 0 <= i < obs.len() implies ulp_distance_spec(
            (#[trigger] obs[i]).0,
            obs[i].1,
        ) <= max_ulp_of(obs) by {
            if i < n {
                assert(rest[i] == obs[i]);
            }
        }
        if max_ulp_of(obs) == ulp_distance_spec(obs.last().0, obs.last().1) {
            assert(ulp_distance_spec(obs[n].0, obs[n].1) == max_ulp_of(obs));
        } else {
            let i = choose|i: int|
                0 <= i < rest.len() && ulp_distance_spec((#[trigger] rest[i]).0, rest[i].1)
                    == max_ulp_of(rest);
            assert(ulp_distance_spec(obs[i].0, obs[i].1) == max_ulp_of(obs));
        }
    }
}

/// Running figures over what a sweep has seen.
#[derive(Debug, Clone, Copy)]
pub struct Tally<D> {
    pub max_ulp: u32,
    pub sum_ulp: u64,
    pub max_abs: D,
    pub sum_abs: D,
    pub count: u64,
    pub mono: u64,
    pub last: F32,
}

impl<D: Value> Tally<D> {
    /// The figures are those of the given observations.
    pub open spec fn sums_up(self, obs: Seq<(F32, F32)>) -> bool {
        &&& self.max_ulp == max_ulp_of(obs)
        &&& self.sum_ulp == sum_ulp_of(obs)
        &&& self.max_abs == max_abs_of::<D>(obs)
        &&& self.sum_abs == sum_abs_of::<D>(obs)
        &&& self.count == obs.len()
        &&& self.mono == mono_of(obs)
        &&& obs.len() > 0 ==> self.last == obs.last().0
    }

    fn start() -> (r: Self)
        ensures
            r.sums_up(Seq::empty()),
    {
        Tally {
            max_ulp: 0,
            sum_ulp: 0,
            max_abs: D::zero(),
            sum_abs: D::zero(),
            count: 0,
            mono: 0,
            last: F32::from_bits(0),
        }
    }

    fn observe(&mut self, got: F32, expected: F32, Ghost(obs): Ghost<Seq<(F32, F32)>>)
        requires
            old(self).sums_up(obs),
            obs.len() <= MAX_SAMPLES,
        ensures
            final(self).sums_up(obs.push((got, expected))),
    {
        let ulp: u32 = f32_ulp_distance(got, expected);
        let err: D = abs_error_between(got, expected);
        proof {
            lemma_sums_bounded(obs);
            assert(obs.push((got, expected)).drop_last() =~= obs);
            assert(obs.len() * u32::MAX + u32::MAX <= u64::MAX) by (nonlinear_arith)
                requires
                    obs.len() <= 0x1_0000_0000,
            ;
        }
        if ulp > self.max_ulp {
            self.max_ulp = ulp;
        }
        if self.max_abs.lt(err) {
            self.max_abs = err;
        }
        self.sum_ulp = self.sum_ulp + ulp as u64;
        self.sum_abs = self.sum_abs.add(err);
        self.count = self.count + 1;
        if self.count > 1 && got.lt(self.last) {
            self.mono = self.mono + 1;
        }
        self.last = got;
    }

    /// The average ULP distance.
    pub open spec fn avg_ulp_spec(self) -> D {
        average(D::from_u64_spec(self.sum_ulp), self.count as nat)
    }

    /// The average absolute error.
    pub open spec fn avg_abs_spec(self) -> D {
        average(self.sum_abs, self.count as nat)
    }

    /// The average ULP distance.
    pub fn avg_ulp(&self) -> (r: D)
        ensures
            r == self.avg_ulp_spec(),
    {
        let n: u64 = if self.count == 0 {
            1
        } else {
            self.count
        };
        D::from_u64(self.sum_ulp).div(D::from_u64(n))
    }

    /// The average absolute error.
    pub fn avg_abs(&self) -> (r: D)
        ensures
            r == self.avg_abs_spec(),
    {
        let n: u64 = if self.count == 0 {
            1
        } else {
            self.count
        };
        self.sum_abs.div(D::from_u64(n))
    }
}

proof fn lemma_sums_bounded(obs: Seq<(F32, F32)>)
    ensures
        0 <= sum_ulp_of(obs) <= obs.len() * u32::MAX,
        0 <= mono_of(obs) <= obs.len(),
    decreases obs.len(),
{
    if obs.len() > 0 {
        lemma_sums_bounded(obs.drop_last());
        assert(obs.len() * u32::MAX == (obs.len() - 1) * u32::MAX + u32::MAX) by (nonlinear_arith);
    }
}

/// What one point can give: the transformed input is evaluated, and the reference,
/// rounded to single precision, is what it is held against.
pub open spec fn observable<D: Value, R: Fn(D) -> D, X: Fn(F32) -> F32>(
    reference: R,
    transform: X,
    p: Seq<F32>,
    q: Seq<F32>,
    point: (F32, D),
    o: (F32, F32),
) -> bool {
    exists|t: F32, y: D|
        {
            &&& #[trigger] call_ensures(transform, (point.0,), t)
            &&& #[trigger] call_ensures(reference, (point.1,), y)
            &&& o.0 == eval_f32_horner_spec::<D>(t, p, q)
            &&& o.1 == y.to_f32_spec()
        }
}

/// What the first points of a sweep can give.
pub open spec fn observables<D: Value, R: Fn(D) -> D, X: Fn(F32) -> F32>(
    reference: R,
    transform: X,
    sweep: Sweep,
    p: Seq<F32>,
    q: Seq<F32>,
    obs: Seq<(F32, F32)>,
) -> bool {
    &&& obs.len() <= sweep.count()
    &&& forall|i: int|
        0 <= i < obs.len() ==> observable(
            reference,
            transform,
            p,
            q,
            sweep.point::<D>(i),
            #[trigger] obs[i],
        )
}

/// What a whole sweep can give.
pub open spec fn swept<D: Value, R: Fn(D) -> D, X: Fn(F32) -> F32>(
    reference: R,
    transform: X,
    sweep: Sweep,
    p: Seq<F32>,
    q: Seq<F32>,
    obs: Seq<(F32, F32)>,
) -> bool {
    obs.len() == sweep.count() && observables::<D, R, X>(reference, transform, sweep, p, q, obs)
}

/// Evaluate at one point.
pub fn observe_at<D: Value, R: Fn(D) -> D, X: Fn(F32) -> F32>(
    reference: &R,
    transform: &X,
    p: &[F32],
    q: &[F32],
    x: F32,
    xd: D,
) -> (r: (F32, F32))
    requires
        p.len() > 0,
        q.len() > 0,
        forall|d: D| #[trigger] call_requires(*reference, (d,)),
        forall|s: F32| #[trigger] call_requires(*transform, (s,)),
    ensures
        observable(*reference, *transform, p@, q@, (x, xd), r),
{
    let t: F32 = transform(x);
    let y: D = reference(xd);
    let got = eval_f32_horner::<D>(t, p, q);
    proof {
        let point = (x, xd);
        assert(call_ensures(*transform, (point.0,), t));
        assert(call_ensures(*reference, (point.1,), y));
    }
    (got, y.to_f32())
}

/// Evaluate over a sweep.
pub fn measure<D: Value, R: Fn(D) -> D, X: Fn(F32) -> F32>(
    reference: &R,
    transform: &X,
    sweep: &Sweep,
    p: &[F32],
    q: &[F32],
) -> (r: Tally<D>)
    requires
        sweep.bounded(),
        p.len() > 0,
        q.len() > 0,
        forall|d: D| #[trigger] call_requires(*reference, (d,)),
        forall|s: F32| #[trigger] call_requires(*transform, (s,)),
    ensures
        exists|obs: Seq<(F32, F32)>|
            #[trigger] swept::<D, R, X>(*reference, *transform, *sweep, p@, q@, obs) && r.sums_up(obs),
{
    let mut tally = Tally::<D>::start();
    let ghost mut obs: Seq<(F32, F32)> = Seq::empty();
    match sweep.samples {
        Some(n) => {
            let mut i: usize = 0;
            let mut done: bool = false;
            while !done
                invariant
                    sweep.samples == Some(n),
                    sweep.bounded(),
                    p.len() > 0,
                    q.len() > 0,
                    forall|d: D| #[trigger] call_requires(*reference, (d,)),
                    forall|s: F32| #[trigger] call_requires(*transform, (s,)),
                    i <= n,
                    obs.len() == if done {
                        n + 1
                    } else {
                        i as int
                    },
                    tally.sums_up(obs),
                    observables::<D, R, X>(*reference, *transform, *sweep, p@, q@, obs),
                decreases
                    n - i + if done {
                        0int
                    } else {
                        1
                    },
            {
                let x: D = sweep.sample_at(i, n);
                let o = observe_at(reference, transform, p, q, x.to_f32(), x);
                tally.observe(o.0, o.1, Ghost(obs));
                proof {
                    obs = obs.push(o);
                }
                if i < n {
                    i = i + 1;
                } else {
                    done = true;
                }
            }
        },
        None => {
            let mut v = sweep.lo;
            while v.le(sweep.hi)
                invariant
                    sweep.samples is None,
                    sweep.bounded(),
                    p.len() > 0,
                    q.len() > 0,
                    forall|d: D| #[trigger] call_requires(*reference, (d,)),
                    forall|s: F32| #[trigger] call_requires(*transform, (s,)),
                    v == sweep.number(obs.len() as int),
                    v.at_most(sweep.hi) ==> obs.len() < sweep.count(),
                    !v.at_most(sweep.hi) ==> obs.len() == sweep.count(),
                    sweep.lo.at_most(sweep.hi) ==> v.ordinal() == sweep.lo.ordinal() + obs.len(),
                    tally.sums_up(obs),
                    observables::<D, R, X>(*reference, *transform, *sweep, p@, q@, obs),
                decreases sweep.hi.ordinal() - v.ordinal() + 1,
            {
                let o = observe_at(reference, transform, p, q, v, D::from_f32(v));
                tally.observe(o.0, o.1, Ghost(obs));
                proof {
                    obs = obs.push(o);
                }
                v = f32_next(v);
            }
        },
    }
    assert(swept::<D, R, X>(*reference, *transform, *sweep, p@, q@, obs));
    tally
}

} // verus!
