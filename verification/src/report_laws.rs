//! What holds of every report.
use crate::exact::exact;
use crate::polynomial::rational_spec;
use crate::rational_fit::{
    max_abs_error_upto, max_rel_error_upto, max_x, mean_y, min_x, r_squared_spec, residual_at,
    squared_diff, sum_upto,
};
use crate::reals::{lemma_over_nonnegative, lemma_over_zero, lemma_square, lemma_zero};
use crate::roundtrip::{
    over_count, roundtrip_report, roundtrip_swept, RoundtripReport, U16_STEP, U8_HALF,
};
use crate::search::strict_order;
use crate::single::{above_spec, below_spec, finite, ulp_distance_spec, F32};
use crate::sweep::{abs_error, max_abs_of, sum_abs_of, Sweep};
use crate::value::Value;
use vstd::prelude::*;

verus! {

/// Values that are numbers are ordered, from one infinity to the other, and nothing else
/// is. The larger and the smaller of two are what their names say, and an absolute
/// value is not below 0. All this holds of machine numbers.
pub open spec fn ordered<T: Value>() -> bool {
    &&& strict_order::<T>()
    &&& forall|a: T, b: T| #[trigger] a.lt_spec(b) ==> !a.is_nan_spec() && !b.is_nan_spec()
    &&& forall|a: T, b: T|
        #![trigger a.max_spec(b)]
        !a.is_nan_spec() && !b.is_nan_spec() ==> (a.max_spec(b) == a || a.max_spec(b) == b)
            && !a.max_spec(b).lt_spec(a) && !a.max_spec(b).lt_spec(b)
    &&& forall|a: T, b: T|
        #![trigger a.min_spec(b)]
        !a.is_nan_spec() && !b.is_nan_spec() ==> (a.min_spec(b) == a || a.min_spec(b) == b)
            && !a.lt_spec(a.min_spec(b)) && !b.lt_spec(a.min_spec(b))
    &&& forall|a: T, b: T, c: T|
        !b.is_nan_spec() && #[trigger] a.lt_spec(c) ==> #[trigger] a.lt_spec(b) || b.lt_spec(c)
    &&& !T::zero_spec().is_nan_spec()
    &&& !T::infinity_spec().is_nan_spec()
    &&& !T::neg_infinity_spec().is_nan_spec()
    &&& forall|a: T|
        !(#[trigger] a.is_nan_spec()) ==> (a == T::infinity_spec() || a.lt_spec(
            T::infinity_spec(),
        )) && (a == T::neg_infinity_spec() || T::neg_infinity_spec().lt_spec(a))
    &&& forall|a: T|
        !(#[trigger] a.abs_spec()).is_nan_spec() ==> a.abs_spec() == T::zero_spec()
            || T::zero_spec().lt_spec(a.abs_spec())
}

/// The largest absolute error is what its name says: no error at a data point exceeds
/// it, and it is the error at one of them, or 0 without any.
pub proof fn law_max_abs_error_is_the_largest<T: Value>(
    data: Seq<(T, T)>,
    p: Seq<T>,
    q: Seq<T>,
    n: nat,
)
    requires
        ordered::<T>(),
        forall|i: int|
            0 <= i < n ==> !(#[trigger] residual_at(data, p, q, i)).abs_spec().is_nan_spec(),
    ensures
        forall|i: int|
            0 <= i < n ==> !max_abs_error_upto(data, p, q, n).lt_spec(
                (#[trigger] residual_at(data, p, q, i)).abs_spec(),
            ),
        n == 0 ==> max_abs_error_upto(data, p, q, n) == T::zero_spec(),
        n > 0 ==> exists|i: int|
            0 <= i < n && max_abs_error_upto(data, p, q, n) == (#[trigger] residual_at(
                data,
                p,
                q,
                i,
            )).abs_spec(),
        !max_abs_error_upto(data, p, q, n).is_nan_spec(),
    decreases n,
{
    if n > 0 {
        let k = (n - 1) as nat;
        law_max_abs_error_is_the_largest(data, p, q, k);
        let old_max = max_abs_error_upto(data, p, q, k);
        let r = residual_at(data, p, q, k as int);
        let e = r.abs_spec();
        let new_max = old_max.max_spec(e);
        assert(new_max == max_abs_error_upto(data, p, q, n));
        assert forall|i: int| 0 <= i < n implies !new_max.lt_spec(
            (#[trigger] residual_at(data, p, q, i)).abs_spec(),
        ) by {
            let f = residual_at(data, p, q, i).abs_spec();
            if i < k && new_max.lt_spec(f) {
                assert(new_max.lt_spec(old_max) || old_max.lt_spec(f));
            }
        }
        if new_max == e {
            assert(new_max == residual_at(data, p, q, k as int).abs_spec());
        } else if k == 0 {
            assert(e == T::zero_spec() || T::zero_spec().lt_spec(e));
        }
    }
}

/// The relative error at a data point.
pub open spec fn rel_error_at<T: Value>(data: Seq<(T, T)>, p: Seq<T>, q: Seq<T>, i: int) -> T {
    residual_at(data, p, q, i).abs_spec().div_spec(data[i].1.abs_spec())
}

/// The largest relative error is what its name says: no relative error at a data point
/// exceeds it, points with a y as good as zero left out.
pub proof fn law_max_rel_error_is_the_largest<T: Value>(
    data: Seq<(T, T)>,
    p: Seq<T>,
    q: Seq<T>,
    n: nat,
)
    requires
        ordered::<T>(),
        forall|i: int|
            0 <= i < n && !data[i].1.abs_spec().is_near_zero_spec() ==> !(#[trigger] rel_error_at(
                data,
                p,
                q,
                i,
            )).is_nan_spec(),
    ensures
        forall|i: int|
            0 <= i < n && !data[i].1.abs_spec().is_near_zero_spec() ==> !max_rel_error_upto(
                data,
                p,
                q,
                n,
            ).lt_spec(#[trigger] rel_error_at(data, p, q, i)),
        max_rel_error_upto(data, p, q, n) == T::zero_spec() || exists|i: int|
            0 <= i < n && max_rel_error_upto(data, p, q, n) == #[trigger] rel_error_at(
                data,
                p,
                q,
                i,
            ),
        !max_rel_error_upto(data, p, q, n).is_nan_spec(),
    decreases n,
{
    if n > 0 {
        let k = (n - 1) as nat;
        law_max_rel_error_is_the_largest(data, p, q, k);
        let old_max = max_rel_error_upto(data, p, q, k);
        let new_max = max_rel_error_upto(data, p, q, n);
        let e = rel_error_at(data, p, q, k as int);
        if !data[k as int].1.abs_spec().is_near_zero_spec() {
            assert(new_max == old_max.max_spec(e));
            assert forall|i: int|
                0 <= i < n && !data[i].1.abs_spec().is_near_zero_spec() implies !new_max.lt_spec(
                #[trigger] rel_error_at(data, p, q, i),
            ) by {
                let f = rel_error_at(data, p, q, i);
                if i < k && new_max.lt_spec(f) {
                    assert(new_max.lt_spec(old_max) || old_max.lt_spec(f));
                }
            }
        }
    }
}

/// The range of a fit to data is the range of the data: no x lies below its start or
/// above its end, and both are the x of a data point.
pub proof fn law_range_is_that_of_the_data<T: Value>(data: Seq<(T, T)>, n: nat)
    requires
        ordered::<T>(),
        forall|i: int| 0 <= i < n ==> !(#[trigger] data[i]).0.is_nan_spec(),
    ensures
        forall|i: int|
            0 <= i < n ==> !(#[trigger] data[i]).0.lt_spec(min_x(data, n)) && !max_x(
                data,
                n,
            ).lt_spec(data[i].0),
        n > 0 ==> exists|i: int| 0 <= i < n && (#[trigger] data[i]).0 == min_x(data, n),
        n > 0 ==> exists|i: int| 0 <= i < n && (#[trigger] data[i]).0 == max_x(data, n),
        !min_x(data, n).is_nan_spec(),
        !max_x(data, n).is_nan_spec(),
    decreases n,
{
    if n > 0 {
        let k = (n - 1) as nat;
        law_range_is_that_of_the_data(data, k);
        let (a, b) = (min_x(data, k), max_x(data, k));
        let x = data[k as int].0;
        let (c, d) = (a.min_spec(x), b.max_spec(x));
        assert forall|i: int| 0 <= i < n implies !(#[trigger] data[i]).0.lt_spec(c) && !d.lt_spec(
            data[i].0,
        ) by {
            let y = data[i].0;
            if i < k {
                if y.lt_spec(c) {
                    assert(y.lt_spec(a) || a.lt_spec(c));
                }
                if d.lt_spec(y) {
                    assert(d.lt_spec(b) || b.lt_spec(y));
                }
            }
        }
        assert(k == 0 ==> c == x && d == x);
        if c == x {
            assert(data[k as int].0 == min_x(data, n));
        }
        if d == x {
            assert(data[k as int].0 == max_x(data, n));
        }
    }
}

proof fn lemma_sum_of_zeros<T: Value>(v: spec_fn(T) -> real, f: spec_fn(int) -> T, n: nat)
    requires
        exact(v),
        forall|i: int| 0 <= i < n ==> v(#[trigger] f(i)) == 0 as real,
    ensures
        v(sum_upto(f, n)) == 0 as real,
    decreases n,
{
    reveal(exact);
    if n > 0 {
        lemma_sum_of_zeros(v, f, (n - 1) as nat);
        assert(v(f(n - 1)) == 0 as real);
    }
}

/// A fit without errors has a coefficient of determination of 1.
pub proof fn law_perfect_fit_has_r_squared_one<T: Value>(
    v: spec_fn(T) -> real,
    data: Seq<(T, T)>,
    p: Seq<T>,
    q: Seq<T>,
)
    requires
        exact(v),
        data.len() > 0,
        forall|i: int|
            0 <= i < data.len() ==> v(rational_spec(p, q, (#[trigger] data[i]).0)) == v(data[i].1),
    ensures
        v(r_squared_spec(data, p, q)) == 1 as real,
{
    let res = |i: int| squared_diff(rational_spec(p, q, data[i].0), data[i].1);
    let mean = mean_y(data);
    let tot = sum_upto(|i: int| squared_diff(data[i].1, mean), data.len());
    assert forall|i: int| 0 <= i < data.len() implies v(#[trigger] res(i)) == 0 as real by {
        reveal(exact);
        lemma_zero(0 as real);
    }
    lemma_sum_of_zeros(v, res, data.len());
    reveal(exact);
    if !tot.is_near_zero_spec() {
        lemma_over_zero(v(tot));
    }
}

proof fn lemma_sum_of_squares<T: Value>(v: spec_fn(T) -> real, f: spec_fn(int) -> T, n: nat)
    requires
        exact(v),
        forall|i: int| 0 <= i < n ==> v(#[trigger] f(i)) >= 0 as real,
    ensures
        v(sum_upto(f, n)) >= 0 as real,
    decreases n,
{
    reveal(exact);
    if n > 0 {
        lemma_sum_of_squares(v, f, (n - 1) as nat);
        assert(v(f(n - 1)) >= 0 as real);
    }
}

proof fn lemma_squared_difference<T: Value>(v: spec_fn(T) -> real, a: T, b: T)
    requires
        exact(v),
    ensures
        v(squared_diff(a, b)) >= 0 as real,
{
    reveal(exact);
    lemma_square(v(a.sub_spec(b)));
}

/// The coefficient of determination is at most 1.
pub proof fn law_r_squared_is_at_most_one<T: Value>(
    v: spec_fn(T) -> real,
    data: Seq<(T, T)>,
    p: Seq<T>,
    q: Seq<T>,
)
    requires
        exact(v),
    ensures
        v(r_squared_spec(data, p, q)) <= 1 as real,
{
    let mean = mean_y(data);
    let tots = |i: int| squared_diff(data[i].1, mean);
    let ress = |i: int| squared_diff(rational_spec(p, q, data[i].0), data[i].1);
    assert forall|i: int| 0 <= i < data.len() implies v(#[trigger] tots(i)) >= 0 as real by {
        lemma_squared_difference(v, data[i].1, mean);
    }
    assert forall|i: int| 0 <= i < data.len() implies v(#[trigger] ress(i)) >= 0 as real by {
        lemma_squared_difference(v, rational_spec(p, q, data[i].0), data[i].1);
    }
    lemma_sum_of_squares(v, tots, data.len());
    lemma_sum_of_squares(v, ress, data.len());
    let tot = sum_upto(tots, data.len());
    let res = sum_upto(ress, data.len());
    reveal(exact);
    if !tot.is_near_zero_spec() {
        lemma_over_nonnegative(v(res), v(tot));
    }
}

/// No more values miss by half an 8-bit step than by a 16-bit step, which is smaller,
/// and no more than there are.
pub proof fn law_coarse_misses_are_fine_misses<D: Value>(
    obs: Seq<(F32, F32)>,
    fine: D,
    coarse: D,
)
    requires
        strict_order::<D>(),
        fine.lt_spec(coarse),
    ensures
        0 <= over_count(obs, coarse) <= over_count(obs, fine) <= obs.len(),
    decreases obs.len(),
{
    if obs.len() > 0 {
        law_coarse_misses_are_fine_misses(obs.drop_last(), fine, coarse);
        let e = abs_error::<D>(obs.last().0, obs.last().1);
        if coarse.lt_spec(e) {
            assert(fine.lt_spec(e));
        }
    }
}

/// The largest absolute error of a sweep is what its name says: no error exceeds it, and it
/// is one of them, or 0 without any that is a number.
pub proof fn law_max_abs_of_is_the_largest<D: Value>(obs: Seq<(F32, F32)>)
    requires
        ordered::<D>(),
    ensures
        forall|i: int|
            0 <= i < obs.len() ==> !max_abs_of::<D>(obs).lt_spec(
                abs_error::<D>((#[trigger] obs[i]).0, obs[i].1),
            ),
        (exists|i: int|
            0 <= i < obs.len() && !abs_error::<D>(
                (#[trigger] obs[i]).0,
                obs[i].1,
            ).is_nan_spec()) ==> exists|i: int|
            0 <= i < obs.len() && max_abs_of::<D>(obs) == abs_error::<D>(
                (#[trigger] obs[i]).0,
                obs[i].1,
            ),
        (forall|i: int|
            0 <= i < obs.len() ==> abs_error::<D>(
                (#[trigger] obs[i]).0,
                obs[i].1,
            ).is_nan_spec()) ==> max_abs_of::<D>(obs) == D::zero_spec(),
        max_abs_of::<D>(obs) == D::zero_spec() || D::zero_spec().lt_spec(max_abs_of::<D>(obs)),
    decreases obs.len(),
{
    if obs.len() > 0 {
        let rest = obs.drop_last();
        let n = obs.len() - 1;
        law_max_abs_of_is_the_largest::<D>(rest);
        let old_max = max_abs_of::<D>(rest);
        let new_max = max_abs_of::<D>(obs);
        let e = abs_error::<D>(obs[n].0, obs[n].1);
        assert(new_max == if old_max.lt_spec(e) { e } else { old_max });
        assert forall|i: int| 0 <= i < obs.len() implies !new_max.lt_spec(
            abs_error::<D>((#[trigger] obs[i]).0, obs[i].1),
        ) by {
            if i < n {
                assert(rest[i] == obs[i]);
            }
        }
        assert forall|i: int| 0 <= i < rest.len() implies abs_error::<D>(
            (#[trigger] rest[i]).0,
            rest[i].1,
        ) == abs_error::<D>(obs[i].0, obs[i].1) by {}
        if new_max == e {
            assert(new_max == abs_error::<D>(obs[n].0, obs[n].1));
        } else if exists|i: int|
            0 <= i < rest.len() && !abs_error::<D>((#[trigger] rest[i]).0, rest[i].1).is_nan_spec() {
            let i = choose|i: int|
                0 <= i < rest.len() && old_max == abs_error::<D>((#[trigger] rest[i]).0, rest[i].1);
            assert(obs[i] == rest[i]);
        } else {
            let diff = D::from_f32_spec(obs[n].0).sub_spec(D::from_f32_spec(obs[n].1));
            assert(e == diff.abs_spec());
            assert(e.is_nan_spec());
            assert forall|i: int| 0 <= i < obs.len() implies abs_error::<D>(
                (#[trigger] obs[i]).0,
                obs[i].1,
            ).is_nan_spec() by {
                if i < n {
                    assert(rest[i] == obs[i]);
                }
            }
        }
    }
}

/// A step is exceeded somewhere exactly if the largest error exceeds it.
pub proof fn law_misses_show_in_the_largest_error<D: Value>(obs: Seq<(F32, F32)>, step: D)
    requires
        ordered::<D>(),
        !step.lt_spec(D::zero_spec()),
    ensures
        over_count(obs, step) >= 0,
        over_count(obs, step) > 0 <==> step.lt_spec(max_abs_of::<D>(obs)),
    decreases obs.len(),
{
    if obs.len() > 0 {
        law_misses_show_in_the_largest_error(obs.drop_last(), step);
        law_max_abs_of_is_the_largest::<D>(obs.drop_last());
        let e = abs_error::<D>(obs.last().0, obs.last().1);
        let old_max = max_abs_of::<D>(obs.drop_last());
        if step.lt_spec(e) {
            assert(step.lt_spec(old_max) || old_max.lt_spec(e));
        }
    }
}

/// The figures of a roundtrip report fit together: the counts are ordered and nothing is
/// counted twice, a count is positive exactly if the largest error exceeds its
/// step, the largest error is not below 0, and where nothing was scored nothing is off.
pub proof fn law_roundtrip_report_is_consistent<D: Value, F: Fn(F32) -> F32, G: Fn(F32) -> F32>(
    forward: F,
    inverse: G,
    sweep: Sweep,
    r: RoundtripReport<D>,
)
    requires
        ordered::<D>(),
        D::zero_spec().lt_spec(D::convert_f64_spec(U16_STEP)),
        D::convert_f64_spec(U16_STEP).lt_spec(D::convert_f64_spec(U8_HALF)),
        roundtrip_report(forward, inverse, sweep, r),
    ensures
        r.u8_over_half <= r.u16_over_1 <= r.values_scored,
        r.u16_over_1 > 0 <==> D::convert_f64_spec(U16_STEP).lt_spec(r.max_abs_err),
        r.u8_over_half > 0 <==> D::convert_f64_spec(U8_HALF).lt_spec(r.max_abs_err),
        r.max_abs_err == D::zero_spec() || D::zero_spec().lt_spec(r.max_abs_err),
        r.values_scored == 0 ==> {
            &&& r.max_ulp == 0
            &&& r.max_abs_err == D::zero_spec()
            &&& r.avg_abs_err == D::zero_spec().div_spec(D::from_u64_spec(1))
            &&& r.u16_over_1 == 0
            &&& r.u8_over_half == 0
        },
{
    let obs = choose|obs: Seq<(F32, F32)>|
        #[trigger] roundtrip_swept::<D, F, G>(forward, inverse, sweep, obs) && r.reports(
            sweep,
            obs,
        );
    let fine = D::convert_f64_spec(U16_STEP);
    let coarse = D::convert_f64_spec(U8_HALF);
    law_coarse_misses_are_fine_misses(obs, fine, coarse);
    law_misses_show_in_the_largest_error(obs, fine);
    law_misses_show_in_the_largest_error(obs, coarse);
    law_max_abs_of_is_the_largest::<D>(obs);
}

/// The numbers at which the gap of a join is taken are the neighbours of the threshold,
/// whatever its sign: one ULP below it and one ULP above it, with nothing in between.
pub proof fn law_gap_is_taken_at_the_neighbours(threshold: F32, w: F32)
    requires
        finite(threshold),
    ensures
        below_spec(threshold).less(threshold),
        below_spec(threshold).ordinal() == threshold.ordinal() - 1,
        threshold.less(above_spec(threshold)),
        above_spec(threshold).ordinal() == threshold.ordinal() + 1,
        ulp_distance_spec(below_spec(threshold), above_spec(threshold)) == 2,
        !(below_spec(threshold).less(w) && w.less(threshold)),
        !(threshold.less(w) && w.less(above_spec(threshold))),
{
}

/// Where going there and back leaves no error anywhere, the largest error and the sum of
/// all errors are 0 and no step is exceeded.
pub proof fn law_exact_roundtrip_has_no_error<D: Value>(obs: Seq<(F32, F32)>, step: D)
    requires
        !D::zero_spec().lt_spec(D::zero_spec()),
        D::zero_spec().add_spec(D::zero_spec()) == D::zero_spec(),
        !step.lt_spec(D::zero_spec()),
        forall|i: int|
            0 <= i < obs.len() ==> abs_error::<D>((#[trigger] obs[i]).0, obs[i].1)
                == D::zero_spec(),
    ensures
        max_abs_of::<D>(obs) == D::zero_spec(),
        sum_abs_of::<D>(obs) == D::zero_spec(),
        over_count(obs, step) == 0,
    decreases obs.len(),
{
    if obs.len() > 0 {
        let rest = obs.drop_last();
        assert forall|i: int| 0 <= i < rest.len() implies abs_error::<D>(
            (#[trigger] rest[i]).0,
            rest[i].1,
        ) == D::zero_spec() by {
            assert(rest[i] == obs[i]);
        }
        law_exact_roundtrip_has_no_error(rest, step);
        let last = obs[obs.len() - 1];
        assert(abs_error::<D>(last.0, last.1) == D::zero_spec());
    }
}

} // verus!
