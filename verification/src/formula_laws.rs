//! What the formulas of evaluation, diagnostics and text come to.
use crate::boundary::{error_against, error_at, BoundaryPoint, BoundaryReport};
use crate::eval::{
    eval_f32_horner_spec, fused_spec, horner_f32_via_f64_spec, rational_horner_f32_via_f64_spec,
    widened,
};
use crate::exact::exact;
use crate::polynomial::{horner_spec, rational_spec, snapped, terms_text};
use crate::rational_fit::{
    max_abs_error_upto, max_rel_error_upto, max_x, mean_y, min_x, r_squared_spec, residual_at,
    squared_diff, sum_upto,
};
use crate::reals::{lemma_over_times, times};
use crate::report_laws::rel_error_at;
use crate::single::{next_spec, nudge_spec, ulp_distance_spec, F32};
use crate::sweep::Sweep;
use crate::text::{decimal, digit, right_aligned};
use crate::value::{cast_or, count_or, Value};
use vstd::prelude::*;

verus! {

/// Single precision numbers are numbered by their bits: the nonnegative ones from 0 upward, the
/// negative ones from 0 downward. What lies past infinity either way is not a number. Numbers
/// compare as their ordinals do, and are as many ULPs apart.
pub proof fn law_numbers_are_ordered_by_their_bits(b: u32, x: F32, y: F32)
    requires
        b < 0x8000_0000,
    ensures
        (F32 { bits: b }).ordinal() == b,
        (F32 { bits: (0x8000_0000 + b) as u32 }).ordinal() == -b,
        (F32 { bits: b }).nan() <==> b > 0x7f80_0000,
        (F32 { bits: (0x8000_0000 + b) as u32 }).nan() <==> b > 0x7f80_0000,
        x.less(y) <==> !x.nan() && !y.nan() && x.ordinal() < y.ordinal(),
        x.at_most(y) <==> x.less(y) || x.same(y),
        x.same(y) <==> !x.nan() && !y.nan() && !x.less(y) && !y.less(x),
        x.less(y) ==> ulp_distance_spec(x, y) == y.ordinal() - x.ordinal(),
        x.same(y) ==> ulp_distance_spec(x, y) == 0,
        ulp_distance_spec(x, y) == ulp_distance_spec(y, x),
        x.nan() ==> ulp_distance_spec(x, y) == 0xffff_ffff,
{
}

/// Horner's method takes the constant term and adds `x` times the rest: a coefficient put in
/// front is added to the product of what was there with `x`.
pub proof fn law_horner_takes_one_more_coefficient<T: Value>(a: T, rest: Seq<T>, x: T)
    ensures
        horner_spec(seq![a], x) == a,
        fused_spec(x, Seq::<T>::empty()) == T::zero_spec(),
        fused_spec(x, seq![a]) == a,
        rest.len() > 0 ==> horner_spec(seq![a] + rest, x) == horner_spec(rest, x).mul_spec(
            x,
        ).add_spec(a),
        rest.len() > 0 ==> fused_spec(x, seq![a] + rest) == fused_spec(x, rest).mul_add_spec(x, a),
{
    assert((seq![a] + rest).drop_first() =~= rest);
}

/// The value of a quotient times its denominator is its numerator.
pub proof fn law_quotient_times_denominator<T: Value>(
    v: spec_fn(T) -> real,
    p: Seq<T>,
    q: Seq<T>,
    x: T,
)
    requires
        exact(v),
        v(horner_spec(q, x)) != 0 as real,
    ensures
        times(v(rational_spec(p, q, x)), v(horner_spec(q, x))) == v(horner_spec(p, x)),
{
    reveal(exact);
    lemma_over_times(v(horner_spec(p, x)), v(horner_spec(q, x)));
}

/// The evaluators for single precision coefficients widen the input and each coefficient,
/// evaluate there with fused steps, divide there, and round once at the end.
pub proof fn law_evaluators_round_once<D: Value>(
    x: F32,
    p: Seq<F32>,
    q: Seq<F32>,
    wide_p: Seq<D>,
    wide_q: Seq<D>,
)
    requires
        q.len() > 0,
        wide_p.len() == p.len(),
        wide_q.len() == q.len(),
        forall|i: int| 0 <= i < p.len() ==> #[trigger] wide_p[i] == D::from_f32_spec(p[i]),
        forall|i: int| 0 <= i < q.len() ==> #[trigger] wide_q[i] == D::from_f32_spec(q[i]),
    ensures
        horner_f32_via_f64_spec::<D>(x, q) == fused_spec(D::from_f32_spec(x), wide_q).to_f32_spec(),
        rational_horner_f32_via_f64_spec::<D>(x, p, q) == fused_spec(
            D::from_f32_spec(x),
            wide_p,
        ).div_spec(fused_spec(D::from_f32_spec(x), wide_q)).to_f32_spec(),
        eval_f32_horner_spec::<D>(x, p, q) == fused_spec(D::from_f32_spec(x), wide_p).div_spec(
            fused_spec(D::from_f32_spec(x), wide_q),
        ).to_f32_spec(),
{
    assert(wide_p =~= widened::<D>(p));
    assert(wide_q =~= widened::<D>(q));
}

/// A snap moves the constant term and nothing else, to `y*Q(x)` less what the other terms of
/// `P` add up to at `x`. It does not look at the constant term that was there.
pub proof fn law_snap_moves_the_constant_alone<T: Value>(
    p: Seq<T>,
    q: Seq<T>,
    x: T,
    y: T,
    other: T,
)
    requires
        p.len() > 0,
    ensures
        snapped(p, q, x, y).len() == p.len(),
        forall|i: int| 0 < i < p.len() ==> #[trigger] snapped(p, q, x, y)[i] == p[i],
        snapped(p.update(0, other), q, x, y) == snapped(p, q, x, y),
        p.len() == 1 ==> snapped(p, q, x, y)[0] == y.mul_spec(horner_spec(q, x)).sub_spec(
            T::zero_spec(),
        ),
        p.len() > 1 ==> snapped(p, q, x, y)[0] == y.mul_spec(horner_spec(q, x)).sub_spec(
            x.mul_spec(horner_spec(p.drop_first(), x)),
        ),
{
    assert(p.update(0, other).drop_first() =~= p.drop_first());
    assert(snapped(p.update(0, other), q, x, y) =~= snapped(p, q, x, y));
}

/// The errors at a point are those of the quotient against the reference there: the absolute
/// error is their difference without sign, and the relative one times the size of the
/// expected value is the absolute one, or is the absolute one where nothing is expected.
pub proof fn law_boundary_point_holds_its_errors<T: Value, F: Fn(T) -> T>(
    v: spec_fn(T) -> real,
    p: Seq<T>,
    q: Seq<T>,
    reference: F,
    x: T,
    b: BoundaryPoint<T>,
)
    requires
        error_against(p, q, reference, x, b),
    ensures
        b.x == x,
        call_ensures(reference, (x,), b.expected),
        b.predicted == rational_spec(p, q, x),
        b.abs_err == b.predicted.sub_spec(b.expected).abs_spec(),
        b.expected.abs_spec().is_near_zero_spec() ==> b.rel_err == b.abs_err,
        !b.expected.abs_spec().is_near_zero_spec() ==> b.rel_err == b.abs_err.div_spec(
            b.expected.abs_spec(),
        ),
        exact(v) ==> v(b.abs_err) == if v(b.predicted) < v(b.expected) {
            v(b.expected) - v(b.predicted)
        } else {
            v(b.predicted) - v(b.expected)
        },
        exact(v) && !b.expected.abs_spec().is_near_zero_spec() ==> times(
            v(b.rel_err),
            v(b.expected.abs_spec()),
        ) == v(b.abs_err),
{
    let expected = choose|expected: T|
        #[trigger] call_ensures(reference, (x,), expected) && b == error_at(p, q, x, expected);
    if exact(v) {
        reveal(exact);
        if v(b.expected.abs_spec()) != 0 as real {
            lemma_over_times(v(b.abs_err), v(b.expected.abs_spec()));
        }
    }
}

/// A boundary report looks at both ends of the domain and at four points past each, 0.1%, 1%,
/// 5% and 10% of the width away: below the start and above the end.
pub proof fn law_boundary_report_looks_past_both_ends<T: Value, F: Fn(T) -> T>(
    v: spec_fn(T) -> real,
    r: BoundaryReport<T>,
    p: Seq<T>,
    q: Seq<T>,
    lo: T,
    hi: T,
    reference: F,
    i: int,
    part: T,
)
    requires
        r.reports(p, q, lo, hi, reference),
        0 <= i < 4,
        i == 0 ==> part == cast_or(0x3f50_624d_d2f1_a9fc, T::zero_spec()),
        i == 1 ==> part == cast_or(0x3f84_7ae1_47ae_147b, T::zero_spec()),
        i == 2 ==> part == cast_or(0x3fa9_9999_9999_999a, T::zero_spec()),
        i == 3 ==> part == cast_or(0x3fb9_9999_9999_999a, T::zero_spec()),
    ensures
        error_against(p, q, reference, lo, r.lo),
        error_against(p, q, reference, hi, r.hi),
        r.past_lo@.len() == 4,
        r.past_hi@.len() == 4,
        error_against(
            p,
            q,
            reference,
            lo.sub_spec(hi.sub_spec(lo).mul_spec(part)),
            r.past_lo@[i],
        ),
        error_against(
            p,
            q,
            reference,
            hi.add_spec(hi.sub_spec(lo).mul_spec(part)),
            r.past_hi@[i],
        ),
        exact(v) ==> v(lo) - v(r.past_lo@[i].x) == times(v(hi) - v(lo), v(part)),
        exact(v) ==> v(r.past_hi@[i].x) - v(hi) == times(v(hi) - v(lo), v(part)),
{
    assert(error_against(
        p,
        q,
        reference,
        lo.sub_spec(hi.sub_spec(lo).mul_spec(part)),
        r.past_lo@[i],
    ));
    assert(error_against(
        p,
        q,
        reference,
        hi.add_spec(hi.sub_spec(lo).mul_spec(part)),
        r.past_hi@[i],
    ));
    if exact(v) {
        reveal(exact);
    }
}

/// A residual is what has to be added to the data to get the fit: the value of the fit is the
/// y of the data point plus the residual.
pub proof fn law_data_plus_residual_is_the_fit<T: Value>(
    v: spec_fn(T) -> real,
    data: Seq<(T, T)>,
    p: Seq<T>,
    q: Seq<T>,
    i: int,
)
    requires
        exact(v),
    ensures
        v(rational_spec(p, q, data[i].0)) == v(data[i].1) + v(residual_at(data, p, q, i)),
        !data[i].1.abs_spec().is_near_zero_spec() ==> times(
            v(rel_error_at(data, p, q, i)),
            v(data[i].1.abs_spec()),
        ) == v(residual_at(data, p, q, i).abs_spec()),
{
    reveal(exact);
    let a = v(data[i].1.abs_spec());
    if a != 0 as real {
        lemma_over_times(v(residual_at(data, p, q, i).abs_spec()), a);
    }
}

/// A sum takes one more value by adding it.
pub proof fn law_sum_takes_one_more<T: Value>(f: spec_fn(int) -> T, n: nat)
    ensures
        sum_upto(f, 0) == T::zero_spec(),
        sum_upto(f, n + 1) == sum_upto(f, n).add_spec(f(n as int)),
{
}

/// The coefficient of determination is 1 less the part of the variation that the fit leaves
/// unexplained: `(1 - R^2)` times the squared distances of the y from their mean is the sum of
/// the squared errors. The mean times the number of points is the sum of the y.
pub proof fn law_r_squared_is_what_is_explained<T: Value>(
    v: spec_fn(T) -> real,
    data: Seq<(T, T)>,
    p: Seq<T>,
    q: Seq<T>,
    squares: spec_fn(int) -> T,
    errors: spec_fn(int) -> T,
    ys: spec_fn(int) -> T,
)
    requires
        exact(v),
        data.len() > 0,
        v(count_or(data.len() as usize, T::one_spec())) != 0 as real,
        ys == |i: int| data[i].1,
        squares == |i: int|
            data[i].1.sub_spec(mean_y(data)).mul_spec(data[i].1.sub_spec(mean_y(data))),
        errors == |i: int|
            rational_spec(p, q, data[i].0).sub_spec(data[i].1).mul_spec(
                rational_spec(p, q, data[i].0).sub_spec(data[i].1),
            ),
    ensures
        times(v(mean_y(data)), v(count_or(data.len() as usize, T::one_spec()))) == v(
            sum_upto(ys, data.len()),
        ),
        sum_upto(squares, data.len()).is_near_zero_spec() ==> v(r_squared_spec(data, p, q))
            == 1 as real,
        !sum_upto(squares, data.len()).is_near_zero_spec() ==> times(
            1 as real - v(r_squared_spec(data, p, q)),
            v(sum_upto(squares, data.len())),
        ) == v(sum_upto(errors, data.len())),
{
    reveal(exact);
    let n = data.len();
    let count = v(count_or(n as usize, T::one_spec()));
    lemma_same_sum(|i: int| data[i].1, ys, n);
    lemma_over_times(v(sum_upto(ys, n)), count);
    let mean = mean_y(data);
    let tots = |i: int| squared_diff(data[i].1, mean);
    let ress = |i: int|
        squared_diff(rational_spec(p, q, data[i].0), data[i].1);
    lemma_same_sum(tots, squares, n);
    lemma_same_sum(ress, errors, n);
    if !sum_upto(squares, n).is_near_zero_spec() {
        lemma_over_times(v(sum_upto(errors, n)), v(sum_upto(squares, n)));
    }
}

proof fn lemma_same_sum<T: Value>(f: spec_fn(int) -> T, g: spec_fn(int) -> T, n: nat)
    requires
        forall|i: int| 0 <= i < n ==> #[trigger] f(i) == g(i),
    ensures
        sum_upto(f, n) == sum_upto(g, n),
    decreases n,
{
    if n > 0 {
        lemma_same_sum(f, g, (n - 1) as nat);
        assert(f(n - 1) == g(n - 1));
    }
}

/// Without data nothing is explained.
pub proof fn law_r_squared_of_nothing<T: Value>(p: Seq<T>, q: Seq<T>)
    ensures
        r_squared_spec(Seq::<(T, T)>::empty(), p, q) == T::zero_spec(),
{
}

/// Samples are spaced evenly: the first is `lo`, the last is `hi`, and each is as far from
/// the one before as any other, if counts are exact.
pub proof fn law_samples_are_spaced_evenly<D: Value>(
    v: spec_fn(D) -> real,
    s: Sweep,
    n: usize,
    i: int,
)
    requires
        exact(v),
        n > 0,
        forall|k: u64| v(#[trigger] D::from_u64_spec(k)) == k as real,
        0 <= i <= n,
    ensures
        times(v(s.sample::<D>(i, n)) - v(D::from_f32_spec(s.lo)), n as real) == times(
            v(D::from_f32_spec(s.hi)) - v(D::from_f32_spec(s.lo)),
            i as real,
        ),
{
    reveal(exact);
    assert(v(D::from_u64_spec(n as u64)) == n as real);
    assert(v(D::from_u64_spec(i as u64)) == i as real);
    lemma_over_times(
        times(v(D::from_f32_spec(s.hi)) - v(D::from_f32_spec(s.lo)), i as real),
        n as real,
    );
}

/// The number that a text of digits stands for.
pub open spec fn number_of(text: Seq<char>) -> int
    decreases text.len(),
{
    if text.len() == 0 {
        0
    } else {
        10 * number_of(text.drop_last()) + (text.last() as int - '0' as int)
    }
}

/// Decimal notation can be read back: it is made of digits, starts with no needless zero, and
/// stands for the number.
pub proof fn law_decimal_notation_reads_back(n: nat)
    ensures
        number_of(decimal(n)) == n,
        decimal(n).len() > 0,
        forall|i: int|
            0 <= i < decimal(n).len() ==> '0' as int <= #[trigger] decimal(n)[i] as int <= '9' as int,
        n > 0 ==> decimal(n)[0] != '0',
    decreases n,
{
    reveal_with_fuel(number_of, 2);
    if n < 10 {
        assert(seq![digit(n)].drop_last() =~= Seq::empty());
    } else {
        law_decimal_notation_reads_back(n / 10);
        let rest = decimal(n / 10);
        let d = digit(n % 10);
        assert(rest.push(d).drop_last() =~= rest);
        assert(decimal(n) == rest.push(d));
        assert forall|i: int| 0 <= i < decimal(n).len() implies '0' as int
            <= #[trigger] decimal(n)[i] as int <= '9' as int by {
            if i < rest.len() {
                assert(decimal(n)[i] == rest[i]);
            }
        }
        assert(decimal(n)[0] == rest[0]);
    }
}

/// A text aligned right fills its field with spaces on the left and ends with the text; one
/// that is too long is kept.
pub proof fn law_alignment_pads_on_the_left(text: Seq<char>, width: nat)
    ensures
        right_aligned(text, width).len() == if text.len() > width {
            text.len()
        } else {
            width
        },
        right_aligned(text, width).skip(right_aligned(text, width).len() - text.len()) == text,
        forall|i: int|
            0 <= i < right_aligned(text, width).len() - text.len() ==> #[trigger] right_aligned(
                text,
                width,
            )[i] == ' ',
{
    assert(right_aligned(text, width).skip(right_aligned(text, width).len() - text.len()) =~= text);
}

/// A polynomial is written term by term, lowest degree first: one more coefficient adds a plus
/// sign and its term, with the power of `x` at which it stands.
pub proof fn law_polynomial_is_written_term_by_term<T: Value>(c: Seq<T>, a: T)
    ensures
        terms_text(seq![a]) == a.exp_text(6),
        c.len() == 1 ==> terms_text(c.push(a)) == terms_text(c) + " + "@ + a.exp_text(6) + "*x"@,
        c.len() > 1 ==> terms_text(c.push(a)) == terms_text(c) + " + "@ + a.exp_text(6) + "*x^"@
            + decimal(c.len()),
{
    assert(c.push(a).drop_last() =~= c);
    if c.len() == 1 {
        assert(terms_text(c.push(a)) =~= terms_text(c) + " + "@ + a.exp_text(6) + "*x"@);
    } else if c.len() > 1 {
        assert(terms_text(c.push(a)) =~= terms_text(c) + " + "@ + a.exp_text(6) + "*x^"@ + decimal(
            c.len(),
        ));
    }
}

/// The figures over the data take one more point: the range widens to its x, the largest error
/// grows to its error, and so does the largest relative error unless its y is as good as zero.
pub proof fn law_figures_take_one_more_point<T: Value>(
    data: Seq<(T, T)>,
    p: Seq<T>,
    q: Seq<T>,
    n: nat,
)
    ensures
        ({
            let (x, y) = data[n as int];
            let e = rational_spec(p, q, x).sub_spec(y).abs_spec();
            &&& min_x(data, 0) == T::infinity_spec()
            &&& max_x(data, 0) == T::neg_infinity_spec()
            &&& min_x(data, n + 1) == min_x(data, n).min_spec(x)
            &&& max_x(data, n + 1) == max_x(data, n).max_spec(x)
            &&& max_abs_error_upto(data, p, q, 0) == T::zero_spec()
            &&& max_abs_error_upto(data, p, q, n + 1) == max_abs_error_upto(
                data,
                p,
                q,
                n,
            ).max_spec(e)
            &&& max_rel_error_upto(data, p, q, 0) == T::zero_spec()
            &&& y.abs_spec().is_near_zero_spec() ==> max_rel_error_upto(data, p, q, n + 1)
                == max_rel_error_upto(data, p, q, n)
            &&& !y.abs_spec().is_near_zero_spec() ==> max_rel_error_upto(data, p, q, n + 1)
                == max_rel_error_upto(data, p, q, n).max_spec(e.div_spec(y.abs_spec()))
        }),
{
}

/// The next number is one bit pattern on: up for the nonnegative, down for the negative, from
/// either zero to the smallest positive number. The largest number, infinity and what is not a
/// number stay.
pub proof fn law_next_number_is_one_bit_pattern_on(v: F32)
    ensures
        v.ordinal() >= 0x7f7f_ffff || v.nan() ==> next_spec(v) == v,
        0 <= v.ordinal() < 0x7f7f_ffff && v.bits < 0x8000_0000 ==> next_spec(v).bits == v.bits + 1,
        v.bits == 0x8000_0000 ==> next_spec(v).bits == 1,
        !v.nan() && v.bits > 0x8000_0000 ==> next_spec(v).bits == v.bits - 1,
{
}

/// A nudge that stays on its side of zero adds to the bits, as does one that has no number to
/// lead to; one that passes zero comes out on the other side as far from it as it has left to
/// go.
pub proof fn law_nudge_adds_to_the_bits(v: F32, delta: i32, b: u32)
    requires
        b == v.bits || b == v.bits - 0x8000_0000,
        b < 0x8000_0000,
    ensures
        !v.nan() && 0 <= b + delta <= 0x7f80_0000 ==> nudge_spec(v, delta as int).bits == v.bits
            + delta,
        !v.nan() && -0x7f80_0000 <= b + delta < 0 && v.bits < 0x8000_0000 ==> nudge_spec(
            v,
            delta as int,
        ).bits == 0x8000_0000 - (b + delta),
        !v.nan() && -0x7f80_0000 <= b + delta < 0 && v.bits >= 0x8000_0000 ==> nudge_spec(
            v,
            delta as int,
        ).bits == -(b + delta),
        v.nan() || b + delta > 0x7f80_0000 || b + delta < -0x7f80_0000 ==> (nudge_spec(
            v,
            delta as int,
        ).bits - v.bits - delta) % 0x1_0000_0000 == 0,
{
}

} // verus!
