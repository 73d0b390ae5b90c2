//! Errors at and near the boundaries of the fitted domain.
use crate::polynomial::{rational_spec, RationalPolynomial};
use crate::value::{cast_or, try_cast_or, Value};
use vstd::prelude::*;
use vstd::string::StringExecFns;

verus! {

/// 0.001, the first distance past a boundary.
pub const FRACTION_0: u64 = 0x3f50_624d_d2f1_a9fc;

/// 0.01, the second distance past a boundary.
pub const FRACTION_1: u64 = 0x3f84_7ae1_47ae_147b;

/// 0.05, the third distance past a boundary.
pub const FRACTION_2: u64 = 0x3fa9_9999_9999_999a;

/// 0.1, the last distance past a boundary.
pub const FRACTION_3: u64 = 0x3fb9_9999_9999_999a;

/// Error at a single evaluation point (at or past a domain boundary).
#[derive(Debug, Clone, Copy)]
pub struct BoundaryPoint<T> {
    /// The x coordinate.
    pub x: T,
    /// The rational polynomial's output at x.
    pub predicted: T,
    /// The reference function's output at x.
    pub expected: T,
    /// Absolute error: |predicted - expected|.
    pub abs_err: T,
    /// Relative error: |predicted - expected| / |expected|.
    pub rel_err: T,
}

/// The error at `x` where `expected` is expected. The relative error is the absolute
/// one where the expected value is as good as zero.
pub open spec fn error_at<T: Value>(p: Seq<T>, q: Seq<T>, x: T, expected: T) -> BoundaryPoint<T> {
    let predicted = rational_spec(p, q, x);
    let abs_err = predicted.sub_spec(expected).abs_spec();
    BoundaryPoint {
        x,
        predicted,
        expected,
        abs_err,
        rel_err: if expected.abs_spec().is_near_zero_spec() {
            abs_err
        } else {
            abs_err.div_spec(expected.abs_spec())
        },
    }
}

/// `b` is the error at `x` against something that the reference can give there.
pub open spec fn error_against<T: Value, F: Fn(T) -> T>(
    p: Seq<T>,
    q: Seq<T>,
    reference: F,
    x: T,
    b: BoundaryPoint<T>,
) -> bool {
    exists|expected: T|
        #[trigger] call_ensures(reference, (x,), expected) && b == error_at(p, q, x, expected)
}

/// How far past a boundary the `i`-th point lies, as a part of the width.
pub open spec fn fraction<T: Value>(i: int) -> T {
    cast_or(
        if i == 0 {
            FRACTION_0
        } else if i == 1 {
            FRACTION_1
        } else if i == 2 {
            FRACTION_2
        } else {
            FRACTION_3
        },
        T::zero_spec(),
    )
}

fn fraction_at<T: Value>(i: usize) -> (r: T)
    ensures
        r == fraction::<T>(i as int),
{
    let bits: u64 = if i == 0 {
        FRACTION_0
    } else if i == 1 {
        FRACTION_1
    } else if i == 2 {
        FRACTION_2
    } else {
        FRACTION_3
    };
    try_cast_or(bits, T::zero())
}

/// Error report at and near the domain boundaries.
///
/// Contains error at the endpoints (`lo`, `hi`) and at points extrapolated
/// past the boundary at 0.1%, 1%, 5%, and 10% of the domain width.
#[derive(Debug, Clone)]
pub struct BoundaryReport<T> {
    /// Error at the low endpoint (domain start).
    pub lo: BoundaryPoint<T>,
    /// Error at the high endpoint (domain end).
    pub hi: BoundaryPoint<T>,
    /// Error at points past the low boundary (0.1%, 1%, 5%, 10% of width).
    pub past_lo: Vec<BoundaryPoint<T>>,
    /// Error at points past the high boundary (0.1%, 1%, 5%, 10% of width).
    pub past_hi: Vec<BoundaryPoint<T>>,
}

impl<T: Value> BoundaryReport<T> {
    /// The report is that of `P/Q` on the domain from `lo` to `hi`.
    pub open spec fn reports<F: Fn(T) -> T>(
        &self,
        p: Seq<T>,
        q: Seq<T>,
        lo: T,
        hi: T,
        reference: F,
    ) -> bool {
        let width = hi.sub_spec(lo);
        &&& error_against(p, q, reference, lo, self.lo)
        &&& error_against(p, q, reference, hi, self.hi)
        &&& self.past_lo@.len() == 4
        &&& self.past_hi@.len() == 4
        &&& forall|i: int|
            0 <= i < 4 ==> error_against(
                p,
                q,
                reference,
                lo.sub_spec(width.mul_spec(fraction::<T>(i))),
                #[trigger] self.past_lo@[i],
            )
        &&& forall|i: int|
            0 <= i < 4 ==> error_against(
                p,
                q,
                reference,
                hi.add_spec(width.mul_spec(fraction::<T>(i))),
                #[trigger] self.past_hi@[i],
            )
    }

    /// The text of the report.
    pub open spec fn text(&self) -> Seq<char> {
        "Boundary error:\n"@ + point_text("  lo (x="@, self.lo) + point_text("  hi (x="@, self.hi)
            + past_text("  Extrapolation past lo:\n"@, "    -"@, self.past_lo@) + past_text(
            "  Extrapolation past hi:\n"@,
            "    +"@,
            self.past_hi@,
        )
    }

    /// The report as text, one line for each point.
    pub fn to_text(&self) -> (r: String)
        ensures
            r@ == self.text(),
    {
        let mut out = String::new();
        out.append("Boundary error:\n");
        append_point(&mut out, "  lo (x=", &self.lo);
        append_point(&mut out, "  hi (x=", &self.hi);
        append_past(&mut out, "  Extrapolation past lo:\n", "    -", &self.past_lo);
        append_past(&mut out, "  Extrapolation past hi:\n", "    +", &self.past_hi);
        assert(out@ =~= self.text());
        out
    }
}

/// One line of a report.
pub open spec fn point_text<T: Value>(head: Seq<char>, b: BoundaryPoint<T>) -> Seq<char> {
    head + b.x.exp_text(6) + "): abs="@ + b.abs_err.exp_text(3) + " rel="@ + b.rel_err.exp_text(3)
        + "\n"@
}

/// How far past the boundary the `i`-th point lies, in percent, five wide.
pub open spec fn percent_text(i: int) -> Seq<char> {
    if i == 0 {
        "  0.1"@
    } else if i == 1 {
        "  1.0"@
    } else if i == 2 {
        "  5.0"@
    } else if i == 3 {
        " 10.0"@
    } else {
        "  0.0"@
    }
}

/// The lines of the points past a boundary.
pub open spec fn past_lines<T: Value>(sign: Seq<char>, points: Seq<BoundaryPoint<T>>) -> Seq<char>
    decreases points.len(),
{
    if points.len() == 0 {
        Seq::empty()
    } else {
        past_lines(sign, points.drop_last()) + point_text(
            sign + percent_text(points.len() - 1) + "% (x="@,
            points.last(),
        )
    }
}

/// The part of a report on the points past a boundary, if there are any.
pub open spec fn past_text<T: Value>(
    title: Seq<char>,
    sign: Seq<char>,
    points: Seq<BoundaryPoint<T>>,
) -> Seq<char> {
    if points.len() == 0 {
        Seq::empty()
    } else {
        title + past_lines(sign, points)
    }
}

fn append_point<T: Value>(out: &mut String, head: &str, b: &BoundaryPoint<T>)
    ensures
        final(out)@ == old(out)@ + point_text(head@, *b),
{
    out.append(head);
    out.append(b.x.to_exp(6).as_str());
    out.append("): abs=");
    out.append(b.abs_err.to_exp(3).as_str());
    out.append(" rel=");
    out.append(b.rel_err.to_exp(3).as_str());
    out.append("\n");
    assert(out@ =~= old(out)@ + point_text(head@, *b));
}

fn percent(i: usize) -> (r: &'static str)
    ensures
        r@ == percent_text(i as int),
{
    match i {
        0 => "  0.1",
        1 => "  1.0",
        2 => "  5.0",
        3 => " 10.0",
        _ => "  0.0",
    }
}

fn append_past<T: Value>(out: &mut String, title: &str, sign: &str, points: &Vec<BoundaryPoint<T>>)
    ensures
        final(out)@ == old(out)@ + past_text(title@, sign@, points@),
{
    if points.len() == 0 {
        assert(out@ =~= old(out)@ + past_text(title@, sign@, points@));
        return;
    }
    out.append(title);
    let mut i: usize = 0;
    assert(out@ =~= old(out)@ + title@ + past_lines(sign@, points@.take(0)));
    while i < points.len()
        invariant
            i <= points.len(),
            out@ == old(out)@ + title@ + past_lines(sign@, points@.take(i as int)),
        decreases points.len() - i,
    {
        let mut head = String::new();
        head.append(sign);
        head.append(percent(i));
        head.append("% (x=");
        assert(head@ =~= sign@ + percent_text(i as int) + "% (x="@);
        append_point(out, head.as_str(), &points[i]);
        proof {
            let after = points@.take(i + 1);
            assert(after.drop_last() =~= points@.take(i as int));
            assert(after.last() == points@[i as int]);
            assert(out@ =~= old(out)@ + title@ + past_lines(sign@, after));
        }
        i = i + 1;
    }
    assert(points@.take(points@.len() as int) =~= points@);
    assert(out@ =~= old(out)@ + past_text(title@, sign@, points@));
}

/// The error at one point.
pub fn eval_point<T: Value, F: Fn(T) -> T>(
    poly: &RationalPolynomial<T>,
    reference: &F,
    x: T,
) -> (r: BoundaryPoint<T>)
    requires
        poly.evaluable(),
        forall|v: T| #[trigger] call_requires(*reference, (v,)),
    ensures
        error_against(poly.p(), poly.q(), *reference, x, r),
{
    let predicted = poly.y(x);
    let expected: T = reference(x);
    assert(call_ensures(*reference, (x,), expected));
    let abs_err = predicted.sub(expected).abs();
    let size = expected.abs();
    let rel_err = if size.is_near_zero() {
        abs_err
    } else {
        abs_err.div(size)
    };
    BoundaryPoint { x, predicted, expected, abs_err, rel_err }
}

/// The errors at and near the boundaries of the domain from `lo` to `hi`.
pub fn report_boundary<T: Value, F: Fn(T) -> T>(
    poly: &RationalPolynomial<T>,
    lo: T,
    hi: T,
    reference: &F,
) -> (r: BoundaryReport<T>)
    requires
        poly.evaluable(),
        forall|v: T| #[trigger] call_requires(*reference, (v,)),
    ensures
        r.reports(poly.p(), poly.q(), lo, hi, *reference),
{
    let width = hi.sub(lo);
    let at_lo = eval_point(poly, reference, lo);
    let at_hi = eval_point(poly, reference, hi);
    let mut past_lo: Vec<BoundaryPoint<T>> = Vec::new();
    let mut past_hi: Vec<BoundaryPoint<T>> = Vec::new();
    let mut i: usize = 0;
    while i < 4
        invariant
            poly.evaluable(),
            forall|v: T| #[trigger] call_requires(*reference, (v,)),
            width == hi.sub_spec(lo),
            i <= 4,
            past_lo@.len() == i,
            past_hi@.len() == i,
            forall|k: int|
                0 <= k < i ==> error_against(
                    poly.p(),
                    poly.q(),
                    *reference,
                    lo.sub_spec(width.mul_spec(fraction::<T>(k))),
                    #[trigger] past_lo@[k],
                ),
            forall|k: int|
                0 <= k < i ==> error_against(
                    poly.p(),
                    poly.q(),
                    *reference,
                    hi.add_spec(width.mul_spec(fraction::<T>(k))),
                    #[trigger] past_hi@[k],
                ),
        decreases 4 - i,
    {
        let f: T = fraction_at(i);
        past_lo.push(eval_point(poly, reference, lo.sub(width.mul(f))));
        past_hi.push(eval_point(poly, reference, hi.add(width.mul(f))));
        i = i + 1;
    }
    BoundaryReport { lo: at_lo, hi: at_hi, past_lo, past_hi }
}

} // verus!
