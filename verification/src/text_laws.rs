//! What the reports say, figure by figure.
use crate::boundary::{past_lines, past_text, BoundaryPoint, BoundaryReport};
use crate::polynomial::{rational_text, terms_text};
use crate::rational_fit::{r_squared_spec, RationalFit};
use crate::roundtrip::RoundtripReport;
use crate::search::F32SearchResult;
use crate::text::{decimal, mode_text, right_aligned};
use crate::value::Value;
use vstd::prelude::*;

verus! {

/// The mode of a sweep is named for what it was, with the number of values behind it.
pub proof fn law_mode_is_named(n: nat)
    ensures
        mode_text(true, n) == " [exhaustive, n="@ + decimal(n) + "]"@,
        mode_text(false, n) == " [sampled, n="@ + decimal(n) + "]"@,
{
}

/// Each figure of a search result stands behind its own name: between the figure before and the
/// name of the next, nothing else.
pub proof fn law_search_text_names_its_figures<D: Value>(r: F32SearchResult<D>)
    ensures
        r.text() == "max_ulp="@ + right_aligned(decimal(r.max_ulp as nat), 4) + " avg_ulp="@
            + right_aligned(r.avg_ulp.fixed_text(3), 7) + " bnd="@ + decimal(r.boundary_ulp as nat)
            + " mono="@ + decimal(r.mono_violations as nat) + " max_abs="@ + r.max_abs_err.exp_text(
            3,
        ) + mode_text(r.exhaustive, r.values_scored as nat),
{
}

/// Each figure of a roundtrip report stands behind its own name.
pub proof fn law_roundtrip_text_names_its_figures<D: Value>(r: RoundtripReport<D>)
    ensures
        r.text() == "max_ulp="@ + decimal(r.max_ulp as nat) + " max_abs="@ + r.max_abs_err.exp_text(
            3,
        ) + " avg_abs="@ + r.avg_abs_err.exp_text(3) + " u16>1="@ + decimal(r.u16_over_1 as nat)
            + " u8>0.5="@ + decimal(r.u8_over_half as nat) + mode_text(
            r.exhaustive,
            r.values_scored as nat,
        ),
{
}

/// A quotient is written as its numerator over its denominator, each in brackets.
pub proof fn law_quotient_is_written_as_a_fraction<T: Value>(p: Seq<T>, q: Seq<T>)
    ensures
        rational_text(p, q) == "("@ + (terms_text(p) + (") / ("@ + (terms_text(q) + ")"@))),
{
    assert(rational_text(p, q) =~= "("@ + (terms_text(p) + (") / ("@ + (terms_text(q) + ")"@))));
}

/// A fit is written with the degree of its numerator, that of its denominator, its coefficient
/// of determination with six digits, its iterations, and the quotient.
pub proof fn law_fit_text_names_its_figures<T: Value>(f: RationalFit<T>)
    ensures
        f.text() == "RationalFit "@ + decimal(f.degrees().0 as nat) + "/"@ + decimal(
            f.degrees().1 as nat,
        ) + " (R²="@ + r_squared_spec(f.points(), f.p(), f.q()).fixed_text(6) + ", "@ + decimal(
            f.used() as nat,
        ) + " iters): "@ + rational_text(f.p(), f.q()),
{
}

/// A line of a boundary report gives the place, the absolute and the relative error of its own
/// point; a line past a boundary also how far past it lies.
pub proof fn law_boundary_lines_name_their_figures<T: Value>(
    sign: Seq<char>,
    points: Seq<BoundaryPoint<T>>,
    b: BoundaryPoint<T>,
)
    requires
        points.len() < 4,
    ensures
        past_lines(sign, Seq::<BoundaryPoint<T>>::empty()) == Seq::<char>::empty(),
        past_lines(sign, points.push(b)) == past_lines(sign, points) + (sign + (
        if points.len() == 0 {
            "  0.1"@
        } else if points.len() == 1 {
            "  1.0"@
        } else if points.len() == 2 {
            "  5.0"@
        } else {
            " 10.0"@
        }) + "% (x="@ + b.x.exp_text(6) + "): abs="@ + b.abs_err.exp_text(3) + " rel="@
            + b.rel_err.exp_text(3) + "\n"@),
{
    assert(points.push(b).drop_last() =~= points);
}

/// A boundary report gives the low end, then the high end, then the points past the low one
/// with a minus sign and those past the high one with a plus sign, if there are any.
pub proof fn law_boundary_text_names_its_parts<T: Value>(r: BoundaryReport<T>)
    ensures
        r.text() == "Boundary error:\n"@ + ("  lo (x="@ + r.lo.x.exp_text(6) + "): abs="@
            + r.lo.abs_err.exp_text(3) + " rel="@ + r.lo.rel_err.exp_text(3) + "\n"@) + (
        "  hi (x="@ + r.hi.x.exp_text(6) + "): abs="@ + r.hi.abs_err.exp_text(3) + " rel="@
            + r.hi.rel_err.exp_text(3) + "\n"@) + past_text(
            "  Extrapolation past lo:\n"@,
            "    -"@,
            r.past_lo@,
        ) + past_text("  Extrapolation past hi:\n"@, "    +"@, r.past_hi@),
        r.past_lo@.len() > 0 ==> past_text("  Extrapolation past lo:\n"@, "    -"@, r.past_lo@)
            == "  Extrapolation past lo:\n"@ + past_lines("    -"@, r.past_lo@),
        r.past_hi@.len() > 0 ==> past_text("  Extrapolation past hi:\n"@, "    +"@, r.past_hi@)
            == "  Extrapolation past hi:\n"@ + past_lines("    +"@, r.past_hi@),
        past_text("  Extrapolation past lo:\n"@, "    -"@, Seq::<BoundaryPoint<T>>::empty())
            == Seq::<char>::empty(),
{
}

} // verus!
