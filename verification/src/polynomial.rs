//! Rational polynomials `P(x)/Q(x)`.
//!
//! Coefficients are stored lowest-degree-first (Horner order):
//! ```text
//! P(x) = p[0] + p[1]*x + p[2]*x^2 + ... + p[m]*x^m
//! Q(x) = q[0] + q[1]*x + q[2]*x^2 + ... + x^n     (monic: leading coeff = 1)
//! ```
use crate::text::{append_decimal, decimal};
use crate::value::{copied, Value};
use vstd::prelude::*;
use vstd::slice::slice_subrange;
use vstd::string::StringExecFns;

verus! {

/// `c[0] + x*(c[1] + x*(c[2] + ...))`, each product and each sum rounded.
pub open spec fn horner_spec<T: Value>(c: Seq<T>, x: T) -> T
    decreases c.len(),
{
    if c.len() <= 1 {
        c[0]
    } else {
        horner_spec(c.drop_first(), x).mul_spec(x).add_spec(c[0])
    }
}

/// Evaluate a polynomial using Horner's method.
/// Coefficients are lowest-degree-first: c[0] + c[1]*x + c[2]*x^2 + ...
pub fn horner<T: Value>(coeffs: &[T], x: T) -> (r: T)
    requires
        coeffs.len() > 0,
    ensures
        r == horner_spec(coeffs@, x),
{
    let mut i: usize = coeffs.len() - 1;
    let mut result = coeffs[i];
    while i > 0
        invariant
            i < coeffs.len(),
            result == horner_spec(coeffs@.skip(i as int), x),
        decreases i,
    {
        i = i - 1;
        assert(coeffs@.skip(i as int).drop_first() =~= coeffs@.skip(i + 1));
        result = result.mul(x).add(coeffs[i]);
    }
    assert(coeffs@.skip(0) =~= coeffs@);
    result
}

/// `P(x)/Q(x)`.
pub open spec fn rational_spec<T: Value>(p: Seq<T>, q: Seq<T>, x: T) -> T {
    horner_spec(p, x).div_spec(horner_spec(q, x))
}

/// What the terms of `P` above the constant one add up to at `x`.
pub open spec fn upper_terms<T: Value>(p: Seq<T>, x: T) -> T {
    if p.len() > 1 {
        x.mul_spec(horner_spec(p.drop_first(), x))
    } else {
        T::zero_spec()
    }
}

/// The constant term with which `P(x)/Q(x)` comes to `y`: `y*Q(x)` less what the
/// other terms of `P` add up to.
pub open spec fn snapped_constant<T: Value>(p: Seq<T>, q: Seq<T>, x: T, y: T) -> T {
    y.mul_spec(horner_spec(q, x)).sub_spec(upper_terms(p, x))
}

/// The numerator after a snap to `(x, y)`.
pub open spec fn snapped<T: Value>(p: Seq<T>, q: Seq<T>, x: T, y: T) -> Seq<T> {
    p.update(0, snapped_constant(p, q, x, y))
}

/// A rational polynomial P(x)/Q(x).
///
/// Coefficients are lowest-degree-first. The denominator is monic (leading
/// coefficient = 1).
#[derive(Debug, PartialEq)]
pub struct RationalPolynomial<T> {
    /// Numerator coefficients: p[0] + p[1]*x + ... + p[m]*x^m
    numerator: Vec<T>,
    /// Denominator coefficients: q[0] + q[1]*x + ... + x^n (last element is 1)
    denominator: Vec<T>,
}

impl<T: Value> RationalPolynomial<T> {
    /// The coefficients of the numerator.
    pub closed spec fn p(&self) -> Seq<T> {
        self.numerator@
    }

    /// The coefficients of the denominator.
    pub closed spec fn q(&self) -> Seq<T> {
        self.denominator@
    }

    /// Both parts have a coefficient, so that the quotient can be evaluated.
    pub open spec fn evaluable(&self) -> bool {
        self.p().len() > 0 && self.q().len() > 0
    }

    /// The quotient at `x`.
    pub open spec fn at(&self, x: T) -> T {
        rational_spec(self.p(), self.q(), x)
    }

    /// Create a rational polynomial from numerator and denominator coefficients.
    ///
    /// Both are lowest-degree-first. The denominator's last element should be 1
    /// (monic convention).
    #[must_use]
    pub fn new(numerator: Vec<T>, denominator: Vec<T>) -> (r: Self)
        ensures
            r.p() == numerator@,
            r.q() == denominator@,
    {
        RationalPolynomial { numerator, denominator }
    }

    /// Evaluate `P(x)/Q(x)` using Horner's method.
    #[must_use]
    pub fn y(&self, x: T) -> (r: T)
        requires
            self.evaluable(),
        ensures
            r == self.at(x),
    {
        horner(self.numerator.as_slice(), x).div(horner(self.denominator.as_slice(), x))
    }

    /// Numerator coefficients (lowest-degree-first).
    #[must_use]
    pub fn numerator(&self) -> (r: &[T])
        ensures
            r@ == self.p(),
    {
        self.numerator.as_slice()
    }

    /// Denominator coefficients (lowest-degree-first, last = 1).
    #[must_use]
    pub fn denominator(&self) -> (r: &[T])
        ensures
            r@ == self.q(),
    {
        self.denominator.as_slice()
    }

    /// Numerator and denominator as a pair.
    #[must_use]
    pub fn coefficients(&self) -> (r: (&[T], &[T]))
        ensures
            r.0@ == self.p(),
            r.1@ == self.q(),
    {
        (self.numerator.as_slice(), self.denominator.as_slice())
    }

    /// Numerator degree.
    #[must_use]
    pub fn numerator_degree(&self) -> (r: usize)
        ensures
            r == if self.p().len() == 0 {
                0
            } else {
                self.p().len() - 1
            },
    {
        self.numerator.len().saturating_sub(1)
    }

    /// Denominator degree.
    #[must_use]
    pub fn denominator_degree(&self) -> (r: usize)
        ensures
            r == if self.q().len() == 0 {
                0
            } else {
                self.q().len() - 1
            },
    {
        self.denominator.len().saturating_sub(1)
    }

    /// Adjust the numerator constant term (`p[0]`) so that `P(x)/Q(x) = y`.
    ///
    /// This is a post-hoc boundary snap: after fitting unconstrained for best
    /// overall accuracy, call this to nail the piecewise join point. Since `p[0]`
    /// is a DC offset, the perturbation has minimal impact on accuracy elsewhere.
    pub fn snap_boundary(&mut self, x: T, y: T)
        requires
            old(self).evaluable(),
        ensures
            final(self).p() == snapped(old(self).p(), old(self).q(), x, y),
            final(self).q() == old(self).q(),
    {
        // P(x) = p[0] + x * (p[1] + x * (p[2] + ...))
        // We want P(x)/Q(x) = y  =>  p[0] = y * Q(x) - x * horner(p[1..], x)
        let q_at_x = horner(self.denominator.as_slice(), x);
        let p_rest = if self.numerator.len() > 1 {
            let rest = slice_subrange(self.numerator.as_slice(), 1, self.numerator.len());
            assert(rest@ =~= self.numerator@.drop_first());
            x.mul(horner(rest, x))
        } else {
            T::zero()
        };
        let p0 = y.mul(q_at_x).sub(p_rest);
        self.numerator.set(0, p0);
    }

    /// The quotient as text: `(p0 + p1*x + ...) / (q0 + q1*x + ...)`.
    pub fn to_text(&self) -> (r: String)
        ensures
            r@ == rational_text(self.p(), self.q()),
    {
        let mut out = String::new();
        out.append("(");
        write_poly_terms(&mut out, self.numerator.as_slice());
        out.append(") / (");
        write_poly_terms(&mut out, self.denominator.as_slice());
        out.append(")");
        assert(out@ =~= rational_text(self.p(), self.q()));
        out
    }
}

impl<T: Value> Clone for RationalPolynomial<T> {
    fn clone(&self) -> (r: Self)
        ensures
            r.p() == self.p(),
            r.q() == self.q(),
    {
        RationalPolynomial {
            numerator: copied(self.numerator.as_slice()),
            denominator: copied(self.denominator.as_slice()),
        }
    }
}

/// One term of a polynomial: the coefficient in scientific notation with six
/// digits, then the power of `x`, which is left out at degree 0.
pub open spec fn term_text<T: Value>(c: T, degree: nat) -> Seq<char> {
    if degree == 0 {
        c.exp_text(6)
    } else if degree == 1 {
        c.exp_text(6) + "*x"@
    } else {
        c.exp_text(6) + "*x^"@ + decimal(degree)
    }
}

/// The terms of a polynomial, lowest degree first, joined by plus signs.
pub open spec fn terms_text<T: Value>(c: Seq<T>) -> Seq<char>
    decreases c.len(),
{
    if c.len() == 0 {
        Seq::empty()
    } else if c.len() == 1 {
        term_text(c[0], 0)
    } else {
        terms_text(c.drop_last()) + " + "@ + term_text(c.last(), (c.len() - 1) as nat)
    }
}

/// The text of `P(x)/Q(x)`.
pub open spec fn rational_text<T: Value>(p: Seq<T>, q: Seq<T>) -> Seq<char> {
    "("@ + terms_text(p) + ") / ("@ + terms_text(q) + ")"@
}

/// Appends the terms of a polynomial.
pub fn write_poly_terms<T: Value>(out: &mut String, coeffs: &[T])
    ensures
        final(out)@ == old(out)@ + terms_text(coeffs@),
{
    let mut i: usize = 0;
    assert(out@ =~= old(out)@ + terms_text(coeffs@.take(0)));
    while i < coeffs.len()
        invariant
            i <= coeffs.len(),
            out@ == old(out)@ + terms_text(coeffs@.take(i as int)),
        decreases coeffs.len() - i,
    {
        let ghost before = terms_text(coeffs@.take(i as int));
        if i > 0 {
            out.append(" + ");
        }
        let c = coeffs[i];
        out.append(c.to_exp(6).as_str());
        if i == 1 {
            out.append("*x");
        } else if i > 1 {
            out.append("*x^");
            append_decimal(out, i as u64);
        }
        proof {
            let after = coeffs@.take(i + 1);
            assert(after.drop_last() =~= coeffs@.take(i as int));
            assert(after.last() == c);
            assert(out@ =~= old(out)@ + terms_text(after));
        }
        i = i + 1;
    }
    assert(coeffs@.take(coeffs@.len() as int) =~= coeffs@);
}

} // verus!
