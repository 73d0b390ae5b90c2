//! Products and quotients of real numbers.
//!
//! A solver takes a product of two unknowns for an invitation to search. [`times`] and
//! [`over`] are kept from it: proofs use the rules below, one at a time.
use vstd::prelude::*;

verus! {

/// The product `a * b`.
#[verifier::opaque]
pub open spec fn times(a: real, b: real) -> real {
    a * b
}

/// The quotient `a / b`.
#[verifier::opaque]
pub open spec fn over(a: real, b: real) -> real {
    a / b
}

pub proof fn lemma_commute(a: real, b: real)
    ensures
        times(a, b) == times(b, a),
{
    reveal(times);
    assert(a * b == b * a) by (nonlinear_arith);
}

pub proof fn lemma_associate(a: real, b: real, c: real)
    ensures
        times(times(a, b), c) == times(a, times(b, c)),
{
    reveal(times);
    assert((a * b) * c == a * (b * c)) by (nonlinear_arith);
}

pub proof fn lemma_distribute(a: real, b: real, c: real)
    ensures
        times(a, b + c) == times(a, b) + times(a, c),
{
    reveal(times);
    assert(a * (b + c) == a * b + a * c) by (nonlinear_arith);
}

pub proof fn lemma_distribute_difference(a: real, b: real, c: real)
    ensures
        times(a, b - c) == times(a, b) - times(a, c),
{
    reveal(times);
    assert(a * (b - c) == a * b - a * c) by (nonlinear_arith);
}

pub proof fn lemma_negate(a: real, b: real)
    ensures
        times(-a, b) == -times(a, b),
{
    reveal(times);
    assert((-a) * b == -(a * b)) by (nonlinear_arith);
}

pub proof fn lemma_one(a: real)
    ensures
        times(a, 1 as real) == a,
        times(1 as real, a) == a,
{
    reveal(times);
    assert(a * (1 as real) == a) by (nonlinear_arith);
    assert((1 as real) * a == a) by (nonlinear_arith);
}

pub proof fn lemma_zero(a: real)
    ensures
        times(a, 0 as real) == 0 as real,
        times(0 as real, a) == 0 as real,
{
    reveal(times);
    assert(a * (0 as real) == 0 as real) by (nonlinear_arith);
    assert((0 as real) * a == 0 as real) by (nonlinear_arith);
}

pub proof fn lemma_nonnegative(a: real, b: real)
    requires
        a >= 0 as real,
        b >= 0 as real,
    ensures
        times(a, b) >= 0 as real,
{
    reveal(times);
    assert(a * b >= 0 as real) by (nonlinear_arith)
        requires
            a >= 0 as real,
            b >= 0 as real,
    ;
}

pub proof fn lemma_nonzero_square(a: real)
    requires
        a != 0 as real,
    ensures
        times(a, a) != 0 as real,
{
    reveal(times);
    assert(a * a != 0 as real) by (nonlinear_arith)
        requires
            a != 0 as real,
    ;
}

/// A square is not negative, and does not see the sign.
pub proof fn lemma_square(a: real)
    ensures
        times(a, a) >= 0 as real,
        times(-a, -a) == times(a, a),
{
    lemma_negate(a, -a);
    lemma_commute(a, -a);
    lemma_negate(a, a);
    if a >= 0 as real {
        lemma_nonnegative(a, a);
    } else {
        lemma_nonnegative(-a, -a);
    }
}

/// What is divided by `d` and multiplied with it comes back.
pub proof fn lemma_over_times(a: real, d: real)
    requires
        d != 0 as real,
    ensures
        times(over(a, d), d) == a,
{
    reveal(times);
    reveal(over);
    let q = a / d;
    assert(q * d == a) by (nonlinear_arith)
        requires
            d != 0 as real,
            q == a / d,
    ;
}

/// A factor is known by its product with what is not zero.
pub proof fn lemma_cancel(a: real, b: real, d: real)
    requires
        d != 0 as real,
        times(a, d) == times(b, d),
    ensures
        a == b,
{
    let r = over(1 as real, d);
    lemma_over_times(1 as real, d);
    lemma_commute(r, d);
    lemma_associate(a, d, r);
    lemma_associate(b, d, r);
    lemma_one(a);
    lemma_one(b);
}

/// What is multiplied with `d` and divided by it comes back.
pub proof fn lemma_times_over(a: real, d: real)
    requires
        d != 0 as real,
    ensures
        over(times(a, d), d) == a,
{
    lemma_over_times(times(a, d), d);
    lemma_cancel(over(times(a, d), d), a, d);
}

/// Dividing is multiplying with the reciprocal.
pub proof fn lemma_over_is_times(a: real, d: real)
    requires
        d != 0 as real,
    ensures
        over(a, d) == times(a, over(1 as real, d)),
{
    let r = over(1 as real, d);
    lemma_over_times(a, d);
    lemma_over_times(1 as real, d);
    lemma_associate(a, r, d);
    lemma_one(a);
    lemma_cancel(over(a, d), times(a, r), d);
}

/// A quotient of what is not negative is not negative.
pub proof fn lemma_over_nonnegative(a: real, d: real)
    requires
        a >= 0 as real,
        d > 0 as real,
    ensures
        over(a, d) >= 0 as real,
{
    let q = over(a, d);
    lemma_over_times(a, d);
    if q < 0 as real {
        lemma_nonnegative(-q, d);
        lemma_negate(q, d);
        lemma_zero(d);
        assert(a == 0 as real);
        lemma_cancel(q, 0 as real, d);
    }
}

/// Nothing divided is nothing.
pub proof fn lemma_over_zero(d: real)
    requires
        d != 0 as real,
    ensures
        over(0 as real, d) == 0 as real,
{
    lemma_over_is_times(0 as real, d);
    lemma_zero(over(1 as real, d));
}

pub proof fn lemma_swap(a: real, b: real, c: real)
    ensures
        times(a, times(b, c)) == times(b, times(a, c)),
{
    lemma_associate(a, b, c);
    lemma_commute(a, b);
    lemma_associate(b, a, c);
}

/// The square of a product is the product of the squares.
pub proof fn lemma_square_of_product(a: real, b: real)
    ensures
        times(times(a, b), times(a, b)) == times(times(a, a), times(b, b)),
{
    lemma_associate(a, b, times(a, b));
    lemma_swap(b, a, b);
    lemma_associate(a, a, times(b, b));
}

/// Dividing by a square is dividing twice.
pub proof fn lemma_square_of_reciprocal(a: real, s: real)
    requires
        a != 0 as real,
    ensures
        times(times(over(1 as real, a), over(1 as real, a)), s) == over(s, times(a, a)),
{
    let r = over(1 as real, a);
    let d = times(a, a);
    let t = over(1 as real, d);
    lemma_nonzero_square(a);
    lemma_over_times(1 as real, a);
    lemma_over_times(1 as real, d);
    lemma_square_of_product(r, a);
    lemma_one(1 as real);
    lemma_cancel(times(r, r), t, d);
    lemma_over_is_times(s, d);
    lemma_commute(s, t);
}

/// `f*(n/d - y)` is linear in `n`.
pub proof fn lemma_numerator_change(f: real, y: real, n: real, m: real, d: real, g: real, x: real)
    requires
        d != 0 as real,
        m == n + times(g, x),
    ensures
        times(f, over(m, d) - y) - times(f, over(n, d) - y) == times(
            g,
            times(times(f, x), over(1 as real, d)),
        ),
{
    let i = over(1 as real, d);
    let gx = times(g, x);
    lemma_over_is_times(n, d);
    lemma_over_is_times(m, d);
    lemma_commute(m, i);
    lemma_commute(n, i);
    lemma_distribute(i, n, gx);
    lemma_distribute_difference(f, times(i, m), y);
    lemma_distribute_difference(f, times(i, n), y);
    lemma_distribute(f, times(i, n), times(i, gx));
    lemma_swap(i, g, x);
    lemma_commute(i, x);
    lemma_swap(f, g, times(x, i));
    lemma_associate(f, x, i);
}

/// How `f*(n/d - y)` changes with `d`.
pub proof fn lemma_denominator_change(
    f: real,
    y: real,
    n: real,
    d: real,
    c: real,
    g: real,
    x: real,
)
    requires
        d != 0 as real,
        c != 0 as real,
        c == d + times(g, x),
    ensures
        times(times(f, over(n, c) - y) - times(f, over(n, d) - y), c) == times(
            times(g, times(times(times(-f, over(n, d)), x), over(1 as real, d))),
            d,
        ),
{
    let a = over(n, d);
    let b = over(n, c);
    let i = over(1 as real, d);
    let gx = times(g, x);
    let fa = times(f, a);
    let fb = times(f, b);
    lemma_over_times(n, d);
    lemma_over_times(n, c);
    lemma_over_times(1 as real, d);
    // The left side is -f*(a*gx).
    lemma_distribute_difference(f, b, y);
    lemma_distribute_difference(f, a, y);
    lemma_commute(fb - fa, c);
    lemma_distribute_difference(c, fb, fa);
    lemma_commute(c, fb);
    lemma_commute(c, fa);
    lemma_associate(f, b, c);
    lemma_associate(f, a, c);
    lemma_distribute(a, d, gx);
    lemma_distribute(f, n, times(a, gx));
    // So is the right side.
    let m = times(-f, a);
    let e = times(times(m, x), i);
    lemma_associate(g, e, d);
    lemma_associate(times(m, x), i, d);
    lemma_one(times(m, x));
    lemma_swap(g, m, x);
    lemma_negate(f, a);
    lemma_negate(fa, gx);
    lemma_associate(f, a, gx);
}

/// A part of an interval, from its middle.
pub proof fn lemma_node(a: real, b: real, h: real, t: real)
    requires
        h + h == 1 as real,
        -(1 as real) <= t <= 1 as real,
        a <= b,
    ensures
        a <= times(a + b, h) + times(times(b - a, h), t) <= b,
{
    let width = times(b - a, h);
    lemma_distribute(a + b, h, h);
    lemma_one(a + b);
    lemma_distribute(b - a, h, h);
    lemma_one(b - a);
    lemma_nonnegative(width, 1 as real - t);
    lemma_distribute_difference(width, 1 as real, t);
    lemma_nonnegative(width, 1 as real + t);
    lemma_distribute(width, 1 as real, t);
    lemma_one(width);
}

/// `c*(1 + p*s)` is near `c`.
pub proof fn lemma_perturbation(c: real, p: real, s: real, size: real)
    requires
        p >= 0 as real,
        -(1 as real) <= s <= 1 as real,
        size == if c < 0 as real {
            -c
        } else {
            c
        },
    ensures
        -times(p, size) <= times(c, 1 as real + times(p, s)) - c <= times(p, size),
{
    let d = times(p, s);
    lemma_nonnegative(p, 1 as real - s);
    lemma_distribute_difference(p, 1 as real, s);
    lemma_nonnegative(p, 1 as real + s);
    lemma_distribute(p, 1 as real, s);
    lemma_one(p);
    lemma_distribute(c, 1 as real, d);
    lemma_one(c);
    lemma_nonnegative(size, p - d);
    lemma_nonnegative(size, p + d);
    lemma_distribute_difference(size, p, d);
    lemma_distribute(size, p, d);
    lemma_commute(size, p);
    lemma_negate(c, d);
}

} // verus!
