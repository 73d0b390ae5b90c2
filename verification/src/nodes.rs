//! Chebyshev-spaced sample points.
use crate::value::{cast_or, count_or, try_cast_or, try_count_or, Value};
use vstd::prelude::*;

verus! {

/// The number pi.
pub const PI: u64 = 0x4009_21fb_5444_2d18;

/// The `k`-th of `n` Chebyshev nodes between `a` and `b`: the projection on the
/// interval of a point on the half circle above it.
pub open spec fn chebyshev_node<T: Value>(k: int, n: usize, a: T, b: T) -> T {
    let center = a.add_spec(b).mul_spec(T::half_spec());
    let half_width = b.sub_spec(a).mul_spec(T::half_spec());
    let theta = cast_or(PI, T::zero_spec()).mul_spec(
        count_or((2 * k + 1) as usize, T::zero_spec()),
    ).div_spec(count_or((2 * n) as usize, T::one_spec()));
    center.add_spec(half_width.mul_spec(theta.cos_spec()))
}

/// Generate n Chebyshev-spaced nodes on \[a, b\].
///
/// Chebyshev nodes cluster near endpoints, reducing Runge's phenomenon and
/// improving conditioning for polynomial fitting.
pub fn chebyshev_nodes<T: Value>(n: usize, a: T, b: T) -> (r: Vec<T>)
    requires
        2 * n <= usize::MAX,
    ensures
        r@ == Seq::new(n as nat, |k: int| chebyshev_node(k, n, a, b)),
{
    let pi = try_cast_or(PI, T::zero());
    let two_n = try_count_or(2 * n, T::one());
    let half = T::half();
    let center = a.add(b).mul(half);
    let half_width = b.sub(a).mul(half);
    let mut r: Vec<T> = Vec::new();
    let mut k: usize = 0;
    while k < n
        invariant
            2 * n <= usize::MAX,
            k <= n,
            pi == cast_or(PI, T::zero_spec()),
            two_n == count_or((2 * n) as usize, T::one_spec()),
            center == a.add_spec(b).mul_spec(T::half_spec()),
            half_width == b.sub_spec(a).mul_spec(T::half_spec()),
            r@ == Seq::new(k as nat, |i: int| chebyshev_node(i, n, a, b)),
        decreases n - k,
    {
        let k_t = try_count_or(2 * k + 1, T::zero());
        let theta = pi.mul(k_t).div(two_n);
        r.push(center.add(half_width.mul(theta.cos())));
        k = k + 1;
        assert(r@ =~= Seq::new(k as nat, |i: int| chebyshev_node(i, n, a, b)));
    }
    r
}

} // verus!
