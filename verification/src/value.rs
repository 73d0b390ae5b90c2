//! The numbers that are fitted and evaluated.
//!
//! Everything in this crate that computes with real numbers is generic over a
//! [`Value`]. A value type is a machine number, single or double precision, with
//! the operations that the fitter uses. What an operation returns is named by a
//! spec function of the trait; nothing else is known of it. No law of the real
//! numbers is assumed, so what is proved of the fitter holds of rounded
//! arithmetic, whatever the rounding.
use crate::single::F32;
use vstd::prelude::*;

verus! {

/// A number type for fitting and evaluation.
///
/// Each operation depends on its operands alone: every contract equates its
/// result with the spec function that names it. The equality does not tell one
/// result that is not a number from another.
///
/// A type that is implemented in ordinary Rust cannot define the names and leaves them at
/// their default. The default is not neutral: all names of one type then stand for one and
/// the same value, so that, taken literally, 0, 1 and `a + b` would be equal, and no
/// machine number meets that. No proof in this crate looks at the default. What is proved
/// of such a type is to be read with each name standing for what its operation returns.
pub trait Value: Copy {
    /// The number 0.
    open spec fn zero_spec() -> Self {
        arbitrary()
    }

    /// The number 1.
    open spec fn one_spec() -> Self {
        arbitrary()
    }

    /// The number 2.
    open spec fn two_spec() -> Self {
        arbitrary()
    }

    /// The number 1/2.
    open spec fn half_spec() -> Self {
        arbitrary()
    }

    /// Positive infinity.
    open spec fn infinity_spec() -> Self {
        arbitrary()
    }

    /// Negative infinity.
    open spec fn neg_infinity_spec() -> Self {
        arbitrary()
    }

    /// The machine epsilon.
    open spec fn epsilon_spec() -> Self {
        arbitrary()
    }

    /// The tolerance of approximate comparisons.
    open spec fn default_epsilon_spec() -> Self {
        arbitrary()
    }

    /// `self + rhs`.
    open spec fn add_spec(self, rhs: Self) -> Self {
        arbitrary()
    }

    /// `self - rhs`.
    open spec fn sub_spec(self, rhs: Self) -> Self {
        arbitrary()
    }

    /// `self * rhs`.
    open spec fn mul_spec(self, rhs: Self) -> Self {
        arbitrary()
    }

    /// `self / rhs`.
    open spec fn div_spec(self, rhs: Self) -> Self {
        arbitrary()
    }

    /// `-self`.
    open spec fn neg_spec(self) -> Self {
        arbitrary()
    }

    /// The absolute value.
    open spec fn abs_spec(self) -> Self {
        arbitrary()
    }

    /// The larger of the two.
    open spec fn max_spec(self, other: Self) -> Self {
        arbitrary()
    }

    /// The smaller of the two.
    open spec fn min_spec(self, other: Self) -> Self {
        arbitrary()
    }

    /// `self * a + b`, rounded once.
    open spec fn mul_add_spec(self, a: Self, b: Self) -> Self {
        arbitrary()
    }

    /// The square root.
    open spec fn sqrt_spec(self) -> Self {
        arbitrary()
    }

    /// The sine.
    open spec fn sin_spec(self) -> Self {
        arbitrary()
    }

    /// The cosine.
    open spec fn cos_spec(self) -> Self {
        arbitrary()
    }

    /// `self < other`.
    open spec fn lt_spec(self, other: Self) -> bool {
        arbitrary()
    }

    /// Not a number.
    open spec fn is_nan_spec(self) -> bool {
        arbitrary()
    }

    /// As good as 0.
    open spec fn is_near_zero_spec(self) -> bool {
        arbitrary()
    }

    /// A count as a value, if it has one.
    open spec fn try_cast_usize_spec(n: usize) -> Option<Self> {
        arbitrary()
    }

    /// The double precision number with these bits as a value, if it has one.
    open spec fn try_cast_f64_spec(bits: u64) -> Option<Self> {
        arbitrary()
    }

    /// The double precision number with these bits as the nearest value.
    open spec fn convert_f64_spec(bits: u64) -> Self {
        arbitrary()
    }

    /// An integer as the nearest value.
    open spec fn from_u64_spec(n: u64) -> Self {
        arbitrary()
    }

    /// A single precision number as a value.
    open spec fn from_f32_spec(v: F32) -> Self {
        arbitrary()
    }

    /// The value rounded to single precision.
    open spec fn to_f32_spec(self) -> F32 {
        arbitrary()
    }

    /// The bits of the value in double precision.
    open spec fn to_bits_spec(self) -> u64 {
        arbitrary()
    }

    /// The value in scientific notation with so many digits after the point.
    open spec fn exp_text(self, digits: nat) -> Seq<char> {
        arbitrary()
    }

    /// The value in plain notation with so many digits after the point.
    open spec fn fixed_text(self, digits: nat) -> Seq<char> {
        arbitrary()
    }

    /// The number 0.
    fn zero() -> (r: Self)
        ensures
            r == Self::zero_spec(),
    ;

    /// The number 1.
    fn one() -> (r: Self)
        ensures
            r == Self::one_spec(),
    ;

    /// The number 2.
    fn two() -> (r: Self)
        ensures
            r == Self::two_spec(),
    ;

    /// The number 1/2.
    fn half() -> (r: Self)
        ensures
            r == Self::half_spec(),
    ;

    /// Positive infinity.
    fn infinity() -> (r: Self)
        ensures
            r == Self::infinity_spec(),
    ;

    /// Negative infinity.
    fn neg_infinity() -> (r: Self)
        ensures
            r == Self::neg_infinity_spec(),
    ;

    /// The machine epsilon: the gap between 1 and the next number.
    fn epsilon() -> (r: Self)
        ensures
            r == Self::epsilon_spec(),
    ;

    /// The tolerance that approximate comparisons use by default.
    fn default_epsilon() -> (r: Self)
        ensures
            r == Self::default_epsilon_spec(),
    ;

    /// `self + rhs`.
    fn add(self, rhs: Self) -> (r: Self)
        ensures
            r == self.add_spec(rhs),
    ;

    /// `self - rhs`.
    fn sub(self, rhs: Self) -> (r: Self)
        ensures
            r == self.sub_spec(rhs),
    ;

    /// `self * rhs`.
    fn mul(self, rhs: Self) -> (r: Self)
        ensures
            r == self.mul_spec(rhs),
    ;

    /// `self / rhs`.
    fn div(self, rhs: Self) -> (r: Self)
        ensures
            r == self.div_spec(rhs),
    ;

    /// `-self`.
    fn neg(self) -> (r: Self)
        ensures
            r == self.neg_spec(),
    ;

    /// The absolute value.
    fn abs(self) -> (r: Self)
        ensures
            r == self.abs_spec(),
    ;

    /// The larger of the two.
    fn max(self, other: Self) -> (r: Self)
        ensures
            r == self.max_spec(other),
    ;

    /// The smaller of the two.
    fn min(self, other: Self) -> (r: Self)
        ensures
            r == self.min_spec(other),
    ;

    /// `self * a + b`, rounded once.
    fn mul_add(self, a: Self, b: Self) -> (r: Self)
        ensures
            r == self.mul_add_spec(a, b),
    ;

    /// The square root, not a number if `self` is negative.
    fn sqrt(self) -> (r: Self)
        ensures
            r == self.sqrt_spec(),
    ;

    /// The sine.
    fn sin(self) -> (r: Self)
        ensures
            r == self.sin_spec(),
    ;

    /// The cosine.
    fn cos(self) -> (r: Self)
        ensures
            r == self.cos_spec(),
    ;

    /// `self < other`, false if either is not a number.
    fn lt(self, other: Self) -> (r: bool)
        ensures
            r == self.lt_spec(other),
    ;

    /// Whether this is not a number.
    fn is_nan(self) -> (r: bool)
        ensures
            r == self.is_nan_spec(),
    ;

    /// Whether the value is as good as 0, so that nothing should be divided by it.
    fn is_near_zero(self) -> (r: bool)
        ensures
            r == self.is_near_zero_spec(),
    ;

    /// A count as a value, `None` if it has none.
    fn try_cast_usize(n: usize) -> (r: Option<Self>)
        ensures
            r == Self::try_cast_usize_spec(n),
    ;

    /// The double precision number with these bits as a value, `None` if it has none.
    fn try_cast_f64(bits: u64) -> (r: Option<Self>)
        ensures
            r == Self::try_cast_f64_spec(bits),
    ;

    /// The double precision number with these bits as the nearest value.
    fn convert_f64(bits: u64) -> (r: Self)
        ensures
            r == Self::convert_f64_spec(bits),
    ;

    /// An integer as the nearest value.
    fn from_u64(n: u64) -> (r: Self)
        ensures
            r == Self::from_u64_spec(n),
    ;

    /// A single precision number as a value.
    fn from_f32(v: F32) -> (r: Self)
        ensures
            r == Self::from_f32_spec(v),
    ;

    /// The value rounded to single precision.
    fn to_f32(self) -> (r: F32)
        ensures
            r == self.to_f32_spec(),
    ;

    /// The bits of the value in double precision.
    fn to_bits(self) -> (r: u64)
        ensures
            r == self.to_bits_spec(),
    ;

    /// The value in scientific notation with so many digits after the point.
    fn to_exp(self, digits: usize) -> (r: String)
        ensures
            r@ == self.exp_text(digits as nat),
    ;

    /// The value in plain notation with so many digits after the point.
    fn to_fixed(self, digits: usize) -> (r: String)
        ensures
            r@ == self.fixed_text(digits as nat),
    ;
}

/// The double precision number with these bits as a value, or `fallback` if it
/// has none.
pub open spec fn cast_or<T: Value>(bits: u64, fallback: T) -> T {
    match T::try_cast_f64_spec(bits) {
        Some(v) => v,
        None => fallback,
    }
}

/// The double precision number with these bits as a value, or `fallback` if it
/// has none.
pub fn try_cast_or<T: Value>(bits: u64, fallback: T) -> (r: T)
    ensures
        r == cast_or(bits, fallback),
{
    match T::try_cast_f64(bits) {
        Some(v) => v,
        None => fallback,
    }
}

/// A count as a value, or `fallback` if it has none.
pub open spec fn count_or<T: Value>(n: usize, fallback: T) -> T {
    match T::try_cast_usize_spec(n) {
        Some(v) => v,
        None => fallback,
    }
}

/// A count as a value, or `fallback` if it has none.
pub fn try_count_or<T: Value>(n: usize, fallback: T) -> (r: T)
    ensures
        r == count_or(n, fallback),
{
    match T::try_cast_usize(n) {
        Some(v) => v,
        None => fallback,
    }
}

/// A slice as a vector.
pub fn copied<T: Copy>(s: &[T]) -> (r: Vec<T>)
    ensures
        r@ == s@,
{
    let mut r: Vec<T> = Vec::new();
    let mut i: usize = 0;
    while i < s.len()
        invariant
            i <= s.len(),
            r@ == s@.take(i as int),
        decreases s.len() - i,
    {
        r.push(s[i]);
        assert(s@.take(i as int).push(s@[i as int]) =~= s@.take(i as int + 1));
        i = i + 1;
    }
    assert(s@.take(s@.len() as int) =~= s@);
    r
}

/// `n` copies of a value.
pub fn filled<T: Copy>(n: usize, v: T) -> (r: Vec<T>)
    ensures
        r@ == Seq::new(n as nat, |i: int| v),
{
    let mut r: Vec<T> = Vec::new();
    let mut i: usize = 0;
    while i < n
        invariant
            i <= n,
            r@ == Seq::new(i as nat, |k: int| v),
        decreases n - i,
    {
        r.push(v);
        assert(r@ =~= Seq::new((i + 1) as nat, |k: int| v));
        i = i + 1;
    }
    r
}

} // verus!
