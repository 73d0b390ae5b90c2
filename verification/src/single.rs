//! Single precision numbers as bit patterns.
//!
//! An [`F32`] holds the 32 bits of an IEEE 754 `binary32` number: one sign bit,
//! eight exponent bits, 23 mantissa bits. Comparing two numbers, stepping to a
//! neighbour and counting the numbers in between are questions about the bits
//! alone, and this module answers them without any arithmetic on the numbers.
//!
//! The model is the *ordinal*: the numbers in their order, numbered so that both
//! zeros are number 0, the smallest positive number is number 1 and the largest
//! negative one is number -1.
use vstd::prelude::*;

verus! {

/// The weight of the sign bit.
pub const SIGN_BIT: u32 = 0x8000_0000;

/// The bits of positive infinity.
pub const INFINITY_BITS: u32 = 0x7f80_0000;

/// The bits of the largest finite number.
pub const MAX_BITS: u32 = 0x7f7f_ffff;

/// A single precision number, given by its bits.
#[derive(Debug, Clone, Copy)]
pub struct F32 {
    pub bits: u32,
}

impl F32 {
    /// The place of the number among all numbers, both zeros at 0.
    pub open spec fn ordinal(self) -> int {
        if self.bits < SIGN_BIT {
            self.bits as int
        } else {
            SIGN_BIT - self.bits
        }
    }

    /// Not a number: the exponent is all ones and the mantissa is not zero.
    pub open spec fn nan(self) -> bool {
        self.ordinal() > INFINITY_BITS || self.ordinal() < -INFINITY_BITS
    }

    /// `self < other` as numbers.
    pub open spec fn less(self, other: F32) -> bool {
        !self.nan() && !other.nan() && self.ordinal() < other.ordinal()
    }

    /// `self <= other` as numbers.
    pub open spec fn at_most(self, other: F32) -> bool {
        !self.nan() && !other.nan() && self.ordinal() <= other.ordinal()
    }

    /// `self == other` as numbers.
    pub open spec fn same(self, other: F32) -> bool {
        !self.nan() && !other.nan() && self.ordinal() == other.ordinal()
    }

    /// The number with the given bits.
    pub fn from_bits(bits: u32) -> (r: F32)
        ensures
            r.bits == bits,
    {
        F32 { bits }
    }

    /// The bits of the number.
    pub fn to_bits(self) -> (r: u32)
        ensures
            r == self.bits,
    {
        self.bits
    }

    /// The ordinal, computed.
    pub fn to_ordinal(self) -> (r: i64)
        ensures
            r == self.ordinal(),
    {
        if self.bits < SIGN_BIT {
            self.bits as i64
        } else {
            SIGN_BIT as i64 - self.bits as i64
        }
    }

    /// Whether this is not a number.
    pub fn is_nan(self) -> (r: bool)
        ensures
            r == self.nan(),
    {
        let o: i64 = self.to_ordinal();
        o > INFINITY_BITS as i64 || o < -(INFINITY_BITS as i64)
    }

    /// `self < other`, false if either is not a number.
    pub fn lt(self, other: F32) -> (r: bool)
        ensures
            r == self.less(other),
    {
        !self.is_nan() && !other.is_nan() && self.to_ordinal() < other.to_ordinal()
    }

    /// `self <= other`, false if either is not a number.
    pub fn le(self, other: F32) -> (r: bool)
        ensures
            r == self.at_most(other),
    {
        !self.is_nan() && !other.is_nan() && self.to_ordinal() <= other.to_ordinal()
    }

    /// `self == other`, true of the two zeros, false if either is not a number.
    pub fn equals(self, other: F32) -> (r: bool)
        ensures
            r == self.same(other),
    {
        !self.is_nan() && !other.is_nan() && self.to_ordinal() == other.to_ordinal()
    }
}

/// How many steps apart two numbers are, `u32::MAX` if either is not a number.
pub open spec fn ulp_distance_spec(a: F32, b: F32) -> int {
    if a.nan() || b.nan() {
        u32::MAX as int
    } else if a.ordinal() < b.ordinal() {
        b.ordinal() - a.ordinal()
    } else {
        a.ordinal() - b.ordinal()
    }
}

/// ULP distance between two numbers, handling sign correctly.
///
/// Negative numbers are mapped through zero, so that the integers compared are
/// monotonic across the entire range, sign crossings included.
pub fn f32_ulp_distance(a: F32, b: F32) -> (r: u32)
    ensures
        r == ulp_distance_spec(a, b),
{
    if a.equals(b) {
        return 0;
    }
    if a.is_nan() || b.is_nan() {
        return u32::MAX;
    }
    let ai: i64 = a.to_ordinal();
    let bi: i64 = b.to_ordinal();
    if ai < bi {
        (bi - ai) as u32
    } else {
        (ai - bi) as u32
    }
}

/// The number that follows `v`, or `v` itself at the end of the range.
pub open spec fn next_spec(v: F32) -> F32 {
    if v.nan() || v.ordinal() >= MAX_BITS {
        v
    } else {
        at_ordinal(v.ordinal() + 1)
    }
}

/// The number with the given ordinal; at 0, the negative zero.
pub open spec fn at_ordinal(o: int) -> F32 {
    if o > 0 {
        F32 { bits: o as u32 }
    } else {
        F32 { bits: (SIGN_BIT - o) as u32 }
    }
}

/// Next representable number toward positive infinity, handling negative values
/// correctly.
///
/// The largest finite number, positive infinity and what is not a number have no
/// next one and are handed back.
pub fn f32_next(v: F32) -> (r: F32)
    ensures
        r == next_spec(v),
{
    if v.is_nan() || v.to_ordinal() >= MAX_BITS as i64 {
        return v;
    }
    if v.to_ordinal() == 0 {
        return F32::from_bits(1);
    }
    if v.to_ordinal() > 0 {
        F32::from_bits(v.to_bits() + 1)
    } else {
        // Negative: decrement bit pattern to move toward zero
        F32::from_bits(v.to_bits() - 1)
    }
}

/// Where a nudge of `v` by `delta` ULPs leads in the order: away from zero where `delta`
/// is positive.
pub open spec fn nudged_ordinal(v: F32, delta: int) -> int {
    if v.bits < SIGN_BIT {
        v.ordinal() + delta
    } else {
        v.ordinal() - delta
    }
}

/// `v` moved by `delta` ULPs, past zero if need be; at zero it keeps its sign. Where
/// that leads past infinity, or `v` is not a number, `delta` is added to the bits, which
/// wrap around.
pub open spec fn nudge_spec(v: F32, delta: int) -> F32 {
    let m = nudged_ordinal(v, delta);
    if v.nan() || m < -INFINITY_BITS || m > INFINITY_BITS {
        F32 { bits: ((v.bits + delta) % 0x1_0000_0000) as u32 }
    } else if m > 0 || m == 0 && v.bits < SIGN_BIT {
        F32 { bits: m as u32 }
    } else {
        F32 { bits: (SIGN_BIT - m) as u32 }
    }
}

/// Nudge a number by `delta` ULPs, away from zero where `delta` is positive.
///
/// There is no number past infinity: a nudge that leads there, as one of what is not a
/// number, only adds to the bits.
pub fn f32_nudge(v: F32, delta: i32) -> (r: F32)
    ensures
        r == nudge_spec(v, delta as int),
        !v.nan() && -INFINITY_BITS <= nudged_ordinal(v, delta as int) <= INFINITY_BITS
            ==> r.ordinal() == nudged_ordinal(v, delta as int) && ulp_distance_spec(v, r) == (
        if delta < 0 {
            -delta
        } else {
            delta as int
        }),
{
    let m: i64 = if v.to_bits() < SIGN_BIT {
        v.to_ordinal() + delta as i64
    } else {
        v.to_ordinal() - delta as i64
    };
    if v.is_nan() || m < -(INFINITY_BITS as i64) || m > INFINITY_BITS as i64 {
        let sum: i64 = v.to_bits() as i64 + delta as i64;
        let modulus: i64 = 0x1_0000_0000;
        if sum < 0 {
            F32::from_bits((sum + modulus) as u32)
        } else if sum >= modulus {
            F32::from_bits((sum - modulus) as u32)
        } else {
            F32::from_bits(sum as u32)
        }
    } else if m > 0 || m == 0 && v.to_bits() < SIGN_BIT {
        F32::from_bits(m as u32)
    } else {
        F32::from_bits((SIGN_BIT as i64 - m) as u32)
    }
}

/// The number one ULP below `v`. What is not a number has 1 taken from its bits.
pub open spec fn below_spec(v: F32) -> F32 {
    if v.nan() {
        F32 { bits: (v.bits - 1) as u32 }
    } else {
        nudge_spec(
            v,
            if v.bits < SIGN_BIT {
                -1
            } else {
                1
            },
        )
    }
}

/// The number one ULP above `v`. What is not a number has 1 added to its bits.
pub open spec fn above_spec(v: F32) -> F32 {
    if v.nan() {
        F32 { bits: (v.bits + 1) as u32 }
    } else {
        nudge_spec(
            v,
            if v.bits < SIGN_BIT {
                1
            } else {
                -1
            },
        )
    }
}

/// A finite number.
pub open spec fn finite(v: F32) -> bool {
    -MAX_BITS <= v.ordinal() <= MAX_BITS
}

/// The number one ULP below, whatever the sign; below the largest negative number that
/// is negative infinity.
pub fn f32_below(v: F32) -> (r: F32)
    ensures
        r == below_spec(v),
        finite(v) ==> r.ordinal() == v.ordinal() - 1 && !r.nan(),
{
    if v.is_nan() {
        F32::from_bits(v.to_bits() - 1)
    } else if v.to_bits() < SIGN_BIT {
        f32_nudge(v, -1)
    } else {
        f32_nudge(v, 1)
    }
}

/// The number one ULP above, whatever the sign; above the largest number that is
/// positive infinity.
pub fn f32_above(v: F32) -> (r: F32)
    requires
        v.bits < u32::MAX,
    ensures
        r == above_spec(v),
        finite(v) ==> r.ordinal() == v.ordinal() + 1 && !r.nan(),
{
    if v.is_nan() {
        F32::from_bits(v.to_bits() + 1)
    } else if v.to_bits() < SIGN_BIT {
        f32_nudge(v, 1)
    } else {
        f32_nudge(v, -1)
    }
}

/// A step to the next number is a step to the number after it in the order:
/// nothing lies strictly in between, and the two are one ULP apart.
pub proof fn law_next_is_successor(v: F32, w: F32)
    requires
        !v.nan(),
        v.ordinal() < MAX_BITS,
    ensures
        v.less(next_spec(v)),
        next_spec(v).ordinal() == v.ordinal() + 1,
        ulp_distance_spec(v, next_spec(v)) == 1,
        !(v.less(w) && w.less(next_spec(v))),
{
}

/// The ULP distance of numbers is a distance: nonnegative, zero exactly between
/// numbers that compare equal, the same both ways, and no detour is shorter. It
/// stays below the answer given for what is not a number.
pub proof fn law_ulp_distance_is_metric(a: F32, b: F32, c: F32)
    ensures
        0 <= ulp_distance_spec(a, b) <= u32::MAX,
        ulp_distance_spec(a, b) == ulp_distance_spec(b, a),
        ulp_distance_spec(a, b) == 0 <==> a.same(b),
        ulp_distance_spec(a, b) == u32::MAX <==> a.nan() || b.nan(),
        !b.nan() ==> ulp_distance_spec(a, c) <= ulp_distance_spec(a, b) + ulp_distance_spec(b, c),
{
}

/// A nudge that does not lead past infinity moves a number by as many ULPs, past zero
/// too, and gives a number.
pub proof fn law_nudge_moves_by_delta(v: F32, delta: i32)
    requires
        !v.nan(),
        -INFINITY_BITS <= nudged_ordinal(v, delta as int) <= INFINITY_BITS,
    ensures
        !nudge_spec(v, delta as int).nan(),
        nudge_spec(v, delta as int).ordinal() == nudged_ordinal(v, delta as int),
        ulp_distance_spec(v, nudge_spec(v, delta as int)) == if delta < 0 {
            -(delta as int)
        } else {
            delta as int
        },
{
}

/// Nudging back undoes a nudge that stays on its side of zero: the two directions of a
/// nudge are away from zero and towards it, and swap where zero is passed. It also undoes
/// one that ends in what is not a number.
pub proof fn law_nudge_back(v: F32, delta: i32)
    requires
        nudge_spec(v, delta as int).nan() || !v.nan() && if v.bits < SIGN_BIT {
            0 <= nudged_ordinal(v, delta as int) <= INFINITY_BITS
        } else {
            -INFINITY_BITS <= nudged_ordinal(v, delta as int) <= 0
        },
    ensures
        nudge_spec(nudge_spec(v, delta as int), -delta as int) == v,
{
}

/// No nudge, no change.
pub proof fn law_nudge_by_nothing(v: F32)
    ensures
        nudge_spec(v, 0) == v,
{
}

} // verus!
