//! Single-precision floats held by their bit patterns.
//!
//! The baked formats store floats as raw little-endian words. Nothing here does
//! float arithmetic: a value is carried, negated and compared by its bits.

use vstd::prelude::*;

verus! {

/// An IEEE 754 single-precision float, by its bit pattern.
#[derive(Clone, Copy, Debug, PartialEq, Eq, Structural)]
pub struct F32Bits(pub u32);

/// The bit pattern of `0.0`.
pub const F32_ZERO: u32 = 0;

/// The bit pattern of `1.0`.
pub const F32_ONE: u32 = 0x3f80_0000;

/// The sign bit.
pub const F32_SIGN: u32 = 0x8000_0000;

/// The bit pattern of infinity: every larger magnitude is a NaN.
pub const F32_INFINITY: u32 = 0x7f80_0000;

impl F32Bits {
    /// The bits without the sign.
    pub open spec fn magnitude(self) -> int {
        if self.0 >= F32_SIGN {
            self.0 - F32_SIGN
        } else {
            self.0 as int
        }
    }

    /// Is this no number?
    pub open spec fn is_nan(self) -> bool {
        self.magnitude() > F32_INFINITY
    }

    /// An integer that orders the numbers as their float values are ordered;
    /// both zeros have the same.
    pub open spec fn rank(self) -> int {
        if self.0 >= F32_SIGN {
            -self.magnitude()
        } else {
            self.magnitude()
        }
    }

    /// Is `self >= other`, as floats?
    pub open spec fn at_least(self, other: F32Bits) -> bool {
        !self.is_nan() && !other.is_nan() && self.rank() >= other.rank()
    }

    /// The value with the other sign.
    pub open spec fn negated(self) -> F32Bits {
        if self.0 >= F32_SIGN {
            F32Bits((self.0 - F32_SIGN) as u32)
        } else {
            F32Bits((self.0 + F32_SIGN) as u32)
        }
    }

    /// The two values cancel: one is the other with the other sign, or both are zero.
    pub open spec fn opposes(self, other: F32Bits) -> bool {
        other == self.negated() || (self.magnitude() == 0 && other.magnitude() == 0)
    }

    /// `0.0`.
    pub fn zero() -> (r: Self)
        ensures
            r == F32Bits(F32_ZERO),
    {
        F32Bits(F32_ZERO)
    }

    /// `1.0`.
    pub fn one() -> (r: Self)
        ensures
            r == F32Bits(F32_ONE),
    {
        F32Bits(F32_ONE)
    }

    /// The value with the other sign.
    pub fn negate(self) -> (r: Self)
        ensures
            r == self.negated(),
    {
        if self.0 >= F32_SIGN {
            F32Bits(self.0 - F32_SIGN)
        } else {
            F32Bits(self.0 + F32_SIGN)
        }
    }

    /// Compare two floats; a NaN is at least nothing.
    pub fn ge(self, other: F32Bits) -> (r: bool)
        ensures
            r == self.at_least(other),
    {
        let a: u32 = if self.0 >= F32_SIGN {
            self.0 - F32_SIGN
        } else {
            self.0
        };
        let b: u32 = if other.0 >= F32_SIGN {
            other.0 - F32_SIGN
        } else {
            other.0
        };
        if a > F32_INFINITY || b > F32_INFINITY {
            return false;
        }
        if self.0 >= F32_SIGN {
            if other.0 >= F32_SIGN {
                a <= b
            } else {
                a == 0 && b == 0
            }
        } else {
            if other.0 >= F32_SIGN {
                true
            } else {
                a >= b
            }
        }
    }
}

/// Negating twice gives the value back.
pub proof fn law_negate_twice(v: F32Bits)
    ensures
        v.negated().negated() == v,
{
}

/// On numbers the comparison is total, and a NaN compares with nothing.
pub proof fn law_order_is_total_on_numbers(a: F32Bits, b: F32Bits)
    ensures
        !a.is_nan() && !b.is_nan() ==> a.at_least(b) || b.at_least(a),
        a.is_nan() ==> !a.at_least(b) && !b.at_least(a),
{
}

} // verus!
