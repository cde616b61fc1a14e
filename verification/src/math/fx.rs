//! `Fx32`: a 20.12 signed fixed-point scalar, the number format of the DS
//! Geometry Engine.
//!
//! Addition, subtraction and negation wrap. A product is formed in 64 bits,
//! rounded down to 20.12 and keeps its low 32 bits. Division and square root
//! have the coprocessor's results (see [`crate::math::hw`]).

use crate::math::hw::{div_64_32, sqrt_u64, truncate32};
use crate::math::hw::{is_isqrt, isqrt, quotient, wrap32};
use vstd::prelude::*;

verus! {

/// Number of fractional bits in [`Fx32`].
pub const FRAC_BITS: u32 = 12;

/// The raw value of `1.0`.
pub const ONE_RAW: i32 = 4096;

/// 20.12 signed fixed-point scalar, held as its raw value: the number times 4096.
#[derive(Clone, Copy, Debug, PartialEq, Eq, PartialOrd, Ord, Hash, Structural)]
pub struct Fx32(pub i32);

/// The raw product of two raw 20.12 numbers.
pub open spec fn fx_mul(a: int, b: int) -> int {
    wrap32((a * b) / 4096)
}

/// The raw quotient of two raw 20.12 numbers.
pub open spec fn fx_div(a: int, b: int) -> int {
    quotient(a * 4096, b)
}

impl Fx32 {
    /// The raw value as a mathematical integer.
    pub open spec fn r(self) -> int {
        self.0 as int
    }

    /// `0.0`.
    pub fn zero() -> (x: Self)
        ensures
            x.0 == 0,
    {
        Fx32(0)
    }

    /// `1.0`.
    pub fn one() -> (x: Self)
        ensures
            x.0 == ONE_RAW,
    {
        Fx32(ONE_RAW)
    }

    /// `-1.0`.
    pub fn neg_one() -> (x: Self)
        ensures
            x.0 == -ONE_RAW,
    {
        Fx32(-ONE_RAW)
    }

    /// The smallest positive value.
    pub fn epsilon() -> (x: Self)
        ensures
            x.0 == 1,
    {
        Fx32(1)
    }

    /// Wrap a raw 20.12 value.
    pub fn from_raw(v: i32) -> (x: Self)
        ensures
            x.0 == v,
    {
        Fx32(v)
    }

    /// The underlying raw 20.12 value.
    pub fn raw(self) -> (v: i32)
        ensures
            v == self.0,
    {
        self.0
    }

    /// Promote a whole integer to 20.12. Bits shifted out at the top are lost.
    pub fn from_int(v: i32) -> (x: Self)
        ensures
            x.0 == wrap32(v * 4096),
            -0x8_0000 <= v < 0x8_0000 ==> x.0 == v * 4096,
    {
        Fx32(truncate32(v as i64 * 4096))
    }

    /// Integer part, rounded toward negative infinity.
    pub fn floor_i32(self) -> (v: i32)
        ensures
            v == self.0 as int / 4096,
    {
        let x: i32 = self.0;
        assert(x >> 12 == x as int / 4096) by (bit_vector);
        x >> FRAC_BITS
    }

    /// Absolute value. The most negative number is its own absolute value.
    pub fn abs(self) -> (x: Self)
        ensures
            x.0 == wrap32(vstd::math::abs(self.0 as int) as int),
            self.0 != i32::MIN ==> x.0 == vstd::math::abs(self.0 as int),
    {
        if self.0 < 0 {
            Fx32(0i32.wrapping_sub(self.0))
        } else {
            self
        }
    }

    /// Reciprocal `1 / self`; the largest number for `0`.
    pub fn recip(self) -> (x: Self)
        ensures
            x.0 == fx_div(4096, self.0 as int),
            self.0 == 0 ==> x.0 == i32::MAX,
    {
        Fx32::one() / self
    }

    /// Square root, rounded down to 20.12; zero for what is below zero.
    pub fn sqrt(self) -> (x: Self)
        ensures
            self.0 <= 0 ==> x.0 == 0,
            self.0 >= 0 ==> {
                &&& x.0 == isqrt((self.0 * 4096) as nat)
                &&& is_isqrt((self.0 * 4096) as nat, x.0 as nat)
            },
            0 <= x.0,
    {
        if self.0 < 0 {
            return Fx32(0);
        }
        let r: u32 = sqrt_u64(self.0 as u64 * 4096);
        assert(r <= 0x7FFF_FFFF) by (nonlinear_arith)
            requires
                r * r <= self.0 * 4096,
                self.0 <= 0x7FFF_FFFF,
        ;
        if self.0 == 0 {
            assert(r == 0) by (nonlinear_arith)
                requires
                    r * r <= 0,
            ;
        }
        Fx32(r as i32)
    }
}

impl Default for Fx32 {
    fn default() -> (x: Self)
        ensures
            x.0 == 0,
    {
        Fx32(0)
    }
}

impl core::ops::Add for Fx32 {
    type Output = Fx32;

    fn add(self, rhs: Fx32) -> (x: Fx32) {
        Fx32(self.0.wrapping_add(rhs.0))
    }
}

impl vstd::std_specs::ops::AddSpecImpl for Fx32 {
    open spec fn obeys_add_spec() -> bool {
        true
    }

    open spec fn add_req(self, rhs: Fx32) -> bool {
        true
    }

    open spec fn add_spec(self, rhs: Fx32) -> Fx32 {
        Fx32(wrap32(self.0 + rhs.0) as i32)
    }
}

impl core::ops::Sub for Fx32 {
    type Output = Fx32;

    fn sub(self, rhs: Fx32) -> (x: Fx32) {
        Fx32(self.0.wrapping_sub(rhs.0))
    }
}

impl vstd::std_specs::ops::SubSpecImpl for Fx32 {
    open spec fn obeys_sub_spec() -> bool {
        true
    }

    open spec fn sub_req(self, rhs: Fx32) -> bool {
        true
    }

    open spec fn sub_spec(self, rhs: Fx32) -> Fx32 {
        Fx32(wrap32(self.0 - rhs.0) as i32)
    }
}

impl core::ops::Neg for Fx32 {
    type Output = Fx32;

    fn neg(self) -> (x: Fx32) {
        Fx32(0i32.wrapping_sub(self.0))
    }
}

impl vstd::std_specs::ops::NegSpecImpl for Fx32 {
    open spec fn obeys_neg_spec() -> bool {
        true
    }

    open spec fn neg_req(self) -> bool {
        true
    }

    open spec fn neg_spec(self) -> Fx32 {
        Fx32(wrap32(-self.0) as i32)
    }
}

impl core::ops::Mul for Fx32 {
    type Output = Fx32;

    fn mul(self, rhs: Fx32) -> (x: Fx32) {
        let a: i64 = self.0 as i64;
        let b: i64 = rhs.0 as i64;
        proof {
            lemma_product_fits(self.0, rhs.0);
        }
        let p: i64 = a * b;
        assert(p >> 12 == p as int / 4096) by (bit_vector);
        Fx32(truncate32(p >> 12))
    }
}

impl vstd::std_specs::ops::MulSpecImpl for Fx32 {
    open spec fn obeys_mul_spec() -> bool {
        true
    }

    open spec fn mul_req(self, rhs: Fx32) -> bool {
        true
    }

    open spec fn mul_spec(self, rhs: Fx32) -> Fx32 {
        Fx32(fx_mul(self.0 as int, rhs.0 as int) as i32)
    }
}

impl core::ops::Div for Fx32 {
    type Output = Fx32;

    fn div(self, rhs: Fx32) -> (x: Fx32) {
        Fx32(div_64_32(self.0 as i64 * 4096, rhs.0))
    }
}

impl vstd::std_specs::ops::DivSpecImpl for Fx32 {
    open spec fn obeys_div_spec() -> bool {
        true
    }

    open spec fn div_req(self, rhs: Fx32) -> bool {
        true
    }

    open spec fn div_spec(self, rhs: Fx32) -> Fx32 {
        Fx32(fx_div(self.0 as int, rhs.0 as int) as i32)
    }
}

impl core::ops::AddAssign for Fx32 {
    fn add_assign(&mut self, rhs: Self)
        ensures
            final(self).0 == wrap32(old(self).0 + rhs.0),
    {
        self.0 = self.0.wrapping_add(rhs.0);
    }
}

impl core::ops::SubAssign for Fx32 {
    fn sub_assign(&mut self, rhs: Self)
        ensures
            final(self).0 == wrap32(old(self).0 - rhs.0),
    {
        self.0 = self.0.wrapping_sub(rhs.0);
    }
}

impl core::ops::MulAssign for Fx32 {
    fn mul_assign(&mut self, rhs: Self)
        ensures
            final(self).0 == fx_mul(old(self).0 as int, rhs.0 as int),
    {
        *self = *self * rhs;
    }
}

/// The product of two 32-bit numbers fits 64 bits.
pub proof fn lemma_product_fits(a: i32, b: i32)
    ensures
        -0x4000_0000_0000_0000 <= a * b <= 0x4000_0000_0000_0000,
{
    assert(-0x4000_0000_0000_0000 <= a * b <= 0x4000_0000_0000_0000) by (nonlinear_arith)
        requires
            -0x8000_0000 <= a <= 0x7FFF_FFFF,
            -0x8000_0000 <= b <= 0x7FFF_FFFF,
    ;
}

/// `1.0` is neutral for the product.
pub proof fn law_mul_by_one(a: Fx32)
    ensures
        fx_mul(a.r(), 4096) == a.r(),
        fx_mul(4096, a.r()) == a.r(),
{
    assert((a.r() * 4096) / 4096 == a.r());
}

/// The product does not depend on the order of its factors.
pub proof fn law_mul_commutes(a: Fx32, b: Fx32)
    ensures
        fx_mul(a.r(), b.r()) == fx_mul(b.r(), a.r()),
{
    assert(a.r() * b.r() == b.r() * a.r()) by (nonlinear_arith);
}

/// Subtracting what was added gives back the number, whether or not the sum
/// wrapped.
pub proof fn law_sub_undoes_add(a: Fx32, b: Fx32)
    ensures
        wrap32(wrap32(a.r() + b.r()) - b.r()) == a.r(),
{
}

/// Negating twice gives back the number.
pub proof fn law_neg_involutive(a: Fx32)
    ensures
        wrap32(-wrap32(-a.r())) == a.r(),
{
}

/// Dividing by `1.0` changes nothing.
pub proof fn law_div_by_one(a: Fx32)
    ensures
        fx_div(a.r(), 4096) == a.r(),
{
    let m = vstd::math::abs(a.r() * 4096) as int;
    assert(m / 4096 == vstd::math::abs(a.r()));
}

} // verus!
