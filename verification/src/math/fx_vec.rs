//! 20.12 fixed-point vectors.

use crate::math::fx::{fx_mul, Fx32};
use crate::math::hw::{div_64_32, isqrt, lemma_isqrt_square, quotient, sqrt_u64, wrap32};
use vstd::prelude::*;

verus! {

/// 2D fixed-point vector.
#[derive(Clone, Copy, Debug, PartialEq, Eq, Structural)]
pub struct FxVec2 {
    pub x: Fx32,
    pub y: Fx32,
}

/// 3D fixed-point vector.
#[derive(Clone, Copy, Debug, PartialEq, Eq, Structural)]
pub struct FxVec3 {
    pub x: Fx32,
    pub y: Fx32,
    pub z: Fx32,
}

/// `|v|^2` over the raw components.
pub open spec fn length_sq2(v: FxVec2) -> nat {
    (v.x.r() * v.x.r() + v.y.r() * v.y.r()) as nat
}

/// `|v|^2` over the raw components.
pub open spec fn length_sq3(v: FxVec3) -> nat {
    (v.x.r() * v.x.r() + v.y.r() * v.y.r() + v.z.r() * v.z.r()) as nat
}

/// Raw length of a vector whose raw squared length is `sq`.
pub open spec fn length_raw(sq: nat) -> int {
    wrap32(isqrt(sq) as int)
}

/// The raw dot product, wrapped to 32 bits.
pub open spec fn dot2(a: FxVec2, b: FxVec2) -> int {
    wrap32(fx_mul(a.x.r(), b.x.r()) + fx_mul(a.y.r(), b.y.r()))
}

/// The raw dot product, wrapped to 32 bits.
pub open spec fn dot3(a: FxVec3, b: FxVec3) -> int {
    wrap32(fx_mul(a.x.r(), b.x.r()) + fx_mul(a.y.r(), b.y.r()) + fx_mul(a.z.r(), b.z.r()))
}

/// The sum of two vectors, each component wrapped.
pub open spec fn vec2_add(a: FxVec2, b: FxVec2) -> FxVec2 {
    FxVec2 {
        x: Fx32(wrap32(a.x.r() + b.x.r()) as i32),
        y: Fx32(wrap32(a.y.r() + b.y.r()) as i32),
    }
}

/// The difference of two vectors, each component wrapped.
pub open spec fn vec2_sub(a: FxVec2, b: FxVec2) -> FxVec2 {
    FxVec2 {
        x: Fx32(wrap32(a.x.r() - b.x.r()) as i32),
        y: Fx32(wrap32(a.y.r() - b.y.r()) as i32),
    }
}

/// A vector scaled by the raw factor `s`.
pub open spec fn vec2_scale(a: FxVec2, s: int) -> FxVec2 {
    FxVec2 { x: Fx32(fx_mul(a.x.r(), s) as i32), y: Fx32(fx_mul(a.y.r(), s) as i32) }
}

/// The unit vector in the direction of `v`, or zero.
pub open spec fn vec2_unit(v: FxVec2) -> FxVec2 {
    FxVec2 {
        x: Fx32(unit_component(v.x.r(), vec2_len(v)) as i32),
        y: Fx32(unit_component(v.y.r(), vec2_len(v)) as i32),
    }
}

/// The raw length of `v`.
pub open spec fn vec2_len(v: FxVec2) -> int {
    length_raw(length_sq2(v))
}

/// Component `c` of a vector of raw length `len`, after normalisation.
pub open spec fn unit_component(c: int, len: int) -> int {
    if len == 0 {
        0
    } else {
        quotient(c * 4096, len)
    }
}

/// The sum of two squares of 32-bit numbers is not negative and fits 64 bits
/// with room for a third.
pub proof fn lemma_square_bounds(a: int)
    requires
        i32::MIN <= a <= i32::MAX,
    ensures
        0 <= a * a <= 0x4000_0000_0000_0000,
{
    assert(0 <= a * a <= 0x4000_0000_0000_0000) by (nonlinear_arith)
        requires
            -0x8000_0000 <= a <= 0x7FFF_FFFF,
    ;
}

/// The square of a raw component.
fn square(v: Fx32) -> (r: u64)
    ensures
        r == v.r() * v.r(),
        r <= 0x4000_0000_0000_0000,
{
    proof {
        lemma_square_bounds(v.r());
    }
    let c: i64 = v.0 as i64;
    (c * c) as u64
}

/// The low 32 bits of an unsigned root, read as a raw length.
fn as_length(r: u32) -> (x: i32)
    ensures
        x == wrap32(r as int),
{
    crate::math::hw::truncate32(r as i64)
}

impl FxVec2 {
    /// The zero vector.
    pub fn zero() -> (v: Self)
        ensures
            v.x.0 == 0,
            v.y.0 == 0,
    {
        FxVec2 { x: Fx32(0), y: Fx32(0) }
    }

    pub fn new(x: Fx32, y: Fx32) -> (v: Self)
        ensures
            v.x == x,
            v.y == y,
    {
        FxVec2 { x, y }
    }

    pub fn dot(self, rhs: Self) -> (d: Fx32)
        ensures
            d.0 == dot2(self, rhs),
    {
        self.x * rhs.x + self.y * rhs.y
    }

    /// `|self|^2` over the raw components, without rounding.
    pub fn length_sq_raw_u64(self) -> (sq: u64)
        ensures
            sq == length_sq2(self),
    {
        square(self.x) + square(self.y)
    }

    /// `|self|`, rounded down to 20.12.
    pub fn length(self) -> (len: Fx32)
        ensures
            len.0 == vec2_len(self),
    {
        Fx32(as_length(sqrt_u64(self.length_sq_raw_u64())))
    }

    /// Unit vector in the direction of `self`; zero where the length is zero.
    pub fn normalize_or_zero(self) -> (v: Self)
        ensures
            v == vec2_unit(self),
    {
        let len: i32 = as_length(sqrt_u64(self.length_sq_raw_u64()));
        if len == 0 {
            return FxVec2::zero();
        }
        FxVec2 {
            x: Fx32(div_64_32(self.x.0 as i64 * 4096, len)),
            y: Fx32(div_64_32(self.y.0 as i64 * 4096, len)),
        }
    }
}

impl FxVec3 {
    /// The zero vector.
    pub fn zero() -> (v: Self)
        ensures
            v.x.0 == 0,
            v.y.0 == 0,
            v.z.0 == 0,
    {
        FxVec3 { x: Fx32(0), y: Fx32(0), z: Fx32(0) }
    }

    pub fn new(x: Fx32, y: Fx32, z: Fx32) -> (v: Self)
        ensures
            v.x == x,
            v.y == y,
            v.z == z,
    {
        FxVec3 { x, y, z }
    }

    pub fn dot(self, rhs: Self) -> (d: Fx32)
        ensures
            d.0 == dot3(self, rhs),
    {
        self.x * rhs.x + self.y * rhs.y + self.z * rhs.z
    }

    /// Cross product (right-handed).
    pub fn cross(self, rhs: Self) -> (v: Self)
        ensures
            v.x.0 == wrap32(fx_mul(self.y.r(), rhs.z.r()) - fx_mul(self.z.r(), rhs.y.r())),
            v.y.0 == wrap32(fx_mul(self.z.r(), rhs.x.r()) - fx_mul(self.x.r(), rhs.z.r())),
            v.z.0 == wrap32(fx_mul(self.x.r(), rhs.y.r()) - fx_mul(self.y.r(), rhs.x.r())),
    {
        FxVec3 {
            x: self.y * rhs.z - self.z * rhs.y,
            y: self.z * rhs.x - self.x * rhs.z,
            z: self.x * rhs.y - self.y * rhs.x,
        }
    }

    /// `|self|^2` over the raw components, without rounding.
    pub fn length_sq_raw_u64(self) -> (sq: u64)
        ensures
            sq == length_sq3(self),
    {
        square(self.x) + square(self.y) + square(self.z)
    }

    /// `|self|`, rounded down to 20.12.
    pub fn length(self) -> (len: Fx32)
        ensures
            len.0 == length_raw(length_sq3(self)),
    {
        Fx32(as_length(sqrt_u64(self.length_sq_raw_u64())))
    }

    /// Unit vector in the direction of `self`; zero where the length is zero.
    pub fn normalize_or_zero(self) -> (v: Self)
        ensures
            v.x.0 == unit_component(self.x.r(), length_raw(length_sq3(self))),
            v.y.0 == unit_component(self.y.r(), length_raw(length_sq3(self))),
            v.z.0 == unit_component(self.z.r(), length_raw(length_sq3(self))),
    {
        let len: i32 = as_length(sqrt_u64(self.length_sq_raw_u64()));
        if len == 0 {
            return FxVec3::zero();
        }
        FxVec3 {
            x: Fx32(div_64_32(self.x.0 as i64 * 4096, len)),
            y: Fx32(div_64_32(self.y.0 as i64 * 4096, len)),
            z: Fx32(div_64_32(self.z.0 as i64 * 4096, len)),
        }
    }
}

impl Default for FxVec2 {
    fn default() -> (v: Self)
        ensures
            v.x.0 == 0,
            v.y.0 == 0,
    {
        FxVec2::zero()
    }
}

impl Default for FxVec3 {
    fn default() -> (v: Self)
        ensures
            v.x.0 == 0,
            v.y.0 == 0,
            v.z.0 == 0,
    {
        FxVec3::zero()
    }
}

impl core::ops::Add for FxVec2 {
    type Output = FxVec2;

    fn add(self, rhs: FxVec2) -> (v: FxVec2) {
        FxVec2 { x: self.x + rhs.x, y: self.y + rhs.y }
    }
}

impl vstd::std_specs::ops::AddSpecImpl for FxVec2 {
    open spec fn obeys_add_spec() -> bool {
        true
    }

    open spec fn add_req(self, rhs: FxVec2) -> bool {
        true
    }

    open spec fn add_spec(self, rhs: FxVec2) -> FxVec2 {
        vec2_add(self, rhs)
    }
}

impl core::ops::AddAssign for FxVec2 {
    fn add_assign(&mut self, rhs: Self)
        ensures
            final(self).x.0 == wrap32(old(self).x.r() + rhs.x.r()),
            final(self).y.0 == wrap32(old(self).y.r() + rhs.y.r()),
    {
        *self = *self + rhs;
    }
}

impl core::ops::Sub for FxVec2 {
    type Output = FxVec2;

    fn sub(self, rhs: FxVec2) -> (v: FxVec2) {
        FxVec2 { x: self.x - rhs.x, y: self.y - rhs.y }
    }
}

impl vstd::std_specs::ops::SubSpecImpl for FxVec2 {
    open spec fn obeys_sub_spec() -> bool {
        true
    }

    open spec fn sub_req(self, rhs: FxVec2) -> bool {
        true
    }

    open spec fn sub_spec(self, rhs: FxVec2) -> FxVec2 {
        vec2_sub(self, rhs)
    }
}

impl core::ops::SubAssign for FxVec2 {
    fn sub_assign(&mut self, rhs: Self)
        ensures
            final(self).x.0 == wrap32(old(self).x.r() - rhs.x.r()),
            final(self).y.0 == wrap32(old(self).y.r() - rhs.y.r()),
    {
        *self = *self - rhs;
    }
}

impl core::ops::Neg for FxVec2 {
    type Output = FxVec2;

    fn neg(self) -> (v: FxVec2) {
        FxVec2 { x: Fx32(0) - self.x, y: Fx32(0) - self.y }
    }
}

impl vstd::std_specs::ops::NegSpecImpl for FxVec2 {
    open spec fn obeys_neg_spec() -> bool {
        true
    }

    open spec fn neg_req(self) -> bool {
        true
    }

    open spec fn neg_spec(self) -> FxVec2 {
        FxVec2 {
            x: Fx32(wrap32(-self.x.r()) as i32),
            y: Fx32(wrap32(-self.y.r()) as i32),
        }
    }
}

impl core::ops::Mul<Fx32> for FxVec2 {
    type Output = FxVec2;

    fn mul(self, rhs: Fx32) -> (v: FxVec2) {
        FxVec2 { x: self.x * rhs, y: self.y * rhs }
    }
}

impl vstd::std_specs::ops::MulSpecImpl<Fx32> for FxVec2 {
    open spec fn obeys_mul_spec() -> bool {
        true
    }

    open spec fn mul_req(self, rhs: Fx32) -> bool {
        true
    }

    open spec fn mul_spec(self, rhs: Fx32) -> FxVec2 {
        vec2_scale(self, rhs.r())
    }
}

impl core::ops::Add for FxVec3 {
    type Output = FxVec3;

    fn add(self, rhs: FxVec3) -> (v: FxVec3) {
        FxVec3 { x: self.x + rhs.x, y: self.y + rhs.y, z: self.z + rhs.z }
    }
}

impl vstd::std_specs::ops::AddSpecImpl for FxVec3 {
    open spec fn obeys_add_spec() -> bool {
        true
    }

    open spec fn add_req(self, rhs: FxVec3) -> bool {
        true
    }

    open spec fn add_spec(self, rhs: FxVec3) -> FxVec3 {
        FxVec3 {
            x: Fx32(wrap32(self.x.r() + rhs.x.r()) as i32),
            y: Fx32(wrap32(self.y.r() + rhs.y.r()) as i32),
            z: Fx32(wrap32(self.z.r() + rhs.z.r()) as i32),
        }
    }
}

impl core::ops::AddAssign for FxVec3 {
    fn add_assign(&mut self, rhs: Self)
        ensures
            final(self).x.0 == wrap32(old(self).x.r() + rhs.x.r()),
            final(self).y.0 == wrap32(old(self).y.r() + rhs.y.r()),
            final(self).z.0 == wrap32(old(self).z.r() + rhs.z.r()),
    {
        *self = *self + rhs;
    }
}

impl core::ops::Sub for FxVec3 {
    type Output = FxVec3;

    fn sub(self, rhs: FxVec3) -> (v: FxVec3) {
        FxVec3 { x: self.x - rhs.x, y: self.y - rhs.y, z: self.z - rhs.z }
    }
}

impl vstd::std_specs::ops::SubSpecImpl for FxVec3 {
    open spec fn obeys_sub_spec() -> bool {
        true
    }

    open spec fn sub_req(self, rhs: FxVec3) -> bool {
        true
    }

    open spec fn sub_spec(self, rhs: FxVec3) -> FxVec3 {
        FxVec3 {
            x: Fx32(wrap32(self.x.r() - rhs.x.r()) as i32),
            y: Fx32(wrap32(self.y.r() - rhs.y.r()) as i32),
            z: Fx32(wrap32(self.z.r() - rhs.z.r()) as i32),
        }
    }
}

impl core::ops::SubAssign for FxVec3 {
    fn sub_assign(&mut self, rhs: Self)
        ensures
            final(self).x.0 == wrap32(old(self).x.r() - rhs.x.r()),
            final(self).y.0 == wrap32(old(self).y.r() - rhs.y.r()),
            final(self).z.0 == wrap32(old(self).z.r() - rhs.z.r()),
    {
        *self = *self - rhs;
    }
}

impl core::ops::Neg for FxVec3 {
    type Output = FxVec3;

    fn neg(self) -> (v: FxVec3) {
        FxVec3 { x: Fx32(0) - self.x, y: Fx32(0) - self.y, z: Fx32(0) - self.z }
    }
}

impl vstd::std_specs::ops::NegSpecImpl for FxVec3 {
    open spec fn obeys_neg_spec() -> bool {
        true
    }

    open spec fn neg_req(self) -> bool {
        true
    }

    open spec fn neg_spec(self) -> FxVec3 {
        FxVec3 {
            x: Fx32(wrap32(-self.x.r()) as i32),
            y: Fx32(wrap32(-self.y.r()) as i32),
            z: Fx32(wrap32(-self.z.r()) as i32),
        }
    }
}

impl core::ops::Mul<Fx32> for FxVec3 {
    type Output = FxVec3;

    fn mul(self, rhs: Fx32) -> (v: FxVec3) {
        FxVec3 { x: self.x * rhs, y: self.y * rhs, z: self.z * rhs }
    }
}

impl vstd::std_specs::ops::MulSpecImpl<Fx32> for FxVec3 {
    open spec fn obeys_mul_spec() -> bool {
        true
    }

    open spec fn mul_req(self, rhs: Fx32) -> bool {
        true
    }

    open spec fn mul_spec(self, rhs: Fx32) -> FxVec3 {
        FxVec3 {
            x: Fx32(fx_mul(self.x.r(), rhs.r()) as i32),
            y: Fx32(fx_mul(self.y.r(), rhs.r()) as i32),
            z: Fx32(fx_mul(self.z.r(), rhs.r()) as i32),
        }
    }
}

/// A vector along one axis has the magnitude of its component as its length.
pub proof fn law_axis_length(c: Fx32)
    ensures
        length_raw(length_sq2(FxVec2 { x: c, y: Fx32(0) })) == wrap32(vstd::math::abs(c.r()) as int),
        length_raw(length_sq2(FxVec2 { x: Fx32(0), y: c })) == wrap32(vstd::math::abs(c.r()) as int),
{
    let m = vstd::math::abs(c.r());
    assert(c.r() * c.r() == m * m) by (nonlinear_arith)
        requires
            m == c.r() || m == -c.r(),
    ;
    assert(c.r() * c.r() + 0 * 0 == (m * m) as int);
    lemma_isqrt_square(m);
}

/// No component is longer than the vector.
pub proof fn lemma_component_within_length(c: int, rest: nat)
    ensures
        vstd::math::abs(c) <= isqrt((c * c + rest) as nat),
{
    let m = vstd::math::abs(c);
    assert(c * c == m * m) by (nonlinear_arith)
        requires
            m == c || m == -c,
    ;
    lemma_isqrt_square(m);
    crate::math::hw::lemma_isqrt_monotonic(m * m, (c * c + rest) as nat);
}

/// A component divided by a length that is at least as large lands in
/// `[-1, 1]`.
pub proof fn lemma_unit_component_range(c: int, len: int)
    requires
        vstd::math::abs(c) <= len <= i32::MAX,
    ensures
        -4096 <= unit_component(c, len) <= 4096,
{
    if len > 0 {
        let m = vstd::math::abs(c * 4096) as int;
        assert(m == 4096 * vstd::math::abs(c));
        assert(0 <= m / len <= 4096) by (nonlinear_arith)
            requires
                0 <= m <= 4096 * len,
                len > 0,
        ;
        assert(vstd::math::abs(len) as int == len);
    }
}

/// Normalising never lengthens a component beyond `1.0`, as long as the length
/// itself is representable.
pub proof fn law_normalized_components_in_unit_range(v: FxVec3)
    requires
        isqrt(length_sq3(v)) <= i32::MAX,
    ensures
        -4096 <= unit_component(v.x.r(), length_raw(length_sq3(v))) <= 4096,
        -4096 <= unit_component(v.y.r(), length_raw(length_sq3(v))) <= 4096,
        -4096 <= unit_component(v.z.r(), length_raw(length_sq3(v))) <= 4096,
{
    let (x, y, z) = (v.x.r(), v.y.r(), v.z.r());
    lemma_square_bounds(x);
    lemma_square_bounds(y);
    lemma_square_bounds(z);
    lemma_component_within_length(x, (y * y + z * z) as nat);
    lemma_component_within_length(y, (x * x + z * z) as nat);
    lemma_component_within_length(z, (x * x + y * y) as nat);
    let len = length_raw(length_sq3(v));
    lemma_unit_component_range(x, len);
    lemma_unit_component_range(y, len);
    lemma_unit_component_range(z, len);
}

} // verus!
