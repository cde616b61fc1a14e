//! How the fixed-point operations round, and what the stick and the menu make of a drag.

use crate::math::fx::{fx_div, fx_mul, Fx32};
use crate::math::fx_vec::{
    lemma_square_bounds, length_raw, length_sq2, length_sq3, unit_component, FxVec2, FxVec3,
};
use crate::math::hw::{
    div_32, div_64_32, is_isqrt, isqrt, lemma_isqrt, trunc_div, truncate32, wrap32,
};
use crate::math::radial::{nearest_spoke, spoke_dir};
use crate::math::stick::{clamp_unit, smooth, stick_magnitude, stick_vector, StickConfig};
use vstd::math::abs;
use vstd::prelude::*;

verus! {

/// Cutting a number to 32 bits takes away a whole number of turns.
pub proof fn law_truncation_takes_whole_turns(x: i64, r: i32)
    requires
        call_ensures(truncate32, (x,), r),
    ensures
        (x - r) % 0x1_0000_0000 == 0,
        i32::MIN <= x <= i32::MAX ==> r == x,
{
}

/// `q` is `n / d` without its fraction: what is left over is smaller than the divisor
/// and has the sign of the dividend.
pub open spec fn divides(n: int, d: int, q: int) -> bool {
    let left = n - q * d;
    &&& abs(left) < abs(d)
    &&& n >= 0 ==> left >= 0
    &&& n <= 0 ==> left <= 0
}

proof fn lemma_trunc(n: int, d: int)
    requires
        d != 0,
    ensures
        divides(n, d, trunc_div(n, d)),
        abs(trunc_div(n, d)) <= abs(n),
{
    let a = abs(n) as int;
    let b = abs(d) as int;
    let m = a / b;
    assert(b * m <= a < b * m + b && 0 <= m <= a) by (nonlinear_arith)
        requires
            b > 0,
            a >= 0,
            m == a / b,
    ;
    let q = trunc_div(n, d);
    if d > 0 {
        assert(q * d == if n >= 0 { b * m } else { -(b * m) }) by (nonlinear_arith)
            requires
                b == d,
                q == if n >= 0 { m } else { -m },
        ;
    } else {
        if n >= 0 {
            assert(q == -m);
            assert(q * d == b * m) by (nonlinear_arith)
                requires
                    b == -d,
                    q == -m,
            ;
        } else {
            assert(q == m);
            assert(q * d == -(b * m)) by (nonlinear_arith)
                requires
                    b == -d,
                    q == m,
            ;
        }
    }
}

/// Division drops the fraction, whatever the signs. By zero it gives the largest number
/// with the dividend's sign.
pub proof fn law_division_drops_the_fraction(n: i32, d: i32, r: i32)
    requires
        call_ensures(div_32, (n, d), r),
    ensures
        d != 0 && !(n == i32::MIN && d == -1) ==> divides(n as int, d as int, r as int),
        d == 0 && n >= 0 ==> r == i32::MAX,
        d == 0 && n < 0 ==> r == i32::MIN,
{
    if d != 0 && !(n == i32::MIN && d == -1) {
        lemma_trunc(n as int, d as int);
        let q = trunc_div(n as int, d as int);
        assert(i32::MIN <= q <= i32::MAX) by {
            if q == 0x8000_0000 {
                assert(n == i32::MIN);
                assert(n - q * d <= 0 && abs(n - q * d) < abs(d as int));
                assert(q * d == 0x8000_0000 * d);
                assert(false);
            }
        }
        assert(wrap32(q) == q);
    }
}

/// The long division drops the fraction too, where its quotient fits.
pub proof fn law_long_division_drops_the_fraction(n: i64, d: i32, r: i32)
    requires
        d != 0,
        abs(n as int) < 0x8000_0000 * abs(d as int),
        call_ensures(div_64_32, (n, d), r),
    ensures
        divides(n as int, d as int, r as int),
{
    lemma_trunc(n as int, d as int);
    let q = trunc_div(n as int, d as int);
    let m = abs(n as int) as int / abs(d as int) as int;
    assert(m < 0x8000_0000) by (nonlinear_arith)
        requires
            m == abs(n as int) as int / abs(d as int) as int,
            d != 0,
            abs(n as int) < 0x8000_0000 * abs(d as int),
    ;
    assert(wrap32(q) == q);
}

/// A product is cut down to the next smaller step of the fraction.
pub proof fn law_product_rounds_down(a: Fx32, b: Fx32)
    requires
        -0x800_0000_0000 <= a.0 * b.0 < 0x800_0000_0000,
    ensures
        4096 * fx_mul(a.0 as int, b.0 as int) <= a.0 * b.0 < 4096 * fx_mul(a.0 as int, b.0 as int)
            + 4096,
{
}

/// A quotient of fixed-point numbers drops what is below its fraction.
pub proof fn law_quotient_drops_the_rest(a: Fx32, b: Fx32)
    requires
        b.0 != 0,
        4096 * abs(a.0 as int) < 0x8000_0000 * abs(b.0 as int),
    ensures
        divides(4096 * a.0, b.0 as int, fx_div(a.0 as int, b.0 as int)),
{
    lemma_trunc(a.0 * 4096, b.0 as int);
    let q = trunc_div(a.0 * 4096, b.0 as int);
    let m = abs(a.0 * 4096) as int / abs(b.0 as int) as int;
    assert(m < 0x8000_0000) by (nonlinear_arith)
        requires
            m == abs(a.0 * 4096) as int / abs(b.0 as int) as int,
            b.0 != 0,
            4096 * abs(a.0 as int) < 0x8000_0000 * abs(b.0 as int),
            abs(a.0 * 4096) == 4096 * abs(a.0 as int),
    ;
    assert(wrap32(q) == q);
}

/// A number that is `c` times one over `len`, to within a step of the fraction.
pub open spec fn is_share(u: int, c: int, len: int) -> bool {
    abs(u * len - 4096 * c) < len && (c >= 0 ==> u >= 0) && (c <= 0 ==> u <= 0)
}

proof fn lemma_unit(c: int, len: int)
    requires
        0 < len,
        abs(c) <= len,
    ensures
        is_share(unit_component(c, len), c, len),
        abs(unit_component(c, len)) <= 4096,
{
    lemma_trunc(c * 4096, len);
    let q = trunc_div(c * 4096, len);
    assert(abs(q) <= 4096) by (nonlinear_arith)
        requires
            0 < len,
            abs(c) <= len,
            q == (if c * 4096 >= 0 { abs(c * 4096) as int / len } else {
                -(abs(c * 4096) as int / len)
            }),
    ;
    assert(wrap32(q) == q);
}

proof fn lemma_within(c: int, rest: int, sq: nat)
    requires
        rest >= 0,
        sq == c * c + rest,
    ensures
        abs(c) <= isqrt(sq),
{
    lemma_isqrt(sq);
    let r = isqrt(sq);
    let a = abs(c) as int;
    assert(a <= r) by (nonlinear_arith)
        requires
            a >= 0,
            r >= 0,
            a == c || a == -c,
            rest >= 0,
            sq == c * c + rest,
            sq < (r + 1) * (r + 1),
    ;
}

/// A unit vector points along its vector: each component is that share of the length
/// which the vector's own component is.
pub proof fn law_unit_vector_keeps_the_direction(v: FxVec3, r: FxVec3, len: Fx32)
    requires
        call_ensures(FxVec3::normalize_or_zero, (v,), r),
        call_ensures(FxVec3::length, (v,), len),
        isqrt(length_sq3(v)) <= i32::MAX,
    ensures
        len.0 * len.0 <= v.x.0 * v.x.0 + v.y.0 * v.y.0 + v.z.0 * v.z.0 < (len.0 + 1) * (len.0 + 1),
        len.0 > 0 ==> is_share(r.x.0 as int, v.x.0 as int, len.0 as int) && is_share(
            r.y.0 as int,
            v.y.0 as int,
            len.0 as int,
        ) && is_share(r.z.0 as int, v.z.0 as int, len.0 as int),
        len.0 == 0 ==> r.x.0 == 0 && r.y.0 == 0 && r.z.0 == 0,
{
    let (x, y, z) = (v.x.0 as int, v.y.0 as int, v.z.0 as int);
    lemma_square_bounds(x);
    lemma_square_bounds(y);
    lemma_square_bounds(z);
    let sq = length_sq3(v);
    lemma_isqrt(sq);
    assert(len.0 == isqrt(sq));
    assert(is_isqrt(sq, len.0 as nat));
    lemma_within(x, y * y + z * z, sq);
    lemma_within(y, x * x + z * z, sq);
    lemma_within(z, x * x + y * y, sq);
    if len.0 > 0 {
        lemma_unit(x, len.0 as int);
        lemma_unit(y, len.0 as int);
        lemma_unit(z, len.0 as int);
    }
}

/// The same of a vector in the plane.
pub proof fn law_unit_vector_keeps_the_heading(v: FxVec2, r: FxVec2, len: Fx32)
    requires
        call_ensures(FxVec2::normalize_or_zero, (v,), r),
        call_ensures(FxVec2::length, (v,), len),
        isqrt(length_sq2(v)) <= i32::MAX,
    ensures
        len.0 * len.0 <= v.x.0 * v.x.0 + v.y.0 * v.y.0 < (len.0 + 1) * (len.0 + 1),
        len.0 > 0 ==> is_share(r.x.0 as int, v.x.0 as int, len.0 as int) && is_share(
            r.y.0 as int,
            v.y.0 as int,
            len.0 as int,
        ),
        len.0 == 0 ==> r.x.0 == 0 && r.y.0 == 0,
{
    let (x, y) = (v.x.0 as int, v.y.0 as int);
    lemma_square_bounds(x);
    lemma_square_bounds(y);
    let sq = length_sq2(v);
    lemma_isqrt(sq);
    assert(len.0 == isqrt(sq));
    assert(is_isqrt(sq, len.0 as nat));
    lemma_within(x, y * y, sq);
    lemma_within(y, x * x, sq);
    if len.0 > 0 {
        lemma_unit(x, len.0 as int);
        lemma_unit(y, len.0 as int);
    }
}

/// A root is below a number exactly where the radicand is below its square.
proof fn lemma_root_below(sq: nat, d: int)
    requires
        d >= 0,
    ensures
        isqrt(sq) < d <==> sq < d * d,
        isqrt(sq) <= d <==> sq < (d + 1) * (d + 1),
{
    lemma_isqrt(sq);
    let r = isqrt(sq) as int;
    assert((r < d ==> sq < d * d) && (r >= d ==> sq >= d * d)) by (nonlinear_arith)
        requires
            0 <= r,
            0 <= d,
            r * r <= sq < (r + 1) * (r + 1),
    ;
    assert((r <= d ==> sq < (d + 1) * (d + 1)) && (r > d ==> sq >= (d + 1) * (d + 1)))
        by (nonlinear_arith)
        requires
            0 <= r,
            0 <= d,
            r * r <= sq < (r + 1) * (r + 1),
    ;
}

/// A drag selects nothing exactly where it ends inside the circle of the deadzone.
pub proof fn law_short_drag_selects_nothing(offset: FxVec2, deadzone: Fx32, r: Option<u8>)
    requires
        call_ensures(nearest_spoke, (offset, deadzone), r),
        deadzone.0 >= 0,
        isqrt(length_sq2(offset)) <= i32::MAX,
    ensures
        r is None <==> offset.x.0 * offset.x.0 + offset.y.0 * offset.y.0 < deadzone.0 * deadzone.0,
{
    lemma_square_bounds(offset.x.0 as int);
    lemma_square_bounds(offset.y.0 as int);
    lemma_root_below(length_sq2(offset), deadzone.0 as int);
    assert(length_raw(length_sq2(offset)) == isqrt(length_sq2(offset)));
}

/// The direction that is selected points the way of the drag at least as far as every
/// other spoke does, to within the rounding of the two products.
pub proof fn law_selected_spoke_points_along(
    offset: FxVec2,
    deadzone: Fx32,
    r: Option<u8>,
    i: u8,
    own: FxVec2,
    j: u8,
    other: FxVec2,
)
    requires
        call_ensures(nearest_spoke, (offset, deadzone), r),
        r == Some(i),
        j < 5,
        call_ensures(spoke_dir, (i,), own),
        call_ensures(spoke_dir, (j,), other),
        abs(offset.x.0 as int) <= 0x2000_0000,
        abs(offset.y.0 as int) <= 0x2000_0000,
    ensures
        i < 5,
        offset.x.0 * own.x.0 + offset.y.0 * own.y.0 > offset.x.0 * other.x.0 + offset.y.0
            * other.y.0 - 8192,
{
    lemma_dot(offset, own);
    lemma_dot(offset, other);
}

proof fn lemma_dot(a: FxVec2, b: FxVec2)
    requires
        abs(a.x.0 as int) <= 0x2000_0000,
        abs(a.y.0 as int) <= 0x2000_0000,
        abs(b.x.0 as int) <= 4096,
        abs(b.y.0 as int) <= 4096,
    ensures
        4096 * crate::math::fx_vec::dot2(a, b) <= a.x.0 * b.x.0 + a.y.0 * b.y.0 < 4096
            * crate::math::fx_vec::dot2(a, b) + 8192,
{
    lemma_fit(a.x.0 as int, b.x.0 as int);
    lemma_fit(a.y.0 as int, b.y.0 as int);
}

proof fn lemma_fit(a: int, b: int)
    requires
        abs(a) <= 0x2000_0000,
        abs(b) <= 4096,
    ensures
        -0x2000_0000 <= fx_mul(a, b) <= 0x2000_0000,
        4096 * fx_mul(a, b) <= a * b < 4096 * fx_mul(a, b) + 4096,
{
    assert(-0x200_0000_0000 <= a * b <= 0x200_0000_0000) by (nonlinear_arith)
        requires
            -0x2000_0000 <= a <= 0x2000_0000,
            -4096 <= b <= 4096,
    ;
}

/// Between the two radii the magnitude is the share of the way from the one to the
/// other; beyond the outer one it is whole.
pub proof fn law_stick_ramps_between_its_radii(len: int, cfg: StickConfig)
    requires
        0 <= cfg.deadzone.0 < cfg.max_radius.0,
        cfg.deadzone.0 < len <= i32::MAX,
        4096 * (len - cfg.deadzone.0) < 0x8000_0000 * (cfg.max_radius.0 - cfg.deadzone.0),
    ensures
        len <= cfg.max_radius.0 ==> is_share(
            stick_magnitude(len, cfg),
            len - cfg.deadzone.0,
            cfg.max_radius.0 - cfg.deadzone.0,
        ),
        len >= cfg.max_radius.0 ==> stick_magnitude(len, cfg) == 4096,
{
    let way = len - cfg.deadzone.0;
    let span = cfg.max_radius.0 - cfg.deadzone.0;
    lemma_trunc(way * 4096, span);
    let q = trunc_div(way * 4096, span);
    assert(q < 0x8000_0000 && (way <= span ==> q <= 4096) && (way >= span ==> q >= 4096) && q >= 0)
        by (nonlinear_arith)
        requires
            0 < way,
            0 < span,
            q == way * 4096 / span,
            4096 * way < 0x8000_0000 * span,
    ;
    assert(wrap32(q) == q);
    if way == span {
        assert(q == 4096);
    }
}

/// The stick rests inside its deadzone, and outside it moves along the drag: each
/// component is the unit vector's, scaled by the magnitude.
pub proof fn law_stick_follows_the_drag(
    offset: FxVec2,
    cfg: &StickConfig,
    v: FxVec2,
    unit: FxVec2,
    len: Fx32,
)
    requires
        call_ensures(stick_vector, (offset, cfg), v),
        call_ensures(FxVec2::normalize_or_zero, (offset,), unit),
        call_ensures(FxVec2::length, (offset,), len),
        isqrt(length_sq2(offset)) <= i32::MAX,
        0 <= cfg.deadzone.0,
        0 <= stick_magnitude(len.0 as int, *cfg) <= 4096,
    ensures
        offset.x.0 * offset.x.0 + offset.y.0 * offset.y.0 <= cfg.deadzone.0 * cfg.deadzone.0
            ==> v.x.0 == 0 && v.y.0 == 0,
        len.0 > cfg.deadzone.0 ==> {
            let m = stick_magnitude(len.0 as int, *cfg);
            &&& 4096 * v.x.0 <= unit.x.0 * m < 4096 * v.x.0 + 4096
            &&& 4096 * v.y.0 <= unit.y.0 * m < 4096 * v.y.0 + 4096
        },
{
    let (x, y) = (offset.x.0 as int, offset.y.0 as int);
    lemma_square_bounds(x);
    lemma_square_bounds(y);
    let sq = length_sq2(offset);
    lemma_root_below(sq, cfg.deadzone.0 as int);
    lemma_isqrt(sq);
    let d = cfg.deadzone.0 as int;
    assert(d * d < (d + 1) * (d + 1)) by (nonlinear_arith)
        requires
            d >= 0,
    ;
    assert(length_raw(sq) == isqrt(sq));
    assert(len.0 == isqrt(sq));
    if len.0 > cfg.deadzone.0 {
        lemma_within(x, y * y, sq);
        lemma_within(y, x * x, sq);
        lemma_unit(x, len.0 as int);
        lemma_unit(y, len.0 as int);
        let m = stick_magnitude(len.0 as int, *cfg);
        lemma_fit(unit.x.0 as int, m);
        lemma_fit(unit.y.0 as int, m);
        assert(v.x.0 == fx_mul(unit.x.0 as int, m));
        assert(v.y.0 == fx_mul(unit.y.0 as int, m));
    }
}

/// Smoothing mixes what was with what is asked for, by the share of the former; a share
/// below none or above all counts as none or all.
pub proof fn law_smoothing_mixes(prev: FxVec2, target: FxVec2, s: Fx32, v: FxVec2)
    requires
        call_ensures(smooth, (prev, target, s), v),
        abs(prev.x.0 as int) <= 0x2000_0000 && abs(prev.y.0 as int) <= 0x2000_0000,
        abs(target.x.0 as int) <= 0x2000_0000 && abs(target.y.0 as int) <= 0x2000_0000,
    ensures
        ({
            let w = if s.0 < 0 {
                0
            } else if s.0 > 4096 {
                4096
            } else {
                s.0 as int
            };
            let mx = prev.x.0 * w + target.x.0 * (4096 - w);
            let my = prev.y.0 * w + target.y.0 * (4096 - w);
            &&& 4096 * v.x.0 <= mx < 4096 * v.x.0 + 8192
            &&& 4096 * v.y.0 <= my < 4096 * v.y.0 + 8192
        }),
{
    let w = clamp_unit(s.0 as int);
    lemma_fit(prev.x.0 as int, w);
    lemma_fit(prev.y.0 as int, w);
    lemma_fit(target.x.0 as int, 4096 - w);
    lemma_fit(target.y.0 as int, 4096 - w);
}

} // verus!
