//! Analog-stick conditioning: a raw stylus offset becomes a movement vector with
//! a radial deadzone and a saturation radius.

use crate::math::fx::{fx_div, fx_mul, law_mul_by_one, Fx32};
use crate::math::fx_vec::{
    lemma_component_within_length, lemma_square_bounds, lemma_unit_component_range, length_raw,
    length_sq2, unit_component, FxVec2,
};
use crate::math::hw::{isqrt, wrap32};
use vstd::prelude::*;

verus! {

/// Tunables for [`stick_vector`], in touch pixels except `smoothing`.
#[derive(Clone, Copy, Debug)]
pub struct StickConfig {
    /// Radius up to which input is ignored.
    pub deadzone: Fx32,
    /// Radius at which magnitude saturates to `1.0`.
    pub max_radius: Fx32,
    /// Low-pass factor for [`smooth`]: `0.0` snaps, values toward `1.0` lag.
    pub smoothing: Fx32,
}

/// Raw magnitude for an offset of raw length `len` past the deadzone: the
/// fraction of the way from the deadzone to the full radius, at most `1.0`, and
/// `1.0` outright where the two radii leave no way to go.
pub open spec fn stick_magnitude(len: int, cfg: StickConfig) -> int {
    let span = wrap32(cfg.max_radius.r() - cfg.deadzone.r());
    if span <= 0 {
        4096
    } else {
        let ramp = fx_div(wrap32(len - cfg.deadzone.r()), span);
        if ramp < 4096 {
            ramp
        } else {
            4096
        }
    }
}

/// Component `c` of the movement vector for an offset of raw length `len`.
pub open spec fn stick_component(c: int, len: int, cfg: StickConfig) -> int {
    if len <= cfg.deadzone.r() {
        0
    } else {
        fx_mul(unit_component(c, len), stick_magnitude(len, cfg))
    }
}

/// Condition a raw stylus `offset` into a movement vector: its unit direction
/// scaled by a magnitude in `[0, 1]`, zero inside the deadzone.
pub fn stick_vector(offset: FxVec2, cfg: &StickConfig) -> (v: FxVec2)
    ensures
        v.x.0 == stick_component(offset.x.r(), length_raw(length_sq2(offset)), *cfg),
        v.y.0 == stick_component(offset.y.r(), length_raw(length_sq2(offset)), *cfg),
{
    let len: Fx32 = offset.length();
    if len.0 <= cfg.deadzone.0 {
        return FxVec2::zero();
    }
    let dir: FxVec2 = offset.normalize_or_zero();
    let span: Fx32 = cfg.max_radius - cfg.deadzone;
    let mag: Fx32 = if span.0 <= 0 {
        Fx32::one()
    } else {
        let ramp: Fx32 = (len - cfg.deadzone) / span;
        if ramp.0 < 4096 {
            ramp
        } else {
            Fx32::one()
        }
    };
    dir * mag
}

/// `s` limited to `[0, 1]`.
pub open spec fn clamp_unit(s: int) -> int {
    if s < 0 {
        0
    } else if s > 4096 {
        4096
    } else {
        s
    }
}

/// Raw low-pass of one component.
pub open spec fn smooth_component(prev: int, target: int, s: int) -> int {
    wrap32(fx_mul(prev, clamp_unit(s)) + fx_mul(target, 4096 - clamp_unit(s)))
}

/// Exponential low-pass of `prev` toward `target`. A `smoothing` outside
/// `[0, 1]` is clamped.
pub fn smooth(prev: FxVec2, target: FxVec2, smoothing: Fx32) -> (v: FxVec2)
    ensures
        v.x.0 == smooth_component(prev.x.r(), target.x.r(), smoothing.r()),
        v.y.0 == smooth_component(prev.y.r(), target.y.r(), smoothing.r()),
{
    let s: Fx32 = if smoothing.0 < 0 {
        Fx32::zero()
    } else if smoothing.0 > 4096 {
        Fx32::one()
    } else {
        smoothing
    };
    prev * s + target * (Fx32::one() - s)
}

/// With no smoothing the low-pass snaps to the target.
pub proof fn law_no_smoothing_snaps(prev: Fx32, target: Fx32)
    ensures
        smooth_component(prev.r(), target.r(), 0) == target.r(),
{
    law_mul_by_one(target);
    assert(prev.r() * 0 == 0);
}

/// With full smoothing the low-pass holds the previous value.
pub proof fn law_full_smoothing_holds(prev: Fx32, target: Fx32)
    ensures
        smooth_component(prev.r(), target.r(), 4096) == prev.r(),
{
    law_mul_by_one(prev);
    assert(target.r() * 0 == 0);
}

/// The magnitude stays in `[0, 1]` for every offset past a deadzone that is
/// smaller than the full radius.
pub proof fn law_magnitude_in_unit_range(len: int, cfg: StickConfig)
    requires
        0 <= cfg.deadzone.r() < cfg.max_radius.r(),
        cfg.deadzone.r() < len <= i32::MAX,
        (len - cfg.deadzone.r()) * 4096 / (cfg.max_radius.r() - cfg.deadzone.r()) <= i32::MAX,
    ensures
        0 <= stick_magnitude(len, cfg) <= 4096,
{
    let span = cfg.max_radius.r() - cfg.deadzone.r();
    let n = (len - cfg.deadzone.r()) * 4096;
    assert(0 <= n / span) by (nonlinear_arith)
        requires
            n >= 0,
            span > 0,
    ;
}

/// At and beyond the full radius the magnitude is exactly `1.0`.
pub proof fn law_saturates_at_max_radius(len: int, cfg: StickConfig)
    requires
        0 <= cfg.deadzone.r() < cfg.max_radius.r() <= len <= i32::MAX,
        (len - cfg.deadzone.r()) * 4096 / (cfg.max_radius.r() - cfg.deadzone.r()) <= i32::MAX,
    ensures
        stick_magnitude(len, cfg) == 4096,
{
    let span = cfg.max_radius.r() - cfg.deadzone.r();
    let n = (len - cfg.deadzone.r()) * 4096;
    assert(4096 <= n / span) by (nonlinear_arith)
        requires
            n >= 4096 * span,
            span > 0,
    ;
}

/// No component of the movement vector exceeds `1.0`, for any offset whose
/// length is representable.
pub proof fn law_movement_in_unit_range(offset: FxVec2, cfg: StickConfig)
    requires
        0 <= cfg.deadzone.r() < cfg.max_radius.r(),
        isqrt(length_sq2(offset)) <= i32::MAX,
        (isqrt(length_sq2(offset)) - cfg.deadzone.r()) * 4096 / (cfg.max_radius.r()
            - cfg.deadzone.r()) <= i32::MAX,
    ensures
        -4096 <= stick_component(offset.x.r(), length_raw(length_sq2(offset)), cfg) <= 4096,
        -4096 <= stick_component(offset.y.r(), length_raw(length_sq2(offset)), cfg) <= 4096,
{
    let (x, y) = (offset.x.r(), offset.y.r());
    let len = length_raw(length_sq2(offset));
    lemma_square_bounds(x);
    lemma_square_bounds(y);
    lemma_component_within_length(x, (y * y) as nat);
    lemma_component_within_length(y, (x * x) as nat);
    lemma_unit_component_range(x, len);
    lemma_unit_component_range(y, len);
    if len > cfg.deadzone.r() {
        law_magnitude_in_unit_range(len, cfg);
        let m = stick_magnitude(len, cfg);
        lemma_scaled_unit(unit_component(x, len), m);
        lemma_scaled_unit(unit_component(y, len), m);
    }
}

/// A number in `[-1, 1]` scaled by one in `[0, 1]` stays in `[-1, 1]`.
proof fn lemma_scaled_unit(u: int, m: int)
    requires
        -4096 <= u <= 4096,
        0 <= m <= 4096,
    ensures
        -4096 <= fx_mul(u, m) <= 4096,
{
    assert(-4096 * 4096 <= u * m <= 4096 * 4096) by (nonlinear_arith)
        requires
            -4096 <= u <= 4096,
            0 <= m <= 4096,
    ;
}

} // verus!
