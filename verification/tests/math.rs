use bevy_nds::math::fx::{Fx32, ONE_RAW};
use bevy_nds::math::fx_vec::{FxVec2, FxVec3};
use bevy_nds::math::hw::{div_32, div_64_32, sqrt_u32, sqrt_u64};
use bevy_nds::math::mat::model_matrix;
use bevy_nds::math::radial::{nearest_spoke, spoke_dir, SPOKES};
use bevy_nds::math::stick::{smooth, stick_vector, StickConfig};

fn fx(v: f32) -> Fx32 {
    Fx32::from_raw((v * (ONE_RAW as f32)) as i32)
}

fn fl(v: Fx32) -> f32 {
    v.raw() as f32 / (ONE_RAW as f32)
}

fn vec2(x: f32, y: f32) -> FxVec2 {
    FxVec2::new(fx(x), fx(y))
}

fn vec3(x: f32, y: f32, z: f32) -> FxVec3 {
    FxVec3::new(fx(x), fx(y), fx(z))
}

#[test]
fn one_round_trips() {
    assert_eq!(Fx32::one().raw(), 4096);
    assert_eq!(fl(Fx32::one()), 1.0);
    assert_eq!(Fx32::from_int(1), Fx32::one());
    assert_eq!(fx(1.0), Fx32::one());
}

#[test]
fn add_sub() {
    let a = fx(1.5);
    let b = fx(0.25);
    assert_eq!(fl(a + b), 1.75);
    assert_eq!(fl(a - b), 1.25);
    assert_eq!(fl(-a), -1.5);
}

#[test]
fn multiply_uses_i64() {
    // The raw product is far beyond the range of an i32.
    let v = Fx32::from_int(200);
    assert_eq!(fl(v * v), 40_000.0);
}

#[test]
fn divide_round_trips() {
    let n = fx(7.0);
    let d = fx(2.0);
    let q = n / d;
    assert_eq!(fl(q), 3.5);
    assert_eq!(fl(Fx32::one() / fx(0.25)), 4.0);
}

#[test]
fn sqrt_round_trips() {
    assert_eq!(Fx32::from_int(0).sqrt().raw(), 0);
    assert_eq!(Fx32::from_int(1).sqrt().raw(), Fx32::one().raw());
    assert_eq!(fl(Fx32::from_int(4).sqrt()), 2.0);
    assert_eq!(fl(Fx32::from_int(100).sqrt()), 10.0);
    let two = fl(Fx32::from_int(2).sqrt());
    assert!((two - 1.4142135).abs() < 1e-3, "sqrt(2) = {two}");
}

#[test]
fn recip_round_trips() {
    let v = fx(8.0);
    assert_eq!(fl(v.recip()), 0.125);
}

#[test]
fn floor_signs() {
    assert_eq!(fx(2.75).floor_i32(), 2);
    assert_eq!(fx(-0.5).floor_i32(), -1);
}

#[test]
fn scalar_edges() {
    assert_eq!(Fx32::neg_one().raw(), -4096);
    assert_eq!(Fx32::epsilon().raw(), 1);
    assert_eq!(Fx32::default(), Fx32::zero());
    assert_eq!(fx(-2.5).abs(), fx(2.5));
    // The root of what is below zero is zero.
    assert_eq!(fx(-4.0).sqrt(), Fx32::zero());
    // Sums wrap.
    assert_eq!(Fx32::from_raw(i32::MAX) + Fx32::epsilon(), Fx32::from_raw(i32::MIN));
    let mut acc = fx(1.0);
    acc += fx(2.0);
    acc -= fx(0.5);
    acc *= fx(2.0);
    assert_eq!(acc, fx(5.0));
    // Division by zero saturates.
    assert_eq!((Fx32::one() / Fx32::zero()).raw(), i32::MAX);
}

#[test]
fn vec3_dot_and_cross() {
    let a = vec3(1.0, 2.0, 3.0);
    let b = vec3(4.0, 5.0, 6.0);
    assert_eq!(fl(a.dot(b)), 32.0);
    let c = a.cross(b);
    assert_eq!(fl(c.x), -3.0);
    assert_eq!(fl(c.y), 6.0);
    assert_eq!(fl(c.z), -3.0);
}

#[test]
fn vec3_length_3_4_0_is_5() {
    let v = vec3(3.0, 4.0, 0.0);
    assert_eq!(fl(v.length()), 5.0);
}

#[test]
fn vec3_normalize_unit_length() {
    let v = vec3(0.0, 3.0, 4.0);
    let n = v.normalize_or_zero();
    let len = n.length();
    assert!((fl(len) - 1.0).abs() < 1e-2, "len = {}", fl(len));
    assert!((fl(n.y) - 0.6).abs() < 1e-2);
    assert!((fl(n.z) - 0.8).abs() < 1e-2);
}

#[test]
fn vec3_normalize_zero_is_zero() {
    assert_eq!(FxVec3::zero().normalize_or_zero(), FxVec3::zero());
}

#[test]
fn vec2_arithmetic() {
    let a = FxVec2::new(fx(1.5), fx(2.5));
    let b = FxVec2::new(fx(0.5), fx(1.0));
    assert_eq!(fl((a + b).x), 2.0);
    assert_eq!(fl((a - b).y), 1.5);
    assert_eq!(fl((a * fx(2.0)).x), 3.0);
}

#[test]
fn vector_assignment_and_sign() {
    let mut v = vec3(1.0, 2.0, 3.0);
    v += vec3(1.0, 1.0, 1.0);
    v -= vec3(0.5, 0.5, 0.5);
    assert_eq!(v, vec3(1.5, 2.5, 3.5));
    assert_eq!(-v, vec3(-1.5, -2.5, -3.5));
    assert_eq!(v * fx(2.0), vec3(3.0, 5.0, 7.0));
    assert_eq!(v - v, FxVec3::default());
    let mut w = vec2(1.0, 2.0);
    w += vec2(1.0, 1.0);
    w -= vec2(0.5, 0.5);
    assert_eq!(w, vec2(1.5, 2.5));
    assert_eq!(-w, vec2(-1.5, -2.5));
    assert_eq!(vec2(3.0, 4.0).length(), fx(5.0));
    assert_eq!(vec2(1.0, 2.0).dot(vec2(3.0, 4.0)), fx(11.0));
    assert_eq!(FxVec2::default().normalize_or_zero(), FxVec2::zero());
    assert_eq!(vec2(3.0, 4.0).normalize_or_zero(), vec2(0.6, 0.8));
}

#[test]
fn div32_basics() {
    assert_eq!(div_32(20, 4), 5);
    assert_eq!(div_32(-20, 4), -5);
    assert_eq!(div_32(20, -4), -5);
    assert_eq!(div_32(7, 2), 3);
}

#[test]
fn div32_by_zero_does_not_panic() {
    assert_eq!(div_32(1, 0), i32::MAX);
    assert_eq!(div_32(-1, 0), i32::MIN);
}

#[test]
fn div64_32_basics() {
    assert_eq!(div_64_32(1_000_000_000_000_i64, 1_000_000), 1_000_000);
    let num = (7_i64 << 12) << 12;
    let den = 2 << 12;
    assert_eq!(div_64_32(num, den), (35 << 12) / 10);
}

#[test]
fn sqrt_u32_basics() {
    assert_eq!(sqrt_u32(0), 0);
    assert_eq!(sqrt_u32(1), 1);
    assert_eq!(sqrt_u32(4), 2);
    assert_eq!(sqrt_u32(99), 9);
    assert_eq!(sqrt_u32(100), 10);
    assert_eq!(sqrt_u32(u32::MAX), 65535);
}

#[test]
fn sqrt_u64_floors() {
    assert_eq!(sqrt_u64(0), 0);
    assert_eq!(sqrt_u64(1 << 40), 1 << 20);
    assert_eq!(sqrt_u64((1u64 << 40) - 1), (1u32 << 20) - 1);
    assert_eq!(sqrt_u64(u64::MAX), u32::MAX);
}

fn sc(rad: f32) -> (Fx32, Fx32) {
    (fx(libm::sinf(rad)), fx(libm::cosf(rad)))
}

fn zero_rot() -> [(Fx32, Fx32); 3] {
    [(Fx32::zero(), Fx32::one()); 3]
}

fn near(got: i32, want: f32) {
    let want_raw = (want * 4096.0) as i32;
    assert!(
        (got - want_raw).abs() <= 8,
        "got raw {got} (≈{}), want ≈{want}",
        got as f32 / 4096.0
    );
}

#[test]
fn identity() {
    let m = model_matrix(FxVec3::default(), zero_rot(), vec3(1.0, 1.0, 1.0));
    let want = [
        1.0, 0.0, 0.0, 0.0, //
        0.0, 1.0, 0.0, 0.0, //
        0.0, 0.0, 1.0, 0.0, //
        0.0, 0.0, 0.0, 1.0,
    ];
    for (g, w) in m.iter().zip(want) {
        near(*g, w);
    }
}

#[test]
fn pure_translation_lands_in_column_3() {
    let m = model_matrix(vec3(2.0, -3.0, 4.0), zero_rot(), vec3(1.0, 1.0, 1.0));
    near(m[12], 2.0);
    near(m[13], -3.0);
    near(m[14], 4.0);
    near(m[15], 1.0);
}

#[test]
fn scale_lands_on_diagonal() {
    let m = model_matrix(FxVec3::default(), zero_rot(), vec3(2.0, 3.0, 4.0));
    near(m[0], 2.0);
    near(m[5], 3.0);
    near(m[10], 4.0);
}

#[test]
fn rotation_about_z_90_deg() {
    let rot = zero_rot();
    let m = model_matrix(
        FxVec3::default(),
        [rot[0], rot[1], sc(core::f32::consts::FRAC_PI_2)],
        vec3(1.0, 1.0, 1.0),
    );
    near(m[0], 0.0);
    near(m[1], 1.0);
    near(m[4], -1.0);
    near(m[5], 0.0);
    near(m[10], 1.0);
}

#[test]
fn rotation_matches_aabb_corner_order() {
    // Column 0 is the image of the local x-axis under Rz, then Ry, then Rx.
    let (ax, ay, az) = (0.3f32, -0.5f32, 0.9f32);
    let m = model_matrix(FxVec3::default(), [sc(ax), sc(ay), sc(az)], vec3(1.0, 1.0, 1.0));
    let (sx, cx) = (libm::sinf(ax), libm::cosf(ax));
    let (sy, cy) = (libm::sinf(ay), libm::cosf(ay));
    let (sz, cz) = (libm::sinf(az), libm::cosf(az));
    let v = [1.0f32, 0.0, 0.0];
    let rz = [v[0] * cz - v[1] * sz, v[0] * sz + v[1] * cz, v[2]];
    let ry = [rz[0] * cy + rz[2] * sy, rz[1], -rz[0] * sy + rz[2] * cy];
    let rx = [ry[0], ry[1] * cx - ry[2] * sx, ry[1] * sx + ry[2] * cx];
    near(m[0], rx[0]);
    near(m[1], rx[1]);
    near(m[2], rx[2]);
}

fn dz() -> Fx32 {
    fx(12.0)
}

#[test]
fn inside_deadzone_is_none() {
    assert_eq!(nearest_spoke(vec2(0.0, -5.0), dz()), None);
    assert_eq!(nearest_spoke(FxVec2::zero(), dz()), None);
}

#[test]
fn straight_up_is_spoke_zero() {
    assert_eq!(nearest_spoke(vec2(0.0, -30.0), dz()), Some(0));
    assert_eq!(nearest_spoke(vec2(4.0, -30.0), dz()), Some(0));
    assert_eq!(nearest_spoke(vec2(-4.0, -30.0), dz()), Some(0));
}

#[test]
fn upper_right_is_spoke_one() {
    assert_eq!(nearest_spoke(vec2(28.0, -12.0), dz()), Some(1));
}

#[test]
fn lower_sectors_split_left_right() {
    assert_eq!(nearest_spoke(vec2(20.0, 20.0), dz()), Some(2));
    assert_eq!(nearest_spoke(vec2(-20.0, 20.0), dz()), Some(3));
}

#[test]
fn left_is_spoke_four() {
    assert_eq!(nearest_spoke(vec2(-30.0, -2.0), dz()), Some(4));
}

#[test]
fn straight_down_ties_to_lower_index() {
    assert_eq!(nearest_spoke(vec2(0.0, 30.0), dz()), Some(2));
}

#[test]
fn every_spoke_direction_selects_itself() {
    for i in 0..SPOKES {
        let dir = spoke_dir(i);
        let off = vec2(fl(dir.x) * 40.0, fl(dir.y) * 40.0);
        assert_eq!(nearest_spoke(off, dz()), Some(i));
    }
}

fn stick() -> StickConfig {
    StickConfig {
        deadzone: Fx32::from_int(8),
        max_radius: Fx32::from_int(40),
        smoothing: Fx32::zero(),
    }
}

fn approx(a: Fx32, b: f32) -> bool {
    (fl(a) - b).abs() < 0.05
}

#[test]
fn inside_deadzone_is_zero() {
    let v = stick_vector(vec2(5.0, 0.0), &stick());
    assert_eq!(v, FxVec2::zero());
}

#[test]
fn saturates_to_unit_magnitude_at_max_radius() {
    let v = stick_vector(vec2(40.0, 0.0), &stick());
    assert!(approx(v.x, 1.0), "x = {}", fl(v.x));
    assert!(approx(v.y, 0.0));
    let far = stick_vector(vec2(200.0, 0.0), &stick());
    assert!(approx(far.length(), 1.0));
}

#[test]
fn magnitude_ramps_linearly_between_radii() {
    let v = stick_vector(vec2(24.0, 0.0), &stick());
    assert!(approx(v.length(), 0.5), "len = {}", fl(v.length()));
}

#[test]
fn direction_is_preserved_not_snapped() {
    let v = stick_vector(vec2(30.0, 40.0), &stick());
    assert!(approx(v.x, 0.6), "x = {}", fl(v.x));
    assert!(approx(v.y, 0.8), "y = {}", fl(v.y));
}

#[test]
fn smooth_endpoints() {
    let prev = vec2(1.0, 0.0);
    let target = vec2(0.0, 1.0);
    assert_eq!(smooth(prev, target, Fx32::zero()), target);
    assert_eq!(smooth(prev, target, Fx32::one()), prev);
}

#[test]
fn smooth_converges_toward_target() {
    let target = vec2(1.0, 0.0);
    let half = fx(0.5);
    let mut v = FxVec2::zero();
    for _ in 0..16 {
        v = smooth(v, target, half);
    }
    assert!(approx(v.x, 1.0), "x = {}", fl(v.x));
    assert!(approx(v.y, 0.0));
}
