//! What a model matrix does: it composes elementary turns about the axes.

use crate::math::fx::{fx_mul, Fx32};
use crate::math::fx_vec::FxVec3;
use crate::math::mat::{model_entry, model_matrix, rotation_entry};
use vstd::math::abs;
use vstd::prelude::*;

verus! {

/// A 3x3 matrix of integers, by row and column.
pub type Mat3 = spec_fn(int, int) -> int;

/// The turn about X that takes `y` toward `z`, from its raw sine and cosine.
pub open spec fn turn_x(s: int, c: int) -> Mat3 {
    |row: int, col: int|
        if row == 0 || col == 0 {
            if row == col {
                4096
            } else {
                0
            }
        } else if row == col {
            c
        } else if row == 2 {
            s
        } else {
            -s
        }
}

/// The turn about Y that takes `z` toward `x`.
pub open spec fn turn_y(s: int, c: int) -> Mat3 {
    |row: int, col: int|
        if row == 1 || col == 1 {
            if row == col {
                4096
            } else {
                0
            }
        } else if row == col {
            c
        } else if row == 0 {
            s
        } else {
            -s
        }
}

/// The turn about Z that takes `x` toward `y`.
pub open spec fn turn_z(s: int, c: int) -> Mat3 {
    |row: int, col: int|
        if row == 2 || col == 2 {
            if row == col {
                4096
            } else {
                0
            }
        } else if row == col {
            c
        } else if row == 1 {
            s
        } else {
            -s
        }
}

/// The matrix product.
pub open spec fn times(a: Mat3, b: Mat3) -> Mat3 {
    |row: int, col: int| a(row, 0) * b(0, col) + a(row, 1) * b(1, col) + a(row, 2) * b(2, col)
}

/// No more than one, either way.
pub open spec fn is_ratio(x: Fx32) -> bool {
    -4096 <= x.0 <= 4096
}

/// Component `i` of a vector, raw.
pub open spec fn axis(v: FxVec3, i: int) -> int {
    if i == 0 {
        v.x.0 as int
    } else if i == 1 {
        v.y.0 as int
    } else {
        v.z.0 as int
    }
}

/// The product of two ratios is a ratio, rounded down.
proof fn lemma_ratio_product(a: int, b: int)
    requires
        -4096 <= a <= 4096,
        -4096 <= b <= 4096,
    ensures
        fx_mul(a, b) == (a * b) / 4096,
        -4096 <= fx_mul(a, b) <= 4096,
        0 <= a * b - 4096 * fx_mul(a, b) < 4096,
{
    assert(-16777216 <= a * b <= 16777216) by (nonlinear_arith)
        requires
            -4096 <= a <= 4096,
            -4096 <= b <= 4096,
    ;
}

/// The product of three ratios, rounded down twice.
proof fn lemma_ratio_product3(a: int, b: int, c: int)
    requires
        -4096 <= a <= 4096,
        -4096 <= b <= 4096,
        -4096 <= c <= 4096,
    ensures
        -4096 <= fx_mul(fx_mul(a, b), c) <= 4096,
        -16777216 < a * b * c - 16777216 * fx_mul(fx_mul(a, b), c) < 33554432,
{
    lemma_ratio_product(a, b);
    let q = fx_mul(a, b);
    let r1 = a * b - 4096 * q;
    lemma_ratio_product(q, c);
    let f = fx_mul(q, c);
    let r2 = q * c - 4096 * f;
    assert(a * b * c == 4096 * (q * c) + r1 * c) by (nonlinear_arith)
        requires
            r1 == a * b - 4096 * q,
    ;
    assert(-16777216 < r1 * c < 16777216) by (nonlinear_arith)
        requires
            0 <= r1 < 4096,
            -4096 <= c <= 4096,
    ;
}

/// The product of the turns about Y and Z.
proof fn lemma_turn_yz(sy: int, cy: int, sz: int, cz: int)
    ensures
        ({
            let yz = times(turn_y(sy, cy), turn_z(sz, cz));
            &&& yz(0, 0) == cy * cz && yz(0, 1) == -(cy * sz) && yz(0, 2) == 4096 * sy
            &&& yz(1, 0) == 4096 * sz && yz(1, 1) == 4096 * cz && yz(1, 2) == 0
            &&& yz(2, 0) == -(sy * cz) && yz(2, 1) == sy * sz && yz(2, 2) == 4096 * cy
        }),
{
    assert(cy * cz + 0 * sz + sy * 0 == cy * cz) by (nonlinear_arith);
    assert(cy * (-sz) + 0 * cz + sy * 0 == -(cy * sz)) by (nonlinear_arith);
    assert(cy * 0 + 0 * 0 + sy * 4096 == 4096 * sy) by (nonlinear_arith);
    assert(0 * cz + 4096 * sz + 0 * 0 == 4096 * sz) by (nonlinear_arith);
    assert(0 * (-sz) + 4096 * cz + 0 * 0 == 4096 * cz) by (nonlinear_arith);
    assert((-sy) * cz + 0 * sz + cy * 0 == -(sy * cz)) by (nonlinear_arith);
    assert((-sy) * (-sz) + 0 * cz + cy * 0 == sy * sz) by (nonlinear_arith);
    assert((-sy) * 0 + 0 * 0 + cy * 4096 == 4096 * cy) by (nonlinear_arith);
}

/// A product with the turn about X.
proof fn lemma_turn_x_times(sx: int, cx: int, b: Mat3, col: int)
    ensures
        times(turn_x(sx, cx), b)(0, col) == 4096 * b(0, col),
        times(turn_x(sx, cx), b)(1, col) == cx * b(1, col) - sx * b(2, col),
        times(turn_x(sx, cx), b)(2, col) == sx * b(1, col) + cx * b(2, col),
{
    let i = b(0, col);
    let j = b(1, col);
    let k = b(2, col);
    assert(4096 * i + 0 * j + 0 * k == 4096 * i) by (nonlinear_arith);
    assert(0 * i + cx * j + (-sx) * k == cx * j - sx * k) by (nonlinear_arith);
    assert(0 * i + sx * j + cx * k == sx * j + cx * k) by (nonlinear_arith);
}

/// The rounded entry of the rotation lies within three units of the product of
/// the three turns.
#[verifier::rlimit(40)]
pub proof fn lemma_rotation(sx: int, cx: int, sy: int, cy: int, sz: int, cz: int, row: int, col: int)
    requires
        -4096 <= sx <= 4096,
        -4096 <= cx <= 4096,
        -4096 <= sy <= 4096,
        -4096 <= cy <= 4096,
        -4096 <= sz <= 4096,
        -4096 <= cz <= 4096,
        0 <= row < 3,
        0 <= col < 3,
    ensures
        ({
            let exact = times(turn_x(sx, cx), times(turn_y(sy, cy), turn_z(sz, cz)))(row, col);
            let entry = rotation_entry(sx, cx, sy, cy, sz, cz, row, col);
            &&& -8192 <= entry <= 8192
            &&& abs(exact - 16777216 * entry) <= 3 * 16777216
        }),
{
    lemma_turn_yz(sy, cy, sz, cz);
    lemma_turn_x_times(sx, cx, times(turn_y(sy, cy), turn_z(sz, cz)), col);
    if row == 0 {
        lemma_ratio_product(cy, cz);
        lemma_ratio_product(cy, sz);
    } else if row == 1 {
        if col == 0 {
            lemma_ratio_product(cx, sz);
            lemma_ratio_product3(sx, sy, cz);
            assert(cx * (4096 * sz) - sx * (-(sy * cz)) == 4096 * (cx * sz) + sx * sy * cz)
                by (nonlinear_arith);
        } else if col == 1 {
            lemma_ratio_product(cx, cz);
            lemma_ratio_product3(sx, sy, sz);
            assert(cx * (4096 * cz) - sx * (sy * sz) == 4096 * (cx * cz) - sx * sy * sz)
                by (nonlinear_arith);
        } else {
            lemma_ratio_product(sx, cy);
            assert(cx * 0 - sx * (4096 * cy) == -(4096 * (sx * cy))) by (nonlinear_arith);
        }
    } else {
        if col == 0 {
            lemma_ratio_product(sx, sz);
            lemma_ratio_product3(cx, sy, cz);
            assert(sx * (4096 * sz) + cx * (-(sy * cz)) == 4096 * (sx * sz) - cx * sy * cz)
                by (nonlinear_arith);
        } else if col == 1 {
            lemma_ratio_product(sx, cz);
            lemma_ratio_product3(cx, sy, sz);
            assert(sx * (4096 * cz) + cx * (sy * sz) == 4096 * (sx * cz) + cx * sy * sz)
                by (nonlinear_arith);
        } else {
            lemma_ratio_product(cx, cy);
            assert(sx * 0 + cx * (4096 * cy) == 4096 * (cx * cy)) by (nonlinear_arith);
        }
    }
}

/// A model matrix scales along the axes, then turns about Z, then Y, then X, then
/// translates. Its upper-left part is the product of the three turns, each column
/// times the scale of its axis, off by less than four units of the last place per
/// unit of scale and one for the final rounding; the last column is the translation
/// and the last row that of the identity.
pub proof fn law_model_matrix_composes_turns(
    translation: FxVec3,
    sincos: [(Fx32, Fx32); 3],
    scale: FxVec3,
    m: [i32; 16],
    row: int,
    col: int,
)
    requires
        call_ensures(model_matrix, (translation, sincos, scale), m),
        forall|i: int|
            0 <= i < 3 ==> is_ratio((#[trigger] sincos@[i]).0) && is_ratio(sincos@[i].1),
        0 <= row < 3,
        0 <= col < 3,
        abs(axis(scale, col)) <= 0x3fff_ffff,
    ensures
        ({
            let turns = times(
                turn_x(sincos@[0].0.0 as int, sincos@[0].1.0 as int),
                times(
                    turn_y(sincos@[1].0.0 as int, sincos@[1].1.0 as int),
                    turn_z(sincos@[2].0.0 as int, sincos@[2].1.0 as int),
                ),
            );
            let s = axis(scale, col);
            abs(turns(row, col) * s - 0x10_0000_0000 * m@[4 * col + row]) <= 0x100_0000 * (4 * abs(s)
                + 4096)
        }),
        m@[12 + row] == axis(translation, row),
        m@[4 * col + 3] == 0,
        m@[15] == 4096,
{
    let sx = sincos@[0].0.0 as int;
    let cx = sincos@[0].1.0 as int;
    let sy = sincos@[1].0.0 as int;
    let cy = sincos@[1].1.0 as int;
    let sz = sincos@[2].0.0 as int;
    let cz = sincos@[2].1.0 as int;
    assert(is_ratio(sincos@[0].0) && is_ratio(sincos@[1].0) && is_ratio(sincos@[2].0));
    lemma_rotation(sx, cx, sy, cy, sz, cz, row, col);
    let turns = times(turn_x(sx, cx), times(turn_y(sy, cy), turn_z(sz, cz)));
    let exact = turns(row, col);
    let entry = rotation_entry(sx, cx, sy, cy, sz, cz, row, col);
    let s = axis(scale, col);
    assert(m@[4 * col + row] == model_entry(translation, sincos@, scale, row, col));
    assert(m@[4 * 3 + row] == model_entry(translation, sincos@, scale, row, 3));
    assert(m@[4 * col + 3] == model_entry(translation, sincos@, scale, 3, col));
    lemma_entry(translation, sincos, scale, m, 3, 3);
    assert(-0x1_0000 * 0x8000_0000 <= entry * s <= 0x1000 * 0x7fff_ffff) by (nonlinear_arith)
        requires
            -8192 <= entry <= 8192,
            -0x3fff_ffff <= s <= 0x3fff_ffff,
    ;
    assert(-0x1000 * 0x7fff_ffff <= entry * s) by (nonlinear_arith)
        requires
            -8192 <= entry <= 8192,
            -0x3fff_ffff <= s <= 0x3fff_ffff,
    ;
    let value = m@[4 * col + row] as int;
    assert(value == fx_mul(entry, s));
    assert(value == (entry * s) / 4096);
    let rest = entry * s - 4096 * value;
    let off = exact - 16777216 * entry;
    assert(exact * s - 0x10_0000_0000 * value == off * s + 0x100_0000 * rest) by (nonlinear_arith)
        requires
            rest == entry * s - 4096 * value,
            off == exact - 16777216 * entry,
    ;
    let most = abs(s) as int;
    assert(-(50331648 * most) <= off * s <= 50331648 * most) by (nonlinear_arith)
        requires
            -50331648 <= off <= 50331648,
            s == most || s == -most,
            most >= 0,
    ;
}

/// With a turn about X alone the matrix holds the turn exactly: `y` goes toward `z`
/// and `z` away from `y`.
pub proof fn law_turn_about_x_alone(
    translation: FxVec3,
    s: Fx32,
    c: Fx32,
    sincos: [(Fx32, Fx32); 3],
    scale: FxVec3,
    m: [i32; 16],
)
    requires
        is_ratio(s) && is_ratio(c),
        sincos@ == seq![(s, c), (Fx32(0), Fx32(4096)), (Fx32(0), Fx32(4096))],
        scale.y.0 > i32::MIN,
        scale.z.0 > i32::MIN,
        call_ensures(model_matrix, (translation, sincos, scale), m),
    ensures
        m@[0] == scale.x.0 && m@[1] == 0 && m@[2] == 0,
        m@[4] == 0 && m@[5] == (c.0 * scale.y.0) / 4096 && m@[6] == (s.0 * scale.y.0) / 4096,
        m@[8] == 0 && m@[9] == (-s.0 * scale.z.0) / 4096 && m@[10] == (c.0 * scale.z.0) / 4096,
{
    lemma_nine_entries(translation, sincos, scale, m);
    lemma_quarter_products(s.0 as int);
    lemma_quarter_products(c.0 as int);
    lemma_scaled(c.0 as int, scale.y.0 as int);
    lemma_scaled(s.0 as int, scale.y.0 as int);
    lemma_scaled(-s.0 as int, scale.z.0 as int);
    lemma_scaled(c.0 as int, scale.z.0 as int);
    lemma_whole(scale.x.0 as int);
    lemma_whole(scale.y.0 as int);
    lemma_whole(scale.z.0 as int);
}

/// With a turn about Y alone the matrix holds the turn exactly: `z` goes toward `x`
/// and `x` away from `z`.
pub proof fn law_turn_about_y_alone(
    translation: FxVec3,
    s: Fx32,
    c: Fx32,
    sincos: [(Fx32, Fx32); 3],
    scale: FxVec3,
    m: [i32; 16],
)
    requires
        is_ratio(s) && is_ratio(c),
        sincos@ == seq![(Fx32(0), Fx32(4096)), (s, c), (Fx32(0), Fx32(4096))],
        scale.x.0 > i32::MIN,
        scale.z.0 > i32::MIN,
        call_ensures(model_matrix, (translation, sincos, scale), m),
    ensures
        m@[0] == (c.0 * scale.x.0) / 4096 && m@[1] == 0 && m@[2] == (-s.0 * scale.x.0) / 4096,
        m@[4] == 0 && m@[5] == scale.y.0 && m@[6] == 0,
        m@[8] == (s.0 * scale.z.0) / 4096 && m@[9] == 0 && m@[10] == (c.0 * scale.z.0) / 4096,
{
    lemma_nine_entries(translation, sincos, scale, m);
    lemma_quarter_products(s.0 as int);
    lemma_quarter_products(c.0 as int);
    lemma_scaled(c.0 as int, scale.x.0 as int);
    lemma_scaled(-s.0 as int, scale.x.0 as int);
    lemma_scaled(s.0 as int, scale.z.0 as int);
    lemma_scaled(c.0 as int, scale.z.0 as int);
    lemma_whole(scale.x.0 as int);
    lemma_whole(scale.y.0 as int);
    lemma_whole(scale.z.0 as int);
}

/// With a turn about Z alone the matrix holds the turn exactly: `x` goes toward `y`
/// and `y` away from `x`.
pub proof fn law_turn_about_z_alone(
    translation: FxVec3,
    s: Fx32,
    c: Fx32,
    sincos: [(Fx32, Fx32); 3],
    scale: FxVec3,
    m: [i32; 16],
)
    requires
        is_ratio(s) && is_ratio(c),
        sincos@ == seq![(Fx32(0), Fx32(4096)), (Fx32(0), Fx32(4096)), (s, c)],
        scale.x.0 > i32::MIN,
        scale.y.0 > i32::MIN,
        call_ensures(model_matrix, (translation, sincos, scale), m),
    ensures
        m@[0] == (c.0 * scale.x.0) / 4096 && m@[1] == (s.0 * scale.x.0) / 4096 && m@[2] == 0,
        m@[4] == (-s.0 * scale.y.0) / 4096 && m@[5] == (c.0 * scale.y.0) / 4096 && m@[6] == 0,
        m@[8] == 0 && m@[9] == 0 && m@[10] == scale.z.0,
{
    lemma_nine_entries(translation, sincos, scale, m);
    lemma_quarter_products(s.0 as int);
    lemma_quarter_products(c.0 as int);
    lemma_scaled(c.0 as int, scale.x.0 as int);
    lemma_scaled(s.0 as int, scale.x.0 as int);
    lemma_scaled(-s.0 as int, scale.y.0 as int);
    lemma_scaled(c.0 as int, scale.y.0 as int);
    lemma_whole(scale.x.0 as int);
    lemma_whole(scale.y.0 as int);
    lemma_whole(scale.z.0 as int);
}

/// One entry, where it stands.
proof fn lemma_entry(
    translation: FxVec3,
    sincos: [(Fx32, Fx32); 3],
    scale: FxVec3,
    m: [i32; 16],
    row: int,
    col: int,
)
    requires
        call_ensures(model_matrix, (translation, sincos, scale), m),
        0 <= row < 4,
        0 <= col < 4,
    ensures
        m@[4 * col + row] == model_entry(translation, sincos@, scale, row, col),
{
}

/// The nine entries of the upper-left part.
proof fn lemma_nine_entries(
    translation: FxVec3,
    sincos: [(Fx32, Fx32); 3],
    scale: FxVec3,
    m: [i32; 16],
)
    requires
        call_ensures(model_matrix, (translation, sincos, scale), m),
    ensures
        m@[0] == model_entry(translation, sincos@, scale, 0, 0),
        m@[1] == model_entry(translation, sincos@, scale, 1, 0),
        m@[2] == model_entry(translation, sincos@, scale, 2, 0),
        m@[4] == model_entry(translation, sincos@, scale, 0, 1),
        m@[5] == model_entry(translation, sincos@, scale, 1, 1),
        m@[6] == model_entry(translation, sincos@, scale, 2, 1),
        m@[8] == model_entry(translation, sincos@, scale, 0, 2),
        m@[9] == model_entry(translation, sincos@, scale, 1, 2),
        m@[10] == model_entry(translation, sincos@, scale, 2, 2),
{
    lemma_entry(translation, sincos, scale, m, 0, 0);
    lemma_entry(translation, sincos, scale, m, 1, 0);
    lemma_entry(translation, sincos, scale, m, 2, 0);
    lemma_entry(translation, sincos, scale, m, 0, 1);
    lemma_entry(translation, sincos, scale, m, 1, 1);
    lemma_entry(translation, sincos, scale, m, 2, 1);
    lemma_entry(translation, sincos, scale, m, 0, 2);
    lemma_entry(translation, sincos, scale, m, 1, 2);
    lemma_entry(translation, sincos, scale, m, 2, 2);
}

/// Products of a ratio with zero and one.
proof fn lemma_quarter_products(x: int)
    requires
        -4096 <= x <= 4096,
    ensures
        fx_mul(x, 0) == 0 && fx_mul(0, x) == 0,
        fx_mul(x, 4096) == x && fx_mul(4096, x) == x,
        fx_mul(0, 0) == 0 && fx_mul(0, 4096) == 0 && fx_mul(4096, 0) == 0,
        fx_mul(4096, 4096) == 4096,
{
    assert(x * 0 == 0 && 0 * x == 0) by (nonlinear_arith);
}

/// A ratio of a scale is not cut.
proof fn lemma_scaled(x: int, s: int)
    requires
        -4096 <= x <= 4096,
        -0x7fff_ffff <= s <= 0x7fff_ffff,
    ensures
        fx_mul(x, s) == (x * s) / 4096,
{
    assert(-4096 * 0x7fff_ffff <= x * s <= 4096 * 0x7fff_ffff) by (nonlinear_arith)
        requires
            -4096 <= x <= 4096,
            -0x7fff_ffff <= s <= 0x7fff_ffff,
    ;
}

/// One and zero times a scale.
proof fn lemma_whole(s: int)
    requires
        i32::MIN <= s <= i32::MAX,
    ensures
        fx_mul(4096, s) == s,
        fx_mul(0, s) == 0,
{
    assert(0 * s == 0) by (nonlinear_arith);
    assert((4096 * s) / 4096 == s);
}

} // verus!
