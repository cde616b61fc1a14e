//! Fixed-point model-matrix composition for the DS Geometry Engine.
//!
//! The sine and cosine of each Euler angle come in as arguments, so the compose
//! itself is pure 20.12 arithmetic.

use crate::math::fx::{fx_mul, Fx32};
use crate::math::fx_vec::FxVec3;
use crate::math::hw::wrap32;
use vstd::prelude::*;

verus! {

/// Product of three raw 20.12 numbers, the first two first.
pub open spec fn fx_mul3(a: int, b: int, c: int) -> int {
    fx_mul(fx_mul(a, b), c)
}

/// Entry (`row`, `col`) of `Rx * Ry * Rz`, raw, from the raw sine and cosine of
/// each angle.
pub open spec fn rotation_entry(
    sx: int,
    cx: int,
    sy: int,
    cy: int,
    sz: int,
    cz: int,
    row: int,
    col: int,
) -> int {
    if row == 0 {
        if col == 0 {
            fx_mul(cy, cz)
        } else if col == 1 {
            wrap32(-fx_mul(cy, sz))
        } else {
            sy
        }
    } else if row == 1 {
        if col == 0 {
            wrap32(fx_mul(cx, sz) + fx_mul3(sx, sy, cz))
        } else if col == 1 {
            wrap32(fx_mul(cx, cz) - fx_mul3(sx, sy, sz))
        } else {
            wrap32(-fx_mul(sx, cy))
        }
    } else {
        if col == 0 {
            wrap32(fx_mul(sx, sz) - fx_mul3(cx, sy, cz))
        } else if col == 1 {
            wrap32(fx_mul(sx, cz) + fx_mul3(cx, sy, sz))
        } else {
            fx_mul(cx, cy)
        }
    }
}

/// Component `i` of `v`, raw.
pub open spec fn component(v: FxVec3, i: int) -> int {
    if i == 0 {
        v.x.r()
    } else if i == 1 {
        v.y.r()
    } else {
        v.z.r()
    }
}

/// Entry (`row`, `col`) of `T * Rx * Ry * Rz * S`, raw.
pub open spec fn model_entry(
    translation: FxVec3,
    sincos: Seq<(Fx32, Fx32)>,
    scale: FxVec3,
    row: int,
    col: int,
) -> int {
    if row == 3 {
        if col == 3 {
            4096
        } else {
            0
        }
    } else if col == 3 {
        component(translation, row)
    } else {
        fx_mul(
            rotation_entry(
                sincos[0].0.r(),
                sincos[0].1.r(),
                sincos[1].0.r(),
                sincos[1].1.r(),
                sincos[2].0.r(),
                sincos[2].1.r(),
                row,
                col,
            ),
            component(scale, col),
        )
    }
}

/// Compose a column-major 20.12 model matrix `T * Rx * Ry * Rz * S`.
///
/// `sincos[i]` is `(sin, cos)` of the Euler rotation about axis `i` (X, Y, Z).
/// A vertex is scaled, then rotated about Z, Y and X, then translated.
pub fn model_matrix(translation: FxVec3, sincos: [(Fx32, Fx32); 3], scale: FxVec3) -> (m: [i32; 16])
    ensures
        forall|row: int, col: int|
            0 <= row < 4 && 0 <= col < 4 ==> #[trigger] m@[4 * col + row] == model_entry(
                translation,
                sincos@,
                scale,
                row,
                col,
            ),
{
    let (sx, cx) = sincos[0];
    let (sy, cy) = sincos[1];
    let (sz, cz) = sincos[2];
    let zero: Fx32 = Fx32(0);

    let r00: Fx32 = cy * cz;
    let r01: Fx32 = zero - cy * sz;
    let r02: Fx32 = sy;
    let r10: Fx32 = cx * sz + sx * sy * cz;
    let r11: Fx32 = cx * cz - sx * sy * sz;
    let r12: Fx32 = zero - sx * cy;
    let r20: Fx32 = sx * sz - cx * sy * cz;
    let r21: Fx32 = sx * cz + cx * sy * sz;
    let r22: Fx32 = cx * cy;

    let m: [i32; 16] = [
        (r00 * scale.x).0,
        (r10 * scale.x).0,
        (r20 * scale.x).0,
        0,
        (r01 * scale.y).0,
        (r11 * scale.y).0,
        (r21 * scale.y).0,
        0,
        (r02 * scale.z).0,
        (r12 * scale.z).0,
        (r22 * scale.z).0,
        0,
        translation.x.0,
        translation.y.0,
        translation.z.0,
        4096,
    ];
    assert forall|row: int, col: int| 0 <= row < 4 && 0 <= col < 4 implies #[trigger] m@[4 * col
        + row] == model_entry(translation, sincos@, scale, row, col) by {
        assert(row == 0 || row == 1 || row == 2 || row == 3);
        assert(col == 0 || col == 1 || col == 2 || col == 3);
    }
    m
}

/// Without rotation the matrix is the scale on the diagonal and the translation
/// in the last column.
pub proof fn law_no_rotation(translation: FxVec3, scale: FxVec3, row: int, col: int)
    requires
        0 <= row < 3,
        0 <= col < 4,
    ensures
        model_entry(
            translation,
            seq![(Fx32(0), Fx32(4096)), (Fx32(0), Fx32(4096)), (Fx32(0), Fx32(4096))],
            scale,
            row,
            col,
        ) == if col == 3 {
            component(translation, row)
        } else if row == col {
            component(scale, col)
        } else {
            0
        },
{
    let s = component(scale, col);
    assert(0 * s == 0 && (4096 * s) / 4096 == s);
    assert(row == 0 || row == 1 || row == 2);
    assert(col == 0 || col == 1 || col == 2 || col == 3);
    assert(fx_mul(4096, 4096) == 4096);
    assert(fx_mul(0, 4096) == 0);
    assert(fx_mul(4096, 0) == 0);
    assert(fx_mul(0, 0) == 0);
}

} // verus!
