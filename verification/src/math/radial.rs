//! Radial-wheel spoke selection.
//!
//! Turns a stylus drag offset, in touch pixels, into the nearest of five spokes
//! of a point-up regular pentagon. Screen space is y-down, so "up" is `-y`;
//! spoke 0 points up and the others follow clockwise.

use crate::math::fx::Fx32;
use crate::math::fx_vec::{dot2, length_raw, length_sq2, FxVec2};
use vstd::prelude::*;

verus! {

/// Number of spokes.
pub const SPOKES: u8 = 5;

/// The vector with these raw components.
pub open spec fn raw_vec(x: int, y: int) -> FxVec2 {
    FxVec2 { x: Fx32(x as i32), y: Fx32(y as i32) }
}

/// Direction of spoke `i`: the unit vector at `72 * i` degrees clockwise from
/// up, each component truncated to 20.12. An index out of range means spoke 0.
pub open spec fn spoke(i: int) -> FxVec2 {
    if i == 1 {
        raw_vec(3895, -1265)
    } else if i == 2 {
        raw_vec(2407, 3313)
    } else if i == 3 {
        raw_vec(-2407, 3313)
    } else if i == 4 {
        raw_vec(-3895, -1265)
    } else {
        raw_vec(0, -4096)
    }
}

/// Spoke `i` aligns best with `offset`, and no earlier spoke aligns as well.
pub open spec fn is_nearest(offset: FxVec2, i: int) -> bool {
    &&& 0 <= i < 5
    &&& forall|j: int| 0 <= j < 5 ==> dot2(offset, #[trigger] spoke(j)) <= dot2(offset, spoke(i))
    &&& forall|j: int| 0 <= j < i ==> dot2(offset, #[trigger] spoke(j)) < dot2(offset, spoke(i))
}

/// The unit direction of spoke `i`; an index out of range clamps to spoke 0.
pub fn spoke_dir(i: u8) -> (v: FxVec2)
    ensures
        v == spoke(i as int),
        i >= SPOKES ==> v == spoke(0),
{
    if i == 1 {
        FxVec2 { x: Fx32(3895), y: Fx32(-1265) }
    } else if i == 2 {
        FxVec2 { x: Fx32(2407), y: Fx32(3313) }
    } else if i == 3 {
        FxVec2 { x: Fx32(-2407), y: Fx32(3313) }
    } else if i == 4 {
        FxVec2 { x: Fx32(-3895), y: Fx32(-1265) }
    } else {
        FxVec2 { x: Fx32(0), y: Fx32(-4096) }
    }
}

/// Map a drag `offset` to the nearest spoke, or `None` while the drag is still
/// shorter than `deadzone`. Ties go to the lower index.
pub fn nearest_spoke(offset: FxVec2, deadzone: Fx32) -> (r: Option<u8>)
    ensures
        r is None <==> length_raw(length_sq2(offset)) < deadzone.r(),
        r matches Some(i) ==> is_nearest(offset, i as int),
{
    if offset.length().0 < deadzone.0 {
        return None;
    }
    let mut best: u8 = 0;
    let mut best_dot: Fx32 = offset.dot(spoke_dir(0));
    let mut i: u8 = 1;
    while i < SPOKES
        invariant
            1 <= i <= 5,
            best < i,
            best_dot.r() == dot2(offset, spoke(best as int)),
            forall|j: int|
                0 <= j < i ==> dot2(offset, #[trigger] spoke(j)) <= dot2(
                    offset,
                    spoke(best as int),
                ),
            forall|j: int|
                0 <= j < best ==> dot2(offset, #[trigger] spoke(j)) < dot2(
                    offset,
                    spoke(best as int),
                ),
        decreases 5 - i,
    {
        let d: Fx32 = offset.dot(spoke_dir(i));
        if d.0 > best_dot.0 {
            best_dot = d;
            best = i;
        }
        i = i + 1;
    }
    Some(best)
}

/// At most one spoke is the nearest.
pub proof fn law_nearest_is_unique(offset: FxVec2, a: int, b: int)
    requires
        is_nearest(offset, a),
        is_nearest(offset, b),
    ensures
        a == b,
{
    if a < b {
        assert(dot2(offset, spoke(a)) < dot2(offset, spoke(b)));
        assert(dot2(offset, spoke(b)) <= dot2(offset, spoke(a)));
    } else if b < a {
        assert(dot2(offset, spoke(b)) < dot2(offset, spoke(a)));
        assert(dot2(offset, spoke(a)) <= dot2(offset, spoke(b)));
    }
}

/// A vector scaled by a whole number aligns better with its own direction than
/// with one that is clearly apart from it.
proof fn lemma_own_direction_wins(a: FxVec2, b: FxVec2, pixels: int)
    requires
        1 <= pixels <= 256,
        -4096 <= a.x.r() <= 4096,
        -4096 <= a.y.r() <= 4096,
        -4096 <= b.x.r() <= 4096,
        -4096 <= b.y.r() <= 4096,
        a.x.r() * b.x.r() + a.y.r() * b.y.r() + 0x1_0000 <= a.x.r() * a.x.r() + a.y.r() * a.y.r(),
    ensures
        dot2(raw_vec(a.x.r() * pixels, a.y.r() * pixels), b) < dot2(
            raw_vec(a.x.r() * pixels, a.y.r() * pixels),
            a,
        ),
{
    let (ax, ay, bx, by) = (a.x.r(), a.y.r(), b.x.r(), b.y.r());
    assert(-0x10_0000 <= ax * pixels <= 0x10_0000 && -0x10_0000 <= ay * pixels <= 0x10_0000)
        by (nonlinear_arith)
        requires
            1 <= pixels <= 256,
            -4096 <= ax <= 4096,
            -4096 <= ay <= 4096,
    ;
    let (px, py) = (ax * pixels, ay * pixels);
    assert(-0x1_0000_0000 <= px * bx <= 0x1_0000_0000 && -0x1_0000_0000 <= py * by <= 0x1_0000_0000
        && -0x1_0000_0000 <= px * ax <= 0x1_0000_0000 && -0x1_0000_0000 <= py * ay <= 0x1_0000_0000)
        by (nonlinear_arith)
        requires
            -0x10_0000 <= px <= 0x10_0000,
            -0x10_0000 <= py <= 0x10_0000,
            -4096 <= ax <= 4096,
            -4096 <= ay <= 4096,
            -4096 <= bx <= 4096,
            -4096 <= by <= 4096,
    ;
    assert(px * bx + py * by + 0x1_0000 <= px * ax + py * ay) by (nonlinear_arith)
        requires
            px == ax * pixels,
            py == ay * pixels,
            1 <= pixels,
            ax * bx + ay * by + 0x1_0000 <= ax * ax + ay * ay,
    ;
    let p = raw_vec(px, py);
    assert(p.x.r() == px && p.y.r() == py);
    lemma_dot_rounds(p, a);
    lemma_dot_rounds(p, b);
}

/// The dot product loses less than a step of the fraction for each of its products.
proof fn lemma_dot_rounds(a: FxVec2, b: FxVec2)
    requires
        -0x1_0000_0000 <= a.x.r() * b.x.r() <= 0x1_0000_0000,
        -0x1_0000_0000 <= a.y.r() * b.y.r() <= 0x1_0000_0000,
    ensures
        4096 * dot2(a, b) <= a.x.r() * b.x.r() + a.y.r() * b.y.r() < 4096 * dot2(a, b) + 8192,
{
}

/// The spokes are clearly apart from one another.
proof fn lemma_spokes_apart(i: int, j: int)
    requires
        0 <= i < 5,
        0 <= j < 5,
        i != j,
    ensures
        spoke(i).x.r() * spoke(j).x.r() + spoke(i).y.r() * spoke(j).y.r() + 0x1_0000
            <= spoke(i).x.r() * spoke(i).x.r() + spoke(i).y.r() * spoke(i).y.r(),
{
    let (a, b) = (spoke(i), spoke(j));
    let (ax, ay, bx, by) = (a.x.r(), a.y.r(), b.x.r(), b.y.r());
    assert(ax * bx + ay * by + 0x1_0000 <= ax * ax + ay * ay) by (nonlinear_arith)
        requires
            (ax == 0 && ay == -4096 && ((bx == 3895 || bx == -3895) && by == -1265 || (bx == 2407
                || bx == -2407) && by == 3313)) || (ax == 3895 && ay == -1265 && ((bx == 0 && by
                == -4096) || (bx == -3895 && by == -1265) || ((bx == 2407 || bx == -2407) && by
                == 3313))) || (ax == -3895 && ay == -1265 && ((bx == 0 && by == -4096) || (bx
                == 3895 && by == -1265) || ((bx == 2407 || bx == -2407) && by == 3313))) || (ax
                == 2407 && ay == 3313 && ((bx == 0 && by == -4096) || ((bx == 3895 || bx == -3895)
                && by == -1265) || (bx == -2407 && by == 3313))) || (ax == -2407 && ay == 3313
                && ((bx == 0 && by == -4096) || ((bx == 3895 || bx == -3895) && by == -1265) || (bx
                == 2407 && by == 3313))),
    ;
}

/// Dragging along a spoke's own direction, by any whole number of pixels up to
/// the width of the screen, selects that spoke.
pub proof fn law_spoke_selects_itself(i: int, pixels: int)
    requires
        0 <= i < 5,
        1 <= pixels <= 256,
    ensures
        is_nearest(raw_vec(spoke(i).x.r() * pixels, spoke(i).y.r() * pixels), i),
{
    let offset = raw_vec(spoke(i).x.r() * pixels, spoke(i).y.r() * pixels);
    assert forall|j: int| 0 <= j < 5 && j != i implies dot2(offset, #[trigger] spoke(j)) < dot2(
        offset,
        spoke(i),
    ) by {
        lemma_spokes_apart(i, j);
        lemma_own_direction_wins(spoke(i), spoke(j), pixels);
    }
}

/// Straight down lies between the two lower spokes and resolves to the right
/// one, the lower index.
pub proof fn law_straight_down_is_spoke_two(y: Fx32)
    requires
        4096 <= y.r() <= 256 * 4096,
    ensures
        is_nearest(FxVec2 { x: Fx32(0), y }, 2),
{
    let offset = FxVec2 { x: Fx32(0), y };
    let v = y.r();
    assert(v * 3313 == 3313 * v && v * (-4096) == -4096 * v && v * (-1265) == -1265 * v);
    assert forall|j: int| 0 <= j < 5 implies {
        &&& dot2(offset, #[trigger] spoke(j)) <= dot2(offset, spoke(2))
        &&& j < 2 ==> dot2(offset, spoke(j)) < dot2(offset, spoke(2))
    } by {
        assert(j == 0 || j == 1 || j == 2 || j == 3 || j == 4);
    }
}

} // verus!
