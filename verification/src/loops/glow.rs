//! The feathered glow brush: full coverage in a small core, then a quadratic
//! falloff to nothing. Overlaps combine by maximum, so a stroke that crosses
//! itself does not brighten.

use crate::loops::raster::{
    all_roundable, brush_fits, cell, centre_line, dist_sq, lemma_brush_narrow, lemma_cell,
    lemma_offset_squares, near_origin, offset_pixel, polyline_pixels, square_fits, CoveredPixel,
    Pixel,
};
use crate::math::fx_vec::FxVec2;
use vstd::prelude::*;

verus! {

/// `core` limited to `0..=radius`.
pub open spec fn clamp_core(core: int, radius: int) -> int {
    if core < 0 {
        0
    } else if core > radius {
        radius
    } else {
        core
    }
}

/// Coverage at squared distance `d2` from the centre of a brush with flat core
/// `core` and edge `radius`: 255 in the core, falling off quadratically to zero
/// at the edge.
pub open spec fn brush_coverage(core: int, radius: int, d2: int) -> int {
    let c = clamp_core(core, radius);
    let r2 = radius * radius;
    let c2 = c * c;
    if d2 > r2 {
        0
    } else if d2 <= c2 {
        255
    } else {
        ((r2 - d2) * 255) / (r2 - c2)
    }
}

/// The coverage is a byte.
pub proof fn lemma_brush_coverage_range(core: int, radius: int, d2: int)
    requires
        radius >= 0,
    ensures
        0 <= brush_coverage(core, radius, d2) <= 255,
{
    let c = clamp_core(core, radius);
    let r2 = radius * radius;
    let c2 = c * c;
    if c2 < d2 <= r2 {
        assert(0 <= ((r2 - d2) * 255) / (r2 - c2) <= 255) by (nonlinear_arith)
            requires
                c2 < d2 <= r2,
        ;
    }
}

/// The coverage function, computed.
fn coverage(core: i32, radius: i32, d2: i32) -> (r: u8)
    requires
        0 <= core <= radius <= 32767,
        0 <= d2 <= radius * radius,
    ensures
        r == brush_coverage(core as int, radius as int, d2 as int),
{
    proof {
        lemma_offset_squares(core as int, radius as int);
        lemma_offset_squares(radius as int, 32767);
        lemma_brush_coverage_range(core as int, radius as int, d2 as int);
    }
    let r2: i32 = radius * radius;
    let c2: i32 = core * core;
    if d2 <= c2 {
        return 255;
    }
    let span: i64 = (r2 - c2) as i64;
    let rest: i64 = (r2 - d2) as i64;
    (rest * 255 / span) as u8
}

/// The covered pixels among the first `m` cells around `c`.
pub open spec fn feather_prefix(c: Pixel, core: int, radius: int, m: int) -> Seq<CoveredPixel>
    decreases m,
{
    if m <= 0 {
        Seq::empty()
    } else {
        let d = cell(radius, m - 1);
        let cov = brush_coverage(core, radius, dist_sq(d));
        let p = offset_pixel(c, d);
        if cov > 0 {
            feather_prefix(c, core, radius, m - 1).push((p.0, p.1, cov as u8))
        } else {
            feather_prefix(c, core, radius, m - 1)
        }
    }
}

/// The pixels that one feathered stamp at `c` covers, row by row; the centre
/// alone for a radius of zero or less.
pub open spec fn feather_pixels(c: Pixel, core: int, radius: int) -> Seq<CoveredPixel> {
    if radius <= 0 {
        seq![(c.0, c.1, 255u8)]
    } else {
        feather_prefix(c, core, radius, (2 * radius + 1) * (2 * radius + 1))
    }
}

/// Stamp a radially feathered brush at `(cx, cy)`.
pub fn stamp_feathered(cx: i32, cy: i32, core: i32, radius: i32) -> (out: Vec<CoveredPixel>)
    requires
        radius > 0 ==> brush_fits(radius as int) && square_fits((cx, cy), radius as int),
    ensures
        out@ == feather_pixels((cx, cy), core as int, radius as int),
{
    let mut out: Vec<CoveredPixel> = Vec::new();
    if radius <= 0 {
        out.push((cx, cy, 255));
        assert(out@ =~= feather_pixels((cx, cy), core as int, radius as int));
        return out;
    }
    proof {
        lemma_brush_narrow(radius as int);
    }
    let c: i32 = if core < 0 {
        0
    } else if core > radius {
        radius
    } else {
        core
    };
    let r2: i32 = radius * radius;
    let ghost side: int = 2 * radius + 1;
    let mut dy: i32 = -radius;
    assert((dy + radius) * side == 0) by (nonlinear_arith)
        requires
            dy + radius == 0,
    ;
    while dy <= radius
        invariant
            0 < radius <= 32767,
            brush_fits(radius as int),
            square_fits((cx, cy), radius as int),
            c == clamp_core(core as int, radius as int),
            r2 == radius * radius,
            side == 2 * radius + 1,
            -radius <= dy <= radius + 1,
            out@ == feather_prefix((cx, cy), core as int, radius as int, (dy + radius) * side),
        decreases radius + 1 - dy,
    {
        let mut dx: i32 = -radius;
        while dx <= radius
            invariant
                0 < radius <= 32767,
                brush_fits(radius as int),
                square_fits((cx, cy), radius as int),
                c == clamp_core(core as int, radius as int),
                r2 == radius * radius,
                side == 2 * radius + 1,
                -radius <= dy <= radius,
                -radius <= dx <= radius + 1,
                out@ == feather_prefix(
                    (cx, cy),
                    core as int,
                    radius as int,
                    (dy + radius) * side + (dx + radius),
                ),
            decreases radius + 1 - dx,
        {
            proof {
                lemma_offset_squares(dx as int, radius as int);
                lemma_offset_squares(dy as int, radius as int);
                lemma_cell(radius as int, dy + radius, dx + radius);
                assert(0 <= (dy + radius) * side) by (nonlinear_arith)
                    requires
                        0 <= dy + radius,
                        0 < side,
                ;
                lemma_brush_coverage_range(core as int, radius as int, dx * dx + dy * dy);
            }
            let d2: i32 = dx * dx + dy * dy;
            if d2 <= r2 {
                let cov: u8 = coverage(c, radius, d2);
                if cov > 0 {
                    out.push((cx + dx, cy + dy, cov));
                }
            }
            dx = dx + 1;
        }
        proof {
            lemma_cell(radius as int, dy + radius, 0);
        }
        dy = dy + 1;
    }
    out
}

/// The feathered stamps at each of the first `k` centres, one after the other.
pub open spec fn feathers_prefix(
    centres: Seq<Pixel>,
    core: int,
    radius: int,
    k: int,
) -> Seq<CoveredPixel>
    decreases k,
{
    if k <= 0 {
        Seq::empty()
    } else {
        feathers_prefix(centres, core, radius, k - 1) + feather_pixels(
            centres[k - 1],
            core,
            radius,
        )
    }
}

/// Rasterize a polyline as a glowing stroke: a feathered stamp at every pixel of
/// the centre line.
pub fn rasterize_glow_polyline(points: &[FxVec2], core: i32, radius: i32) -> (out: Vec<CoveredPixel>)
    requires
        all_roundable(points@),
        points.len() > 0 && radius > 0 ==> brush_fits(radius as int),
    ensures
        out@ == feathers_prefix(
            polyline_pixels(points@),
            core as int,
            radius as int,
            polyline_pixels(points@).len() as int,
        ),
{
    let centres: Vec<Pixel> = centre_line(points);
    if points.len() == 0 {
        assert(polyline_pixels(points@).len() == 0);
        return Vec::new();
    }
    proof {
        if radius > 0 {
            lemma_brush_narrow(radius as int);
        }
    }
    let mut out: Vec<CoveredPixel> = Vec::new();
    let mut k: usize = 0;
    while k < centres.len()
        invariant
            radius <= 32767,
            radius > 0 ==> brush_fits(radius as int),
            k <= centres.len(),
            forall|i: int| 0 <= i < centres.len() ==> near_origin(#[trigger] centres@[i]),
            out@ == feathers_prefix(centres@, core as int, radius as int, k as int),
        decreases centres.len() - k,
    {
        let (cx, cy) = centres[k];
        assert(near_origin(centres@[k as int]));
        let mut stamp: Vec<CoveredPixel> = stamp_feathered(cx, cy, core, radius);
        out.append(&mut stamp);
        k = k + 1;
    }
    out
}

/// `radius`, or zero where it is negative.
pub open spec fn glow_radius(radius: int) -> int {
    if radius < 0 {
        0
    } else {
        radius
    }
}

/// Coverage of pixel (`x`, `y`) by a stamp centred at `c`.
pub open spec fn stamp_at(c: Pixel, core: int, radius: int, x: int, y: int) -> int {
    brush_coverage(core, glow_radius(radius), dist_sq((x - c.0, y - c.1)))
}

/// The larger of two numbers.
pub open spec fn larger(a: int, b: int) -> int {
    if a > b {
        a
    } else {
        b
    }
}

/// The largest coverage of pixel (`x`, `y`) by the stamps at the first `k`
/// centres.
pub open spec fn glow_at(
    centres: Seq<Pixel>,
    core: int,
    radius: int,
    k: int,
    x: int,
    y: int,
) -> int
    decreases k,
{
    if k <= 0 {
        0
    } else {
        larger(
            glow_at(centres, core, radius, k - 1, x, y),
            stamp_at(centres[k - 1], core, radius, x, y),
        )
    }
}

/// The coverage buffer after stamps have been max-combined into it.
pub open spec fn painted(
    before: Seq<u8>,
    after: Seq<u8>,
    width: int,
    height: int,
    centres: Seq<Pixel>,
    core: int,
    radius: int,
    k: int,
) -> bool {
    &&& after.len() == before.len()
    &&& forall|i: int|
        0 <= i < before.len() ==> #[trigger] after[i] == if i < width * height {
            larger(before[i] as int, glow_at(centres, core, radius, k, i % width, i / width))
        } else {
            before[i] as int
        }
}

/// Row and column of a buffer index.
proof fn lemma_index(width: int, height: int, x: int, y: int)
    requires
        0 <= x < width,
        0 <= y < height,
    ensures
        (y * width + x) % width == x,
        (y * width + x) / width == y,
        0 <= y * width + x < width * height,
{
    vstd::arithmetic::div_mod::lemma_fundamental_div_mod_converse(y * width + x, width, y, x);
    assert(0 <= y * width + x < width * height) by (nonlinear_arith)
        requires
            0 <= x < width,
            0 <= y < height,
    ;
}

/// An index below the buffer size has its row and column inside the canvas.
proof fn lemma_unindex(width: int, height: int, i: int)
    requires
        0 < width,
        0 <= i < width * height,
    ensures
        0 <= i % width < width,
        0 <= i / width < height,
        i == (i / width) * width + i % width,
{
    vstd::arithmetic::div_mod::lemma_fundamental_div_mod(i, width);
    assert(0 <= i % width < width) by (nonlinear_arith)
        requires
            0 < width,
    ;
    assert(0 <= i / width < height) by (nonlinear_arith)
        requires
            0 < width,
            0 <= i < width * height,
    ;
    assert(width * (i / width) == (i / width) * width) by (nonlinear_arith);
}

/// Offset (`dx`, `dy`) comes before offset (`ox`, `oy`) in row-major order.
pub open spec fn earlier(dx: int, dy: int, ox: int, oy: int) -> bool {
    dy < oy || (dy == oy && dx < ox)
}

/// Part of a stamp at `c` has been combined: the offsets before (`ox`, `oy`).
pub open spec fn stamped_upto(
    before: Seq<u8>,
    after: Seq<u8>,
    width: int,
    height: int,
    c: Pixel,
    core: int,
    radius: int,
    ox: int,
    oy: int,
) -> bool {
    &&& after.len() == before.len()
    &&& forall|i: int|
        0 <= i < before.len() ==> #[trigger] after[i] == if i < width * height && earlier(
            i % width - c.0,
            i / width - c.1,
            ox,
            oy,
        ) {
            larger(before[i] as int, stamp_at(c, core, radius, i % width, i / width))
        } else {
            before[i] as int
        }
}

/// Coverage by squared distance, for every distance inside the brush.
fn coverage_table(core: i32, radius: i32) -> (lut: Vec<u8>)
    requires
        0 <= core <= radius <= 32767,
    ensures
        lut.len() == radius * radius + 1,
        forall|d2: int|
            0 <= d2 <= radius * radius ==> #[trigger] lut@[d2] == brush_coverage(
                core as int,
                radius as int,
                d2,
            ),
{
    proof {
        lemma_offset_squares(radius as int, 32767);
    }
    let r2: i32 = radius * radius;
    let mut lut: Vec<u8> = Vec::new();
    let mut d2: i32 = 0;
    while d2 <= r2
        invariant
            0 <= core <= radius <= 32767,
            r2 == radius * radius,
            r2 <= 32767 * 32767,
            0 <= d2 <= r2 + 1,
            lut.len() == d2,
            forall|k: int|
                0 <= k < d2 ==> #[trigger] lut@[k] == brush_coverage(core as int, radius as int, k),
        decreases r2 + 1 - d2,
    {
        lut.push(coverage(core, radius, d2));
        d2 = d2 + 1;
    }
    lut
}

/// Max-combine one stamp at `(cx, cy)` into the coverage buffer.
fn stamp_into(
    cov: &mut [u8],
    width: usize,
    height: usize,
    cx: i32,
    cy: i32,
    core: i32,
    radius: i32,
    lut: &Vec<u8>,
)
    requires
        0 < width <= i32::MAX,
        0 < height <= i32::MAX,
        width * height <= old(cov).len(),
        near_origin((cx, cy)),
        0 <= core <= radius <= 32767,
        lut.len() == radius * radius + 1,
        forall|d2: int|
            0 <= d2 <= radius * radius ==> #[trigger] lut@[d2] == brush_coverage(
                core as int,
                radius as int,
                d2,
            ),
    ensures
        final(cov).len() == old(cov).len(),
        forall|i: int|
            0 <= i < old(cov).len() ==> #[trigger] final(cov)@[i] == if i < width * height {
                larger(
                    old(cov)@[i] as int,
                    stamp_at(
                        (cx, cy),
                        core as int,
                        radius as int,
                        i % (width as int),
                        i / (width as int),
                    ),
                )
            } else {
                old(cov)@[i] as int
            },
{
    let ghost before = cov@;
    let ghost c = (cx, cy);
    let ghost w = width as int;
    let ghost h = height as int;
    proof {
        lemma_offset_squares(radius as int, 32767);
        assert forall|i: int| 0 <= i < before.len() implies #[trigger] cov@[i] == if i < w * h
            && earlier(i % w - c.0, i / w - c.1, -radius as int, -radius as int) {
            larger(before[i] as int, stamp_at(c, core as int, radius as int, i % w, i / w))
        } else {
            before[i] as int
        } by {
            if i < w * h {
                lemma_outside_brush(i % w - c.0, i / w - c.1, radius as int);
            }
        }
    }
    let r2: i32 = radius * radius;
    let mut dy: i32 = -radius;
    while dy <= radius
        invariant
            w == width,
            h == height,
            c == (cx, cy),
            0 < width <= i32::MAX,
            0 < height <= i32::MAX,
            width * height <= before.len(),
            near_origin((cx, cy)),
            0 <= core <= radius <= 32767,
            r2 == radius * radius,
            r2 <= 32767 * 32767,
            lut.len() == r2 + 1,
            forall|d2: int|
                0 <= d2 <= r2 ==> #[trigger] lut@[d2] == brush_coverage(
                    core as int,
                    radius as int,
                    d2,
                ),
            -radius <= dy <= radius + 1,
            stamped_upto(
                before,
                cov@,
                w,
                h,
                c,
                core as int,
                radius as int,
                -radius as int,
                dy as int,
            ),
        decreases radius + 1 - dy,
    {
        let y: i32 = cy + dy;
        if y >= 0 && (y as usize) < height {
            proof {
                lemma_index(w, h, 0, y as int);
                assert(cov.len() == before.len());
            }
            let row: usize = y as usize * width;
            let mut dx: i32 = -radius;
            while dx <= radius
                invariant
                    w == width,
                    h == height,
                    c == (cx, cy),
                    0 < width <= i32::MAX,
                    0 < height <= i32::MAX,
                    width * height <= before.len(),
                    near_origin((cx, cy)),
                    0 <= core <= radius <= 32767,
                    r2 == radius * radius,
                    r2 <= 32767 * 32767,
                    lut.len() == r2 + 1,
                    forall|d2: int|
                        0 <= d2 <= r2 ==> #[trigger] lut@[d2] == brush_coverage(
                            core as int,
                            radius as int,
                            d2,
                        ),
                    -radius <= dy <= radius,
                    y == cy + dy,
                    0 <= y < height,
                    row == y * width,
                    -radius <= dx <= radius + 1,
                    stamped_upto(
                        before,
                        cov@,
                        w,
                        h,
                        c,
                        core as int,
                        radius as int,
                        dx as int,
                        dy as int,
                    ),
                decreases radius + 1 - dx,
            {
                let ghost prev = cov@;
                proof {
                    lemma_offset_squares(dx as int, radius as int);
                    lemma_offset_squares(dy as int, radius as int);
                }
                let d2: i32 = dx * dx + dy * dy;
                let x: i32 = cx + dx;
                if x >= 0 && (x as usize) < width {
                    proof {
                        lemma_index(w, h, x as int, y as int);
                        assert(cov.len() == before.len());
                    }
                    if d2 <= r2 {
                        let v: u8 = lut[d2 as usize];
                        let i: usize = row + x as usize;
                        if v > cov[i] {
                            cov[i] = v;
                        }
                    }
                }
                proof {
                    lemma_stamp_step(
                        before,
                        prev,
                        cov@,
                        w,
                        h,
                        c,
                        core as int,
                        radius as int,
                        dx as int,
                        dy as int,
                    );
                }
                dx = dx + 1;
            }
            proof {
                lemma_stamp_row_end(before, cov@, w, h, c, core as int, radius as int, dy as int);
            }
        } else {
            proof {
                lemma_stamp_row_off(before, cov@, w, h, c, core as int, radius as int, dy as int);
            }
        }
        dy = dy + 1;
    }
    proof {
        assert forall|i: int| 0 <= i < before.len() implies #[trigger] cov@[i] == if i < w * h {
            larger(before[i] as int, stamp_at(c, core as int, radius as int, i % w, i / w))
        } else {
            before[i] as int
        } by {
            if i < w * h {
                lemma_outside_brush(i % w - c.0, i / w - c.1, radius as int);
            }
        }
    }
}

/// An offset outside the square of the brush is outside the brush.
proof fn lemma_outside_brush(dx: int, dy: int, radius: int)
    requires
        radius >= 0,
    ensures
        dx < -radius || dx > radius || dy < -radius || dy > radius ==> dist_sq((dx, dy)) > radius
            * radius,
{
    assert(dx * dx >= 0 && dy * dy >= 0) by (nonlinear_arith);
    if dx < -radius || dx > radius {
        assert(dx * dx > radius * radius) by (nonlinear_arith)
            requires
                dx < -radius || dx > radius,
                radius >= 0,
        ;
    }
    if dy < -radius || dy > radius {
        assert(dy * dy > radius * radius) by (nonlinear_arith)
            requires
                dy < -radius || dy > radius,
                radius >= 0,
        ;
    }
}

/// Combining the cell at offset (`dx`, `dy`) extends a partial stamp by it.
proof fn lemma_stamp_step(
    before: Seq<u8>,
    prev: Seq<u8>,
    now: Seq<u8>,
    w: int,
    h: int,
    c: Pixel,
    core: int,
    radius: int,
    dx: int,
    dy: int,
)
    requires
        0 < w,
        0 < h,
        w * h <= before.len(),
        radius >= 0,
        0 <= c.1 + dy < h,
        stamped_upto(before, prev, w, h, c, core, radius, dx, dy),
        now.len() == prev.len(),
        ({
            let x = c.0 + dx;
            let y = c.1 + dy;
            let k = y * w + x;
            if 0 <= x < w {
                now =~= prev.update(
                    k,
                    larger(prev[k] as int, stamp_at(c, core, radius, x, y)) as u8,
                )
            } else {
                now == prev
            }
        }),
    ensures
        stamped_upto(before, now, w, h, c, core, radius, dx + 1, dy),
{
    let x = c.0 + dx;
    let y = c.1 + dy;
    let k = y * w + x;
    if 0 <= x < w {
        lemma_index(w, h, x, y);
        lemma_brush_coverage_range(core, radius, dist_sq((dx, dy)));
    }
    assert forall|i: int| 0 <= i < before.len() implies #[trigger] now[i] == if i < w * h
        && earlier(i % w - c.0, i / w - c.1, dx + 1, dy) {
        larger(before[i] as int, stamp_at(c, core, radius, i % w, i / w))
    } else {
        before[i] as int
    } by {
        assert(prev[i] == prev[i]);
        if i < w * h {
            lemma_unindex(w, h, i);
            if i % w == x && i / w == y {
                assert(i == k);
            }
        }
    }
}

/// At the end of a row every offset of the row has been combined.
proof fn lemma_stamp_row_end(
    before: Seq<u8>,
    now: Seq<u8>,
    w: int,
    h: int,
    c: Pixel,
    core: int,
    radius: int,
    dy: int,
)
    requires
        radius >= 0,
        stamped_upto(before, now, w, h, c, core, radius, radius + 1, dy),
    ensures
        stamped_upto(before, now, w, h, c, core, radius, -radius, dy + 1),
{
    assert forall|i: int| 0 <= i < before.len() implies #[trigger] now[i] == if i < w * h
        && earlier(i % w - c.0, i / w - c.1, -radius, dy + 1) {
        larger(before[i] as int, stamp_at(c, core, radius, i % w, i / w))
    } else {
        before[i] as int
    } by {
        lemma_outside_brush(i % w - c.0, i / w - c.1, radius);
    }
}

/// A row off the canvas has nothing to combine.
proof fn lemma_stamp_row_off(
    before: Seq<u8>,
    now: Seq<u8>,
    w: int,
    h: int,
    c: Pixel,
    core: int,
    radius: int,
    dy: int,
)
    requires
        radius >= 0,
        0 < w,
        0 < h,
        !(0 <= c.1 + dy < h),
        stamped_upto(before, now, w, h, c, core, radius, -radius, dy),
    ensures
        stamped_upto(before, now, w, h, c, core, radius, -radius, dy + 1),
{
    assert forall|i: int| 0 <= i < before.len() implies #[trigger] now[i] == if i < w * h
        && earlier(i % w - c.0, i / w - c.1, -radius, dy + 1) {
        larger(before[i] as int, stamp_at(c, core, radius, i % w, i / w))
    } else {
        before[i] as int
    } by {
        if i < w * h {
            lemma_unindex(w, h, i);
            lemma_outside_brush(i % w - c.0, i / w - c.1, radius);
        }
    }
}

/// Paint a glowing stroke into a row-major `width` by `height` coverage buffer,
/// max-combining it with what is there. Pixels off the canvas are clipped.
pub fn paint_glow(
    cov: &mut [u8],
    width: usize,
    height: usize,
    points: &[FxVec2],
    core: i32,
    radius: i32,
)
    requires
        points.len() > 0 && width > 0 && height > 0 ==> {
            &&& width <= i32::MAX
            &&& height <= i32::MAX
            &&& width * height <= old(cov).len()
            &&& all_roundable(points@)
            &&& radius > 0 ==> brush_fits(radius as int)
        },
    ensures
        painted(
            old(cov)@,
            final(cov)@,
            width as int,
            height as int,
            polyline_pixels(points@),
            core as int,
            radius as int,
            polyline_pixels(points@).len() as int,
        ),
{
    let ghost before = cov@;
    let ghost w = width as int;
    let ghost h = height as int;
    if points.len() == 0 {
        assert(polyline_pixels(points@).len() == 0);
        return;
    }
    if width == 0 || height == 0 {
        assert(w * h == 0) by (nonlinear_arith)
            requires
                w == 0 || h == 0,
        ;
        return;
    }
    let r: i32 = if radius < 0 {
        0
    } else {
        radius
    };
    proof {
        assert(brush_fits(0)) by (nonlinear_arith);
        lemma_brush_narrow(r as int);
    }
    let c: i32 = if core < 0 {
        0
    } else if core > r {
        r
    } else {
        core
    };
    let lut: Vec<u8> = coverage_table(c, r);
    let centres: Vec<Pixel> = centre_line(points);
    let mut k: usize = 0;
    while k < centres.len()
        invariant
            w == width,
            h == height,
            0 < width <= i32::MAX,
            0 < height <= i32::MAX,
            width * height <= before.len(),
            r == glow_radius(radius as int),
            c == clamp_core(core as int, r as int),
            0 <= c <= r <= 32767,
            lut.len() == r * r + 1,
            forall|d2: int|
                0 <= d2 <= r * r ==> #[trigger] lut@[d2] == brush_coverage(c as int, r as int, d2),
            k <= centres.len(),
            forall|i: int| 0 <= i < centres.len() ==> near_origin(#[trigger] centres@[i]),
            painted(before, cov@, w, h, centres@, core as int, radius as int, k as int),
        decreases centres.len() - k,
    {
        let (cx, cy) = centres[k];
        assert(near_origin(centres@[k as int]));
        let ghost prev = cov@;
        stamp_into(cov, width, height, cx, cy, c, r, &lut);
        assert forall|i: int| 0 <= i < before.len() implies #[trigger] cov@[i] == if i < w * h {
            larger(
                before[i] as int,
                glow_at(centres@, core as int, radius as int, k + 1, i % w, i / w),
            )
        } else {
            before[i] as int
        } by {
            assert(prev[i] == prev[i]);
        }
        k = k + 1;
    }
}

/// Painting never lowers coverage.
pub proof fn law_painting_never_darkens(
    before: Seq<u8>,
    after: Seq<u8>,
    width: int,
    height: int,
    centres: Seq<Pixel>,
    core: int,
    radius: int,
    k: int,
    i: int,
)
    requires
        painted(before, after, width, height, centres, core, radius, k),
        0 <= i < before.len(),
    ensures
        before[i] <= after[i],
{
    assert(after[i] == after[i]);
}

/// Painting the same stroke a second time changes nothing.
pub proof fn law_painting_is_idempotent(
    before: Seq<u8>,
    once: Seq<u8>,
    twice: Seq<u8>,
    width: int,
    height: int,
    centres: Seq<Pixel>,
    core: int,
    radius: int,
    k: int,
)
    requires
        painted(before, once, width, height, centres, core, radius, k),
        painted(once, twice, width, height, centres, core, radius, k),
    ensures
        twice == once,
{
    assert forall|i: int| 0 <= i < once.len() implies twice[i] == once[i] by {
        assert(once[i] == once[i]);
    }
    assert(twice =~= once);
}

/// The glow never brightens away from the centre of a stamp.
pub proof fn law_glow_falls_off(core: int, radius: int, near: int, far: int)
    requires
        radius >= 0,
        0 <= near <= far,
    ensures
        brush_coverage(core, radius, far) <= brush_coverage(core, radius, near),
{
    lemma_brush_coverage_range(core, radius, near);
    lemma_brush_coverage_range(core, radius, far);
    let c = clamp_core(core, radius);
    let r2 = radius * radius;
    let c2 = c * c;
    if c2 < near && far <= r2 {
        assert(((r2 - far) * 255) / (r2 - c2) <= ((r2 - near) * 255) / (r2 - c2))
            by (nonlinear_arith)
            requires
                c2 < near <= far <= r2,
        ;
    }
}

/// The largest coverage that a list of covered pixels gives pixel (`x`, `y`).
pub open spec fn best_coverage(pixels: Seq<CoveredPixel>, x: int, y: int) -> int
    decreases pixels.len(),
{
    if pixels.len() == 0 {
        0
    } else {
        let p = pixels.last();
        larger(
            best_coverage(pixels.drop_last(), x, y),
            if p.0 == x && p.1 == y {
                p.2 as int
            } else {
                0
            },
        )
    }
}

/// The best coverage of two lists together.
proof fn lemma_best_concat(a: Seq<CoveredPixel>, b: Seq<CoveredPixel>, x: int, y: int)
    ensures
        best_coverage(a + b, x, y) == larger(best_coverage(a, x, y), best_coverage(b, x, y)),
        0 <= best_coverage(a, x, y),
    decreases b.len(), a.len(),
{
    if a.len() > 0 {
        assert((a.drop_last() + Seq::<CoveredPixel>::empty()) =~= a.drop_last());
        lemma_best_concat(a.drop_last(), Seq::empty(), x, y);
    }
    if b.len() == 0 {
        assert(a + b =~= a);
    } else {
        assert((a + b).drop_last() =~= a + b.drop_last());
        lemma_best_concat(a, b.drop_last(), x, y);
        lemma_best_nonnegative(b.drop_last(), x, y);
    }
}

proof fn lemma_best_nonnegative(a: Seq<CoveredPixel>, x: int, y: int)
    ensures
        0 <= best_coverage(a, x, y),
    decreases a.len(),
{
    if a.len() > 0 {
        lemma_best_nonnegative(a.drop_last(), x, y);
    }
}

/// One stamp gives a pixel the coverage of its distance from the centre.
proof fn lemma_best_of_feather_prefix(c: Pixel, core: int, radius: int, m: int, x: int, y: int)
    requires
        radius > 0,
        square_fits(c, radius),
        0 <= m <= (2 * radius + 1) * (2 * radius + 1),
    ensures
        best_coverage(feather_prefix(c, core, radius, m), x, y) == if -radius <= x - c.0 <= radius
            && -radius <= y - c.1 <= radius && (y - c.1 + radius) * (2 * radius + 1) + (x - c.0
            + radius) < m {
            stamp_at(c, core, radius, x, y)
        } else {
            0
        },
    decreases m,
{
    let side = 2 * radius + 1;
    let (dx, dy) = (x - c.0, y - c.1);
    let at = (dy + radius) * side + (dx + radius);
    if m > 0 {
        lemma_best_of_feather_prefix(c, core, radius, m - 1, x, y);
        let d = cell(radius, m - 1);
        lemma_unindex(side, side, m - 1);
        let cov = brush_coverage(core, radius, dist_sq(d));
        lemma_brush_coverage_range(core, radius, dist_sq(d));
        let head = feather_prefix(c, core, radius, m - 1);
        let p = offset_pixel(c, d);
        assert(p.0 == c.0 + d.0 && p.1 == c.1 + d.1);
        if cov > 0 {
            assert(head.push((p.0, p.1, cov as u8)).drop_last() =~= head);
        }
        if d.0 == dx && d.1 == dy {
            assert(at == m - 1);
        } else if -radius <= dx <= radius && -radius <= dy <= radius {
            lemma_cell(radius, dy + radius, dx + radius);
            assert(at != m - 1);
        }
    } else {
        if -radius <= dx <= radius && -radius <= dy <= radius {
            assert(0 <= at) by (nonlinear_arith)
                requires
                    at == (dy + radius) * side + (dx + radius),
                    0 <= dy + radius,
                    0 <= dx + radius,
                    0 < side,
            ;
        }
    }
}

/// Max-combining the pixels of the listed stroke gives what painting the stroke
/// gives, at every pixel.
pub proof fn law_listed_glow_matches_painted_glow(
    centres: Seq<Pixel>,
    core: int,
    radius: int,
    k: int,
    x: int,
    y: int,
)
    requires
        0 <= k <= centres.len(),
        forall|i: int|
            0 <= i < centres.len() ==> square_fits(#[trigger] centres[i], glow_radius(radius)),
    ensures
        best_coverage(feathers_prefix(centres, core, radius, k), x, y) == glow_at(
            centres,
            core,
            radius,
            k,
            x,
            y,
        ),
    decreases k,
{
    if k > 0 {
        law_listed_glow_matches_painted_glow(centres, core, radius, k - 1, x, y);
        let c = centres[k - 1];
        assert(square_fits(c, glow_radius(radius)));
        lemma_best_concat(
            feathers_prefix(centres, core, radius, k - 1),
            feather_pixels(c, core, radius),
            x,
            y,
        );
        if radius > 0 {
            let side = 2 * radius + 1;
            lemma_best_of_feather_prefix(c, core, radius, side * side, x, y);
            let (dx, dy) = (x - c.0, y - c.1);
            lemma_outside_brush(dx, dy, radius);
            if -radius <= dx <= radius && -radius <= dy <= radius {
                lemma_index(side, side, dx + radius, dy + radius);
            }
        } else {
            let one = seq![(c.0, c.1, 255u8)];
            assert(one.drop_last() =~= Seq::<CoveredPixel>::empty());
            reveal_with_fuel(best_coverage, 2);
            lemma_outside_brush(x - c.0, y - c.1, 0);
            assert(0int * 0int == 0) by (nonlinear_arith);
        }
    }
}

} // verus!
