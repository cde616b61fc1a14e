//! Stroke rasterization: the pixels that paint a polyline, in plotting order.
//!
//! Coordinates may fall outside any framebuffer; whoever writes the pixels
//! clips them.

use crate::math::fx::{fx_div, fx_mul, Fx32};
use crate::math::fx_vec::FxVec2;
use crate::math::hw::wrap32;
use vstd::math::abs;
use vstd::prelude::*;

verus! {

/// A pixel position.
pub type Pixel = (i32, i32);

/// A pixel position and how much of the pixel is covered, `0..=255`.
pub type CoveredPixel = (i32, i32, u8);

/// The integer nearest to the raw 20.12 number `x`, halves rounded up.
pub open spec fn round_px(x: int) -> int {
    (x + 2048) / 4096
}

/// Adding a half to `x` does not leave the 32-bit range.
pub open spec fn can_round(x: Fx32) -> bool {
    x.r() + 2048 <= i32::MAX
}

/// Both coordinates of `p` can be rounded to a pixel.
pub open spec fn roundable(p: FxVec2) -> bool {
    can_round(p.x) && can_round(p.y)
}

/// Every vertex can be rounded to a pixel.
pub open spec fn all_roundable(points: Seq<FxVec2>) -> bool {
    forall|i: int| 0 <= i < points.len() ==> roundable(#[trigger] points[i])
}

/// The pixel nearest to `p`.
pub open spec fn pixel_of(p: FxVec2) -> Pixel {
    (round_px(p.x.r()) as i32, round_px(p.y.r()) as i32)
}

/// Round a 20.12 coordinate to the nearest integer pixel.
pub fn round_i32(x: Fx32) -> (r: i32)
    requires
        can_round(x),
    ensures
        r == round_px(x.r()),
        -0x8_0000 <= r <= 0x8_0000,
{
    let y: i32 = x.0 + 2048;
    assert(y >> 12 == y as int / 4096) by (bit_vector);
    y >> 12
}

/// The integer nearest to `n / d`, halves rounded up.
pub open spec fn half_up(n: int, d: int) -> int {
    if d == 0 {
        0
    } else {
        (2 * n + d) / (2 * d)
    }
}

/// The unit step from `a` toward `b`.
pub open spec fn toward(a: int, b: int) -> int {
    if a < b {
        1
    } else {
        -1
    }
}

/// Number of pixels on the line between two pixels: one per column of the
/// longer axis.
pub open spec fn line_len(p: Pixel, q: Pixel) -> nat {
    let dx = abs(q.0 - p.0);
    let dy = abs(q.1 - p.1);
    if dx >= dy {
        dx + 1
    } else {
        dy + 1
    }
}

/// Pixel `k` of the line from `p` to `q`: `k` steps along the longer axis, and
/// on the other axis the pixel nearest to the ideal line.
pub open spec fn line_pixel(p: Pixel, q: Pixel, k: int) -> Pixel {
    let dx = abs(q.0 - p.0) as int;
    let dy = abs(q.1 - p.1) as int;
    let sx = toward(p.0 as int, q.0 as int);
    let sy = toward(p.1 as int, q.1 as int);
    if dx >= dy {
        ((p.0 + sx * k) as i32, (p.1 + sy * half_up(k * dy, dx)) as i32)
    } else {
        ((p.0 + sx * half_up(k * dx, dy)) as i32, (p.1 + sy * k) as i32)
    }
}

/// The line from `p` to `q`, both ends included.
pub open spec fn line_pixels(p: Pixel, q: Pixel) -> Seq<Pixel> {
    Seq::new(line_len(p, q), |k: int| line_pixel(p, q, k))
}

/// What rounding to the nearest integer means.
pub proof fn lemma_half_up(n: int, d: int, q: int)
    requires
        d > 0,
    ensures
        q == half_up(n, d) <==> 2 * d * q <= 2 * n + d < 2 * d * q + 2 * d,
{
    let m = 2 * n + d;
    let e = 2 * d;
    let h = m / e;
    assert(e * h <= m < e * h + e) by (nonlinear_arith)
        requires
            e > 0,
            h == m / e,
    ;
    if e * q <= m < e * q + e {
        assert(q == h) by (nonlinear_arith)
            requires
                e > 0,
                e * q <= m < e * q + e,
                e * h <= m < e * h + e,
        ;
    }
}

/// One step along the longer axis `major`: the rounded position on the shorter
/// axis stays or advances by one, as the error term tells.
pub proof fn lemma_line_step(major: int, minor: int, k: int, j: int)
    requires
        0 <= minor <= major,
        0 < major,
        0 <= k,
        j == half_up(k * minor, major),
    ensures
        -major <= 2 * (k * minor - j * major) < major,
        2 * ((j + 1) * major - (k + 1) * minor) <= major <==> half_up((k + 1) * minor, major) == j + 1,
        2 * ((j + 1) * major - (k + 1) * minor) > major <==> half_up((k + 1) * minor, major) == j,
        (j + 1) * major == j * major + major,
        (k + 1) * minor == k * minor + minor,
{
    assert((j + 1) * major == j * major + major) by (nonlinear_arith);
    assert((k + 1) * minor == k * minor + minor) by (nonlinear_arith);
    lemma_half_up(k * minor, major, j);
    lemma_half_up((k + 1) * minor, major, j);
    lemma_half_up((k + 1) * minor, major, j + 1);
    assert(2 * major * j == 2 * (j * major)) by (nonlinear_arith);
    assert(2 * major * (j + 1) == 2 * (j * major) + 2 * major) by (nonlinear_arith);
}

/// The rounded position on the shorter axis starts at zero, ends at the full
/// extent and stays in between.
pub proof fn lemma_line_range(major: int, minor: int, k: int)
    requires
        0 <= minor <= major,
        0 <= k <= major,
        0 < major,
    ensures
        0 <= half_up(k * minor, major) <= minor,
        half_up(0 * minor, major) == 0,
        half_up(major * minor, major) == minor,
{
    let j = half_up(k * minor, major);
    lemma_half_up(k * minor, major, j);
    assert(0 <= k * minor <= major * minor) by (nonlinear_arith)
        requires
            0 <= k <= major,
            0 <= minor,
    ;
    assert(0 <= j <= minor) by (nonlinear_arith)
        requires
            2 * major * j <= 2 * (k * minor) + major < 2 * major * j + 2 * major,
            0 <= k * minor <= major * minor,
            0 < major,
    ;
    lemma_half_up(0 * minor, major, 0);
    lemma_half_up(major * minor, major, minor);
    assert(2 * major * minor == 2 * (major * minor)) by (nonlinear_arith);
}

/// Rasterize the segment `a -> b` (Bresenham): one pixel per step of the longer
/// axis, endpoints included.
pub fn rasterize_line(a: FxVec2, b: FxVec2) -> (out: Vec<Pixel>)
    requires
        roundable(a),
        roundable(b),
    ensures
        out@ == line_pixels(pixel_of(a), pixel_of(b)),
{
    let x0: i32 = round_i32(a.x);
    let y0: i32 = round_i32(a.y);
    let x1: i32 = round_i32(b.x);
    let y1: i32 = round_i32(b.y);
    let dx: i32 = if x1 >= x0 { x1 - x0 } else { x0 - x1 };
    let ady: i32 = if y1 >= y0 { y1 - y0 } else { y0 - y1 };
    let dy: i32 = -ady;
    let sx: i32 = if x0 < x1 { 1 } else { -1 };
    let sy: i32 = if y0 < y1 { 1 } else { -1 };
    let ghost p = pixel_of(a);
    let ghost q = pixel_of(b);
    let mut err: i32 = dx + dy;
    let mut x: i32 = x0;
    let mut y: i32 = y0;
    let mut out: Vec<Pixel> = Vec::new();
    let ghost mut i: int = 0;
    let ghost mut j: int = 0;
    proof {
        lemma_err_step(0, 0, dx as int, ady as int);
        if dx >= ady && dx > 0 {
            lemma_line_range(dx as int, ady as int, 0);
        }
        if ady > dx {
            lemma_line_range(ady as int, dx as int, 0);
        }
    }
    loop
        invariant
            p == pixel_of(a),
            q == pixel_of(b),
            p == (x0, y0),
            q == (x1, y1),
            -0x8_0000 <= x0 <= 0x8_0000,
            -0x8_0000 <= y0 <= 0x8_0000,
            -0x8_0000 <= x1 <= 0x8_0000,
            -0x8_0000 <= y1 <= 0x8_0000,
            dx == abs(x1 - x0),
            ady == abs(y1 - y0),
            dy == -ady,
            sx == toward(x0 as int, x1 as int),
            sy == toward(y0 as int, y1 as int),
            x == x0 + sx * i,
            y == y0 + sy * j,
            0 <= i <= dx,
            0 <= j <= ady,
            err == (j + 1) * dx - (i + 1) * ady,
            out.len() < line_len(p, q),
            forall|k: int| 0 <= k < out.len() ==> out@[k] == #[trigger] line_pixel(p, q, k),
            dx >= ady ==> i == out.len(),
            dx >= ady && dx > 0 ==> j == half_up(i * ady, dx as int),
            ady > dx ==> j == out.len(),
            ady > dx ==> i == half_up(j * dx, ady as int),
        decreases line_len(p, q) - out.len(),
    {
        let ghost k = out.len() as int;
        out.push((x, y));
        assert(out@[k] == line_pixel(p, q, k));
        proof {
            if dx >= ady && dx > 0 {
                lemma_line_range(dx as int, ady as int, i);
                if i == dx {
                    assert(i * ady == dx * ady);
                }
            } else if ady > dx {
                lemma_line_range(ady as int, dx as int, j);
                if j == ady {
                    assert(j * dx == ady * dx);
                }
            }
        }
        if x == x1 && y == y1 {
            assert(out@ =~= line_pixels(p, q));
            return out;
        }
        proof {
            if dx >= ady {
                lemma_line_step(dx as int, ady as int, i, j);
                lemma_line_range(dx as int, ady as int, i + 1);
            } else {
                lemma_line_step(ady as int, dx as int, j, i);
                lemma_line_range(ady as int, dx as int, j + 1);
            }
            lemma_err_step(i, j, dx as int, ady as int);
            assert(sx * (i + 1) == sx * i + sx) by (nonlinear_arith);
            assert(sy * (j + 1) == sy * j + sy) by (nonlinear_arith);
        }
        let e2: i32 = 2 * err;
        if e2 >= dy {
            err = err + dy;
            x = x + sx;
            proof {
                i = i + 1;
            }
        }
        if e2 <= dx {
            err = err + dx;
            y = y + sy;
            proof {
                j = j + 1;
            }
        }
    }
}

/// How the error term changes with a step on either axis.
proof fn lemma_err_step(i: int, j: int, dx: int, dy: int)
    ensures
        (j + 1) * dx == j * dx + dx,
        (j + 2) * dx == j * dx + 2 * dx,
        (i + 1) * dy == i * dy + dy,
        (i + 2) * dy == i * dy + 2 * dy,
        i * dy == dy * i,
        j * dx == dx * j,
{
    assert((j + 1) * dx == j * dx + dx) by (nonlinear_arith);
    assert((j + 2) * dx == j * dx + 2 * dx) by (nonlinear_arith);
    assert((i + 1) * dy == i * dy + dy) by (nonlinear_arith);
    assert((i + 2) * dy == i * dy + 2 * dy) by (nonlinear_arith);
    assert(i * dy == dy * i) by (nonlinear_arith);
    assert(j * dx == dx * j) by (nonlinear_arith);
}

/// The pixels of the first `k` segments of the polyline `points`.
pub open spec fn segments_pixels(points: Seq<FxVec2>, k: int) -> Seq<Pixel>
    decreases k,
{
    if k <= 0 {
        Seq::empty()
    } else {
        segments_pixels(points, k - 1) + line_pixels(pixel_of(points[k - 1]), pixel_of(points[k]))
    }
}

/// The pixels of the polyline `points`, segment after segment. A single point is
/// a single pixel, and joints belong to both their segments.
pub open spec fn polyline_pixels(points: Seq<FxVec2>) -> Seq<Pixel> {
    if points.len() == 1 {
        seq![pixel_of(points[0])]
    } else {
        segments_pixels(points, points.len() - 1)
    }
}

/// Rasterize a polyline by chaining [`rasterize_line`] over its segments.
pub fn rasterize_polyline(points: &[FxVec2]) -> (out: Vec<Pixel>)
    requires
        all_roundable(points@),
    ensures
        out@ == polyline_pixels(points@),
{
    let mut out: Vec<Pixel> = Vec::new();
    let n: usize = points.len();
    if n == 0 {
        return out;
    }
    if n == 1 {
        out.push((round_i32(points[0].x), round_i32(points[0].y)));
        assert(out@ =~= polyline_pixels(points@));
        return out;
    }
    let mut k: usize = 0;
    while k < n - 1
        invariant
            n == points.len(),
            n >= 2,
            k <= n - 1,
            all_roundable(points@),
            out@ == segments_pixels(points@, k as int),
        decreases n - k,
    {
        let mut line: Vec<Pixel> = rasterize_line(points[k], points[k + 1]);
        out.append(&mut line);
        k = k + 1;
    }
    out
}

/// Cell `m`, in row-major order, of the square of half-width `radius` around
/// the pixel `c`, as an offset from `c`.
pub open spec fn cell(radius: int, m: int) -> (int, int) {
    (m % (2 * radius + 1) - radius, m / (2 * radius + 1) - radius)
}

/// Squared length of an offset.
pub open spec fn dist_sq(d: (int, int)) -> int {
    d.0 * d.0 + d.1 * d.1
}

/// The pixel at offset `d` from `c`.
pub open spec fn offset_pixel(c: Pixel, d: (int, int)) -> Pixel {
    ((c.0 + d.0) as i32, (c.1 + d.1) as i32)
}

/// The pixels within `radius` of `c` among the first `m` cells around it.
pub open spec fn disc_prefix(c: Pixel, radius: int, m: int) -> Seq<Pixel>
    decreases m,
{
    if m <= 0 {
        Seq::empty()
    } else {
        let d = cell(radius, m - 1);
        if dist_sq(d) <= radius * radius {
            disc_prefix(c, radius, m - 1).push(offset_pixel(c, d))
        } else {
            disc_prefix(c, radius, m - 1)
        }
    }
}

/// The filled disc of pixel radius `radius` around `c`, row by row; the centre
/// alone for a radius of zero or less.
pub open spec fn disc_pixels(c: Pixel, radius: int) -> Seq<Pixel> {
    if radius <= 0 {
        seq![c]
    } else {
        disc_prefix(c, radius, (2 * radius + 1) * (2 * radius + 1))
    }
}

/// A brush of this radius has squared distances that fit 32 bits.
pub open spec fn brush_fits(radius: int) -> bool {
    2 * (radius * radius) <= i32::MAX
}

/// The square around `c` stays inside the 32-bit range.
pub open spec fn square_fits(c: Pixel, radius: int) -> bool {
    &&& i32::MIN <= c.0 - radius
    &&& c.0 + radius <= i32::MAX
    &&& i32::MIN <= c.1 - radius
    &&& c.1 + radius <= i32::MAX
}

/// Row and column of cell `row * side + col`.
pub proof fn lemma_cell(radius: int, row: int, col: int)
    requires
        radius >= 0,
        0 <= col < 2 * radius + 1,
        0 <= row,
    ensures
        cell(radius, row * (2 * radius + 1) + col) == (col - radius, row - radius),
        (row + 1) * (2 * radius + 1) == row * (2 * radius + 1) + 2 * radius + 1,
{
    let side = 2 * radius + 1;
    vstd::arithmetic::div_mod::lemma_fundamental_div_mod_converse(
        row * side + col,
        side,
        row,
        col,
    );
    assert((row + 1) * side == row * side + side) by (nonlinear_arith);
}

/// Squares of offsets inside the brush square are small.
pub proof fn lemma_offset_squares(d: int, radius: int)
    requires
        -radius <= d <= radius,
    ensures
        0 <= d * d <= radius * radius,
{
    assert(0 <= d * d <= radius * radius) by (nonlinear_arith)
        requires
            -radius <= d <= radius,
    ;
}

/// A brush whose squared distances fit is narrow.
pub proof fn lemma_brush_narrow(radius: int)
    requires
        radius >= 0,
        brush_fits(radius),
    ensures
        radius <= 32767,
{
    assert(radius <= 32767) by (nonlinear_arith)
        requires
            radius >= 0,
            2 * (radius * radius) <= 0x7FFF_FFFF,
    ;
}

/// Stamp a filled disc of pixel radius `radius` centred at `(cx, cy)`.
pub fn stamp_disc(cx: i32, cy: i32, radius: i32) -> (out: Vec<Pixel>)
    requires
        radius > 0 ==> brush_fits(radius as int) && square_fits((cx, cy), radius as int),
    ensures
        out@ == disc_pixels((cx, cy), radius as int),
{
    let mut out: Vec<Pixel> = Vec::new();
    if radius <= 0 {
        out.push((cx, cy));
        assert(out@ =~= disc_pixels((cx, cy), radius as int));
        return out;
    }
    proof {
        lemma_brush_narrow(radius as int);
    }
    let r2: i32 = radius * radius;
    let ghost side: int = 2 * radius + 1;
    let mut dy: i32 = -radius;
    assert((dy + radius) * side == 0) by (nonlinear_arith)
        requires
            dy + radius == 0,
    ;
    while dy <= radius
        invariant
            0 < radius <= 32767,
            brush_fits(radius as int),
            square_fits((cx, cy), radius as int),
            r2 == radius * radius,
            side == 2 * radius + 1,
            -radius <= dy <= radius + 1,
            out@ == disc_prefix((cx, cy), radius as int, (dy + radius) * side),
        decreases radius + 1 - dy,
    {
        let mut dx: i32 = -radius;
        while dx <= radius
            invariant
                0 < radius <= 32767,
                brush_fits(radius as int),
                square_fits((cx, cy), radius as int),
                r2 == radius * radius,
                side == 2 * radius + 1,
                -radius <= dy <= radius,
                -radius <= dx <= radius + 1,
                out@ == disc_prefix(
                    (cx, cy),
                    radius as int,
                    (dy + radius) * side + (dx + radius),
                ),
            decreases radius + 1 - dx,
        {
            proof {
                lemma_offset_squares(dx as int, radius as int);
                lemma_offset_squares(dy as int, radius as int);
                lemma_cell(radius as int, dy + radius, dx + radius);
                assert(0 <= (dy + radius) * side) by (nonlinear_arith)
                    requires
                        0 <= dy + radius,
                        0 < side,
                ;
            }
            if dx * dx + dy * dy <= r2 {
                out.push((cx + dx, cy + dy));
            }
            dx = dx + 1;
        }
        proof {
            lemma_cell(radius as int, dy + radius, 0);
        }
        dy = dy + 1;
    }
    out
}

/// The discs around each of the first `k` centres, one after the other.
pub open spec fn discs_prefix(centres: Seq<Pixel>, radius: int, k: int) -> Seq<Pixel>
    decreases k,
{
    if k <= 0 {
        Seq::empty()
    } else {
        discs_prefix(centres, radius, k - 1) + disc_pixels(centres[k - 1], radius)
    }
}

/// A pixel that a rounded coordinate can give.
pub open spec fn near_origin(p: Pixel) -> bool {
    -0x10_0000 <= p.0 <= 0x10_0000 && -0x10_0000 <= p.1 <= 0x10_0000
}

/// A unit step times a count goes that many pixels one way or the other.
pub proof fn lemma_signed_step(s: int, n: int)
    requires
        s == 1 || s == -1,
    ensures
        s * n == n || s * n == -n,
{
    assert(s * n == n || s * n == -n) by (nonlinear_arith)
        requires
            s == 1 || s == -1,
    ;
}

/// Every pixel of a line stays in the box of its endpoints.
proof fn lemma_line_near_origin(p: Pixel, q: Pixel)
    requires
        -0x8_0000 <= p.0 <= 0x8_0000,
        -0x8_0000 <= p.1 <= 0x8_0000,
        -0x8_0000 <= q.0 <= 0x8_0000,
        -0x8_0000 <= q.1 <= 0x8_0000,
    ensures
        forall|k: int|
            0 <= k < line_pixels(p, q).len() ==> near_origin(#[trigger] line_pixels(p, q)[k]),
{
    assert forall|k: int| 0 <= k < line_pixels(p, q).len() implies near_origin(
        #[trigger] line_pixels(p, q)[k],
    ) by {
        let dx = abs(q.0 - p.0) as int;
        let dy = abs(q.1 - p.1) as int;
        let sx = toward(p.0 as int, q.0 as int);
        let sy = toward(p.1 as int, q.1 as int);
        if dx >= dy && dx > 0 {
            lemma_line_range(dx, dy, k);
            lemma_signed_step(sx, k);
            lemma_signed_step(sy, half_up(k * dy, dx));
        } else if dy > dx {
            lemma_line_range(dy, dx, k);
            lemma_signed_step(sx, half_up(k * dx, dy));
            lemma_signed_step(sy, k);
        } else {
            assert(k == 0);
            lemma_signed_step(sx, k);
            lemma_signed_step(sy, half_up(k * dy, dx));
        }
    }
}

/// Every pixel of a polyline stays near the origin.
proof fn lemma_polyline_near_origin(points: Seq<FxVec2>, k: int)
    requires
        all_roundable(points),
        0 <= k < points.len(),
    ensures
        forall|i: int|
            0 <= i < segments_pixels(points, k).len() ==> near_origin(
                #[trigger] segments_pixels(points, k)[i],
            ),
    decreases k,
{
    if k > 0 {
        lemma_polyline_near_origin(points, k - 1);
        assert(roundable(points[k - 1]));
        assert(roundable(points[k]));
        lemma_line_near_origin(pixel_of(points[k - 1]), pixel_of(points[k]));
        let head = segments_pixels(points, k - 1);
        let tail = line_pixels(pixel_of(points[k - 1]), pixel_of(points[k]));
        assert forall|i: int| 0 <= i < segments_pixels(points, k).len() implies near_origin(
            #[trigger] segments_pixels(points, k)[i],
        ) by {
            if i >= head.len() {
                assert(segments_pixels(points, k)[i] == tail[i - head.len()]);
            }
        }
    }
}

/// Rasterize a polyline and learn that its pixels leave room for a brush.
pub(crate) fn centre_line(points: &[FxVec2]) -> (out: Vec<Pixel>)
    requires
        all_roundable(points@),
    ensures
        out@ == polyline_pixels(points@),
        forall|i: int| 0 <= i < out.len() ==> near_origin(#[trigger] out@[i]),
{
    proof {
        lemma_polyline_pixels_near_origin(points@);
    }
    rasterize_polyline(points)
}

/// Every pixel of a polyline leaves room for a brush.
pub proof fn lemma_polyline_pixels_near_origin(points: Seq<FxVec2>)
    requires
        all_roundable(points),
    ensures
        forall|i: int|
            0 <= i < polyline_pixels(points).len() ==> near_origin(
                #[trigger] polyline_pixels(points)[i],
            ),
{
    if points.len() == 1 {
        assert(roundable(points[0]));
    } else if points.len() > 1 {
        lemma_polyline_near_origin(points, points.len() - 1);
    }
}

/// Rasterize a polyline as a brush stroke: a disc of `radius` at every pixel of
/// the centre line. A radius of zero or less leaves the centre line itself.
pub fn rasterize_thick_polyline(points: &[FxVec2], radius: i32) -> (out: Vec<Pixel>)
    requires
        all_roundable(points@),
        points.len() > 0 && radius > 0 ==> brush_fits(radius as int),
    ensures
        radius <= 0 ==> out@ == polyline_pixels(points@),
        radius > 0 ==> out@ == discs_prefix(
            polyline_pixels(points@),
            radius as int,
            polyline_pixels(points@).len() as int,
        ),
{
    let centres: Vec<Pixel> = centre_line(points);
    if radius <= 0 || points.len() == 0 {
        return centres;
    }
    proof {
        lemma_brush_narrow(radius as int);
    }
    let mut out: Vec<Pixel> = Vec::new();
    let mut k: usize = 0;
    while k < centres.len()
        invariant
            0 < radius <= 32767,
            brush_fits(radius as int),
            k <= centres.len(),
            forall|i: int| 0 <= i < centres.len() ==> near_origin(#[trigger] centres@[i]),
            out@ == discs_prefix(centres@, radius as int, k as int),
        decreases centres.len() - k,
    {
        let (cx, cy) = centres[k];
        assert(near_origin(centres@[k as int]));
        let mut disc: Vec<Pixel> = stamp_disc(cx, cy, radius);
        out.append(&mut disc);
        k = k + 1;
    }
    out
}

/// Floor a 20.12 coordinate to its integer part.
pub fn floor_i32(x: Fx32) -> (r: i32)
    ensures
        r == x.r() / 4096,
{
    x.floor_i32()
}

/// The fractional part of the raw number `x`, scaled to `0..=255`.
pub open spec fn coverage_of(x: int) -> int {
    ((x % 4096) * 255) / 4096
}

/// The fractional part of a 20.12 coordinate as a `0..=255` coverage byte.
pub fn frac_u8(x: Fx32) -> (r: u8)
    ensures
        r == coverage_of(x.r()),
{
    let raw: i32 = x.0;
    assert(raw & 0xFFF == raw as int % 4096) by (bit_vector);
    ((raw & 0xFFF) * 255 / 4096) as u8
}

/// The line from `a` to `b` climbs faster than it runs.
pub open spec fn is_steep(a: FxVec2, b: FxVec2) -> bool {
    abs(wrap32(b.y.r() - a.y.r())) > abs(wrap32(b.x.r() - a.x.r()))
}

/// `v` with its coordinates exchanged.
pub open spec fn transpose(v: FxVec2) -> FxVec2 {
    FxVec2 { x: v.y, y: v.x }
}

/// The endpoints of the line from `a` to `b` in a frame whose major axis is X,
/// left endpoint first.
pub open spec fn major_frame(a: FxVec2, b: FxVec2) -> (FxVec2, FxVec2) {
    let p = if is_steep(a, b) { transpose(a) } else { a };
    let q = if is_steep(a, b) { transpose(b) } else { b };
    if p.x.r() > q.x.r() {
        (q, p)
    } else {
        (p, q)
    }
}

/// Raw rise per column of a line from `p` to `q`.
#[verifier::opaque]
pub open spec fn line_gradient(p: FxVec2, q: FxVec2) -> int {
    let dx = wrap32(q.x.r() - p.x.r());
    if dx == 0 {
        0
    } else {
        fx_div(wrap32(q.y.r() - p.y.r()), dx)
    }
}

/// Raw height of the line from `p` to `q` at the centre of its first column.
#[verifier::opaque]
pub open spec fn first_height(p: FxVec2, q: FxVec2) -> int {
    wrap32(
        p.y.r() + fx_mul(
            line_gradient(p, q),
            wrap32(wrap32(round_px(p.x.r()) * 4096) - p.x.r()),
        ),
    )
}

/// A covered pixel, unless the coverage is zero; `steep` exchanges the axes.
pub open spec fn covered(steep: bool, x: int, y: int, cov: int) -> Seq<CoveredPixel> {
    if cov == 0 {
        Seq::empty()
    } else if steep {
        seq![(y as i32, x as i32, cov as u8)]
    } else {
        seq![(x as i32, y as i32, cov as u8)]
    }
}

/// The two pixels of column `x` that straddle the raw height `h`, with
/// complementary coverage.
pub open spec fn aa_column(steep: bool, x: int, h: int) -> Seq<CoveredPixel> {
    covered(steep, x, h / 4096, 255 - coverage_of(h)) + covered(
        steep,
        x,
        h / 4096 + 1,
        coverage_of(h),
    )
}

/// The first `k` columns of the anti-aliased line from `p` to `q`.
pub open spec fn aa_columns(steep: bool, p: FxVec2, q: FxVec2, k: int) -> Seq<CoveredPixel>
    decreases k,
{
    if k <= 0 {
        Seq::empty()
    } else {
        aa_columns(steep, p, q, k - 1) + aa_column(
            steep,
            round_px(p.x.r()) + k - 1,
            wrap32(first_height(p, q) + (k - 1) * line_gradient(p, q)),
        )
    }
}

/// The anti-aliased line from `a` to `b`: two pixels with complementary coverage
/// per column of the major axis.
pub open spec fn aa_line(a: FxVec2, b: FxVec2) -> Seq<CoveredPixel> {
    let (p, q) = major_frame(a, b);
    aa_columns(is_steep(a, b), p, q, round_px(q.x.r()) - round_px(p.x.r()) + 1)
}

/// Both extents of the segment, and its coordinates, can be worked with.
pub open spec fn aa_drawable(a: FxVec2, b: FxVec2) -> bool {
    &&& roundable(a)
    &&& roundable(b)
    &&& wrap32(b.x.r() - a.x.r()) != i32::MIN
    &&& wrap32(b.y.r() - a.y.r()) != i32::MIN
}

/// Push a covered pixel unless its coverage is zero.
fn emit_covered(out: &mut Vec<CoveredPixel>, steep: bool, x: i32, y: i32, cov: u8)
    ensures
        final(out)@ == old(out)@ + covered(steep, x as int, y as int, cov as int),
{
    if cov != 0 {
        if steep {
            out.push((y, x, cov));
        } else {
            out.push((x, y, cov));
        }
    }
    assert(out@ =~= old(out)@ + covered(steep, x as int, y as int, cov as int));
}

/// Magnitude of a number other than the most negative one.
fn magnitude(x: i32) -> (r: i32)
    requires
        x != i32::MIN,
    ensures
        r == abs(x as int),
{
    if x < 0 {
        -x
    } else {
        x
    }
}

/// Rise per column of a line from `p` to `q`.
fn gradient_of(p: FxVec2, q: FxVec2) -> (r: Fx32)
    ensures
        r.r() == line_gradient(p, q),
{
    reveal(line_gradient);
    let dx: Fx32 = q.x - p.x;
    if dx.0 == 0 {
        Fx32::zero()
    } else {
        (q.y - p.y) / dx
    }
}

/// Height of the line from `p` to `q` at the centre of its first column.
fn height_of(p: FxVec2, q: FxVec2) -> (r: Fx32)
    requires
        can_round(p.x),
    ensures
        r.r() == first_height(p, q),
{
    reveal(first_height);
    p.y + gradient_of(p, q) * (Fx32::from_int(round_i32(p.x)) - p.x)
}

/// Rasterize segment `a -> b` as a one-pixel anti-aliased line (Wu). Overlapping
/// pixels are meant to be combined by maximum coverage.
pub fn rasterize_line_aa(a: FxVec2, b: FxVec2) -> (out: Vec<CoveredPixel>)
    requires
        aa_drawable(a, b),
    ensures
        out@ == aa_line(a, b),
{
    let steep: bool = magnitude((b.y - a.y).0) > magnitude((b.x - a.x).0);
    let mut p: FxVec2 = a;
    let mut q: FxVec2 = b;
    if steep {
        p = FxVec2 { x: a.y, y: a.x };
        q = FxVec2 { x: b.y, y: b.x };
    }
    if p.x.0 > q.x.0 {
        let t: FxVec2 = p;
        p = q;
        q = t;
    }
    assert((p, q) == major_frame(a, b));
    let x0: i32 = round_i32(p.x);
    let x1: i32 = round_i32(q.x);
    let gradient: Fx32 = gradient_of(p, q);
    let mut height: Fx32 = height_of(p, q);
    let ghost g = gradient.r();
    let mut out: Vec<CoveredPixel> = Vec::new();
    let mut x: i32 = x0;
    assert((x - x0) * g == 0) by (nonlinear_arith)
        requires
            x == x0,
    ;
    while x <= x1
        invariant
            -0x8_0000 <= x0 <= x <= x1 + 1,
            x1 <= 0x8_0000,
            x0 == round_px(p.x.r()),
            g == gradient.r(),
            g == line_gradient(p, q),
            height.r() == wrap32(first_height(p, q) + (x - x0) * g),
            out@ == aa_columns(steep, p, q, x - x0),
        decreases x1 + 1 - x,
    {
        let iy: i32 = floor_i32(height);
        let frac: u8 = frac_u8(height);
        emit_covered(&mut out, steep, x, iy, 255 - frac);
        emit_covered(&mut out, steep, x, iy + 1, frac);
        proof {
            lemma_next_height(first_height(p, q), x - x0, g);
            assert(out@ =~= aa_columns(steep, p, q, x - x0 + 1));
        }
        height = height + gradient;
        x = x + 1;
    }
    out
}

/// Stepping the height by one gradient at a time adds up.
proof fn lemma_next_height(h: int, k: int, g: int)
    ensures
        wrap32(wrap32(h + k * g) + g) == wrap32(h + (k + 1) * g),
{
    assert((k + 1) * g == k * g + g) by (nonlinear_arith);
}

/// The anti-aliased lines of the first `k` segments of `points`.
pub open spec fn aa_segments(points: Seq<FxVec2>, k: int) -> Seq<CoveredPixel>
    decreases k,
{
    if k <= 0 {
        Seq::empty()
    } else {
        aa_segments(points, k - 1) + aa_line(points[k - 1], points[k])
    }
}

/// The anti-aliased polyline; a single point is one pixel at full coverage.
pub open spec fn aa_polyline(points: Seq<FxVec2>) -> Seq<CoveredPixel> {
    if points.len() == 1 {
        seq![(pixel_of(points[0]).0, pixel_of(points[0]).1, 255u8)]
    } else {
        aa_segments(points, points.len() - 1)
    }
}

/// Anti-aliased polyline: [`rasterize_line_aa`] over consecutive vertices.
pub fn rasterize_polyline_aa(points: &[FxVec2]) -> (out: Vec<CoveredPixel>)
    requires
        points.len() == 1 ==> roundable(points@[0]),
        forall|i: int| #![trigger points@[i]]
            0 <= i < points.len() - 1 ==> aa_drawable(points@[i], points@[i + 1]),
    ensures
        out@ == aa_polyline(points@),
{
    let mut out: Vec<CoveredPixel> = Vec::new();
    let n: usize = points.len();
    if n == 0 {
        return out;
    }
    if n == 1 {
        out.push((round_i32(points[0].x), round_i32(points[0].y), 255));
        assert(out@ =~= aa_polyline(points@));
        return out;
    }
    let mut k: usize = 0;
    while k < n - 1
        invariant
            n == points.len(),
            n >= 2,
            k <= n - 1,
            forall|i: int| #![trigger points@[i]]
                0 <= i < points.len() - 1 ==> aa_drawable(points@[i], points@[i + 1]),
            out@ == aa_segments(points@, k as int),
        decreases n - k,
    {
        assert(aa_drawable(points@[k as int], points@[k + 1]));
        let mut line: Vec<CoveredPixel> = rasterize_line_aa(points[k], points[k + 1]);
        out.append(&mut line);
        k = k + 1;
    }
    out
}

/// A rasterized line starts at its first endpoint and ends at its second.
pub proof fn law_line_joins_endpoints(p: Pixel, q: Pixel)
    ensures
        line_pixels(p, q).first() == p,
        line_pixels(p, q).last() == q,
{
    let dx = abs(q.0 - p.0) as int;
    let dy = abs(q.1 - p.1) as int;
    let k = line_len(p, q) - 1;
    let sx = toward(p.0 as int, q.0 as int);
    let sy = toward(p.1 as int, q.1 as int);
    if dx >= dy {
        if dx > 0 {
            lemma_line_range(dx, dy, k);
            assert(k * dy == dx * dy);
        }
        lemma_signed_extent(p.0 as int, q.0 as int, k);
        lemma_signed_extent(p.1 as int, q.1 as int, dy);
    } else {
        lemma_line_range(dy, dx, k);
        assert(k * dx == dy * dx);
        lemma_signed_extent(p.0 as int, q.0 as int, dx);
        lemma_signed_extent(p.1 as int, q.1 as int, k);
    }
    assert(sx * 0 == 0 && sy * 0 == 0) by (nonlinear_arith);
}

/// The full extent, stepped from `a` toward `b`, ends at `b`.
proof fn lemma_signed_extent(a: int, b: int, n: int)
    requires
        n == abs(b - a),
    ensures
        a + toward(a, b) * n == b,
{
    let s = toward(a, b);
    if s == 1 {
        assert(s * n == n) by (nonlinear_arith)
            requires
                s == 1,
        ;
    } else {
        assert(s * n == -n) by (nonlinear_arith)
            requires
                s == -1,
        ;
    }
}

/// Two pixels are the same or touch, at most at a corner.
pub open spec fn touching(a: Pixel, b: Pixel) -> bool {
    abs(a.0 - b.0) <= 1 && abs(a.1 - b.1) <= 1
}

/// A rasterized line has no gaps: each pixel touches the one before it.
pub proof fn law_line_has_no_gaps(p: Pixel, q: Pixel, k: int)
    requires
        0 <= k < line_pixels(p, q).len() - 1,
    ensures
        touching(line_pixels(p, q)[k], line_pixels(p, q)[k + 1]),
{
    let dx = abs(q.0 - p.0) as int;
    let dy = abs(q.1 - p.1) as int;
    let sx = toward(p.0 as int, q.0 as int);
    let sy = toward(p.1 as int, q.1 as int);
    let (major, minor) = if dx >= dy {
        (dx, dy)
    } else {
        (dy, dx)
    };
    let j = half_up(k * minor, major);
    let j2 = half_up((k + 1) * minor, major);
    lemma_line_step(major, minor, k, j);
    lemma_line_range(major, minor, k);
    lemma_line_range(major, minor, k + 1);
    assert(j2 == j || j2 == j + 1);
    lemma_in_extent(p.0 as int, q.0 as int, if dx >= dy { k } else { j });
    lemma_in_extent(p.1 as int, q.1 as int, if dx >= dy { j } else { k });
    lemma_in_extent(p.0 as int, q.0 as int, if dx >= dy { k + 1 } else { j2 });
    lemma_in_extent(p.1 as int, q.1 as int, if dx >= dy { j2 } else { k + 1 });
}

/// A count of steps within the extent stays between the ends.
pub proof fn lemma_in_extent(a: int, b: int, n: int)
    requires
        0 <= n <= abs(b - a),
    ensures
        a <= a + toward(a, b) * n <= b || b <= a + toward(a, b) * n <= a,
        toward(a, b) * n == n || toward(a, b) * n == -n,
        a < b ==> toward(a, b) * n == n,
        a >= b ==> toward(a, b) * n == -n,
{
    let s = toward(a, b);
    if s == 1 {
        assert(s * n == n) by (nonlinear_arith)
            requires
                s == 1,
        ;
    } else {
        assert(s * n == -n) by (nonlinear_arith)
            requires
                s == -1,
        ;
    }
}

/// Everything a disc stamp plots lies within the radius.
pub proof fn law_disc_within_radius(c: Pixel, radius: int, i: int)
    requires
        radius > 0,
        square_fits(c, radius),
        0 <= i < disc_pixels(c, radius).len(),
    ensures
        dist_sq((disc_pixels(c, radius)[i].0 - c.0, disc_pixels(c, radius)[i].1 - c.1)) <= radius
            * radius,
{
    lemma_disc_prefix_within(c, radius, (2 * radius + 1) * (2 * radius + 1), i);
}

proof fn lemma_disc_prefix_within(c: Pixel, radius: int, m: int, i: int)
    requires
        radius > 0,
        square_fits(c, radius),
        m <= (2 * radius + 1) * (2 * radius + 1),
        0 <= i < disc_prefix(c, radius, m).len(),
    ensures
        dist_sq((disc_prefix(c, radius, m)[i].0 - c.0, disc_prefix(c, radius, m)[i].1 - c.1))
            <= radius * radius,
    decreases m,
{
    if m > 0 {
        let d = cell(radius, m - 1);
        let side = 2 * radius + 1;
        assert(0 <= (m - 1) / side < side) by (nonlinear_arith)
            requires
                0 <= m - 1 < side * side,
                side > 0,
        ;
        assert(0 <= (m - 1) % side < side) by (nonlinear_arith)
            requires
                side > 0,
        ;
        if i < disc_prefix(c, radius, m - 1).len() {
            lemma_disc_prefix_within(c, radius, m - 1, i);
        }
    }
}

/// The two pixels of an anti-aliased column share the full coverage, and a
/// height on a whole pixel takes a single pixel at full coverage.
pub proof fn law_aa_column_coverage(steep: bool, x: int, h: int)
    ensures
        0 <= coverage_of(h) <= 254,
        h % 4096 == 0 ==> aa_column(steep, x, h) == covered(steep, x, h / 4096, 255),
        coverage_of(h) > 0 ==> {
            &&& aa_column(steep, x, h).len() == 2
            &&& aa_column(steep, x, h)[0].2 + aa_column(steep, x, h)[1].2 == 255
        },
{
    assert(aa_column(steep, x, h) =~= covered(steep, x, h / 4096, 255 - coverage_of(h)) + covered(
        steep,
        x,
        h / 4096 + 1,
        coverage_of(h),
    ));
    if h % 4096 == 0 {
        assert(coverage_of(h) == 0);
        assert(aa_column(steep, x, h) =~= covered(steep, x, h / 4096, 255));
    }
}

} // verus!
