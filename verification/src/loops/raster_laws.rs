//! What the rasterizers plot: lines that hug the way between their ends, polylines
//! that run on without a gap, and brushes that fill the discs around them.

use crate::loops::raster::{
    all_roundable, cell, disc_pixels, disc_prefix, discs_prefix, dist_sq, half_up,
    law_line_has_no_gaps, law_line_joins_endpoints, lemma_half_up, lemma_in_extent,
    lemma_line_range, line_len, line_pixel, line_pixels, offset_pixel, pixel_of, polyline_pixels,
    rasterize_line, rasterize_polyline, rasterize_thick_polyline, roundable, segments_pixels,
    square_fits, stamp_disc, touching, toward, Pixel,
};
use crate::math::fx_vec::FxVec2;
use vstd::math::abs;
use vstd::prelude::*;

verus! {

/// `c` is the pixel whose square holds `p`, halves going up.
pub open spec fn nearest_pixel(p: FxVec2, c: Pixel) -> bool {
    &&& 4096 * c.0 - 2048 <= p.x.0 < 4096 * c.0 + 2048
    &&& 4096 * c.1 - 2048 <= p.y.0 < 4096 * c.1 + 2048
}

/// The longer side of the box around two pixels.
pub open spec fn longer_side(p: Pixel, q: Pixel) -> int {
    if abs(q.0 - p.0) >= abs(q.1 - p.1) {
        abs(q.0 - p.0) as int
    } else {
        abs(q.1 - p.1) as int
    }
}

/// `c` lies within half a pixel of the straight way from `p` to `q`, measured across
/// the longer axis.
pub open spec fn hugs_way(c: Pixel, p: Pixel, q: Pixel) -> bool {
    2 * abs((c.0 - p.0) * (q.1 - p.1) - (c.1 - p.1) * (q.0 - p.0)) <= longer_side(p, q)
}

/// `c` lies in the box of `p` and `q`.
pub open spec fn in_box(c: Pixel, p: Pixel, q: Pixel) -> bool {
    &&& p.0 <= c.0 <= q.0 || q.0 <= c.0 <= p.0
    &&& p.1 <= c.1 <= q.1 || q.1 <= c.1 <= p.1
}

/// `k` steps along the longer axis lie between `p` and `c`.
pub open spec fn steps_along(p: Pixel, q: Pixel, c: Pixel, k: int) -> bool {
    if abs(q.0 - p.0) >= abs(q.1 - p.1) {
        abs(c.0 - p.0) == k
    } else {
        abs(c.1 - p.1) == k
    }
}

/// The pixels of a straight line from `p` to `q`: one per step along the longer
/// axis, each within half a pixel of the way, each touching the next.
pub open spec fn is_line(line: Seq<Pixel>, p: Pixel, q: Pixel) -> bool {
    &&& line.len() == longer_side(p, q) + 1
    &&& line[0] == p
    &&& line[line.len() - 1] == q
    &&& forall|k: int|
        0 <= k < line.len() ==> hugs_way(#[trigger] line[k], p, q) && in_box(line[k], p, q)
            && steps_along(p, q, line[k], k)
    &&& is_chain(line)
}

/// Every pixel touches the one before it.
pub open spec fn is_chain(v: Seq<Pixel>) -> bool {
    forall|k: int| 0 < k < v.len() ==> touching(v[k - 1], #[trigger] v[k])
}

/// The nearest pixel is the one that rounding gives.
proof fn lemma_nearest(p: FxVec2)
    requires
        roundable(p),
    ensures
        nearest_pixel(p, pixel_of(p)),
{
}

/// The pixels that the line specification lists are a straight line.
proof fn lemma_is_line(p: Pixel, q: Pixel)
    ensures
        is_line(line_pixels(p, q), p, q),
{
    let line = line_pixels(p, q);
    law_line_joins_endpoints(p, q);
    assert forall|k: int| 0 <= k < line.len() implies hugs_way(#[trigger] line[k], p, q) && in_box(
        line[k],
        p,
        q,
    ) && steps_along(p, q, line[k], k) by {
        lemma_line_pixel(p, q, k);
    }
    assert forall|k: int| 0 < k < line.len() implies touching(line[k - 1], #[trigger] line[k]) by {
        law_line_has_no_gaps(p, q, k - 1);
    }
}

proof fn lemma_line_pixel(p: Pixel, q: Pixel, k: int)
    requires
        0 <= k < line_len(p, q),
    ensures
        hugs_way(line_pixel(p, q, k), p, q),
        in_box(line_pixel(p, q, k), p, q),
        steps_along(p, q, line_pixel(p, q, k), k),
{
    let dx = abs(q.0 - p.0) as int;
    let dy = abs(q.1 - p.1) as int;
    let c = line_pixel(p, q, k);
    let (major, minor) = if dx >= dy {
        (dx, dy)
    } else {
        (dy, dx)
    };
    if major > 0 {
        let j = half_up(k * minor, major);
        lemma_half_up(k * minor, major, j);
        lemma_line_range(major, minor, k);
        let (x, y) = if dx >= dy {
            (k, j)
        } else {
            (j, k)
        };
        lemma_in_extent(p.0 as int, q.0 as int, x);
        lemma_in_extent(p.1 as int, q.1 as int, y);
        let sx = toward(p.0 as int, q.0 as int);
        let sy = toward(p.1 as int, q.1 as int);
        let e = k * minor - j * major;
        assert(2 * major * j == 2 * (j * major)) by (nonlinear_arith);
        assert(-major <= 2 * e <= major);
        let ux = c.0 - p.0;
        let uy = c.1 - p.1;
        let wx = q.0 - p.0;
        let wy = q.1 - p.1;
        assert(ux == x || ux == -x);
        assert(x * dy - y * dx == e || x * dy - y * dx == -e) by (nonlinear_arith)
            requires
                e == k * minor - j * major,
                x == k && y == j && major == dx && minor == dy || x == j && y == k && major == dy
                    && minor == dx,
        ;
        assert(ux * wy - uy * wx == x * dy - y * dx || ux * wy - uy * wx == -(x * dy - y * dx))
            by (nonlinear_arith)
            requires
                ux == x && wx == dx || ux == -x && wx == -dx,
                uy == y && wy == dy || uy == -y && wy == -dy,
        ;
    } else {
        assert(k == 0);
        lemma_in_extent(p.0 as int, q.0 as int, 0);
        lemma_in_extent(p.1 as int, q.1 as int, 0);
        assert(half_up(0 * dy, dx) == 0);
    }
}

/// A rasterized segment runs from the pixel nearest to its start to the pixel nearest
/// to its end, straight.
pub proof fn law_line_hugs_the_segment(a: FxVec2, b: FxVec2, out: Vec<Pixel>)
    requires
        roundable(a),
        roundable(b),
        call_ensures(rasterize_line, (a, b), out),
    ensures
        out@.len() > 0,
        nearest_pixel(a, out@[0]),
        nearest_pixel(b, out@[out@.len() - 1]),
        is_line(out@, out@[0], out@[out@.len() - 1]),
{
    lemma_nearest(a);
    lemma_nearest(b);
    lemma_is_line(pixel_of(a), pixel_of(b));
}

/// The polyline's first `k` segments start at the first vertex, end at vertex `k` and
/// have no gap.
proof fn lemma_segments_chain(points: Seq<FxVec2>, k: int)
    requires
        0 < k < points.len(),
    ensures
        ({
            let v = segments_pixels(points, k);
            &&& v.len() > 0
            &&& v[0] == pixel_of(points[0])
            &&& v[v.len() - 1] == pixel_of(points[k])
            &&& is_chain(v)
        }),
    decreases k,
{
    let v = segments_pixels(points, k);
    let tail = line_pixels(pixel_of(points[k - 1]), pixel_of(points[k]));
    lemma_is_line(pixel_of(points[k - 1]), pixel_of(points[k]));
    let head = segments_pixels(points, k - 1);
    assert(v == head + tail);
    if k == 1 {
        assert(head.len() == 0);
        assert(v =~= tail);
    } else {
        lemma_segments_chain(points, k - 1);
        assert forall|i: int| 0 < i < v.len() implies touching(v[i - 1], #[trigger] v[i]) by {
            if i < head.len() {
                assert(touching(head[i - 1], head[i]));
            } else if i == head.len() {
                assert(v[i - 1] == tail[0] && v[i] == tail[0]);
            } else {
                let j = i - head.len();
                assert(touching(tail[j - 1], tail[j]));
            }
        }
    }
}

/// Segment `i` is part of the polyline.
proof fn lemma_segment_is_part(points: Seq<FxVec2>, i: int, k: int) -> (at: int)
    requires
        0 <= i < k < points.len(),
    ensures
        ({
            let v = segments_pixels(points, k);
            let line = line_pixels(pixel_of(points[i]), pixel_of(points[i + 1]));
            &&& 0 <= at
            &&& at + line.len() <= v.len()
            &&& v.subrange(at, at + line.len()) == line
        }),
    decreases k,
{
    let v = segments_pixels(points, k);
    let head = segments_pixels(points, k - 1);
    let line = line_pixels(pixel_of(points[i]), pixel_of(points[i + 1]));
    if i == k - 1 {
        let at = head.len() as int;
        assert(v.subrange(at, at + line.len()) =~= line);
        at
    } else {
        let at = lemma_segment_is_part(points, i, k - 1);
        assert(v.subrange(at, at + line.len()) =~= head.subrange(at, at + line.len()));
        at
    }
}

/// Every pixel of a polyline is one of a segment.
proof fn lemma_pixel_is_of_a_segment(points: Seq<FxVec2>, k: int, n: int) -> (i: int)
    requires
        0 < k < points.len(),
        0 <= n < segments_pixels(points, k).len(),
    ensures
        0 <= i < k,
        line_pixels(pixel_of(points[i]), pixel_of(points[i + 1])).contains(
            segments_pixels(points, k)[n],
        ),
    decreases k,
{
    let v = segments_pixels(points, k);
    let head = segments_pixels(points, k - 1);
    let tail = line_pixels(pixel_of(points[k - 1]), pixel_of(points[k]));
    if n >= head.len() {
        assert(tail[n - head.len()] == v[n]);
        assert(tail.contains(v[n]));
        k - 1
    } else {
        assert(k > 1);
        lemma_pixel_is_of_a_segment(points, k - 1, n)
    }
}

/// A rasterized polyline runs on without a gap from the pixel nearest to its first
/// vertex to the pixel nearest to its last.
pub proof fn law_polyline_runs_on(points: &[FxVec2], out: Vec<Pixel>)
    requires
        points@.len() > 0,
        all_roundable(points@),
        call_ensures(rasterize_polyline, (points,), out),
    ensures
        out@.len() > 0,
        nearest_pixel(points@[0], out@[0]),
        nearest_pixel(points@[points@.len() - 1], out@[out@.len() - 1]),
        is_chain(out@),
{
    let n = points@.len() as int;
    assert(roundable(points@[0]));
    assert(roundable(points@[n - 1]));
    lemma_nearest(points@[0]);
    lemma_nearest(points@[n - 1]);
    if n > 1 {
        lemma_segments_chain(points@, n - 1);
    }
}

/// The line between two vertices that follow each other is part of the polyline.
pub proof fn law_polyline_holds_each_segment(
    points: &[FxVec2],
    out: Vec<Pixel>,
    i: int,
    line: Vec<Pixel>,
)
    requires
        all_roundable(points@),
        0 <= i < points@.len() - 1,
        call_ensures(rasterize_polyline, (points,), out),
        call_ensures(rasterize_line, (points@[i], points@[i + 1]), line),
    ensures
        exists|at: int|
            0 <= at && at + line@.len() <= out@.len() && #[trigger] out@.subrange(
                at,
                at + line@.len(),
            ) == line@,
{
    assert(roundable(points@[i]) && roundable(points@[i + 1]));
    let at = lemma_segment_is_part(points@, i, points@.len() - 1);
    assert(out@.subrange(at, at + line@.len()) == line@);
}

/// A polyline plots nothing but the lines between vertices that follow each other.
pub proof fn law_polyline_holds_only_segments(points: &[FxVec2], out: Vec<Pixel>, n: int)
    requires
        all_roundable(points@),
        points@.len() > 1,
        call_ensures(rasterize_polyline, (points,), out),
        0 <= n < out@.len(),
    ensures
        exists|i: int, p: Pixel, q: Pixel|
            0 <= i < points@.len() - 1 && nearest_pixel(#[trigger] points@[i], p) && nearest_pixel(
                points@[i + 1],
                q,
            ) && #[trigger] hugs_way(out@[n], p, q) && in_box(out@[n], p, q),
{
    let i = lemma_pixel_is_of_a_segment(points@, points@.len() - 1, n);
    assert(roundable(points@[i]) && roundable(points@[i + 1]));
    let p = pixel_of(points@[i]);
    let q = pixel_of(points@[i + 1]);
    lemma_nearest(points@[i]);
    lemma_nearest(points@[i + 1]);
    lemma_is_line(p, q);
    let line = line_pixels(p, q);
    let k = choose|k: int| 0 <= k < line.len() && line[k] == out@[n];
    assert(hugs_way(line[k], p, q));
}

/// `c` lies within `radius` of `centre`.
pub open spec fn within_disc(c: Pixel, centre: Pixel, radius: int) -> bool {
    (c.0 - centre.0) * (c.0 - centre.0) + (c.1 - centre.1) * (c.1 - centre.1) <= radius * radius
}

/// What the first `m` cells of a disc hold.
proof fn lemma_disc_prefix(c: Pixel, radius: int, m: int)
    requires
        radius > 0,
        square_fits(c, radius),
        0 <= m <= (2 * radius + 1) * (2 * radius + 1),
    ensures
        disc_prefix(c, radius, m).no_duplicates(),
        forall|p: Pixel| #[trigger]
            disc_prefix(c, radius, m).contains(p) <==> within_disc(p, c, radius) && -radius <= p.0
                - c.0 <= radius && -radius <= p.1 - c.1 <= radius && (p.1 - c.1 + radius) * (2
                * radius + 1) + (p.0 - c.0 + radius) < m,
    decreases m,
{
    let side = 2 * radius + 1;
    if m == 0 {
        assert forall|p: Pixel| -radius <= p.0 - c.0 <= radius && -radius <= p.1 - c.1
            <= radius implies (p.1 - c.1 + radius) * side + (p.0 - c.0 + radius) >= 0 by {
            lemma_not_negative(p.1 - c.1 + radius, side);
        }
    } else {
        let k = m - 1;
        lemma_disc_prefix(c, radius, k);
        let rest = disc_prefix(c, radius, k);
        let d = cell(radius, k);
        let row = k / side;
        let col = k % side;
        assert(k == row * side + col && 0 <= col < side && 0 <= row < side) by (nonlinear_arith)
            requires
                0 <= k < side * side,
                side > 0,
                row == k / side,
                col == k % side,
        ;
        assert(d == (col - radius, row - radius));
        let x = offset_pixel(c, d);
        assert(x.0 == c.0 + col - radius && x.1 == c.1 + row - radius);
        assert(within_disc(x, c, radius) <==> dist_sq(d) <= radius * radius);
        let all = disc_prefix(c, radius, m);
        assert((x.1 - c.1 + radius) * side + (x.0 - c.0 + radius) == k);
        assert(!rest.contains(x));
        assert forall|p: Pixel| #[trigger] all.contains(p) <==> within_disc(p, c, radius)
            && -radius <= p.0 - c.0 <= radius && -radius <= p.1 - c.1 <= radius && (p.1 - c.1
            + radius) * side + (p.0 - c.0 + radius) < m by {
            let pr = p.1 - c.1 + radius;
            let pc = p.0 - c.0 + radius;
            if dist_sq(d) <= radius * radius {
                assert(all == rest.push(x));
                assert(all[all.len() - 1] == x);
                if rest.contains(p) {
                    let w = choose|w: int| 0 <= w < rest.len() && rest[w] == p;
                    assert(all[w] == p);
                }
                if all.contains(p) && p != x {
                    let w = choose|w: int| 0 <= w < all.len() && all[w] == p;
                    assert(rest[w] == p);
                }
            }
            if 0 <= pc < side && 0 <= pr < side && pr * side + pc == k {
                assert(pr == row && pc == col) by (nonlinear_arith)
                    requires
                        pr * side + pc == row * side + col,
                        0 <= pc < side,
                        0 <= col < side,
                ;
                assert(p == x);
            }
        }
        if dist_sq(d) <= radius * radius {
            assert(all == rest.push(x));
            assert forall|i: int, j: int|
                0 <= i < all.len() && 0 <= j < all.len() && i != j implies all[i] != all[j] by {
                if i == all.len() - 1 {
                    assert(rest.contains(rest[j]));
                } else if j == all.len() - 1 {
                    assert(rest.contains(rest[i]));
                }
            }
        }
    }
}

proof fn lemma_not_negative(a: int, b: int)
    requires
        a >= 0,
        b >= 0,
    ensures
        a * b >= 0,
{
    assert(a * b >= 0) by (nonlinear_arith)
        requires
            a >= 0,
            b >= 0,
    ;
}

/// Within the radius is within the square.
proof fn lemma_disc_in_square(p: Pixel, c: Pixel, radius: int)
    requires
        radius > 0,
        within_disc(p, c, radius),
    ensures
        -radius <= p.0 - c.0 <= radius,
        -radius <= p.1 - c.1 <= radius,
        (p.1 - c.1 + radius) * (2 * radius + 1) + (p.0 - c.0 + radius) < (2 * radius + 1) * (2
            * radius + 1),
{
    let x = p.0 - c.0;
    let y = p.1 - c.1;
    assert(-radius <= x <= radius && -radius <= y <= radius) by (nonlinear_arith)
        requires
            x * x + y * y <= radius * radius,
            radius > 0,
    ;
    assert((y + radius) * (2 * radius + 1) + (x + radius) < (2 * radius + 1) * (2 * radius + 1))
        by (nonlinear_arith)
        requires
            -radius <= x <= radius,
            -radius <= y <= radius,
            radius > 0,
    ;
}

proof fn lemma_disc_pixels(c: Pixel, radius: int)
    requires
        radius > 0,
        square_fits(c, radius),
    ensures
        disc_pixels(c, radius).no_duplicates(),
        forall|p: Pixel| #[trigger]
            disc_pixels(c, radius).contains(p) <==> within_disc(p, c, radius),
{
    let m = (2 * radius + 1) * (2 * radius + 1);
    lemma_not_negative(2 * radius + 1, 2 * radius + 1);
    lemma_disc_prefix(c, radius, m);
    assert forall|p: Pixel| #[trigger] disc_pixels(c, radius).contains(p) <==> within_disc(
        p,
        c,
        radius,
    ) by {
        if within_disc(p, c, radius) {
            lemma_disc_in_square(p, c, radius);
        }
    }
}

/// A disc stamp plots each pixel within the radius once, and no other.
pub proof fn law_disc_is_filled(cx: i32, cy: i32, radius: i32, out: Vec<Pixel>)
    requires
        radius > 0,
        crate::loops::raster::brush_fits(radius as int),
        square_fits((cx, cy), radius as int),
        call_ensures(stamp_disc, (cx, cy, radius), out),
    ensures
        out@.no_duplicates(),
        forall|p: Pixel| #[trigger]
            out@.contains(p) <==> within_disc(p, (cx, cy), radius as int),
{
    lemma_disc_pixels((cx, cy), radius as int);
}

/// What the first `k` discs hold.
proof fn lemma_discs(centres: Seq<Pixel>, radius: int, k: int, p: Pixel)
    requires
        radius > 0,
        0 <= k <= centres.len(),
        forall|i: int| 0 <= i < centres.len() ==> square_fits(#[trigger] centres[i], radius),
    ensures
        discs_prefix(centres, radius, k).contains(p) <==> exists|i: int|
            0 <= i < k && within_disc(p, #[trigger] centres[i], radius),
    decreases k,
{
    if k > 0 {
        lemma_discs(centres, radius, k - 1, p);
        assert(square_fits(centres[k - 1], radius));
        lemma_disc_pixels(centres[k - 1], radius);
        let head = discs_prefix(centres, radius, k - 1);
        let tail = disc_pixels(centres[k - 1], radius);
        let all = discs_prefix(centres, radius, k);
        assert(all == head + tail);
        if head.contains(p) {
            let w = choose|w: int| 0 <= w < head.len() && head[w] == p;
            assert(all[w] == p);
        }
        if tail.contains(p) {
            let w = choose|w: int| 0 <= w < tail.len() && tail[w] == p;
            assert(all[head.len() + w] == p);
        }
        if all.contains(p) {
            let w = choose|w: int| 0 <= w < all.len() && all[w] == p;
            if w < head.len() {
                assert(head[w] == p);
            } else {
                assert(tail[w - head.len()] == p);
            }
        }
    }
}

/// A thick polyline plots exactly the pixels within the radius of a pixel of the thin
/// one.
pub proof fn law_thick_polyline_fills_the_discs(
    points: &[FxVec2],
    radius: i32,
    thin: Vec<Pixel>,
    out: Vec<Pixel>,
    p: Pixel,
)
    requires
        all_roundable(points@),
        radius > 0,
        crate::loops::raster::brush_fits(radius as int),
        call_ensures(rasterize_polyline, (points,), thin),
        call_ensures(rasterize_thick_polyline, (points, radius), out),
    ensures
        out@.contains(p) <==> exists|i: int|
            0 <= i < thin@.len() && within_disc(p, #[trigger] thin@[i], radius as int),
{
    crate::loops::raster::lemma_brush_narrow(radius as int);
    crate::loops::raster::lemma_polyline_pixels_near_origin(points@);
    assert forall|i: int| 0 <= i < thin@.len() implies square_fits(
        #[trigger] thin@[i],
        radius as int,
    ) by {
        assert(crate::loops::raster::near_origin(polyline_pixels(points@)[i]));
    }
    lemma_discs(thin@, radius as int, thin@.len() as int, p);
}

} // verus!
