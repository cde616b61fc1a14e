//! What a glowing brush covers: full in its core, falling off with the square of the
//! distance to nothing at its edge, the brightest stamp winning.

use crate::loops::glow::{
    brush_coverage, clamp_core, feather_pixels, feather_prefix, feathers_prefix, glow_at,
    glow_radius, lemma_brush_coverage_range, painted, rasterize_glow_polyline, stamp_at,
    stamp_feathered,
};
use crate::loops::raster::{
    all_roundable, brush_fits, cell, dist_sq, lemma_brush_narrow, lemma_polyline_pixels_near_origin,
    near_origin, offset_pixel, polyline_pixels, rasterize_polyline, square_fits, CoveredPixel,
    Pixel,
};
use crate::math::fx_vec::FxVec2;
use vstd::prelude::*;

verus! {

/// `core` held between none and all of `radius`.
pub open spec fn held_core(core: int, radius: int) -> int {
    if core <= 0 {
        0
    } else if core >= radius {
        radius
    } else {
        core
    }
}

/// `cov` is the coverage at squared distance `d2` from the middle of a brush: full up to
/// the core, none behind the edge, and in between the part of 255 by which the distance
/// falls short of the edge, in squares, rounded down.
pub open spec fn falls_to(core: int, radius: int, d2: int, cov: int) -> bool {
    let c2 = held_core(core, radius) * held_core(core, radius);
    let r2 = radius * radius;
    if d2 <= c2 {
        cov == 255
    } else if d2 > r2 {
        cov == 0
    } else {
        cov * (r2 - c2) <= 255 * (r2 - d2) < (cov + 1) * (r2 - c2)
    }
}

/// The squared distance of pixel (`x`, `y`) from `c`.
pub open spec fn away(c: Pixel, x: int, y: int) -> int {
    (x - c.0) * (x - c.0) + (y - c.1) * (y - c.1)
}

/// The brush's own coverage is the one that falls off.
proof fn lemma_falls(core: int, radius: int, d2: int)
    requires
        radius >= 0,
    ensures
        falls_to(core, radius, d2, brush_coverage(core, radius, d2)),
        forall|cov: int| #[trigger]
            falls_to(core, radius, d2, cov) ==> cov == brush_coverage(core, radius, d2),
{
    let c = held_core(core, radius);
    assert(c == clamp_core(core, radius));
    let c2 = c * c;
    let r2 = radius * radius;
    assert(c2 <= r2) by (nonlinear_arith)
        requires
            c2 == c * c,
            r2 == radius * radius,
            0 <= c <= radius,
    ;
    if c2 < d2 <= r2 {
        let n = 255 * (r2 - d2);
        let d = r2 - c2;
        let q = n / d;
        assert((r2 - d2) * 255 == n);
        assert(q * d <= n < (q + 1) * d) by (nonlinear_arith)
            requires
                d > 0,
                q == n / d,
        ;
        assert forall|cov: int| #[trigger] falls_to(core, radius, d2, cov) implies cov == q by {
            assert(cov == q) by (nonlinear_arith)
                requires
                    cov * d <= n < (cov + 1) * d,
                    q * d <= n < (q + 1) * d,
                    d > 0,
            ;
        }
    }
}

/// What the first `m` cells of a stamp hold.
proof fn lemma_feather_prefix(c: Pixel, core: int, radius: int, m: int, p: CoveredPixel)
    requires
        radius > 0,
        square_fits(c, radius),
        0 <= m <= (2 * radius + 1) * (2 * radius + 1),
    ensures
        feather_prefix(c, core, radius, m).contains(p) <==> p.2 > 0 && p.2 == brush_coverage(
            core,
            radius,
            away(c, p.0 as int, p.1 as int),
        ) && -radius <= p.0 - c.0 <= radius && -radius <= p.1 - c.1 <= radius && (p.1 - c.1
            + radius) * (2 * radius + 1) + (p.0 - c.0 + radius) < m,
    decreases m,
{
    let side = 2 * radius + 1;
    let pr = p.1 - c.1 + radius;
    let pc = p.0 - c.0 + radius;
    if m == 0 {
        assert(pr >= 0 ==> pr * side >= 0) by (nonlinear_arith)
            requires
                side >= 0,
        ;
    } else {
        let k = m - 1;
        lemma_feather_prefix(c, core, radius, k, p);
        let rest = feather_prefix(c, core, radius, k);
        let all = feather_prefix(c, core, radius, m);
        let row = k / side;
        let col = k % side;
        assert(k == row * side + col && 0 <= col < side && 0 <= row < side) by (nonlinear_arith)
            requires
                0 <= k < side * side,
                side > 0,
                row == k / side,
                col == k % side,
        ;
        let d = cell(radius, k);
        assert(d == (col - radius, row - radius));
        let x = offset_pixel(c, d);
        assert(x.0 == c.0 + col - radius && x.1 == c.1 + row - radius);
        let cov = brush_coverage(core, radius, dist_sq(d));
        lemma_brush_coverage_range(core, radius, dist_sq(d));
        assert(away(c, x.0 as int, x.1 as int) == dist_sq(d));
        if cov > 0 {
            assert(all == rest.push((x.0, x.1, cov as u8)));
            assert(all[all.len() - 1] == (x.0, x.1, cov as u8));
            if rest.contains(p) {
                let w = choose|w: int| 0 <= w < rest.len() && rest[w] == p;
                assert(all[w] == p);
            }
            if all.contains(p) && p != (x.0, x.1, cov as u8) {
                let w = choose|w: int| 0 <= w < all.len() && all[w] == p;
                assert(rest[w] == p);
            }
        }
        if 0 <= pc < side && 0 <= pr < side && pr * side + pc == k {
            assert(pr == row && pc == col) by (nonlinear_arith)
                requires
                    pr * side + pc == row * side + col,
                    0 <= pc < side,
                    0 <= col < side,
            ;
        }
    }
}

/// A covered pixel lies in the square of the brush.
proof fn lemma_covered_in_square(c: Pixel, core: int, radius: int, x: int, y: int)
    requires
        radius > 0,
        brush_coverage(core, radius, away(c, x, y)) > 0,
    ensures
        -radius <= x - c.0 <= radius,
        -radius <= y - c.1 <= radius,
        (y - c.1 + radius) * (2 * radius + 1) + (x - c.0 + radius) < (2 * radius + 1) * (2 * radius
            + 1),
{
    let dx = x - c.0;
    let dy = y - c.1;
    assert(dx * dx + dy * dy <= radius * radius);
    assert(-radius <= dx <= radius && -radius <= dy <= radius) by (nonlinear_arith)
        requires
            dx * dx + dy * dy <= radius * radius,
            radius > 0,
    ;
    assert((dy + radius) * (2 * radius + 1) + (dx + radius) < (2 * radius + 1) * (2 * radius + 1))
        by (nonlinear_arith)
        requires
            -radius <= dx <= radius,
            -radius <= dy <= radius,
            radius > 0,
    ;
}

proof fn lemma_feather(c: Pixel, core: int, radius: int, p: CoveredPixel)
    requires
        radius > 0,
        square_fits(c, radius),
    ensures
        feather_pixels(c, core, radius).contains(p) <==> p.2 > 0 && falls_to(
            core,
            radius,
            away(c, p.0 as int, p.1 as int),
            p.2 as int,
        ),
{
    let d2 = away(c, p.0 as int, p.1 as int);
    let side = 2 * radius + 1;
    assert(side * side >= 0) by (nonlinear_arith);
    lemma_feather_prefix(c, core, radius, side * side, p);
    lemma_falls(core, radius, d2);
    if p.2 > 0 && p.2 == brush_coverage(core, radius, d2) {
        lemma_covered_in_square(c, core, radius, p.0 as int, p.1 as int);
    }
}

/// A feathered stamp plots exactly the pixels that the brush covers, each with the
/// coverage of its distance.
pub proof fn law_feathered_stamp_falls_off(
    cx: i32,
    cy: i32,
    core: i32,
    radius: i32,
    out: Vec<CoveredPixel>,
    p: CoveredPixel,
)
    requires
        radius > 0,
        brush_fits(radius as int),
        square_fits((cx, cy), radius as int),
        call_ensures(stamp_feathered, (cx, cy, core, radius), out),
    ensures
        out@.contains(p) <==> p.2 > 0 && falls_to(
            core as int,
            radius as int,
            away((cx, cy), p.0 as int, p.1 as int),
            p.2 as int,
        ),
{
    lemma_feather((cx, cy), core as int, radius as int, p);
}

proof fn lemma_feathers(centres: Seq<Pixel>, core: int, radius: int, k: int, p: CoveredPixel)
    requires
        radius > 0,
        0 <= k <= centres.len(),
        forall|i: int| 0 <= i < centres.len() ==> square_fits(#[trigger] centres[i], radius),
    ensures
        feathers_prefix(centres, core, radius, k).contains(p) <==> p.2 > 0 && exists|i: int|
            0 <= i < k && falls_to(
                core,
                radius,
                away(#[trigger] centres[i], p.0 as int, p.1 as int),
                p.2 as int,
            ),
    decreases k,
{
    if k > 0 {
        lemma_feathers(centres, core, radius, k - 1, p);
        assert(square_fits(centres[k - 1], radius));
        lemma_feather(centres[k - 1], core, radius, p);
        let head = feathers_prefix(centres, core, radius, k - 1);
        let tail = feather_pixels(centres[k - 1], core, radius);
        let all = feathers_prefix(centres, core, radius, k);
        assert(all == head + tail);
        if head.contains(p) {
            let w = choose|w: int| 0 <= w < head.len() && head[w] == p;
            assert(all[w] == p);
        }
        if tail.contains(p) {
            let w = choose|w: int| 0 <= w < tail.len() && tail[w] == p;
            assert(all[head.len() + w] == p);
        }
        if all.contains(p) {
            let w = choose|w: int| 0 <= w < all.len() && all[w] == p;
            if w < head.len() {
                assert(head[w] == p);
            } else {
                assert(tail[w - head.len()] == p);
            }
        }
    }
}

/// A glowing polyline plots exactly what a stamp at some pixel of the thin polyline
/// covers.
pub proof fn law_glow_polyline_stamps_the_line(
    points: &[FxVec2],
    core: i32,
    radius: i32,
    thin: Vec<Pixel>,
    out: Vec<CoveredPixel>,
    p: CoveredPixel,
)
    requires
        all_roundable(points@),
        radius > 0,
        brush_fits(radius as int),
        call_ensures(rasterize_polyline, (points,), thin),
        call_ensures(rasterize_glow_polyline, (points, core, radius), out),
    ensures
        out@.contains(p) <==> p.2 > 0 && exists|i: int|
            0 <= i < thin@.len() && falls_to(
                core as int,
                radius as int,
                away(#[trigger] thin@[i], p.0 as int, p.1 as int),
                p.2 as int,
            ),
{
    lemma_brush_narrow(radius as int);
    lemma_polyline_pixels_near_origin(points@);
    assert forall|i: int| 0 <= i < thin@.len() implies square_fits(
        #[trigger] thin@[i],
        radius as int,
    ) by {
        assert(near_origin(polyline_pixels(points@)[i]));
    }
    lemma_feathers(thin@, core as int, radius as int, thin@.len() as int, p);
}

/// The glow at a pixel is the brightest stamp's.
proof fn lemma_glow_at(centres: Seq<Pixel>, core: int, radius: int, k: int, x: int, y: int)
    requires
        radius >= 0,
        0 <= k <= centres.len(),
    ensures
        glow_at(centres, core, radius, k, x, y) >= 0,
        forall|j: int|
            0 <= j < k ==> glow_at(centres, core, radius, k, x, y) >= brush_coverage(
                core,
                radius,
                away(#[trigger] centres[j], x, y),
            ),
        glow_at(centres, core, radius, k, x, y) > 0 ==> exists|j: int|
            0 <= j < k && glow_at(centres, core, radius, k, x, y) == brush_coverage(
                core,
                radius,
                away(#[trigger] centres[j], x, y),
            ),
    decreases k,
{
    if k > 0 {
        lemma_glow_at(centres, core, radius, k - 1, x, y);
        lemma_brush_coverage_range(core, radius, away(centres[k - 1], x, y));
        assert(stamp_at(centres[k - 1], core, radius, x, y) == brush_coverage(
            core,
            radius,
            away(centres[k - 1], x, y),
        ));
    }
}

/// Painting a stroke leaves each pixel of the canvas as bright as what was there or the
/// brightest stamp, whichever is brighter; what lies behind the canvas is not touched.
pub proof fn law_painting_takes_the_brightest(
    before: Seq<u8>,
    after: Seq<u8>,
    width: int,
    height: int,
    centres: Seq<Pixel>,
    core: int,
    radius: int,
    x: int,
    y: int,
    j: int,
)
    requires
        radius >= 0,
        painted(before, after, width, height, centres, core, radius, centres.len() as int),
        0 <= x < width,
        0 <= y < height,
        width * height <= before.len(),
        0 <= j < centres.len(),
    ensures
        0 <= y * width + x < before.len(),
        after[y * width + x] >= before[y * width + x],
        forall|cov: int| #[trigger]
            falls_to(core, radius, away(centres[j], x, y), cov) ==> after[y * width + x] >= cov,
        after[y * width + x] > before[y * width + x] ==> exists|i: int|
            0 <= i < centres.len() && falls_to(
                core,
                radius,
                away(#[trigger] centres[i], x, y),
                after[y * width + x] as int,
            ),
        forall|i: int| width * height <= i < before.len() ==> after[i] == before[i],
{
    let i = y * width + x;
    assert(0 <= i < width * height) by (nonlinear_arith)
        requires
            i == y * width + x,
            0 <= x < width,
            0 <= y < height,
    ;
    assert(i % width == x && i / width == y) by {
        vstd::arithmetic::div_mod::lemma_fundamental_div_mod_converse(i, width, y, x);
    }
    let n = centres.len() as int;
    lemma_glow_at(centres, core, radius, n, x, y);
    lemma_falls(core, radius, away(centres[j], x, y));
    assert(glow_radius(radius) == radius);
    if after[i] > before[i] {
        let k = choose|k: int|
            0 <= k < n && glow_at(centres, core, radius, n, x, y) == brush_coverage(
                core,
                radius,
                away(#[trigger] centres[k], x, y),
            );
        lemma_falls(core, radius, away(centres[k], x, y));
    }
}

} // verus!
