//! What anti-aliased lines plot: in every column of the longer axis the two pixels that
//! straddle the ideal line share the full coverage.

use crate::loops::raster::{
    aa_column, aa_columns, aa_drawable, aa_line, aa_polyline, aa_segments, first_height,
    line_gradient, major_frame, rasterize_line_aa, rasterize_polyline_aa, round_px, CoveredPixel,
};
use crate::loops::geometry_laws::on_field;
use crate::loops::measure_laws::lemma_share_of;
use crate::math::fx::{fx_div, fx_mul};
use crate::math::fx_vec::FxVec2;
use crate::math::hw::{trunc_div, wrap32};
use vstd::math::abs;
use vstd::prelude::*;

verus! {

/// The line from `a` to `b` climbs faster than it runs.
pub open spec fn climbs(a: FxVec2, b: FxVec2) -> bool {
    abs(b.y.0 - a.y.0) > abs(b.x.0 - a.x.0)
}

/// The raw coordinate of `v` along the longer axis.
pub open spec fn along(v: FxVec2, steep: bool) -> int {
    if steep {
        v.y.0 as int
    } else {
        v.x.0 as int
    }
}

/// The raw coordinate of `v` across the longer axis.
pub open spec fn across(v: FxVec2, steep: bool) -> int {
    if steep {
        v.x.0 as int
    } else {
        v.y.0 as int
    }
}

/// The pixel that the raw coordinate `c` rounds to.
pub open spec fn rounds_to(c: int, x: int) -> bool {
    4096 * x - 2048 <= c < 4096 * x + 2048
}

/// How much of a pixel the line covers that passes `part` of 4096 above it.
pub open spec fn upper_share(part: int) -> int {
    (part * 255) / 4096
}

/// A pixel at column `x` and height `y`, where a steep line swaps the axes.
pub open spec fn placed(steep: bool, x: int, y: int, cov: int) -> CoveredPixel {
    if steep {
        (y as i32, x as i32, cov as u8)
    } else {
        (x as i32, y as i32, cov as u8)
    }
}

/// Raw height `h` lies on the line from `lo` to `hi` at column `x`, `k` columns behind
/// the first: off by no more than a unit per column, and two.
pub open spec fn on_ideal_line(
    lo: FxVec2,
    hi: FxVec2,
    steep: bool,
    x: int,
    k: int,
    h: int,
) -> bool {
    let run = along(hi, steep) - along(lo, steep);
    let rise = across(hi, steep) - across(lo, steep);
    abs((h - across(lo, steep)) * run - (4096 * x - along(lo, steep)) * rise) <= (k + 2) * run
}

/// The two pixels that straddle height `h` in column `x` are plotted, each with its
/// share of the coverage; one that is not covered is left out.
pub open spec fn straddled(out: Seq<CoveredPixel>, steep: bool, x: int, h: int) -> bool {
    let upper = upper_share(h % 4096);
    &&& out.contains(placed(steep, x, h / 4096, 255 - upper))
    &&& upper > 0 ==> out.contains(placed(steep, x, h / 4096 + 1, upper))
}

/// The raw rise per column, against the exact slope.
proof fn lemma_gradient(p: FxVec2, q: FxVec2)
    requires
        on_field(p) && on_field(q),
        p.x.0 < q.x.0,
        abs(q.y.0 - p.y.0) <= q.x.0 - p.x.0,
    ensures
        -4096 <= line_gradient(p, q) <= 4096,
        abs(4096 * (q.y.0 - p.y.0) - line_gradient(p, q) * (q.x.0 - p.x.0)) < q.x.0 - p.x.0,
{
    reveal(line_gradient);
    let run = q.x.0 - p.x.0;
    let rise = q.y.0 - p.y.0;
    let k = abs(rise) as int;
    lemma_share_of(k, run);
    let f = fx_div(k, run);
    let g = line_gradient(p, q);
    assert(wrap32(q.x.r() - p.x.r()) == run && wrap32(q.y.r() - p.y.r()) == rise);
    let mag = (k * 4096) / run;
    assert(abs(k * 4096) == k * 4096 && abs(rise * 4096) == k * 4096);
    assert(0 <= mag <= 4096) by (nonlinear_arith)
        requires
            mag == (k * 4096) / run,
            0 <= k <= run,
            run > 0,
    ;
    assert(trunc_div(k * 4096, run) == mag);
    assert(trunc_div(rise * 4096, run) == mag || trunc_div(rise * 4096, run) == -mag);
    assert(f == mag);
    assert(rise >= 0 ==> g == mag);
    assert(rise < 0 ==> g == -mag);
    assert(4096 * rise - g * run == 4096 * k - f * run || 4096 * rise - g * run == -(4096 * k - f
        * run)) by (nonlinear_arith)
        requires
            rise == k && g == f || rise == -k && g == -f,
    ;
}

/// The height of column `k`, against the exact line.
proof fn lemma_height(p: FxVec2, q: FxVec2, k: int)
    requires
        on_field(p) && on_field(q),
        p.x.0 < q.x.0,
        abs(q.y.0 - p.y.0) <= q.x.0 - p.x.0,
        0 <= k <= 0x400,
    ensures
        on_ideal_line(
            p,
            q,
            false,
            round_px(p.x.0 as int) + k,
            k,
            wrap32(first_height(p, q) + k * line_gradient(p, q)),
        ),
{
    reveal(first_height);
    lemma_gradient(p, q);
    let g = line_gradient(p, q);
    let x = round_px(p.x.0 as int);
    let f = 4096 * x - p.x.0;
    assert(-2048 <= f <= 2048);
    assert(wrap32(wrap32(x * 4096) - p.x.r()) == f);
    assert(-8388608 <= g * f <= 8388608) by (nonlinear_arith)
        requires
            -4096 <= g <= 4096,
            -2048 <= f <= 2048,
    ;
    let m = fx_mul(g, f);
    assert(m == (g * f) / 4096);
    assert(first_height(p, q) == p.y.0 + m);
    assert(-0x40_0000 <= k * g <= 0x40_0000) by (nonlinear_arith)
        requires
            0 <= k <= 0x400,
            -4096 <= g <= 4096,
    ;
    let h = p.y.0 + m + k * g;
    assert(wrap32(first_height(p, q) + k * g) == h);
    lemma_height_error(g, f, m, k, q.x.0 - p.x.0, q.y.0 - p.y.0);
}

proof fn lemma_height_error(g: int, f: int, m: int, k: int, run: int, rise: int)
    requires
        run > 0,
        abs(4096 * rise - g * run) < run,
        -2048 <= f <= 2048,
        0 <= g * f - 4096 * m < 4096,
        k >= 0,
    ensures
        abs((m + k * g) * run - (f + 4096 * k) * rise) <= (k + 2) * run,
{
    let r = 4096 * rise - g * run;
    let rho = g * f - 4096 * m;
    assert((k * g) * run == (4096 * k) * rise - k * r) by (nonlinear_arith)
        requires
            r == 4096 * rise - g * run,
    ;
    assert(4096 * (m * run - f * rise) == -(f * r) - rho * run) by (nonlinear_arith)
        requires
            r == 4096 * rise - g * run,
            rho == g * f - 4096 * m,
    ;
    assert((m + k * g) * run == m * run + (k * g) * run) by (nonlinear_arith);
    assert((f + 4096 * k) * rise == f * rise + (4096 * k) * rise) by (nonlinear_arith);
    assert(-(k * run) <= k * r <= k * run) by (nonlinear_arith)
        requires
            k >= 0,
            -run <= r <= run,
    ;
    assert(-(2048 * run) <= f * r <= 2048 * run) by (nonlinear_arith)
        requires
            -2048 <= f <= 2048,
            -run <= r <= run,
    ;
    assert(0 <= rho * run <= 4096 * run) by (nonlinear_arith)
        requires
            0 <= rho < 4096,
            run > 0,
    ;
    assert((k + 2) * run == k * run + 2 * run) by (nonlinear_arith);
}

/// A column of the list is plotted whole.
proof fn lemma_column_plotted(steep: bool, p: FxVec2, q: FxVec2, n: int, k: int)
    requires
        0 <= k < n,
    ensures
        straddled(
            aa_columns(steep, p, q, n),
            steep,
            round_px(p.x.0 as int) + k,
            wrap32(first_height(p, q) + k * line_gradient(p, q)),
        ),
    decreases n,
{
    let all = aa_columns(steep, p, q, n);
    let head = aa_columns(steep, p, q, n - 1);
    let x = round_px(p.x.0 as int) + k;
    let h = wrap32(first_height(p, q) + k * line_gradient(p, q));
    let upper = upper_share(h % 4096);
    let lower_px = placed(steep, x, h / 4096, 255 - upper);
    let upper_px = placed(steep, x, h / 4096 + 1, upper);
    if k == n - 1 {
        let tail = aa_column(steep, x, h);
        assert(0 <= upper <= 254);
        assert(tail[0] == lower_px);
        assert(all[head.len() as int] == lower_px);
        if upper > 0 {
            assert(tail[1] == upper_px);
            assert(all[head.len() as int + 1] == upper_px);
        }
    } else {
        lemma_column_plotted(steep, p, q, n - 1, k);
        let i = choose|i: int| 0 <= i < head.len() && head[i] == lower_px;
        assert(all[i] == lower_px);
        if upper > 0 {
            let j = choose|j: int| 0 <= j < head.len() && head[j] == upper_px;
            assert(all[j] == upper_px);
        }
    }
}

/// Every plotted pixel is one of a column's two.
proof fn lemma_pixel_of_column(steep: bool, p: FxVec2, q: FxVec2, n: int, i: int) -> (k: int)
    requires
        n >= 0,
        0 <= i < aa_columns(steep, p, q, n).len(),
    ensures
        0 <= k < n,
        is_straddling(
            aa_columns(steep, p, q, n)[i],
            steep,
            round_px(p.x.0 as int) + k,
            wrap32(first_height(p, q) + k * line_gradient(p, q)),
        ),
    decreases n,
{
    let all = aa_columns(steep, p, q, n);
    if n == 0 {
        0
    } else {
        let head = aa_columns(steep, p, q, n - 1);
        if i < head.len() {
            assert(all[i] == head[i]);
            lemma_pixel_of_column(steep, p, q, n - 1, i)
        } else {
            let x = round_px(p.x.0 as int) + n - 1;
            let h = wrap32(first_height(p, q) + (n - 1) * line_gradient(p, q));
            let tail = aa_column(steep, x, h);
            assert(all[i] == tail[i - head.len()]);
            n - 1
        }
    }
}

/// `c` is one of the two pixels that straddle height `h` in column `x`, with its share.
pub open spec fn is_straddling(c: CoveredPixel, steep: bool, x: int, h: int) -> bool {
    let upper = upper_share(h % 4096);
    ||| c == placed(steep, x, h / 4096, 255 - upper)
    ||| upper > 0 && c == placed(steep, x, h / 4096 + 1, upper)
}

/// Of two points, the one further back along the longer axis, and the other.
pub open spec fn in_order(a: FxVec2, b: FxVec2, lo: FxVec2, hi: FxVec2) -> bool {
    let steep = climbs(a, b);
    &&& lo == a && hi == b || lo == b && hi == a
    &&& along(lo, steep) < along(hi, steep)
}

/// An anti-aliased segment follows the ideal line: in each column from the one that
/// its back end rounds to, to the one that its front end rounds to, the two pixels that
/// straddle the line are plotted with complementary coverage.
pub proof fn law_aa_line_follows_the_segment(
    a: FxVec2,
    b: FxVec2,
    out: Vec<CoveredPixel>,
    lo: FxVec2,
    hi: FxVec2,
    x0: int,
    x1: int,
    x: int,
)
    requires
        on_field(a) && on_field(b),
        call_ensures(rasterize_line_aa, (a, b), out),
        in_order(a, b, lo, hi),
        rounds_to(along(lo, climbs(a, b)), x0),
        rounds_to(along(hi, climbs(a, b)), x1),
        x0 <= x <= x1,
    ensures
        exists|h: int| #[trigger]
            straddled(out@, climbs(a, b), x, h) && on_ideal_line(
                lo,
                hi,
                climbs(a, b),
                x,
                x - x0,
                h,
            ),
{
    let steep = climbs(a, b);
    lemma_frame(a, b, lo, hi);
    let (p, q) = major_frame(a, b);
    let k = x - x0;
    assert(round_px(p.x.0 as int) == x0 && round_px(q.x.0 as int) == x1);
    lemma_height(p, q, k);
    lemma_column_plotted(steep, p, q, x1 - x0 + 1, k);
    let h = wrap32(first_height(p, q) + k * line_gradient(p, q));
    assert(straddled(out@, steep, x, h));
    assert(on_ideal_line(lo, hi, steep, x, k, h));
}

/// An anti-aliased segment plots nothing but the pixels that straddle the ideal line
/// between its ends.
pub proof fn law_aa_line_plots_nothing_else(
    a: FxVec2,
    b: FxVec2,
    out: Vec<CoveredPixel>,
    lo: FxVec2,
    hi: FxVec2,
    x0: int,
    x1: int,
    i: int,
)
    requires
        on_field(a) && on_field(b),
        call_ensures(rasterize_line_aa, (a, b), out),
        in_order(a, b, lo, hi),
        rounds_to(along(lo, climbs(a, b)), x0),
        rounds_to(along(hi, climbs(a, b)), x1),
        0 <= i < out@.len(),
    ensures
        exists|x: int, h: int|
            x0 <= x <= x1 && #[trigger] is_straddling(out@[i], climbs(a, b), x, h)
                && on_ideal_line(lo, hi, climbs(a, b), x, x - x0, h),
{
    let steep = climbs(a, b);
    lemma_frame(a, b, lo, hi);
    let (p, q) = major_frame(a, b);
    assert(round_px(p.x.0 as int) == x0 && round_px(q.x.0 as int) == x1);
    let k = lemma_pixel_of_column(steep, p, q, x1 - x0 + 1, i);
    lemma_height(p, q, k);
    let h = wrap32(first_height(p, q) + k * line_gradient(p, q));
    assert(is_straddling(out@[i], steep, x0 + k, h));
    assert(on_ideal_line(lo, hi, steep, x0 + k, k, h));
}

/// The frame of a segment, by its own axes.
proof fn lemma_frame(a: FxVec2, b: FxVec2, lo: FxVec2, hi: FxVec2)
    requires
        on_field(a) && on_field(b),
        in_order(a, b, lo, hi),
    ensures
        crate::loops::raster::is_steep(a, b) == climbs(a, b),
        aa_drawable(a, b),
        ({
            let (p, q) = major_frame(a, b);
            let steep = climbs(a, b);
            &&& on_field(p) && on_field(q)
            &&& p.x.0 == along(lo, steep) && p.y.0 == across(lo, steep)
            &&& q.x.0 == along(hi, steep) && q.y.0 == across(hi, steep)
            &&& p.x.0 < q.x.0
            &&& abs(q.y.0 - p.y.0) <= q.x.0 - p.x.0
            &&& -256 <= round_px(p.x.0 as int) && round_px(q.x.0 as int) <= 256
        }),
{
    assert(wrap32(b.x.r() - a.x.r()) == b.x.0 - a.x.0);
    assert(wrap32(b.y.r() - a.y.r()) == b.y.0 - a.y.0);
}

/// An anti-aliased polyline is the anti-aliased lines of its segments, one after the
/// other.
pub proof fn law_aa_polyline_chains_its_segments(
    points: &[FxVec2],
    out: Vec<CoveredPixel>,
    i: int,
    line: Vec<CoveredPixel>,
)
    requires
        points@.len() > 1,
        forall|k: int| 0 <= k < points@.len() ==> on_field(#[trigger] points@[k]),
        call_ensures(rasterize_polyline_aa, (points,), out),
        0 <= i < points@.len() - 1,
        call_ensures(rasterize_line_aa, (points@[i], points@[i + 1]), line),
    ensures
        exists|at: int|
            0 <= at && at + line@.len() <= out@.len() && #[trigger] out@.subrange(
                at,
                at + line@.len(),
            ) == line@,
{
    assert forall|k: int| #![trigger points@[k]] 0 <= k < points@.len() - 1 implies aa_drawable(
        points@[k],
        points@[k + 1],
    ) by {
        assert(on_field(points@[k]) && on_field(points@[k + 1]));
    }
    let at = lemma_aa_part(points@, i, points@.len() - 1);
    assert(out@ == aa_polyline(points@));
    assert(line@ == aa_line(points@[i], points@[i + 1]));
    assert(out@.subrange(at, at + line@.len()) == line@);
}

proof fn lemma_aa_part(points: Seq<FxVec2>, i: int, k: int) -> (at: int)
    requires
        0 <= i < k < points.len(),
    ensures
        ({
            let v = aa_segments(points, k);
            let line = aa_line(points[i], points[i + 1]);
            &&& 0 <= at
            &&& at + line.len() <= v.len()
            &&& v.subrange(at, at + line.len()) == line
        }),
    decreases k,
{
    let v = aa_segments(points, k);
    let head = aa_segments(points, k - 1);
    let line = aa_line(points[i], points[i + 1]);
    if i == k - 1 {
        let at = head.len() as int;
        assert(v.subrange(at, at + line.len()) =~= line);
        at
    } else {
        let at = lemma_aa_part(points, i, k - 1);
        assert(v.subrange(at, at + line.len()) =~= head.subrange(at, at + line.len()));
        at
    }
}

} // verus!
