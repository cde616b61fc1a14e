//! What the measures of a loop mean, against exact arithmetic on its vertices:
//! enclosure, distance, area, perimeter, regularity, smoothing and resampling.

use crate::loops::geometry::{
    area, between, dist_point_segment, edge_crosses_ray, edge_distance, edge_length_sum, enclosed,
    encloses_circle, inside, is_enclosed_list, mean3, perimeter, point_along, point_in_polygon,
    ray_crossings, regularity, segment_distance, segment_len, shoelace, smooth, smoothed,
};
use crate::loops::geometry_laws::{gap_x, gap_y, lemma_gaps, lemma_quotient_fits, on_field, span};
use crate::math::fx::{fx_div, fx_mul, Fx32};
use crate::math::fx_vec::{
    dot2, length_sq2, unit_component, vec2_add, vec2_len, vec2_scale, vec2_sub, vec2_unit, FxVec2,
};
use crate::math::hw::{isqrt, lemma_isqrt, trunc_div, wrap32};
use vstd::math::abs;
use vstd::prelude::*;

verus! {

/// The edge from `b` to `a` passes the height of `p`.
pub open spec fn passes_height(a: FxVec2, b: FxVec2, p: FxVec2) -> bool {
    (a.y.0 > p.y.0) != (b.y.0 > p.y.0)
}

/// On which side of the line through `a` and `b` the point `p` lies, exactly: positive
/// where the line is to the right of `p`, for an edge that rises from `a` to `b`.
pub open spec fn exact_side(a: FxVec2, b: FxVec2, p: FxVec2) -> int {
    span(gap_x(a, b), gap_y(a, b), gap_x(a, p), gap_y(a, p))
}

/// The edge passes the height of `p` to its right.
pub open spec fn passes_right(a: FxVec2, b: FxVec2, p: FxVec2) -> bool {
    passes_height(a, b, p) && if b.y.0 > a.y.0 {
        exact_side(a, b, p) > 0
    } else {
        exact_side(a, b, p) < 0
    }
}

/// `p` lies far enough from the edge for fixed point to tell the side.
pub open spec fn clear_of(a: FxVec2, b: FxVec2, p: FxVec2) -> bool {
    4096 * abs(exact_side(a, b, p)) > (abs(gap_x(a, b)) + 4096) * abs(gap_y(a, b))
}

/// The vertex before vertex `i` on a closed way of `n` vertices.
pub open spec fn previous(n: int, i: int) -> int {
    if i == 0 {
        n - 1
    } else {
        i - 1
    }
}

/// How many of the first `k` edges pass to the right of `p`.
pub open spec fn edges_right(poly: Seq<FxVec2>, p: FxVec2, k: int) -> nat
    decreases k,
{
    if k <= 0 {
        0
    } else {
        edges_right(poly, p, k - 1) + if passes_right(
            poly[k - 1],
            poly[previous(poly.len() as int, k - 1)],
            p,
        ) {
            1nat
        } else {
            0nat
        }
    }
}

/// A quotient of `k` by `h`, for `k` between none and all of `h`.
pub proof fn lemma_share_of(k: int, h: int)
    requires
        0 <= k <= h || h <= k <= 0,
        h != 0,
    ensures
        0 <= fx_div(k, h) <= 4096,
        abs(4096 * k - fx_div(k, h) * h) < abs(h),
{
    let a = abs(k * 4096) as int;
    let b = abs(h) as int;
    let q = a / b;
    assert(b * q <= a < b * q + b) by (nonlinear_arith)
        requires
            b > 0,
            q == a / b,
    ;
    assert(0 <= q <= 4096) by (nonlinear_arith)
        requires
            b > 0,
            0 <= a <= 4096 * b,
            b * q <= a < b * q + b,
    ;
    let t = fx_div(k, h);
    assert(t == q || q == 0 || k == 0);
    if h > 0 {
        assert(t == q);
        assert(t * h == b * q) by (nonlinear_arith)
            requires
                t == q,
                h == b,
        ;
    } else {
        if k == 0 {
            assert(q == 0) by (nonlinear_arith)
                requires
                    a == 0,
                    b > 0,
                    b * q <= a < b * q + b,
            ;
            assert(t == 0);
            assert(t * h == 0) by (nonlinear_arith)
                requires
                    t == 0,
            ;
        } else {
            assert(t == q);
            assert(t * h == -(b * q)) by (nonlinear_arith)
                requires
                    t == q,
                    h == -b,
            ;
        }
    }
}

/// A share of a way of the field.
pub proof fn lemma_field_share(w: int, t: int)
    requires
        abs(w) <= 0x1f_ffff,
        0 <= t <= 4096,
    ensures
        fx_mul(t, w) == (t * w) / 4096,
        0 <= t * w - 4096 * fx_mul(t, w) < 4096,
        between(0, fx_mul(t, w), w),
{
    assert(w >= 0 ==> 0 <= t * w <= 4096 * w) by (nonlinear_arith)
        requires
            0 <= t <= 4096,
    ;
    assert(w <= 0 ==> 4096 * w <= t * w <= 0) by (nonlinear_arith)
        requires
            0 <= t <= 4096,
    ;
}

/// Away from the edge, the fixed-point test tells the exact side.
proof fn lemma_edge(a: FxVec2, b: FxVec2, p: FxVec2)
    requires
        on_field(a) && on_field(b) && on_field(p),
        passes_height(a, b, p) ==> clear_of(a, b, p),
    ensures
        edge_crosses_ray(a, b, p) == passes_right(a, b, p),
{
    reveal(edge_crosses_ray);
    if passes_height(a, b, p) {
        let h = gap_y(a, b);
        let w = gap_x(a, b);
        let k = gap_y(a, p);
        lemma_share_of(k, h);
        let t = fx_div(k, h);
        lemma_field_share(w, t);
        lemma_side(w, h, k, gap_x(a, p), t, fx_mul(t, w));
        assert(wrap32(p.y.r() - a.y.r()) == k);
        assert(wrap32(b.y.r() - a.y.r()) == h);
        assert(wrap32(b.x.r() - a.x.r()) == w);
        assert(wrap32(a.x.r() + fx_mul(t, w)) == a.x.0 + fx_mul(t, w));
    }
}

/// The rounded place where an edge passes a height lies on the exact side.
proof fn lemma_side(w: int, h: int, k: int, g: int, t: int, step: int)
    requires
        h != 0,
        abs(4096 * k - t * h) < abs(h),
        0 <= t * w - 4096 * step < 4096,
        4096 * abs(span(w, h, g, k)) > (abs(w) + 4096) * abs(h),
    ensures
        (g < step) == if h > 0 {
            span(w, h, g, k) > 0
        } else {
            span(w, h, g, k) < 0
        },
{
    let rho = t * w - 4096 * step;
    let r = 4096 * k - t * h;
    let side = w * k - h * g;
    let m = 4096 * (step - g);
    assert(m * h == 4096 * side - w * r - rho * h) by (nonlinear_arith)
        requires
            m == 4096 * (step - g),
            rho == t * w - 4096 * step,
            r == 4096 * k - t * h,
            side == w * k - h * g,
    ;
    let hh = abs(h) as int;
    let ww = abs(w) as int;
    assert(-(ww * hh) <= w * r <= ww * hh) by (nonlinear_arith)
        requires
            -ww <= w <= ww,
            -hh <= r <= hh,
    ;
    assert(-(4096 * hh) <= rho * h <= 4096 * hh) by (nonlinear_arith)
        requires
            0 <= rho <= 4096,
            -hh <= h <= hh,
            hh >= 0,
    ;
    assert((ww + 4096) * hh == ww * hh + 4096 * hh) by (nonlinear_arith);
    assert(m * h > 0 ==> ((h > 0) == (m > 0)) && m != 0) by (nonlinear_arith);
    assert(m * h < 0 ==> ((h > 0) == (m < 0)) && m != 0) by (nonlinear_arith);
}

/// `p` is clear of every edge that passes its height.
pub open spec fn clear_of_all(poly: Seq<FxVec2>, p: FxVec2) -> bool {
    forall|i: int|
        0 <= i < poly.len() && passes_height(
            #[trigger] poly[i],
            poly[previous(poly.len() as int, i)],
            p,
        ) ==> clear_of(poly[i], poly[previous(poly.len() as int, i)], p)
}

proof fn lemma_edges_right(poly: Seq<FxVec2>, p: FxVec2, k: int)
    requires
        0 <= k <= poly.len(),
        on_field(p),
        forall|i: int| 0 <= i < poly.len() ==> on_field(#[trigger] poly[i]),
        clear_of_all(poly, p),
    ensures
        ray_crossings(poly, p, k) == edges_right(poly, p, k),
    decreases k,
{
    if k > 0 {
        lemma_edges_right(poly, p, k - 1);
        let n = poly.len() as int;
        assert(on_field(poly[k - 1]) && on_field(poly[previous(n, k - 1)]));
        lemma_edge(poly[k - 1], poly[previous(n, k - 1)], p);
    }
}

/// The point test is the exact even-odd rule, for every point of the field that is not
/// on an edge: a point is inside exactly if an odd number of edges of the closed loop
/// pass to its right.
pub proof fn law_inside_is_the_even_odd_rule(poly: &[FxVec2], p: FxVec2, r: bool)
    requires
        call_ensures(point_in_polygon, (poly, p), r),
        on_field(p),
        forall|i: int| 0 <= i < poly@.len() ==> on_field(#[trigger] poly@[i]),
        clear_of_all(poly@, p),
    ensures
        r == (poly@.len() >= 3 && edges_right(poly@, p, poly@.len() as int) % 2 == 1),
{
    lemma_edges_right(poly@, p, poly@.len() as int);
}

/// An upright edge is passed exactly where it stands.
proof fn lemma_upright_edge(a: FxVec2, b: FxVec2, p: FxVec2)
    requires
        a.x == b.x,
    ensures
        edge_crosses_ray(a, b, p) == (passes_height(a, b, p) && p.x.0 < a.x.0),
{
    reveal(edge_crosses_ray);
    let t = fx_div(wrap32(p.y.r() - a.y.r()), wrap32(b.y.r() - a.y.r()));
    assert(t * 0 == 0) by (nonlinear_arith);
    assert(fx_mul(t, 0) == 0);
}

/// A rectangle holds exactly the points between its sides, its left and lower sides
/// among them.
pub proof fn law_rectangle_holds_what_is_between(
    x0: Fx32,
    y0: Fx32,
    x1: Fx32,
    y1: Fx32,
    poly: &[FxVec2],
    p: FxVec2,
    r: bool,
)
    requires
        x0.0 < x1.0,
        y0.0 < y1.0,
        poly@ == seq![
            FxVec2 { x: x0, y: y0 },
            FxVec2 { x: x1, y: y0 },
            FxVec2 { x: x1, y: y1 },
            FxVec2 { x: x0, y: y1 },
        ],
        call_ensures(point_in_polygon, (poly, p), r),
    ensures
        r == (x0.0 <= p.x.0 < x1.0 && y0.0 <= p.y.0 < y1.0),
{
    let s = poly@;
    lemma_upright_edge(s[0], s[3], p);
    lemma_upright_edge(s[2], s[1], p);
    reveal_with_fuel(ray_crossings, 5);
    assert(!edge_crosses_ray(s[1], s[0], p)) by {
        reveal(edge_crosses_ray);
    }
    assert(!edge_crosses_ray(s[3], s[2], p)) by {
        reveal(edge_crosses_ray);
    }
    let c0 = ray_crossings(s, p, 0);
    let c1 = ray_crossings(s, p, 1);
    let c2 = ray_crossings(s, p, 2);
    let c3 = ray_crossings(s, p, 3);
    let c4 = ray_crossings(s, p, 4);
    assert(c0 == 0);
    assert(c2 == c1 && c4 == c3);
    assert(c4 == (if edge_crosses_ray(s[0], s[3], p) {
        1nat
    } else {
        0nat
    }) + (if edge_crosses_ray(s[2], s[1], p) {
        1nat
    } else {
        0nat
    }));
}

/// `len` is the length of `(x, y)`, rounded down.
pub open spec fn is_length(len: int, x: int, y: int) -> bool {
    len >= 0 && len * len <= x * x + y * y < (len + 1) * (len + 1)
}

/// The length of a way across the field.
pub proof fn lemma_field_len(v: FxVec2)
    requires
        abs(v.x.0 as int) <= 0x1f_ffff,
        abs(v.y.0 as int) <= 0x1f_ffff,
    ensures
        is_length(vec2_len(v), v.x.0 as int, v.y.0 as int),
        0 <= vec2_len(v) <= 0x3f_ffff,
{
    let x = v.x.0 as int;
    let y = v.y.0 as int;
    assert(0 <= x * x <= 0x3ff_ffc0_0001 && 0 <= y * y <= 0x3ff_ffc0_0001) by (nonlinear_arith)
        requires
            -0x1f_ffff <= x <= 0x1f_ffff,
            -0x1f_ffff <= y <= 0x1f_ffff,
    ;
    let sq = length_sq2(v);
    lemma_isqrt(sq);
    let r = isqrt(sq);
    assert(r <= 0x3f_ffff) by (nonlinear_arith)
        requires
            r * r <= 0x7ff_ff80_0002,
    ;
}

/// `sum` adds up the lengths of the first `k` edges of a closed loop.
pub open spec fn adds_edges(poly: Seq<FxVec2>, lens: Seq<int>, k: int, sum: int) -> bool
    decreases k,
{
    if k <= 0 {
        sum == 0
    } else {
        let a = poly[previous(poly.len() as int, k - 1)];
        let b = poly[k - 1];
        is_length(lens[k - 1], gap_x(a, b), gap_y(a, b)) && adds_edges(
            poly,
            lens,
            k - 1,
            sum - lens[k - 1],
        )
    }
}

proof fn lemma_adds_edges(poly: Seq<FxVec2>, k: int)
    requires
        0 <= k <= poly.len(),
        forall|i: int| 0 <= i < poly.len() ==> on_field(#[trigger] poly[i]),
    ensures
        adds_edges(
            poly,
            Seq::new(
                poly.len(),
                |i: int| vec2_len(vec2_sub(poly[i], poly[previous(poly.len() as int, i)])),
            ),
            k,
            edge_length_sum(poly, k),
        ),
        0 <= edge_length_sum(poly, k) <= 0x3f_ffff * k,
    decreases k,
{
    if k > 0 {
        let n = poly.len() as int;
        lemma_adds_edges(poly, k - 1);
        assert(on_field(poly[k - 1]) && on_field(poly[previous(n, k - 1)]));
        lemma_field_len(vec2_sub(poly[k - 1], poly[previous(n, k - 1)]));
    }
}

/// The perimeter adds up the length of every edge, the closing one among them.
pub proof fn law_perimeter_adds_every_edge(poly: &[FxVec2], r: Fx32)
    requires
        call_ensures(perimeter, (poly,), r),
        2 <= poly@.len() <= 512,
        forall|i: int| 0 <= i < poly@.len() ==> on_field(#[trigger] poly@[i]),
    ensures
        exists|lens: Seq<int>| #[trigger]
            adds_edges(poly@, lens, poly@.len() as int, r.0 as int),
{
    let n = poly@.len() as int;
    lemma_adds_edges(poly@, n);
    let lens = Seq::new(
        poly@.len(),
        |i: int| vec2_len(vec2_sub(poly@[i], poly@[previous(n, i)])),
    );
    assert(0x3f_ffff * n <= 0x7fff_ffff);
    assert(adds_edges(poly@, lens, n, r.0 as int));
}

/// Twice the exact area that the first `k` edges of a closed loop sweep, in squares of
/// raw units.
pub open spec fn swept(poly: Seq<FxVec2>, k: int) -> int
    decreases k,
{
    if k <= 0 {
        0
    } else {
        let a = poly[previous(poly.len() as int, k - 1)];
        let b = poly[k - 1];
        swept(poly, k - 1) + span(a.x.0 as int, a.y.0 as int, b.x.0 as int, b.y.0 as int)
    }
}

proof fn lemma_swept(poly: Seq<FxVec2>, k: int)
    requires
        0 <= k <= poly.len(),
    ensures
        abs(4096 * shoelace(poly, k) - swept(poly, k)) <= 4096 * k,
    decreases k,
{
    if k > 0 {
        lemma_swept(poly, k - 1);
        let a = poly[previous(poly.len() as int, k - 1)];
        let b = poly[k - 1];
        let p = a.x.r() * b.y.r();
        let q = b.x.r() * a.y.r();
        assert(q == a.y.r() * b.x.r()) by (nonlinear_arith)
            requires
                q == b.x.r() * a.y.r(),
        ;
        assert(0 <= p - 4096 * (p / 4096) < 4096);
        assert(0 <= q - 4096 * (q / 4096) < 4096);
    }
}

/// The area is half the magnitude of the exact swept area, off by at most one unit of
/// the last place per edge.
pub proof fn law_area_is_half_the_swept_area(poly: &[FxVec2], r: Fx32)
    requires
        call_ensures(area, (poly,), r),
        poly@.len() >= 3,
        abs(swept(poly@, poly@.len() as int)) + 4096 * poly@.len() <= 0x7ff_ffff_f000,
    ensures
        r.0 >= 0,
        abs(8192 * r.0 - abs(swept(poly@, poly@.len() as int))) <= 4096 * poly@.len() + 8192,
{
    let n = poly@.len() as int;
    lemma_swept(poly@, n);
    let s = abs(shoelace(poly@, n)) as int;
    assert(s / 2 <= 0x7fff_ffff);
}

/// A loop of fewer than three vertices has no area, and one of fewer than two no
/// perimeter.
pub proof fn law_short_loops_measure_nothing(poly: &[FxVec2], a: Fx32, p: Fx32, r: Fx32)
    requires
        call_ensures(area, (poly,), a),
        call_ensures(perimeter, (poly,), p),
        call_ensures(regularity, (poly,), r),
    ensures
        poly@.len() < 3 ==> a.0 == 0,
        poly@.len() < 2 ==> p.0 == 0 && r.0 == 0,
{
}

/// A quotient of two numbers that are not negative, rounded down.
proof fn lemma_plain_quotient(n: int, d: int)
    requires
        n >= 0,
        d > 0,
        4096 * n <= 0x7fff_ffff * d,
    ensures
        fx_div(n, d) >= 0,
        0 <= 4096 * n - fx_div(n, d) * d < d,
{
    let w = n * 4096;
    let q = w / d;
    assert(d * q <= w < d * q + d) by (nonlinear_arith)
        requires
            d > 0,
            q == w / d,
    ;
    assert(0 <= q <= 0x7fff_ffff) by (nonlinear_arith)
        requires
            d > 0,
            0 <= w <= 0x7fff_ffff * d,
            d * q <= w < d * q + d,
    ;
    assert(fx_div(n, d) == q);
    assert(q * d == d * q) by (nonlinear_arith);
}

/// Regularity is four pi times the area over the squared perimeter, rounded down
/// three times.
pub proof fn law_regularity_is_the_isoperimetric_quotient(
    poly: &[FxVec2],
    a: Fx32,
    p: Fx32,
    r: Fx32,
)
    requires
        call_ensures(area, (poly,), a),
        call_ensures(perimeter, (poly,), p),
        call_ensures(regularity, (poly,), r),
        a.0 >= 0,
        p.0 > 0,
        4096 * a.0 <= 0xffff * p.0,
        0x10_0000 <= p.0,
    ensures
        0 <= 51471 * (0x100_0000 * a.0) - 4096 * (r.0 * (p.0 * p.0)) <= 51471 * (4096 * p.0 + p.0
            * p.0) + 4096 * (p.0 * p.0),
{
    let area_v = a.0 as int;
    let per = p.0 as int;
    lemma_plain_quotient(area_v, per);
    let q1 = fx_div(area_v, per);
    assert(q1 <= 0xffff) by (nonlinear_arith)
        requires
            q1 * per <= 4096 * area_v,
            4096 * area_v <= 0xffff * per,
            per > 0,
    ;
    lemma_plain_quotient(q1, per);
    let q2 = fx_div(q1, per);
    assert(q2 <= 0xffff) by (nonlinear_arith)
        requires
            q2 * per <= 4096 * q1,
            q1 <= 0xffff,
            per >= 4096,
            q2 >= 0,
    ;
    assert(0 <= q2 * 51471 <= 0xffff * 51471) by (nonlinear_arith)
        requires
            0 <= q2 <= 0xffff,
    ;
    let res = r.0 as int;
    assert(res == (q2 * 51471) / 4096);
    let f3 = q2 * 51471 - 4096 * res;
    let f1 = 4096 * area_v - q1 * per;
    let f2 = 4096 * q1 - q2 * per;
    let sq = per * per;
    assert(q2 * sq == 0x100_0000 * area_v - 4096 * f1 - f2 * per) by (nonlinear_arith)
        requires
            sq == per * per,
            f1 == 4096 * area_v - q1 * per,
            f2 == 4096 * q1 - q2 * per,
    ;
    assert(4096 * (res * sq) == 51471 * (q2 * sq) - f3 * sq) by (nonlinear_arith)
        requires
            f3 == q2 * 51471 - 4096 * res,
    ;
    assert(0 <= f2 * per <= sq) by (nonlinear_arith)
        requires
            0 <= f2 < per,
            sq == per * per,
    ;
    assert(0 <= f3 * sq <= 4096 * sq) by (nonlinear_arith)
        requires
            0 <= f3 < 4096,
            sq >= 0,
    ;
    assert(sq >= 0) by (nonlinear_arith)
        requires
            sq == per * per,
    ;
}

/// Smoothing keeps the ends and moves every other vertex to the mean of itself and its
/// two neighbours, off by no more than three units and a part in 4096.
pub proof fn law_smoothing_takes_means(path: &[FxVec2], r: Vec<FxVec2>, i: int)
    requires
        call_ensures(smooth, (path,), r),
        forall|k: int| 0 <= k < path@.len() ==> on_field(#[trigger] path@[k]),
        0 <= i < path@.len(),
    ensures
        r@.len() == path@.len(),
        i == 0 || i == path@.len() - 1 ==> r@[i] == path@[i],
        0 < i < path@.len() - 1 ==> {
            let x = path@[i - 1].x.0 + path@[i].x.0 + path@[i + 1].x.0;
            let y = path@[i - 1].y.0 + path@[i].y.0 + path@[i + 1].y.0;
            &&& 4096 * abs(3 * r@[i].x.0 - x) <= abs(x) + 12288
            &&& 4096 * abs(3 * r@[i].y.0 - y) <= abs(y) + 12288
        },
{
    assert(r@ == smoothed(path@));
    if 0 < i < path@.len() - 1 {
        assert(on_field(path@[i - 1]) && on_field(path@[i]) && on_field(path@[i + 1]));
        assert(r@[i] == mean3(path@[i - 1], path@[i], path@[i + 1]));
        lemma_mean(path@[i - 1].x.0 as int, path@[i].x.0 as int, path@[i + 1].x.0 as int);
        lemma_mean(path@[i - 1].y.0 as int, path@[i].y.0 as int, path@[i + 1].y.0 as int);
    }
}

/// A third of a sum, in fixed point.
proof fn lemma_mean(a: int, b: int, c: int)
    requires
        abs(a) <= 0xf_ffff,
        abs(b) <= 0xf_ffff,
        abs(c) <= 0xf_ffff,
    ensures
        wrap32(wrap32(a + b) + c) == a + b + c,
        ({
            let m = fx_mul(a + b + c, 1365);
            4096 * abs(3 * m - (a + b + c)) <= abs(a + b + c) + 12288 && abs(m) <= 0x10_0000
        }),
{
    let x = a + b + c;
    let m = (x * 1365) / 4096;
    assert(fx_mul(x, 1365) == m);
    assert(4096 * m <= x * 1365 < 4096 * m + 4096);
}

/// `p` lies `at` along the way from `a` to `b` of length `len`, off by no more than a
/// unit and a part in 4096 of `at`.
pub open spec fn lies_along(p: FxVec2, a: FxVec2, b: FxVec2, len: int, at: int) -> bool {
    &&& abs(4096 * (gap_x(a, p) * len - gap_x(a, b) * at)) <= (at + 4096) * len
    &&& abs(4096 * (gap_y(a, p) * len - gap_y(a, b) * at)) <= (at + 4096) * len
}

/// A step of `at` along one axis of a way of length `len`.
proof fn lemma_step_along(c: int, len: int, at: int)
    requires
        abs(c) <= len,
        0 < len <= 0x3f_ffff,
        0 <= at <= len,
    ensures
        ({
            let move_by = fx_mul(unit_component(c, len), at);
            &&& abs(4096 * (move_by * len - c * at)) <= (at + 4096) * len
            &&& abs(move_by) <= len + 1
        }),
        -4096 <= unit_component(c, len) <= 4096,
{
    let k = abs(c) as int;
    lemma_share_of(k, len);
    let q = fx_div(k, len);
    let u = unit_component(c, len);
    let mag = (k * 4096) / len;
    assert(abs(k * 4096) == k * 4096 && abs(c * 4096) == k * 4096);
    assert(trunc_div(k * 4096, len) == mag);
    assert(trunc_div(c * 4096, len) == mag || trunc_div(c * 4096, len) == -mag);
    assert(0 <= mag <= 4096) by (nonlinear_arith)
        requires
            mag == (k * 4096) / len,
            0 <= k <= len,
            len > 0,
    ;
    assert(q == mag);
    assert(c >= 0 ==> u == q);
    assert(c < 0 ==> u == -q);
    let r = 4096 * c - u * len;
    assert(abs(r) < len) by (nonlinear_arith)
        requires
            r == 4096 * c - u * len,
            c == k && u == q || c == -k && u == -q,
            -len < 4096 * k - q * len < len,
            abs(r) == r && r >= 0 || abs(r) == -r && r <= 0,
    ;
    assert(-(4096 * len) <= u * at <= 4096 * len) by (nonlinear_arith)
        requires
            -4096 <= u <= 4096,
            0 <= at <= len,
    ;
    let m = fx_mul(u, at);
    assert(m == (u * at) / 4096);
    let rho = u * at - 4096 * m;
    assert(4096 * (m * len - c * at) == -(r * at) - rho * len) by (nonlinear_arith)
        requires
            rho == u * at - 4096 * m,
            r == 4096 * c - u * len,
    ;
    assert(-(len * at) <= r * at <= len * at) by (nonlinear_arith)
        requires
            -len <= r <= len,
            at >= 0,
    ;
    assert(0 <= rho * len <= 4096 * len) by (nonlinear_arith)
        requires
            0 <= rho < 4096,
            len >= 0,
    ;
    assert((at + 4096) * len == len * at + 4096 * len) by (nonlinear_arith);
}

/// The point some way along a segment of a path lies on the segment, that far from
/// its start.
pub proof fn law_point_along_lies_on_the_segment(path: Seq<FxVec2>, i: int, at: int)
    requires
        1 <= i < path.len(),
        on_field(path[i - 1]) && on_field(path[i]),
        0 <= at <= segment_len(path, i),
    ensures
        is_length(
            segment_len(path, i),
            gap_x(path[i - 1], path[i]),
            gap_y(path[i - 1], path[i]),
        ),
        segment_len(path, i) > 0 ==> lies_along(
            point_along(path, i, at),
            path[i - 1],
            path[i],
            segment_len(path, i),
            at,
        ),
{
    reveal(segment_len);
    reveal(point_along);
    let d = vec2_sub(path[i], path[i - 1]);
    lemma_gaps(path[i - 1], path[i], 0x1f_ffff);
    lemma_field_len(d);
    lemma_along(path[i - 1], path[i], d, vec2_len(d), at);
}

/// The point at a distance along a way.
proof fn lemma_along(a: FxVec2, b: FxVec2, d: FxVec2, len: int, at: int)
    requires
        on_field(a) && on_field(b),
        d.x.0 == gap_x(a, b),
        d.y.0 == gap_y(a, b),
        len == vec2_len(d),
        is_length(len, gap_x(a, b), gap_y(a, b)),
        0 <= len <= 0x3f_ffff,
        0 <= at <= len,
    ensures
        len > 0 ==> lies_along(vec2_add(a, vec2_scale(vec2_unit(d), at)), a, b, len, at),
{
    if len > 0 {
        let cx = unit_component(d.x.0 as int, len);
        let cy = unit_component(d.y.0 as int, len);
        lemma_within_length(d.x.0 as int, d.y.0 as int, len);
        lemma_step_along(d.x.0 as int, len, at);
        lemma_step_along(d.y.0 as int, len, at);
        let u = vec2_unit(d);
        assert(u.x.0 == cx && u.y.0 == cy);
        lemma_moved(a, u, at);
    }
}

/// Adding a short scaled vector does not wrap.
proof fn lemma_moved(a: FxVec2, u: FxVec2, t: int)
    requires
        on_field(a),
        abs(fx_mul(u.x.0 as int, t)) <= 0x40_0000,
        abs(fx_mul(u.y.0 as int, t)) <= 0x40_0000,
    ensures
        gap_x(a, vec2_add(a, vec2_scale(u, t))) == fx_mul(u.x.0 as int, t),
        gap_y(a, vec2_add(a, vec2_scale(u, t))) == fx_mul(u.y.0 as int, t),
{
    let v = vec2_scale(u, t);
    assert(v.x.0 == fx_mul(u.x.0 as int, t));
    assert(v.y.0 == fx_mul(u.y.0 as int, t));
}

proof fn lemma_within_length(x: int, y: int, len: int)
    requires
        is_length(len, x, y),
    ensures
        abs(x) <= len,
        abs(y) <= len,
{
    assert(-(len + 1) < x < len + 1 && -(len + 1) < y < len + 1) by (nonlinear_arith)
        requires
            x * x + y * y < (len + 1) * (len + 1),
            len >= 0,
    ;
}

/// The exact dot product.
pub open spec fn exact_dot(ax: int, ay: int, bx: int, by: int) -> int {
    ax * bx + ay * by
}

/// The fixed-point dot product is the exact one, but for rounding.
proof fn lemma_dot_close(a: FxVec2, b: FxVec2)
    requires
        abs(a.x.0 as int) <= 0x1f_ffff && abs(a.y.0 as int) <= 0x1f_ffff,
        abs(b.x.0 as int) <= 0x1f_ffff && abs(b.y.0 as int) <= 0x1f_ffff,
    ensures
        0 <= exact_dot(a.x.0 as int, a.y.0 as int, b.x.0 as int, b.y.0 as int) - 4096 * dot2(a, b)
            < 8192,
{
    lemma_field_product(a.x.0 as int, b.x.0 as int);
    lemma_field_product(a.y.0 as int, b.y.0 as int);
}

/// The dot product of a way with itself is not negative.
proof fn lemma_own_dot(a: FxVec2)
    requires
        abs(a.x.0 as int) <= 0x1f_ffff && abs(a.y.0 as int) <= 0x1f_ffff,
    ensures
        dot2(a, a) >= 0,
{
    let x = a.x.0 as int;
    let y = a.y.0 as int;
    assert(x * x >= 0 && y * y >= 0) by (nonlinear_arith);
    lemma_field_product(x, x);
    lemma_field_product(y, y);
}

proof fn lemma_field_product(x: int, y: int)
    requires
        abs(x) <= 0x1f_ffff,
        abs(y) <= 0x1f_ffff,
    ensures
        fx_mul(x, y) == (x * y) / 4096,
        -0x3fff_fc01 <= fx_mul(x, y) <= 0x3fff_fc00,
{
    assert(-0x3ff_ffc0_0001 <= x * y <= 0x3ff_ffc0_0001) by (nonlinear_arith)
        requires
            -0x1f_ffff <= x <= 0x1f_ffff,
            -0x1f_ffff <= y <= 0x1f_ffff,
    ;
}

/// `f` is the point a share of `t` out of 4096 along the way from `a` to `b`, rounded
/// down.
pub open spec fn is_share(f: FxVec2, a: FxVec2, b: FxVec2, t: int) -> bool {
    &&& 0 <= t <= 4096
    &&& 0 <= t * gap_x(a, b) - 4096 * gap_x(a, f) < 4096
    &&& 0 <= t * gap_y(a, b) - 4096 * gap_y(a, f) < 4096
}

/// The share `t` is where the way from `a` to `b` comes nearest to `p`: at a share
/// inside, what is left over to `p` is square to the way, up to rounding; at the start
/// `p` lies behind it, and at the end beyond it.
pub open spec fn is_nearest_share(p: FxVec2, a: FxVec2, b: FxVec2, t: int) -> bool {
    let len_sq = exact_dot(gap_x(a, b), gap_y(a, b), gap_x(a, b), gap_y(a, b));
    let left = 4096 * exact_dot(gap_x(a, p), gap_y(a, p), gap_x(a, b), gap_y(a, b)) - t * len_sq;
    &&& t > 0 ==> left >= -len_sq - 0x400_0000
    &&& t < 4096 ==> left <= len_sq + 0x400_0000
}

/// The distance to a segment is the length from the point to the nearest share of the
/// segment. A segment too short for fixed point to have a length counts as its start.
pub proof fn law_distance_is_to_the_nearest_share(p: FxVec2, a: FxVec2, b: FxVec2, r: Fx32)
    requires
        call_ensures(dist_point_segment, (p, a, b), r),
        on_field(p) && on_field(a) && on_field(b),
    ensures
        ({
            ||| exact_dot(gap_x(a, b), gap_y(a, b), gap_x(a, b), gap_y(a, b)) < 8192 && is_length(
                r.0 as int,
                gap_x(a, p),
                gap_y(a, p),
            )
            ||| exists|t: int, f: FxVec2| #[trigger]
                is_share(f, a, b, t) && is_nearest_share(p, a, b, t) && is_length(
                    r.0 as int,
                    gap_x(f, p),
                    gap_y(f, p),
                )
        }),
{
    lemma_gaps(a, b, 0x1f_ffff);
    lemma_gaps(a, p, 0x1f_ffff);
    let ab = vec2_sub(b, a);
    let pa = vec2_sub(p, a);
    lemma_distance(p, a, ab, pa, r.0 as int);
    lemma_dot_close(ab, ab);
    if dot2(ab, ab) == 0 {
        lemma_field_len(pa);
    } else {
        let t = clamped_foot(dot2(pa, ab), dot2(ab, ab));
        lemma_foot_is_nearest(p, a, b, ab, pa);
        let f = vec2_add(a, vec2_scale(ab, t));
        lemma_share_point(a, b, ab, t, f);
        lemma_gaps(f, p, 0x1f_ffff);
        lemma_field_len(vec2_sub(p, f));
        assert(is_share(f, a, b, t));
    }
}

/// What the distance was computed from.
proof fn lemma_distance(p: FxVec2, a: FxVec2, ab: FxVec2, pa: FxVec2, d: int)
    requires
        exists|b: FxVec2| #[trigger]
            segment_distance(p, a, b) == d && ab == vec2_sub(b, a) && pa == vec2_sub(p, a),
    ensures
        dot2(ab, ab) == 0 ==> d == vec2_len(pa),
        dot2(ab, ab) != 0 ==> d == vec2_len(
            vec2_sub(p, vec2_add(a, vec2_scale(ab, clamped_foot(dot2(pa, ab), dot2(ab, ab))))),
        ),
{
    reveal(segment_distance);
}

/// How far along the foot of the perpendicular lies, held between the ends.
spec fn clamped_foot(n: int, denom: int) -> int {
    let foot = fx_div(n, denom);
    if foot < 0 {
        0
    } else if foot > 4096 {
        4096
    } else {
        foot
    }
}

/// The point at a share stays on the field.
proof fn lemma_share_point(a: FxVec2, b: FxVec2, ab: FxVec2, t: int, f: FxVec2)
    requires
        on_field(a) && on_field(b),
        ab.x.0 == gap_x(a, b),
        ab.y.0 == gap_y(a, b),
        0 <= t <= 4096,
        f == vec2_add(a, vec2_scale(ab, t)),
    ensures
        is_share(f, a, b, t),
        on_field(f),
{
    let w = gap_x(a, b);
    let h = gap_y(a, b);
    lemma_field_share(w, t);
    lemma_field_share(h, t);
    assert(w * t == t * w && h * t == t * h) by (nonlinear_arith);
    assert(fx_mul(w, t) == fx_mul(t, w) && fx_mul(h, t) == fx_mul(t, h));
    lemma_moved(a, ab, t);
}

proof fn lemma_foot_is_nearest(p: FxVec2, a: FxVec2, b: FxVec2, ab: FxVec2, pa: FxVec2)
    requires
        on_field(p) && on_field(a) && on_field(b),
        ab.x.0 == gap_x(a, b) && ab.y.0 == gap_y(a, b),
        pa.x.0 == gap_x(a, p) && pa.y.0 == gap_y(a, p),
        dot2(ab, ab) != 0,
    ensures
        is_nearest_share(p, a, b, clamped_foot(dot2(pa, ab), dot2(ab, ab))),
        0 <= clamped_foot(dot2(pa, ab), dot2(ab, ab)) <= 4096,
{
    lemma_dot_close(ab, ab);
    lemma_dot_close(pa, ab);
    lemma_own_dot(ab);
    lemma_foot_exact(gap_x(a, p), gap_y(a, p), gap_x(a, b), gap_y(a, b), dot2(pa, ab), dot2(ab, ab));
}

proof fn lemma_foot_exact(px: int, py: int, w: int, h: int, n: int, denom: int)
    requires
        abs(px) <= 0x1f_ffff,
        abs(py) <= 0x1f_ffff,
        denom > 0,
        0 <= exact_dot(px, py, w, h) - 4096 * n < 8192,
        0 <= exact_dot(w, h, w, h) - 4096 * denom < 8192,
    ensures
        ({
            let t = clamped_foot(n, denom);
            let len_sq = exact_dot(w, h, w, h);
            let left = 4096 * exact_dot(px, py, w, h) - t * len_sq;
            &&& t > 0 ==> left >= -len_sq - 0x400_0000
            &&& t < 4096 ==> left <= len_sq + 0x400_0000
            &&& 0 <= t <= 4096
        }),
{
    let len_sq = exact_dot(w, h, w, h);
    assert(len_sq >= 0) by (nonlinear_arith)
        requires
            len_sq == w * w + h * h,
    ;
    lemma_foot_fits(px, py, w, h, n, denom);
    lemma_foot(n, denom, exact_dot(px, py, w, h), len_sq, clamped_foot(n, denom));
}

/// The quotient of the foot fits its register: a way long enough to be divided by is
/// not much shorter than the way to any point of the field.
proof fn lemma_foot_fits(px: int, py: int, w: int, h: int, n: int, denom: int)
    requires
        abs(px) <= 0x1f_ffff,
        abs(py) <= 0x1f_ffff,
        denom > 0,
        0 <= exact_dot(px, py, w, h) - 4096 * n < 8192,
        0 <= exact_dot(w, h, w, h) - 4096 * denom < 8192,
    ensures
        4096 * abs(n) <= 0x7fff_ffff * denom,
{
    let s = if abs(w) >= abs(h) {
        abs(w) as int
    } else {
        abs(h) as int
    };
    assert(-(0x1f_ffff * s) <= px * w <= 0x1f_ffff * s) by (nonlinear_arith)
        requires
            -0x1f_ffff <= px <= 0x1f_ffff,
            -s <= w <= s,
    ;
    assert(-(0x1f_ffff * s) <= py * h <= 0x1f_ffff * s) by (nonlinear_arith)
        requires
            -0x1f_ffff <= py <= 0x1f_ffff,
            -s <= h <= s,
    ;
    let sq = s * s;
    assert(w * w + h * h >= sq) by (nonlinear_arith)
        requires
            s == w || s == -w || s == h || s == -h,
            sq == s * s,
    ;
    if s > 200 {
        assert(sq >= 201 * s) by (nonlinear_arith)
            requires
                s >= 201,
                sq == s * s,
        ;
    }
}

/// The clamped foot of the perpendicular, against the exact one.
proof fn lemma_foot(n: int, denom: int, along: int, len_sq: int, t: int)
    requires
        denom > 0,
        4096 * abs(n) <= 0x7fff_ffff * denom,
        0 <= along - 4096 * n < 8192,
        0 <= len_sq - 4096 * denom < 8192,
        t == clamped_foot(n, denom),
    ensures
        t > 0 ==> 4096 * along - t * len_sq >= -len_sq - 0x400_0000,
        t < 4096 ==> 4096 * along - t * len_sq <= len_sq + 0x400_0000,
        0 <= t <= 4096,
{
    lemma_quotient_fits(n, denom);
    let foot = fx_div(n, denom);
    let e2 = len_sq - 4096 * denom;
    assert(t * len_sq == 4096 * (t * denom) + t * e2) by (nonlinear_arith)
        requires
            e2 == len_sq - 4096 * denom,
    ;
    assert(0 <= t * e2 <= 4096 * 8192) by (nonlinear_arith)
        requires
            0 <= t <= 4096,
            0 <= e2 <= 8192,
    ;
    if foot < 0 {
        assert(foot * denom <= -denom) by (nonlinear_arith)
            requires
                foot <= -1,
                denom > 0,
        ;
        assert(0 * denom == 0) by (nonlinear_arith);
        assert(t * denom == 0);
    } else if foot > 4096 {
        assert(foot * denom >= 4097 * denom) by (nonlinear_arith)
            requires
                foot >= 4097,
                denom > 0,
        ;
    }
}

/// A circle is enclosed exactly if its centre is inside and no edge of the closed loop
/// comes nearer to the centre than the radius.
pub proof fn law_circle_keeps_clear_of_every_edge(
    poly: &[FxVec2],
    center: FxVec2,
    radius: Fx32,
    r: bool,
    q: bool,
    i: int,
    d: Fx32,
)
    requires
        call_ensures(encloses_circle, (poly, center, radius), r),
        call_ensures(point_in_polygon, (poly, center), q),
        0 <= i < poly@.len(),
        call_ensures(
            dist_point_segment,
            (center, poly@[previous(poly@.len() as int, i)], poly@[i]),
            d,
        ),
    ensures
        r ==> q && radius.0 <= d.0,
        q && !r ==> exists|k: int|
            0 <= k < poly@.len() && #[trigger] comes_near(poly@, center, radius, k),
{
    assert(d.0 == edge_distance(poly@, center, i));
    if q && !r {
        let k = choose|k: int|
            0 <= k < poly@.len() && radius.r() > #[trigger] edge_distance(poly@, center, k);
        assert(comes_near(poly@, center, radius, k));
    }
}

/// The edge that ends at vertex `k` comes nearer to the centre than the radius.
pub open spec fn comes_near(poly: Seq<FxVec2>, center: FxVec2, radius: Fx32, k: int) -> bool {
    segment_distance(center, poly[previous(poly.len() as int, k)], poly[k]) < radius.0
}

/// The list of enclosed points holds an index exactly if the point test says so, in
/// order.
pub proof fn law_enclosed_goes_by_the_point_test(
    poly: &[FxVec2],
    points: &[FxVec2],
    r: Vec<usize>,
    i: usize,
    q: bool,
)
    requires
        call_ensures(enclosed, (poly, points), r),
        i < points@.len(),
        call_ensures(point_in_polygon, (poly, points@[i as int]), q),
    ensures
        r@.contains(i) <==> q,
        forall|a: int, b: int| 0 <= a < b < r@.len() ==> r@[a] < r@[b],
{
    assert(is_enclosed_list(poly@, points@, points@.len() as int, r@));
    if r@.contains(i) {
        let w = choose|w: int| 0 <= w < r@.len() && r@[w] == i;
        assert(inside(poly@, points@[r@[w] as int]));
    }
}

} // verus!
