//! What the loop tests mean: where two segments cross, measured on the exact plane.

use crate::loops::geometry::{
    between, cross2, crossing, crossing_param, find_closed_loop, law_crossing_within_segment,
    segment_intersection,
};
use crate::math::fx::{fx_div, fx_mul};
use crate::math::fx_vec::{vec2_add, vec2_scale, vec2_sub, FxVec2};
use crate::math::hw::{quotient, trunc_div};
use vstd::math::abs;
use vstd::prelude::*;

verus! {

/// Twice the signed area that `(ax, ay)` and `(bx, by)` span, exactly.
pub open spec fn span(ax: int, ay: int, bx: int, by: int) -> int {
    ax * by - ay * bx
}

/// How far two points are apart along X, raw.
pub open spec fn gap_x(a: FxVec2, b: FxVec2) -> int {
    b.x.0 - a.x.0
}

/// How far two points are apart along Y, raw.
pub open spec fn gap_y(a: FxVec2, b: FxVec2) -> int {
    b.y.0 - a.y.0
}

/// The area that the directions of two segments span.
pub open spec fn turn_between(p1: FxVec2, p2: FxVec2, p3: FxVec2, p4: FxVec2) -> int {
    span(gap_x(p1, p2), gap_y(p1, p2), gap_x(p3, p4), gap_y(p3, p4))
}

/// Two points are at most `m` apart along both axes.
pub open spec fn within_reach(a: FxVec2, b: FxVec2, m: int) -> bool {
    abs(gap_x(a, b)) <= m && abs(gap_y(a, b)) <= m
}

/// A point on the playfield: 256 pixels either way.
pub open spec fn on_field(p: FxVec2) -> bool {
    abs(p.x.0 as int) <= 0xf_ffff && abs(p.y.0 as int) <= 0xf_ffff
}

/// Differences of near points do not wrap.
pub proof fn lemma_gaps(a: FxVec2, b: FxVec2, m: int)
    requires
        within_reach(a, b, m),
        m <= 0x1f_ffff,
    ensures
        vec2_sub(b, a).x.0 == gap_x(a, b),
        vec2_sub(b, a).y.0 == gap_y(a, b),
{
}

/// The fixed-point cross product is the exact one, but for the rounding of its two
/// products.
proof fn lemma_cross_close(a: FxVec2, b: FxVec2)
    requires
        abs(a.x.0 as int) <= 0x1f_ffff && abs(a.y.0 as int) <= 0x1f_ffff,
        abs(b.x.0 as int) <= 0x1f_ffff && abs(b.y.0 as int) <= 0x1f_ffff,
    ensures
        abs(4096 * cross2(a, b) - span(a.x.0 as int, a.y.0 as int, b.x.0 as int, b.y.0 as int))
            < 4096,
{
    lemma_small_product(a.x.0 as int, b.y.0 as int);
    lemma_small_product(a.y.0 as int, b.x.0 as int);
}

proof fn lemma_small_product(x: int, y: int)
    requires
        abs(x) <= 0x1f_ffff,
        abs(y) <= 0x1f_ffff,
    ensures
        fx_mul(x, y) == (x * y) / 4096,
        -0x3fff_fc01 <= fx_mul(x, y) <= 0x3fff_fc00,
{
    assert(-0x3ff_ffc0_0001 <= x * y <= 0x3ff_ffc0_0001) by (nonlinear_arith)
        requires
            -0x1f_ffff <= x <= 0x1f_ffff,
            -0x1f_ffff <= y <= 0x1f_ffff,
    ;
}

/// A quotient that fits, in terms of its divisor.
pub proof fn lemma_quotient_fits(n: int, d: int)
    requires
        d != 0,
        4096 * abs(n) <= 0x7fff_ffff * abs(d),
    ensures
        abs(4096 * n - fx_div(n, d) * d) < abs(d),
{
    let w = n * 4096;
    let a = abs(w) as int;
    let b = abs(d) as int;
    let q = a / b;
    assert(b * q <= a < b * q + b) by (nonlinear_arith)
        requires
            b > 0,
            q == a / b,
    ;
    assert(0 <= q <= 0x7fff_ffff) by (nonlinear_arith)
        requires
            b > 0,
            0 <= a <= 0x7fff_ffff * b,
            b * q <= a < b * q + b,
    ;
    let t = trunc_div(w, d);
    assert(quotient(w, d) == t);
    assert(fx_div(n, d) == t);
    assert(t * d == b * q || t * d == -(b * q)) by (nonlinear_arith)
        requires
            t == q || t == -q,
            d == b || d == -b,
    ;
    if w >= 0 {
        assert(t * d == b * q) by (nonlinear_arith)
            requires
                d == b && t == q || d == -b && t == -q,
        ;
    } else {
        assert(t * d == -(b * q)) by (nonlinear_arith)
            requires
                d == b && t == -q || d == -b && t == q || q == 0 && t == 0,
        ;
    }
}

/// Cramer's rule on one axis: `a`, `b` and `f` are the components of the two
/// directions and of the way between the starts.
proof fn lemma_on_axis(
    a: int,
    b: int,
    f: int,
    tn: int,
    un: int,
    dn: int,
    big_t: int,
    big_u: int,
    big_d: int,
    t: int,
    u: int,
    m: int,
)
    requires
        a * big_t - b * big_u - f * big_d == 0,
        abs(4096 * tn - big_t) < 4096,
        abs(4096 * un - big_u) < 4096,
        abs(4096 * dn - big_d) < 4096,
        abs(4096 * tn - t * dn) < abs(dn),
        abs(4096 * un - u * dn) < abs(dn),
        abs(a) <= m,
        abs(b) <= m,
        abs(f) <= m,
    ensures
        abs((a * t - u * b - 4096 * f) * dn) <= 12288 * m + 2 * m * abs(dn),
{
    let e1 = 4096 * tn - big_t;
    let e2 = 4096 * un - big_u;
    let e0 = 4096 * dn - big_d;
    let r1 = 4096 * tn - t * dn;
    let r2 = 4096 * un - u * dn;
    lemma_spread(a, t, dn, 4096 * tn, r1, big_t, e1);
    lemma_spread(b, u, dn, 4096 * un, r2, big_u, e2);
    assert((a * t - u * b - 4096 * f) * dn == (a * t) * dn - (b * u) * dn - f * (4096 * dn))
        by (nonlinear_arith);
    assert(f * (4096 * dn) == f * big_d + f * e0) by (nonlinear_arith)
        requires
            e0 == 4096 * dn - big_d,
    ;
    lemma_product_bound(a, e1, m, 4096);
    lemma_product_bound(b, e2, m, 4096);
    lemma_product_bound(f, e0, m, 4096);
    lemma_product_bound(a, r1, m, abs(dn) as int);
    lemma_product_bound(b, r2, m, abs(dn) as int);
    assert(2 * m * abs(dn) == m * abs(dn) + m * abs(dn)) by (nonlinear_arith);
}

/// A share times its divisor, in terms of what it was rounded from.
proof fn lemma_spread(a: int, t: int, dn: int, n: int, r: int, big: int, e: int)
    requires
        r == n - t * dn,
        e == n - big,
    ensures
        (a * t) * dn == a * big + a * e - a * r,
{
    assert((a * t) * dn == a * (t * dn)) by (nonlinear_arith);
    let x = t * dn;
    assert(a * x == a * big + a * e - a * r) by (nonlinear_arith)
        requires
            x == big + e - r,
    ;
}

proof fn lemma_product_bound(x: int, y: int, m: int, n: int)
    requires
        abs(x) <= m,
        abs(y) <= n,
    ensures
        -(m * n) <= x * y <= m * n,
{
    assert(-(m * n) <= x * y <= m * n) by (nonlinear_arith)
        requires
            -m <= x <= m,
            -n <= y <= n,
    ;
}

/// The three crosses of two segments satisfy Cramer's rule.
proof fn lemma_cramer(ax: int, ay: int, bx: int, by: int, fx: int, fy: int)
    ensures
        ax * span(fx, fy, bx, by) - bx * span(fx, fy, ax, ay) - fx * span(ax, ay, bx, by) == 0,
        ay * span(fx, fy, bx, by) - by * span(fx, fy, ax, ay) - fy * span(ax, ay, bx, by) == 0,
{
    assert(ax * (fx * by - fy * bx) - bx * (fx * ay - fy * ax) - fx * (ax * by - ay * bx) == 0)
        by (nonlinear_arith);
    assert(ay * (fx * by - fy * bx) - by * (fx * ay - fy * ax) - fy * (ax * by - ay * bx) == 0)
        by (nonlinear_arith);
}

/// `c` is the point a share of `u` out of 4096 along the way from `p` to `q`, up to
/// an error of `slack` parts in 4096 along either axis.
pub open spec fn near_share(c: FxVec2, p: FxVec2, q: FxVec2, u: int, slack: int) -> bool {
    &&& abs(4096 * gap_x(p, c) - u * gap_x(p, q)) <= slack
    &&& abs(4096 * gap_y(p, c) - u * gap_y(p, q)) <= slack
}

/// `c` lies on the segment from `p` to `q`, up to an error.
pub open spec fn near_segment(c: FxVec2, p: FxVec2, q: FxVec2, slack: int) -> bool {
    exists|u: int| 0 <= u <= 4096 && #[trigger] near_share(c, p, q, u, slack)
}

/// The error bound on one axis, from the bound times the divisor.
proof fn lemma_slack(x: int, rho: int, dn: int, big_d: int, m: int, slack: int)
    requires
        abs(x * dn) <= 12288 * m + 2 * m * abs(dn),
        0 <= rho < 4096,
        abs(4096 * dn - big_d) < 4096,
        abs(big_d) > 4096,
        m >= 0,
        slack >= 2 * m + 4096,
        0x300_0000 * m <= (slack - 2 * m - 4096) * (abs(big_d) - 4096),
    ensures
        abs(x - rho) <= slack,
{
    let n = abs(dn) as int;
    let y = abs(x) as int;
    assert(abs(x * dn) == y * n) by (nonlinear_arith)
        requires
            y == x && x >= 0 || y == -x && x <= 0,
            n == dn && dn >= 0 || n == -dn && dn <= 0,
            abs(x * dn) == x * dn && x * dn >= 0 || abs(x * dn) == -(x * dn) && x * dn <= 0,
    ;
    let room = slack - 2 * m - 4096;
    let big = abs(big_d) as int;
    assert(4096 * n > big - 4096);
    if y > 2 * m + room {
        assert(y * n > 12288 * m + 2 * m * n) by (nonlinear_arith)
            requires
                y >= 2 * m + room + 1,
                n >= 1,
                4096 * n > big - 4096,
                big > 4096,
                room >= 0,
                0x300_0000 * m <= room * (big - 4096),
        ;
    }
}

/// A reported crossing lies on both segments: between the ends of the first, and
/// within `slack` parts of the second. The slack that fixed point needs grows with
/// the reach `m` of the segments and shrinks with the area that they span.
pub proof fn law_crossing_lies_on_both_segments(
    p1: FxVec2,
    p2: FxVec2,
    p3: FxVec2,
    p4: FxVec2,
    r: Option<FxVec2>,
    m: int,
    slack: int,
)
    requires
        call_ensures(segment_intersection, (p1, p2, p3, p4), r),
        0 < m <= 0x1f_ffff,
        within_reach(p1, p2, m),
        within_reach(p3, p4, m),
        within_reach(p1, p3, m),
        abs(turn_between(p1, p2, p3, p4)) > 4096,
        4096 * (2 * (m * m) + 4096) <= 0x7fff_ffff * (abs(turn_between(p1, p2, p3, p4)) - 4096),
        slack >= 2 * m + 4096,
        0x300_0000 * m <= (slack - 2 * m - 4096) * (abs(turn_between(p1, p2, p3, p4)) - 4096),
    ensures
        r matches Some(c) ==> {
            &&& between(p1.x.0 as int, c.x.0 as int, p2.x.0 as int)
            &&& between(p1.y.0 as int, c.y.0 as int, p2.y.0 as int)
            &&& near_segment(c, p3, p4, slack)
        },
{
    if let Some(c) = r {
        law_crossing_within_segment(p1, p2, p3, p4);
        lemma_found(p1, p2, p3, p4, c);
        lemma_gaps(p1, p2, m);
        lemma_gaps(p3, p4, m);
        lemma_gaps(p1, p3, m);
        let d1 = vec2_sub(p2, p1);
        let d2 = vec2_sub(p4, p3);
        let diff = vec2_sub(p3, p1);
        let dn = cross2(d1, d2);
        let tn = cross2(diff, d2);
        let un = cross2(diff, d1);
        lemma_cross_close(d1, d2);
        lemma_cross_close(diff, d2);
        lemma_cross_close(diff, d1);
        let t = fx_div(tn, dn);
        let u = fx_div(un, dn);
        lemma_share(gap_x(p1, p2), t);
        lemma_share(gap_y(p1, p2), t);
        lemma_near(p1, p2, p3, p4, m, slack, dn, tn, un);
        assert(gap_x(p1, c) == fx_mul(gap_x(p1, p2), t));
        assert(gap_y(p1, c) == fx_mul(gap_y(p1, p2), t));
        assert(near_share(c, p3, p4, u, slack));
    }
}

/// What a reported crossing was computed from.
proof fn lemma_found(p1: FxVec2, p2: FxVec2, p3: FxVec2, p4: FxVec2, c: FxVec2)
    requires
        crossing(p1, p2, p3, p4) == Some(c),
    ensures
        ({
            let d1 = vec2_sub(p2, p1);
            let d2 = vec2_sub(p4, p3);
            let diff = vec2_sub(p3, p1);
            let dn = cross2(d1, d2);
            &&& dn != 0
            &&& 0 <= fx_div(cross2(diff, d2), dn) <= 4096
            &&& 0 <= fx_div(cross2(diff, d1), dn) <= 4096
            &&& c == vec2_add(p1, vec2_scale(d1, fx_div(cross2(diff, d2), dn)))
        }),
{
    reveal(crossing_param);
}

/// The shares of two crosses, near enough to the exact ones, meet on both axes.
proof fn lemma_near(
    p1: FxVec2,
    p2: FxVec2,
    p3: FxVec2,
    p4: FxVec2,
    m: int,
    slack: int,
    dn: int,
    tn: int,
    un: int,
)
    requires
        0 < m <= 0x1f_ffff,
        within_reach(p1, p2, m),
        within_reach(p3, p4, m),
        within_reach(p1, p3, m),
        abs(turn_between(p1, p2, p3, p4)) > 4096,
        4096 * (2 * (m * m) + 4096) <= 0x7fff_ffff * (abs(turn_between(p1, p2, p3, p4)) - 4096),
        slack >= 2 * m + 4096,
        0x300_0000 * m <= (slack - 2 * m - 4096) * (abs(turn_between(p1, p2, p3, p4)) - 4096),
        abs(4096 * dn - turn_between(p1, p2, p3, p4)) < 4096,
        abs(
            4096 * tn - span(gap_x(p1, p3), gap_y(p1, p3), gap_x(p3, p4), gap_y(p3, p4)),
        ) < 4096,
        abs(
            4096 * un - span(gap_x(p1, p3), gap_y(p1, p3), gap_x(p1, p2), gap_y(p1, p2)),
        ) < 4096,
        0 <= fx_div(tn, dn) <= 4096,
        0 <= fx_div(un, dn) <= 4096,
    ensures
        abs(
            4096 * (fx_mul(gap_x(p1, p2), fx_div(tn, dn)) - gap_x(p1, p3)) - fx_div(un, dn) * gap_x(
                p3,
                p4,
            ),
        ) <= slack,
        abs(
            4096 * (fx_mul(gap_y(p1, p2), fx_div(tn, dn)) - gap_y(p1, p3)) - fx_div(un, dn) * gap_y(
                p3,
                p4,
            ),
        ) <= slack,
{
    let ax = gap_x(p1, p2);
    let ay = gap_y(p1, p2);
    let bx = gap_x(p3, p4);
    let by = gap_y(p3, p4);
    let fx = gap_x(p1, p3);
    let fy = gap_y(p1, p3);
    let big_d = span(ax, ay, bx, by);
    let big_t = span(fx, fy, bx, by);
    let big_u = span(fx, fy, ax, ay);
    let t = fx_div(tn, dn);
    let u = fx_div(un, dn);
    lemma_span_bound(fx, fy, bx, by, m);
    lemma_span_bound(fx, fy, ax, ay, m);
    lemma_room(tn, big_t, dn, big_d, m);
    lemma_room(un, big_u, dn, big_d, m);
    lemma_quotient_fits(tn, dn);
    lemma_quotient_fits(un, dn);
    lemma_cramer(ax, ay, bx, by, fx, fy);
    lemma_on_axis(ax, bx, fx, tn, un, dn, big_t, big_u, big_d, t, u, m);
    lemma_on_axis(ay, by, fy, tn, un, dn, big_t, big_u, big_d, t, u, m);
    lemma_share(ax, t);
    lemma_share(ay, t);
    let rho_x = ax * t - 4096 * fx_mul(ax, t);
    let rho_y = ay * t - 4096 * fx_mul(ay, t);
    lemma_slack(ax * t - u * bx - 4096 * fx, rho_x, dn, big_d, m, slack);
    lemma_slack(ay * t - u * by - 4096 * fy, rho_y, dn, big_d, m, slack);
}

/// The quotients of the crosses fit their register.
proof fn lemma_room(n: int, big: int, dn: int, big_d: int, m: int)
    requires
        abs(big) <= 2 * (m * m),
        abs(4096 * n - big) < 4096,
        abs(4096 * dn - big_d) < 4096,
        abs(big_d) > 4096,
        4096 * (2 * (m * m) + 4096) <= 0x7fff_ffff * (abs(big_d) - 4096),
    ensures
        dn != 0,
        4096 * abs(n) <= 0x7fff_ffff * abs(dn),
{
    assert(4096 * abs(n) <= 2 * (m * m) + 4096);
    assert(abs(big_d) - 4096 < 4096 * abs(dn));
}

/// A share of a short way is not cut.
proof fn lemma_share(a: int, t: int)
    requires
        abs(a) <= 0x1f_ffff,
        0 <= t <= 4096,
    ensures
        fx_mul(a, t) == (a * t) / 4096,
        0 <= a * t - 4096 * fx_mul(a, t) < 4096,
        between(0, fx_mul(a, t), a),
{
    if a >= 0 {
        assert(0 <= a * t <= a * 4096) by (nonlinear_arith)
            requires
                a >= 0,
                0 <= t <= 4096,
        ;
    } else {
        assert(a * 4096 <= a * t <= 0) by (nonlinear_arith)
            requires
                a <= 0,
                0 <= t <= 4096,
        ;
    }
}

proof fn lemma_span_bound(ax: int, ay: int, bx: int, by: int, m: int)
    requires
        abs(ax) <= m,
        abs(ay) <= m,
        abs(bx) <= m,
        abs(by) <= m,
    ensures
        abs(span(ax, ay, bx, by)) <= 2 * (m * m),
{
    lemma_product_bound(ax, by, m, m);
    lemma_product_bound(ay, bx, m, m);
}

/// On the playfield, a reported crossing of two segments that span at least two
/// square pixels lies on both, up to half a pixel; so segments whose boxes are
/// further apart do not cross.
pub proof fn law_crossing_on_the_field(
    p1: FxVec2,
    p2: FxVec2,
    p3: FxVec2,
    p4: FxVec2,
    r: Option<FxVec2>,
)
    requires
        call_ensures(segment_intersection, (p1, p2, p3, p4), r),
        on_field(p1) && on_field(p2) && on_field(p3) && on_field(p4),
        abs(turn_between(p1, p2, p3, p4)) >= 0x200_0000,
    ensures
        r matches Some(c) ==> {
            &&& between(p1.x.0 as int, c.x.0 as int, p2.x.0 as int)
            &&& between(p1.y.0 as int, c.y.0 as int, p2.y.0 as int)
            &&& near_segment(c, p3, p4, 0x80_0000)
        },
        apart(p1.x.0 as int, p2.x.0 as int, p3.x.0 as int, p4.x.0 as int) ==> r is None,
        apart(p1.y.0 as int, p2.y.0 as int, p3.y.0 as int, p4.y.0 as int) ==> r is None,
{
    let m: int = 0x1f_ffff;
    let d = abs(turn_between(p1, p2, p3, p4)) as int;
    assert(4096 * (2 * (m * m) + 4096) <= 0x7fff_ffff * (d - 4096)) by (nonlinear_arith)
        requires
            m == 0x1f_ffff,
            d >= 0x200_0000,
    ;
    assert(0x300_0000 * m <= (0x80_0000 - 2 * m - 4096) * (d - 4096)) by (nonlinear_arith)
        requires
            m == 0x1f_ffff,
            d >= 0x200_0000,
    ;
    law_crossing_lies_on_both_segments(p1, p2, p3, p4, r, m, 0x80_0000);
    if let Some(c) = r {
        let u = choose|u: int| 0 <= u <= 4096 && #[trigger] near_share(c, p3, p4, u, 0x80_0000);
        lemma_share_between(gap_x(p3, p4), u);
        lemma_share_between(gap_y(p3, p4), u);
    }
}

/// A share of a way, in parts, lies between none and all of it.
proof fn lemma_share_between(b: int, u: int)
    requires
        0 <= u <= 4096,
    ensures
        between(0, u * b, 4096 * b),
{
    assert(b >= 0 ==> 0 <= u * b <= 4096 * b) by (nonlinear_arith)
        requires
            0 <= u <= 4096,
    ;
    assert(b <= 0 ==> 4096 * b <= u * b <= 0) by (nonlinear_arith)
        requires
            0 <= u <= 4096,
    ;
}

/// Two stretches of an axis are more than half a pixel apart.
pub open spec fn apart(a1: int, a2: int, b1: int, b2: int) -> bool {
    ||| a1 + 2048 < b1 && a1 + 2048 < b2 && a2 + 2048 < b1 && a2 + 2048 < b2
    ||| b1 + 2048 < a1 && b1 + 2048 < a2 && b2 + 2048 < a1 && b2 + 2048 < a2
}

/// A share `n / d` lies strictly inside, by more than what rounding can take.
pub open spec fn clearly_inside(n: int, d: int) -> bool {
    4096 <= n <= d - 8192 || d + 8192 <= n <= -4096
}

/// Segments that clearly cross are reported to: `span` gives, exactly, how far along
/// each the other lies.
pub proof fn law_clear_crossing_is_found(
    p1: FxVec2,
    p2: FxVec2,
    p3: FxVec2,
    p4: FxVec2,
    r: Option<FxVec2>,
)
    requires
        call_ensures(segment_intersection, (p1, p2, p3, p4), r),
        within_reach(p1, p2, 0x1f_ffff),
        within_reach(p3, p4, 0x1f_ffff),
        within_reach(p1, p3, 0x1f_ffff),
        clearly_inside(
            span(gap_x(p1, p3), gap_y(p1, p3), gap_x(p3, p4), gap_y(p3, p4)),
            turn_between(p1, p2, p3, p4),
        ),
        clearly_inside(
            span(gap_x(p1, p3), gap_y(p1, p3), gap_x(p1, p2), gap_y(p1, p2)),
            turn_between(p1, p2, p3, p4),
        ),
    ensures
        r is Some,
{
    reveal(crossing_param);
    let m: int = 0x1f_ffff;
    lemma_gaps(p1, p2, m);
    lemma_gaps(p3, p4, m);
    lemma_gaps(p1, p3, m);
    let d1 = vec2_sub(p2, p1);
    let d2 = vec2_sub(p4, p3);
    let diff = vec2_sub(p3, p1);
    lemma_cross_close(d1, d2);
    lemma_cross_close(diff, d2);
    lemma_cross_close(diff, d1);
    lemma_unit_quotient(cross2(diff, d2), cross2(d1, d2));
    lemma_unit_quotient(cross2(diff, d1), cross2(d1, d2));
    assert(crossing(p1, p2, p3, p4) is Some);
}

/// A quotient of a number by a larger one lies between zero and one.
proof fn lemma_unit_quotient(n: int, d: int)
    requires
        0 < n < d || d < n < 0,
    ensures
        0 <= fx_div(n, d) <= 4096,
{
    let a = abs(n * 4096) as int;
    let b = abs(d) as int;
    assert(0 <= a / b <= 4096) by (nonlinear_arith)
        requires
            b > 0,
            0 <= a <= 4096 * b,
    ;
}

/// Lines in the same direction never cross, however they lie.
pub proof fn law_parallel_segments_do_not_cross(
    p1: FxVec2,
    p2: FxVec2,
    p3: FxVec2,
    p4: FxVec2,
    r: Option<FxVec2>,
)
    requires
        call_ensures(segment_intersection, (p1, p2, p3, p4), r),
        gap_x(p1, p2) == gap_x(p3, p4),
        gap_y(p1, p2) == gap_y(p3, p4),
    ensures
        r is None,
{
    reveal(crossing_param);
    let d = vec2_sub(p2, p1);
    assert(d == vec2_sub(p4, p3));
    assert(fx_mul(d.x.r(), d.y.r()) == fx_mul(d.y.r(), d.x.r())) by {
        assert(d.x.r() * d.y.r() == d.y.r() * d.x.r()) by (nonlinear_arith);
    }
    assert(cross2(d, d) == 0);
}

/// A closed loop is the crossing of the newest segment with the earliest segment
/// that it crosses, followed by the vertices from behind that segment's start up to
/// the start of the newest one. There is a loop exactly if the newest segment
/// crosses one that is not next to it.
pub proof fn law_closed_loop_starts_at_the_crossing(
    path: &[FxVec2],
    r: Option<Vec<FxVec2>>,
    i: int,
    x: Option<FxVec2>,
)
    requires
        call_ensures(find_closed_loop, (path,), r),
        0 <= i < path@.len() - 3,
        call_ensures(
            segment_intersection,
            (path@[path@.len() - 2], path@[path@.len() - 1], path@[i], path@[i + 1]),
            x,
        ),
    ensures
        x is Some ==> r is Some,
        r matches Some(poly) ==> exists|k: int|
            0 <= k < path@.len() - 3 && #[trigger] closes_at(path@, poly@, k) && (x is Some ==> k
                <= i),
{
    let n = path@.len() as int;
    let hit = crossing(path@[n - 2], path@[n - 1], path@[i], path@[i + 1]);
    assert(x == hit);
    assert(crate::loops::geometry::newest_crossing(path@, i) == x);
    if let Some(poly) = r {
        let k = choose|k: int|
            crate::loops::geometry::is_first_crossing(path@, k) && poly@
                == crate::loops::geometry::crossing_loop(path@, k);
        assert(poly@.skip(1) =~= path@.subrange(k + 1, n - 1));
        assert(closes_at(path@, poly@, k));
    }
}

/// The loop `poly` closes where the newest segment meets the one from vertex `k`.
pub open spec fn closes_at(path: Seq<FxVec2>, poly: Seq<FxVec2>, k: int) -> bool {
    &&& poly.len() == path.len() - k - 1
    &&& poly.skip(1) == path.subrange(k + 1, path.len() - 1)
    &&& crossing(path[path.len() - 2], path[path.len() - 1], path[k], path[k + 1]) == Some(poly[0])
}

} // verus!
