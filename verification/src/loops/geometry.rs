//! Loop detection, enclosure tests and loop-quality metrics, in 20.12.

use crate::math::fx::{fx_div, fx_mul, lemma_product_fits, Fx32};
use crate::math::fx_vec::{dot2, vec2_add, vec2_len, vec2_scale, vec2_sub, vec2_unit, FxVec2};
use crate::math::hw::wrap32;
use vstd::math::abs;
use vstd::prelude::*;

verus! {

/// Raw `z` component of the cross product.
pub open spec fn cross2(a: FxVec2, b: FxVec2) -> int {
    wrap32(fx_mul(a.x.r(), b.y.r()) - fx_mul(a.y.r(), b.x.r()))
}

/// 2D cross product; positive when `b` is counter-clockwise from `a`.
pub fn cross(a: FxVec2, b: FxVec2) -> (c: Fx32)
    ensures
        c.0 == cross2(a, b),
{
    a.x * b.y - a.y * b.x
}

/// How far along `p1 -> p2` its crossing with `p3 -> p4` lies: the `t` of the
/// solution `(t, u)` of `p1 + t * (p2 - p1) = p3 + u * (p4 - p3)`, if there is
/// one and both `t` and `u` lie in `[0, 1]`.
#[verifier::opaque]
pub open spec fn crossing_param(p1: FxVec2, p2: FxVec2, p3: FxVec2, p4: FxVec2) -> Option<int> {
    let d1 = vec2_sub(p2, p1);
    let d2 = vec2_sub(p4, p3);
    let diff = vec2_sub(p3, p1);
    let denom = cross2(d1, d2);
    let t = fx_div(cross2(diff, d2), denom);
    let u = fx_div(cross2(diff, d1), denom);
    if denom != 0 && 0 <= t <= 4096 && 0 <= u <= 4096 {
        Some(t)
    } else {
        None
    }
}

/// Where `p1 -> p2` crosses `p3 -> p4`: the point `p1 + t * (p2 - p1)`.
pub open spec fn crossing(p1: FxVec2, p2: FxVec2, p3: FxVec2, p4: FxVec2) -> Option<FxVec2> {
    match crossing_param(p1, p2, p3, p4) {
        Some(t) => Some(vec2_add(p1, vec2_scale(vec2_sub(p2, p1), t))),
        None => None,
    }
}

/// Intersection point of segments `p1 -> p2` and `p3 -> p4`, or `None` if they
/// do not cross within both spans; parallel segments never do.
pub fn segment_intersection(p1: FxVec2, p2: FxVec2, p3: FxVec2, p4: FxVec2) -> (r: Option<FxVec2>)
    ensures
        r == crossing(p1, p2, p3, p4),
{
    reveal(crossing_param);
    let d1: FxVec2 = p2 - p1;
    let d2: FxVec2 = p4 - p3;
    let denom: Fx32 = cross(d1, d2);
    if denom.0 == 0 {
        return None;
    }
    let diff: FxVec2 = p3 - p1;
    let t: Fx32 = cross(diff, d2) / denom;
    let u: Fx32 = cross(diff, d1) / denom;
    if t.0 < 0 || t.0 > 4096 || u.0 < 0 || u.0 > 4096 {
        return None;
    }
    Some(p1 + d1 * t)
}

/// Where the newest segment of `path` crosses the segment that starts at `i`.
pub open spec fn newest_crossing(path: Seq<FxVec2>, i: int) -> Option<FxVec2> {
    let n = path.len();
    crossing(path[n - 2], path[n - 1], path[i], path[i + 1])
}

/// The newest segment crosses the one starting at `i`, and none before it. The
/// segment next to the newest one does not count.
pub open spec fn is_first_crossing(path: Seq<FxVec2>, i: int) -> bool {
    &&& 0 <= i < path.len() - 3
    &&& newest_crossing(path, i) is Some
    &&& forall|k: int| 0 <= k < i ==> newest_crossing(path, k) is None
}

/// The polygon that a crossing at segment `i` closes: the crossing point, then
/// the vertices it encircles.
pub open spec fn crossing_loop(path: Seq<FxVec2>, i: int) -> Seq<FxVec2> {
    seq![newest_crossing(path, i)->0] + path.subrange(i + 1, path.len() - 1)
}

/// Append `path[from..to]` to `out`.
fn push_range(out: &mut Vec<FxVec2>, path: &[FxVec2], from: usize, to: usize)
    requires
        from <= to <= path.len(),
    ensures
        final(out)@ == old(out)@ + path@.subrange(from as int, to as int),
{
    let mut k: usize = from;
    while k < to
        invariant
            from <= k <= to <= path.len(),
            out@ == old(out)@ + path@.subrange(from as int, k as int),
        decreases to - k,
    {
        out.push(path[k]);
        k = k + 1;
    }
}

/// If the newest segment of `path` crosses an earlier, non-adjacent one, the
/// closed loop polygon. The earliest crossing counts, so the largest region
/// wins.
pub fn find_closed_loop(path: &[FxVec2]) -> (r: Option<Vec<FxVec2>>)
    ensures
        r is Some <==> exists|i: int| is_first_crossing(path@, i),
        r matches Some(poly) ==> exists|i: int|
            is_first_crossing(path@, i) && poly@ == crossing_loop(path@, i),
        r is None <==> forall|i: int|
            0 <= i < path.len() - 3 ==> newest_crossing(path@, i) is None,
{
    let n: usize = path.len();
    if n < 4 {
        return None;
    }
    let a1: FxVec2 = path[n - 2];
    let a2: FxVec2 = path[n - 1];
    let mut i: usize = 0;
    while i < n - 3
        invariant
            n == path.len(),
            n >= 4,
            0 <= i <= n - 3,
            a1 == path[n - 2],
            a2 == path[n - 1],
            forall|k: int| 0 <= k < i ==> newest_crossing(path@, k) is None,
        decreases n - i,
    {
        if let Some(x) = segment_intersection(a1, a2, path[i], path[i + 1]) {
            let mut poly: Vec<FxVec2> = Vec::new();
            poly.push(x);
            push_range(&mut poly, path, i + 1, n - 1);
            assert(newest_crossing(path@, i as int) is Some);
            assert(is_first_crossing(path@, i as int));
            assert(poly@ =~= crossing_loop(path@, i as int));
            return Some(poly);
        }
        i = i + 1;
    }
    None
}

/// How many of the most recent vertices a near-miss closure ignores.
pub const SKIP_TAIL: usize = 8;

/// The newest point comes back within `tol` of vertex `i`.
pub open spec fn returns_to(path: Seq<FxVec2>, tol: Fx32, i: int) -> bool {
    vec2_len(vec2_sub(path.last(), path[i])) <= tol.r()
}

/// Vertex `i` is the earliest one, outside the recent tail, that the newest
/// point comes back to.
pub open spec fn is_first_return(path: Seq<FxVec2>, tol: Fx32, i: int) -> bool {
    &&& 0 <= i < path.len() - SKIP_TAIL
    &&& returns_to(path, tol, i)
    &&& forall|k: int| 0 <= k < i ==> !returns_to(path, tol, k)
}

/// `r` is the loop that a trail closes: at its first crossing, or else from the first
/// vertex that it comes back to; none where there is neither.
pub open spec fn closes_within(path: Seq<FxVec2>, tol: Fx32, r: Option<Vec<FxVec2>>) -> bool {
    &&& r is Some <==> (exists|i: int| is_first_crossing(path, i)) || (exists|i: int|
        is_first_return(path, tol, i))
    &&& r matches Some(poly) ==> {
        ||| exists|i: int| is_first_crossing(path, i) && poly@ == crossing_loop(path, i)
        ||| {
            &&& !exists|i: int| is_first_crossing(path, i)
            &&& exists|i: int|
                is_first_return(path, tol, i) && poly@ == path.subrange(i, path.len() as int)
        }
    }
    &&& r is None ==> forall|i: int|
        0 <= i < path.len() - SKIP_TAIL ==> !returns_to(path, tol, i)
}

/// Like [`find_closed_loop`], but a trail that does not cross itself still
/// closes when its newest point comes back within `tol` of an earlier vertex.
/// An exact crossing takes precedence.
pub fn find_closed_loop_within(path: &[FxVec2], tol: Fx32) -> (r: Option<Vec<FxVec2>>)
    ensures
        closes_within(path@, tol, r),
{
    if let Some(poly) = find_closed_loop(path) {
        return Some(poly);
    }
    let n: usize = path.len();
    if n <= SKIP_TAIL {
        return None;
    }
    let last: FxVec2 = path[n - 1];
    let mut i: usize = 0;
    while i < n - SKIP_TAIL
        invariant
            n == path.len(),
            n > SKIP_TAIL,
            0 <= i <= n - SKIP_TAIL,
            last == path@.last(),
            !exists|k: int| is_first_crossing(path@, k),
            forall|k: int| 0 <= k < i ==> !returns_to(path@, tol, k),
        decreases n - i,
    {
        if (last - path[i]).length().0 <= tol.0 {
            let mut poly: Vec<FxVec2> = Vec::new();
            push_range(&mut poly, path, i, n);
            assert(is_first_return(path@, tol, i as int));
            assert(poly@ =~= path@.subrange(i as int, n as int));
            return Some(poly);
        }
        i = i + 1;
    }
    None
}

/// Raw length of the segment of `path` that ends at vertex `i`.
#[verifier::opaque]
pub open spec fn segment_len(path: Seq<FxVec2>, i: int) -> int {
    vec2_len(vec2_sub(path[i], path[i - 1]))
}

/// The point `at` raw units along the segment of `path` that ends at vertex `i`.
#[verifier::opaque]
pub open spec fn point_along(path: Seq<FxVec2>, i: int, at: int) -> FxVec2 {
    vec2_add(path[i - 1], vec2_scale(vec2_unit(vec2_sub(path[i], path[i - 1])), at))
}

/// The points emitted by a walk along `path` that stands `at` raw units into
/// the segment ending at vertex `i`, `since` raw units past the last emitted
/// point, with `out` emitted so far. A point is emitted every `step` raw units,
/// up to `max` of them.
pub open spec fn walk(
    path: Seq<FxVec2>,
    step: int,
    max: int,
    i: int,
    at: int,
    since: int,
    out: Seq<FxVec2>,
) -> Seq<FxVec2>
    decreases path.len() - i, max - out.len(),
{
    if i >= path.len() || out.len() >= max {
        out
    } else {
        let len = segment_len(path, i);
        let next = wrap32(at + wrap32(step - since));
        if len <= 0 {
            walk(path, step, max, i + 1, 0, since, out)
        } else if next > len {
            walk(path, step, max, i + 1, 0, wrap32(since + wrap32(len - at)), out)
        } else {
            walk(path, step, max, i, next, 0, out.push(point_along(path, i, next)))
        }
    }
}

/// The points that [`densify`] emits.
pub open spec fn densified(path: Seq<FxVec2>, step: Fx32, max: int) -> Seq<FxVec2> {
    if path.len() == 0 || max <= 0 {
        Seq::empty()
    } else if step.r() <= 0 {
        seq![path[0]]
    } else {
        walk(path, step.r(), max, 1, 0, 0, seq![path[0]])
    }
}

/// Resample a polyline to points `step` apart along its arc length, at most
/// `max` of them. The first vertex is always the first point.
pub fn densify(path: &[FxVec2], step: Fx32, max: usize) -> (r: Vec<FxVec2>)
    ensures
        r@ == densified(path@, step, max as int),
        r.len() <= max,
{
    let mut out: Vec<FxVec2> = Vec::new();
    let n: usize = path.len();
    if n == 0 || max == 0 {
        return out;
    }
    out.push(path[0]);
    if n == 1 || max == 1 || step.0 <= 0 {
        assert(out@ =~= seq![path@[0]]);
        return out;
    }
    assert(out@ =~= seq![path@[0]]);
    let mut since: Fx32 = Fx32::zero();
    let mut i: usize = 1;
    while i < n
        invariant
            n == path.len(),
            1 <= i <= n,
            out.len() < max,
            step.0 > 0,
            walk(path@, step.r(), max as int, i as int, 0, since.r(), out@) == walk(
                path@,
                step.r(),
                max as int,
                1,
                0,
                0,
                seq![path@[0]],
            ),
        decreases n - i,
    {
        let a: FxVec2 = path[i - 1];
        let seg: FxVec2 = path[i] - a;
        let seg_len: Fx32 = seg.length();
        assert(seg_len.0 == segment_len(path@, i as int)) by {
            reveal(segment_len);
        }
        if seg_len.0 > 0 {
            let dir: FxVec2 = seg.normalize_or_zero();
            let mut at: Fx32 = Fx32::zero();
            let mut open: bool = true;
            while open
                invariant
                    n == path.len(),
                    1 <= i < n,
                    out.len() < max,
                    step.0 > 0,
                    a == path@[i - 1],
                    dir == vec2_unit(vec2_sub(path@[i as int], a)),
                    seg_len.0 == segment_len(path@, i as int),
                    seg_len.0 > 0,
                    walk(
                        path@,
                        step.r(),
                        max as int,
                        if open { i as int } else { i + 1 },
                        if open { at.r() } else { 0 },
                        since.r(),
                        out@,
                    ) == walk(path@, step.r(), max as int, 1, 0, 0, seq![path@[0]]),
                decreases (if open { 1int } else { 0int }), max - out.len(),
            {
                let need: Fx32 = step - since;
                let next: Fx32 = at + need;
                if next.0 > seg_len.0 {
                    since = since + (seg_len - at);
                    open = false;
                } else {
                    at = next;
                    out.push(a + dir * at);
                    assert(out@.last() == point_along(path@, i as int, at.r())) by {
                        reveal(point_along);
                    }
                    since = Fx32::zero();
                    if out.len() >= max {
                        assert(walk(
                            path@,
                            step.r(),
                            max as int,
                            i as int,
                            at.r(),
                            0,
                            out@,
                        ) == out@);
                        return out;
                    }
                }
            }
        }
        i = i + 1;
    }
    out
}

/// Raw arc length of `path` from its first vertex to vertex `i`.
pub open spec fn arc_length(path: Seq<FxVec2>, i: int) -> int
    decreases i,
{
    if i <= 0 {
        0
    } else {
        arc_length(path, i - 1) + segment_len(path, i)
    }
}

/// Every segment of `path` has a representable length, and so has `path` with
/// one more `step`.
pub open spec fn arc_fits(path: Seq<FxVec2>, step: Fx32) -> bool {
    &&& forall|i: int| 1 <= i < path.len() ==> 0 <= #[trigger] segment_len(path, i)
    &&& arc_length(path, path.len() - 1) + step.r() <= i32::MAX
}

/// `p` is the point `d` along the arc of `path`, and lies on the segment that
/// ends at vertex `i`.
pub open spec fn on_segment(path: Seq<FxVec2>, i: int, d: int, p: FxVec2) -> bool {
    &&& 1 <= i < path.len()
    &&& arc_length(path, i - 1) < d <= arc_length(path, i)
    &&& p == point_along(path, i, d - arc_length(path, i - 1))
}

/// `p` is the point `d` along the arc of `path`.
pub open spec fn on_arc(path: Seq<FxVec2>, d: int, p: FxVec2) -> bool {
    exists|i: int| on_segment(path, i, d, p)
}

/// The arc length grows along the path.
proof fn lemma_arc_monotonic(path: Seq<FxVec2>, i: int, j: int)
    requires
        0 <= i <= j < path.len(),
        forall|k: int| 1 <= k < path.len() ==> 0 <= #[trigger] segment_len(path, k),
    ensures
        0 <= arc_length(path, i) <= arc_length(path, j),
    decreases j,
{
    if i < j {
        assert(0 <= segment_len(path, j));
        lemma_arc_monotonic(path, i, j - 1);
    } else if i > 0 {
        assert(0 <= segment_len(path, i));
        lemma_arc_monotonic(path, i - 1, i - 1);
    }
}

/// What the walk has emitted stays even, and the walk stops only at the end of
/// the arc or at the cap.
#[verifier::spinoff_prover]
#[verifier::rlimit(60)]
proof fn lemma_walk_even(
    path: Seq<FxVec2>,
    step: Fx32,
    max: int,
    i: int,
    at: int,
    since: int,
    out: Seq<FxVec2>,
)
    requires
        arc_fits(path, step),
        step.r() > 0,
        1 <= i <= path.len(),
        1 <= out.len() <= max,
        0 <= at,
        i == path.len() ==> at == 0,
        i < path.len() ==> at <= segment_len(path, i),
        0 <= since < step.r(),
        arc_length(path, i - 1) + at == (out.len() - 1) * step.r() + since,
        forall|k: int| 1 <= k < out.len() ==> on_arc(path, k * step.r(), #[trigger] out[k]),
    ensures
        ({
            let r = walk(path, step.r(), max, i, at, since, out);
            let total = arc_length(path, path.len() - 1);
            &&& r.len() <= max
            &&& r.len() >= out.len()
            &&& r[0] == out[0]
            &&& forall|k: int| 1 <= k < r.len() ==> on_arc(path, k * step.r(), #[trigger] r[k])
            &&& (r.len() - 1) * step.r() <= total
            &&& r.len() < max ==> total < r.len() * step.r()
        }),
    decreases path.len() - i, max - out.len(),
{
    let n = path.len() as int;
    let s = step.r();
    if i < n {
        lemma_arc_monotonic(path, i, n - 1);
        lemma_arc_monotonic(path, i - 1, n - 1);
        assert(0 <= segment_len(path, i));
        assert(arc_length(path, i) == arc_length(path, i - 1) + segment_len(path, i));
    } else {
        lemma_arc_monotonic(path, n - 1, n - 1);
    }
    if i >= n || out.len() >= max {
        assert((out.len() - 1) * s + s == out.len() * s) by (nonlinear_arith);
    } else {
        let len = segment_len(path, i);
        let next = at + (s - since);
        if len <= 0 {
            lemma_walk_even(path, step, max, i + 1, 0, since, out);
        } else if next > len {
            lemma_walk_even(path, step, max, i + 1, 0, since + len - at, out);
        } else {
            let k = out.len() as int;
            let p = point_along(path, i, next);
            assert((k - 1) * s + s == k * s) by (nonlinear_arith);
            assert(next == k * s - arc_length(path, i - 1));
            assert(on_segment(path, i, k * s, p));
            let out2 = out.push(p);
            assert forall|j: int| 1 <= j < out2.len() implies on_arc(
                path,
                j * s,
                #[trigger] out2[j],
            ) by {
                if j < k {
                    assert(out2[j] == out[j]);
                }
            }
            lemma_walk_even(path, step, max, i, next, 0, out2);
        }
    }
}

/// The resampled points are evenly spaced: point `k` lies exactly `k * step`
/// along the arc, and there are as many points as steps fit the arc, up to the
/// cap.
pub proof fn law_densify_even_spacing(path: Seq<FxVec2>, step: Fx32, max: int)
    requires
        path.len() >= 1,
        max >= 1,
        step.r() > 0,
        arc_fits(path, step),
    ensures
        ({
            let r = densified(path, step, max);
            let total = arc_length(path, path.len() - 1);
            &&& 1 <= r.len() <= max
            &&& r[0] == path[0]
            &&& forall|k: int| 1 <= k < r.len() ==> on_arc(path, k * step.r(), #[trigger] r[k])
            &&& (r.len() - 1) * step.r() <= total
            &&& r.len() < max ==> total < r.len() * step.r()
        }),
{
    if path.len() > 1 {
        assert(0 <= segment_len(path, 1));
    }
    lemma_walk_even(path, step, max, 1, 0, 0, seq![path[0]]);
}

/// The edge from `b` to `a` straddles the horizontal line through `p`, and meets
/// it to the right of `p`.
#[verifier::opaque]
pub open spec fn edge_crosses_ray(a: FxVec2, b: FxVec2, p: FxVec2) -> bool {
    let t = fx_div(wrap32(p.y.r() - a.y.r()), wrap32(b.y.r() - a.y.r()));
    let x = wrap32(a.x.r() + fx_mul(t, wrap32(b.x.r() - a.x.r())));
    (a.y.r() > p.y.r()) != (b.y.r() > p.y.r()) && p.x.r() < x
}

/// The vertex before vertex `i` of a closed polygon of `n` vertices.
pub open spec fn before(n: int, i: int) -> int {
    if i == 0 {
        n - 1
    } else {
        i - 1
    }
}

/// How many of the first `k` edges of `poly` cross the ray from `p` along `+x`.
/// Edge `i` ends at vertex `i`.
pub open spec fn ray_crossings(poly: Seq<FxVec2>, p: FxVec2, k: int) -> nat
    decreases k,
{
    if k <= 0 {
        0
    } else {
        ray_crossings(poly, p, k - 1) + if edge_crosses_ray(
            poly[k - 1],
            poly[before(poly.len() as int, k - 1)],
            p,
        ) {
            1nat
        } else {
            0nat
        }
    }
}

/// The even-odd rule: `p` is inside `poly` if its ray crosses an odd number of
/// edges. A polygon has at least three vertices.
pub open spec fn inside(poly: Seq<FxVec2>, p: FxVec2) -> bool {
    poly.len() >= 3 && ray_crossings(poly, p, poly.len() as int) % 2 == 1
}

/// Does the edge from `b` to `a` cross the ray from `p` along `+x`?
fn edge_crosses(a: FxVec2, b: FxVec2, p: FxVec2) -> (r: bool)
    ensures
        r == edge_crosses_ray(a, b, p),
{
    reveal(edge_crosses_ray);
    if (a.y.0 > p.y.0) == (b.y.0 > p.y.0) {
        return false;
    }
    let t: Fx32 = (p.y - a.y) / (b.y - a.y);
    let x: Fx32 = a.x + t * (b.x - a.x);
    p.x.0 < x.0
}

/// Is point `p` inside polygon `poly` (even-odd rule)?
pub fn point_in_polygon(poly: &[FxVec2], p: FxVec2) -> (r: bool)
    ensures
        r == inside(poly@, p),
{
    let n: usize = poly.len();
    if n < 3 {
        return false;
    }
    let mut inside_now: bool = false;
    let mut j: usize = n - 1;
    let mut i: usize = 0;
    while i < n
        invariant
            n == poly.len(),
            n >= 3,
            i <= n,
            i < n ==> j == before(n as int, i as int),
            inside_now == (ray_crossings(poly@, p, i as int) % 2 == 1),
        decreases n - i,
    {
        if edge_crosses(poly[i], poly[j], p) {
            inside_now = !inside_now;
        }
        j = i;
        i = i + 1;
    }
    inside_now
}

/// The indices of `points` that lie inside `poly`, in increasing order.
pub open spec fn is_enclosed_list(poly: Seq<FxVec2>, points: Seq<FxVec2>, k: int, r: Seq<usize>) -> bool {
    &&& forall|a: int, b: int| 0 <= a < b < r.len() ==> r[a] < r[b]
    &&& forall|a: int| 0 <= a < r.len() ==> 0 <= #[trigger] r[a] < k && inside(poly, points[r[a] as int])
    &&& forall|i: int|
        0 <= i < k && #[trigger] inside(poly, points[i]) ==> r.contains(i as usize)
}

/// Indices of the `points` that lie inside `poly`.
pub fn enclosed(poly: &[FxVec2], points: &[FxVec2]) -> (r: Vec<usize>)
    ensures
        is_enclosed_list(poly@, points@, points.len() as int, r@),
{
    let mut out: Vec<usize> = Vec::new();
    let mut i: usize = 0;
    while i < points.len()
        invariant
            i <= points.len(),
            is_enclosed_list(poly@, points@, i as int, out@),
        decreases points.len() - i,
    {
        if point_in_polygon(poly, points[i]) {
            let ghost before_push = out@;
            out.push(i);
            assert(out@.last() == i);
            assert(out@.contains(i));
            assert forall|k: int| 0 <= k < i + 1 && #[trigger] inside(
                poly@,
                points@[k],
            ) implies out@.contains(k as usize) by {
                if k < i {
                    let w = choose|w: int|
                        0 <= w < before_push.len() && before_push[w] == k as usize;
                    assert(before_push.contains(k as usize));
                    assert(out@[w] == k as usize);
                }
            }
        }
        i = i + 1;
    }
    out
}

/// Raw shortest distance from `p` to segment `a -> b`: to the foot of the
/// perpendicular, or to the nearer endpoint where the foot falls outside.
#[verifier::opaque]
pub open spec fn segment_distance(p: FxVec2, a: FxVec2, b: FxVec2) -> int {
    let ab = vec2_sub(b, a);
    let denom = dot2(ab, ab);
    if denom == 0 {
        vec2_len(vec2_sub(p, a))
    } else {
        let foot = fx_div(dot2(vec2_sub(p, a), ab), denom);
        let t = if foot < 0 {
            0
        } else if foot > 4096 {
            4096
        } else {
            foot
        };
        vec2_len(vec2_sub(p, vec2_add(a, vec2_scale(ab, t))))
    }
}

/// Shortest distance from point `p` to segment `a -> b`.
pub fn dist_point_segment(p: FxVec2, a: FxVec2, b: FxVec2) -> (d: Fx32)
    ensures
        d.0 == segment_distance(p, a, b),
{
    reveal(segment_distance);
    let ab: FxVec2 = b - a;
    let denom: Fx32 = ab.dot(ab);
    if denom.0 == 0 {
        return (p - a).length();
    }
    let mut t: Fx32 = (p - a).dot(ab) / denom;
    if t.0 < 0 {
        t = Fx32::zero();
    } else if t.0 > 4096 {
        t = Fx32::one();
    }
    (p - (a + ab * t)).length()
}

/// Raw distance from `center` to the edge of `poly` that ends at vertex `i`.
pub open spec fn edge_distance(poly: Seq<FxVec2>, center: FxVec2, i: int) -> int {
    segment_distance(center, poly[before(poly.len() as int, i)], poly[i])
}

/// The circle lies inside `poly`: its centre does, and no edge comes within
/// `radius` of the centre.
pub open spec fn circle_inside(poly: Seq<FxVec2>, center: FxVec2, radius: Fx32) -> bool {
    &&& inside(poly, center)
    &&& forall|i: int|
        0 <= i < poly.len() ==> radius.r() <= #[trigger] edge_distance(poly, center, i)
}

/// Is the circle of radius `radius` around `center` fully inside `poly`?
pub fn encloses_circle(poly: &[FxVec2], center: FxVec2, radius: Fx32) -> (r: bool)
    ensures
        r == circle_inside(poly@, center, radius),
{
    if !point_in_polygon(poly, center) {
        return false;
    }
    let n: usize = poly.len();
    let mut j: usize = n - 1;
    let mut i: usize = 0;
    while i < n
        invariant
            n == poly.len(),
            n >= 3,
            i <= n,
            i < n ==> j == before(n as int, i as int),
            inside(poly@, center),
            forall|k: int|
                0 <= k < i ==> radius.r() <= #[trigger] edge_distance(poly@, center, k),
        decreases n - i,
    {
        if dist_point_segment(center, poly[j], poly[i]).0 < radius.0 {
            assert(edge_distance(poly@, center, i as int) < radius.r());
            return false;
        }
        j = i;
        i = i + 1;
    }
    true
}

/// The raw value of a third.
pub const THIRD_RAW: i32 = 1365;

/// The mean of three vertices, in 20.12.
pub open spec fn mean3(a: FxVec2, b: FxVec2, c: FxVec2) -> FxVec2 {
    vec2_scale(vec2_add(vec2_add(a, b), c), THIRD_RAW as int)
}

/// Three-point moving average of `path`, its endpoints kept.
pub open spec fn smoothed(path: Seq<FxVec2>) -> Seq<FxVec2> {
    Seq::new(
        path.len(),
        |i: int|
            if i == 0 || i == path.len() - 1 {
                path[i]
            } else {
                mean3(path[i - 1], path[i], path[i + 1])
            },
    )
}

/// Three-point moving-average smoothing of a path, endpoints preserved.
pub fn smooth(path: &[FxVec2]) -> (r: Vec<FxVec2>)
    ensures
        r@ == smoothed(path@),
        path.len() < 3 ==> r@ == path@,
{
    let n: usize = path.len();
    let mut out: Vec<FxVec2> = Vec::new();
    if n < 3 {
        push_range(&mut out, path, 0, n);
        assert(out@ =~= path@);
        assert(out@ =~= smoothed(path@));
        return out;
    }
    let third: Fx32 = Fx32::from_int(3).recip();
    assert(third.0 == THIRD_RAW) by {
        assert(16777216int / 12288int == 1365);
        assert(abs(4096int * 4096int) == 16777216 && abs(12288int) == 12288);
    }
    out.push(path[0]);
    let mut i: usize = 1;
    while i < n - 1
        invariant
            n == path.len(),
            n >= 3,
            1 <= i <= n - 1,
            third.0 == THIRD_RAW,
            out.len() == i,
            forall|k: int| 0 <= k < i ==> out@[k] == #[trigger] smoothed(path@)[k],
        decreases n - i,
    {
        out.push((path[i - 1] + path[i] + path[i + 1]) * third);
        i = i + 1;
    }
    out.push(path[n - 1]);
    assert(out@ =~= smoothed(path@));
    out
}

/// The shoelace sum over the first `k` edges of `poly`, each 20.12 product
/// rounded down.
pub open spec fn shoelace(poly: Seq<FxVec2>, k: int) -> int
    decreases k,
{
    if k <= 0 {
        0
    } else {
        let a = poly[before(poly.len() as int, k - 1)];
        let b = poly[k - 1];
        shoelace(poly, k - 1) + (a.x.r() * b.y.r()) / 4096 - (b.x.r() * a.y.r()) / 4096
    }
}

/// Raw area of `poly`: half the magnitude of its shoelace sum.
pub open spec fn area_raw(poly: Seq<FxVec2>) -> int {
    if poly.len() < 3 {
        0
    } else {
        wrap32(abs(shoelace(poly, poly.len() as int)) as int / 2)
    }
}

/// One 20.12 product, rounded down and kept whole.
fn product_floor(a: Fx32, b: Fx32) -> (r: i128)
    ensures
        r == (a.r() * b.r()) / 4096,
        -0x4_0000_0000_0000 <= r <= 0x4_0000_0000_0000,
{
    proof {
        lemma_product_fits(a.0, b.0);
    }
    let p: i64 = a.0 as i64 * b.0 as i64;
    assert(p >> 12 == p as int / 4096) by (bit_vector);
    (p >> 12) as i128
}

/// Enclosed area of polygon `poly` (shoelace formula), never negative before it
/// is cut to 20.12. The sum is wide enough for any number of vertices.
pub fn area(poly: &[FxVec2]) -> (r: Fx32)
    ensures
        r.0 == area_raw(poly@),
{
    let n: usize = poly.len();
    if n < 3 {
        return Fx32::zero();
    }
    let mut acc: i128 = 0;
    let mut j: usize = n - 1;
    let mut i: usize = 0;
    while i < n
        invariant
            n == poly.len(),
            i <= n,
            i < n ==> j == before(n as int, i as int),
            acc == shoelace(poly@, i as int),
            -0x8_0000_0000_0000 * i <= acc <= 0x8_0000_0000_0000 * i,
        decreases n - i,
    {
        acc = acc + product_floor(poly[j].x, poly[i].y) - product_floor(poly[i].x, poly[j].y);
        j = i;
        i = i + 1;
    }
    let magnitude: i128 = if acc < 0 {
        -acc
    } else {
        acc
    };
    let half: i128 = magnitude / 2;
    let low: i64 = (half % 0x1_0000_0000) as i64;
    proof {
        vstd::arithmetic::div_mod::lemma_mod_adds(half as int, 0x8000_0000, 0x1_0000_0000);
        assert(wrap32(low as int) == wrap32(half as int));
    }
    Fx32(crate::math::hw::truncate32(low))
}

/// The lengths of the first `k` edges of the closed polygon `poly`, added up.
pub open spec fn edge_length_sum(poly: Seq<FxVec2>, k: int) -> int
    decreases k,
{
    if k <= 0 {
        0
    } else {
        edge_length_sum(poly, k - 1) + vec2_len(
            vec2_sub(poly[k - 1], poly[before(poly.len() as int, k - 1)]),
        )
    }
}

/// Raw perimeter of `poly` as a closed loop.
pub open spec fn perimeter_raw(poly: Seq<FxVec2>) -> int {
    if poly.len() < 2 {
        0
    } else {
        wrap32(edge_length_sum(poly, poly.len() as int))
    }
}

/// Total edge length of `poly` as a closed loop.
pub fn perimeter(poly: &[FxVec2]) -> (r: Fx32)
    ensures
        r.0 == perimeter_raw(poly@),
{
    let n: usize = poly.len();
    if n < 2 {
        return Fx32::zero();
    }
    let mut total: Fx32 = Fx32::zero();
    let mut j: usize = n - 1;
    let mut i: usize = 0;
    while i < n
        invariant
            n == poly.len(),
            i <= n,
            i < n ==> j == before(n as int, i as int),
            total.0 == wrap32(edge_length_sum(poly@, i as int)),
        decreases n - i,
    {
        let len: Fx32 = (poly[i] - poly[j]).length();
        proof {
            lemma_wrap32_add(edge_length_sum(poly@, i as int), len.r());
        }
        total = total + len;
        j = i;
        i = i + 1;
    }
    total
}

/// Wrapping a summand first does not change the wrapped sum.
pub proof fn lemma_wrap32_add(a: int, b: int)
    ensures
        wrap32(wrap32(a) + b) == wrap32(a + b),
{
}

/// The raw value of four times pi.
pub const FOUR_PI_RAW: i32 = 51471;

/// Loop regularity: the isoperimetric quotient `4 pi A / P^2`, near `1.0` for a
/// circle and `0` for a degenerate loop.
pub fn regularity(poly: &[FxVec2]) -> (r: Fx32)
    ensures
        r.0 == if perimeter_raw(poly@) <= 0 {
            0
        } else {
            fx_mul(
                fx_div(fx_div(area_raw(poly@), perimeter_raw(poly@)), perimeter_raw(poly@)),
                FOUR_PI_RAW as int,
            )
        },
{
    let p: Fx32 = perimeter(poly);
    if p.0 <= 0 {
        return Fx32::zero();
    }
    area(poly) / p / p * Fx32(FOUR_PI_RAW)
}

/// A crossing lies between the endpoints of the first segment, on every pair of
/// segments whose own extents are representable.
pub proof fn law_crossing_within_segment(p1: FxVec2, p2: FxVec2, p3: FxVec2, p4: FxVec2)
    requires
        i32::MIN <= p2.x.r() - p1.x.r() <= i32::MAX,
        i32::MIN <= p2.y.r() - p1.y.r() <= i32::MAX,
    ensures
        crossing(p1, p2, p3, p4) matches Some(c) ==> {
            &&& between(p1.x.r(), c.x.r(), p2.x.r())
            &&& between(p1.y.r(), c.y.r(), p2.y.r())
        },
{
    if let Some(t) = crossing_param(p1, p2, p3, p4) {
        assert(0 <= t <= 4096) by {
            reveal(crossing_param);
        }
        let d1 = vec2_sub(p2, p1);
        lemma_scaled_between(d1.x.r(), t);
        lemma_scaled_between(d1.y.r(), t);
    }
}

/// `m` lies between `a` and `b`, whichever is larger.
pub open spec fn between(a: int, m: int, b: int) -> bool {
    a <= m <= b || b <= m <= a
}

/// Scaling by a factor in `[0, 1]` lands between zero and the number.
proof fn lemma_scaled_between(d: int, t: int)
    requires
        i32::MIN <= d <= i32::MAX,
        0 <= t <= 4096,
    ensures
        between(0, fx_mul(d, t), d),
{
    if d >= 0 {
        assert(0 <= d * t <= d * 4096) by (nonlinear_arith)
            requires
                d >= 0,
                0 <= t <= 4096,
        ;
    } else {
        assert(d * 4096 <= d * t <= 0) by (nonlinear_arith)
            requires
                d < 0,
                0 <= t <= 4096,
        ;
    }
}

/// A point level with or below every vertex, or above every vertex, is outside.
pub proof fn law_outside_vertical_extent(poly: Seq<FxVec2>, p: FxVec2)
    requires
        (forall|i: int| 0 <= i < poly.len() ==> (#[trigger] poly[i]).y.r() <= p.y.r()) || (forall|
            i: int,
        | 0 <= i < poly.len() ==> p.y.r() < (#[trigger] poly[i]).y.r()),
    ensures
        !inside(poly, p),
{
    lemma_no_crossings(poly, p, poly.len() as int);
}

/// No edge straddles a line that every vertex lies on one side of.
proof fn lemma_no_crossings(poly: Seq<FxVec2>, p: FxVec2, k: int)
    requires
        0 <= k <= poly.len(),
        (forall|i: int| 0 <= i < poly.len() ==> (#[trigger] poly[i]).y.r() <= p.y.r()) || (forall|
            i: int,
        | 0 <= i < poly.len() ==> p.y.r() < (#[trigger] poly[i]).y.r()),
    ensures
        ray_crossings(poly, p, k) == 0,
    decreases k,
{
    if k > 0 {
        reveal(edge_crosses_ray);
        lemma_no_crossings(poly, p, k - 1);
        let a = poly[k - 1];
        let b = poly[before(poly.len() as int, k - 1)];
    }
}

/// A polygon that encloses a circle encloses every smaller circle around the
/// same centre.
pub proof fn law_smaller_circle_inside(poly: Seq<FxVec2>, center: FxVec2, small: Fx32, large: Fx32)
    requires
        small.r() <= large.r(),
        circle_inside(poly, center, large),
    ensures
        circle_inside(poly, center, small),
{
}

/// For a radius of zero or less the circle test is the point test, wherever the
/// distances to the edges are representable.
pub proof fn law_no_radius_is_point_test(poly: Seq<FxVec2>, center: FxVec2, radius: Fx32)
    requires
        radius.r() <= 0,
        forall|i: int| 0 <= i < poly.len() ==> 0 <= #[trigger] edge_distance(poly, center, i),
    ensures
        circle_inside(poly, center, radius) == inside(poly, center),
{
}

/// The list of enclosed points is determined by the polygon and the points.
pub proof fn law_enclosed_list_is_unique(
    poly: Seq<FxVec2>,
    points: Seq<FxVec2>,
    k: int,
    r: Seq<usize>,
    s: Seq<usize>,
)
    requires
        0 <= k <= usize::MAX,
        is_enclosed_list(poly, points, k, r),
        is_enclosed_list(poly, points, k, s),
    ensures
        r == s,
    decreases r.len(),
{
    assert forall|i: usize| r.contains(i) <==> s.contains(i) by {
        if r.contains(i) {
            let w = choose|w: int| 0 <= w < r.len() && r[w] == i;
            assert(inside(poly, points[r[w] as int]));
        }
        if s.contains(i) {
            let w = choose|w: int| 0 <= w < s.len() && s[w] == i;
            assert(inside(poly, points[s[w] as int]));
        }
    }
    lemma_same_sorted(r, s);
}

/// Two increasing sequences with the same members are equal.
proof fn lemma_same_sorted(r: Seq<usize>, s: Seq<usize>)
    requires
        forall|a: int, b: int| 0 <= a < b < r.len() ==> r[a] < r[b],
        forall|a: int, b: int| 0 <= a < b < s.len() ==> s[a] < s[b],
        forall|i: usize| r.contains(i) <==> s.contains(i),
    ensures
        r == s,
    decreases r.len(),
{
    if r.len() == 0 {
        if s.len() > 0 {
            assert(s.contains(s[0]));
            assert(r.contains(s[0]));
        }
        assert(r =~= s);
    } else {
        assert(r.contains(r.last()));
        let w = choose|w: int| 0 <= w < s.len() && s[w] == r.last();
        assert(s.contains(s.last()));
        let v = choose|v: int| 0 <= v < r.len() && r[v] == s.last();
        assert(r.last() == s.last());
        let r1 = r.drop_last();
        let s1 = s.drop_last();
        assert forall|i: usize| r1.contains(i) <==> s1.contains(i) by {
            if r1.contains(i) {
                let a = choose|a: int| 0 <= a < r1.len() && r1[a] == i;
                assert(r[a] == i);
                assert(r.contains(i));
                let b = choose|b: int| 0 <= b < s.len() && s[b] == i;
                assert(s1[b] == i);
            }
            if s1.contains(i) {
                let a = choose|a: int| 0 <= a < s1.len() && s1[a] == i;
                assert(s[a] == i);
                assert(s.contains(i));
                let b = choose|b: int| 0 <= b < r.len() && r[b] == i;
                assert(r1[b] == i);
            }
        }
        lemma_same_sorted(r1, s1);
        assert(r =~= r1.push(r.last()));
        assert(s =~= s1.push(s.last()));
    }
}

} // verus!
