//! How a drawn trail gathers its points and closes without crossing itself.

use crate::loops::geometry::{
    closes_within, crossing_loop, find_closed_loop, find_closed_loop_within, is_first_crossing,
    is_first_return, newest_crossing, returns_to,
};
use crate::loops::geometry_laws::{gap_x, gap_y, lemma_gaps, on_field};
use crate::loops::measure_laws::lemma_field_len;
use crate::loops::stroke::points_after;
use crate::math::fx::Fx32;
use crate::math::fx_vec::{vec2_len, vec2_sub, FxVec2};
use vstd::prelude::*;

verus! {

/// The squared distance of two points, raw.
pub open spec fn gap_squared(a: FxVec2, b: FxVec2) -> int {
    gap_x(a, b) * gap_x(a, b) + gap_y(a, b) * gap_y(a, b)
}

proof fn lemma_reach(a: FxVec2, b: FxVec2, d: int)
    requires
        on_field(a),
        on_field(b),
        0 <= d,
    ensures
        vec2_len(vec2_sub(b, a)) <= d <==> gap_squared(a, b) < (d + 1) * (d + 1),
        vec2_len(vec2_sub(b, a)) >= d <==> gap_squared(a, b) >= d * d,
{
    lemma_gaps(a, b, 0x1f_fffe);
    let v = vec2_sub(b, a);
    lemma_field_len(v);
    let len = vec2_len(v);
    let sq = gap_squared(a, b);
    assert(len * len <= sq < (len + 1) * (len + 1));
    assert((len <= d ==> sq < (d + 1) * (d + 1)) && (len > d ==> sq >= (d + 1) * (d + 1)))
        by (nonlinear_arith)
        requires
            0 <= len,
            0 <= d,
            len * len <= sq < (len + 1) * (len + 1),
    ;
    assert((len >= d ==> sq >= d * d) && (len < d ==> sq < d * d)) by (nonlinear_arith)
        requires
            0 <= len,
            0 <= d,
            len * len <= sq < (len + 1) * (len + 1),
    ;
}

/// A trail that crosses itself closes at the crossing, whatever the tolerance.
pub proof fn law_crossing_takes_precedence(
    path: &[FxVec2],
    tol: Fx32,
    r: Option<Vec<FxVec2>>,
    c: Option<Vec<FxVec2>>,
)
    requires
        call_ensures(find_closed_loop_within, (path, tol), r),
        call_ensures(find_closed_loop, (path,), c),
        c is Some,
    ensures
        r matches Some(poly) && poly@ == (c->0)@,
{
    let poly = r->0;
    let own = c->0;
    let i = lemma_own_loop(path, own);
    assert(closes_within(path@, tol, r));
    assert(r is Some);
    let k = lemma_lax_loop(path, tol, poly, i);
    lemma_one_first(path@, i, k);
}

proof fn lemma_own_loop(path: &[FxVec2], c: Vec<FxVec2>) -> (i: int)
    requires
        call_ensures(find_closed_loop, (path,), Some(c)),
    ensures
        is_first_crossing(path@, i),
        c@ == crossing_loop(path@, i),
{
    choose|i: int| is_first_crossing(path@, i) && c@ == crossing_loop(path@, i)
}

proof fn lemma_lax_loop(path: &[FxVec2], tol: Fx32, poly: Vec<FxVec2>, i: int) -> (k: int)
    requires
        call_ensures(find_closed_loop_within, (path, tol), Some(poly)),
        is_first_crossing(path@, i),
    ensures
        is_first_crossing(path@, k),
        poly@ == crossing_loop(path@, k),
{
    assert(closes_within(path@, tol, Some(poly)));
    choose|k: int| is_first_crossing(path@, k) && poly@ == crossing_loop(path@, k)
}

proof fn lemma_one_first(path: Seq<FxVec2>, i: int, k: int)
    requires
        is_first_crossing(path, i),
        is_first_crossing(path, k),
    ensures
        i == k,
{
    if k < i {
        assert(newest_crossing(path, k) is None);
    }
    if i < k {
        assert(newest_crossing(path, i) is None);
    }
}

/// A trail that does not cross itself closes exactly where its newest point is back
/// within the tolerance of a vertex that is not one of the last eight. The loop runs
/// from the earliest such vertex to the newest point.
pub proof fn law_near_miss_closes_the_trail(
    path: &[FxVec2],
    tol: Fx32,
    r: Option<Vec<FxVec2>>,
    c: Option<Vec<FxVec2>>,
    i: int,
)
    requires
        call_ensures(find_closed_loop_within, (path, tol), r),
        call_ensures(find_closed_loop, (path,), c),
        c is None,
        forall|k: int| 0 <= k < path@.len() ==> on_field(#[trigger] path@[k]),
        0 <= tol.0,
        0 <= i < path@.len() - 8,
    ensures
        gap_squared(path@[i], path@.last()) <= tol.0 * tol.0 ==> r is Some,
        r is None ==> gap_squared(path@[i], path@.last()) >= (tol.0 + 1) * (tol.0 + 1),
        r matches Some(poly) ==> {
            let from = path@.len() - poly@.len();
            &&& 0 <= from < path@.len() - 8
            &&& poly@ == path@.skip(from)
            &&& gap_squared(poly@[0], poly@.last()) < (tol.0 + 1) * (tol.0 + 1)
            &&& i < from ==> gap_squared(path@[i], path@.last()) >= (tol.0 + 1) * (tol.0 + 1)
        },
{
    let t = tol.0 as int;
    let n = path@.len() as int;
    assert(!exists|k: int| is_first_crossing(path@, k));
    lemma_reach(path@[i], path@[n - 1], t);
    assert(t * t < (t + 1) * (t + 1)) by (nonlinear_arith)
        requires
            t >= 0,
    ;
    assert(closes_within(path@, tol, r));
    if r is None {
        assert(!returns_to(path@, tol, i));
    }
    if let Some(poly) = r {
        let k = choose|k: int|
            is_first_return(path@, tol, k) && poly@ == path@.subrange(k, n);
        assert(poly@ =~= path@.skip(k));
        lemma_reach(path@[k], path@[n - 1], t);
        assert(poly@[0] == path@[k] && poly@.last() == path@.last());
        if i < k {
            assert(!returns_to(path@, tol, i));
        }
    }
}

/// While a stroke is drawn, a sample joins it exactly where it keeps its distance from
/// the last point; the first sample of a stroke starts it anew, and lifting the pen
/// changes nothing.
pub proof fn law_sample_joins_at_its_distance(
    points: Seq<FxVec2>,
    spacing: Fx32,
    drawing: bool,
    p: FxVec2,
)
    requires
        0 <= spacing.0,
        on_field(p),
        points.len() > 0 ==> on_field(points.last()),
    ensures
        !drawing ==> points_after(points, spacing, drawing, Some(p)) == seq![p],
        drawing && points.len() == 0 ==> points_after(points, spacing, drawing, Some(p)) == seq![p],
        drawing && points.len() > 0 ==> points_after(points, spacing, drawing, Some(p)) == if gap_squared(
            points.last(),
            p,
        ) >= spacing.0 * spacing.0 {
            points.push(p)
        } else {
            points
        },
        points_after(points, spacing, drawing, None) == points,
{
    if points.len() > 0 {
        lemma_reach(points.last(), p, spacing.0 as int);
    } else {
        assert(points.push(p) =~= seq![p]);
    }
}

} // verus!
