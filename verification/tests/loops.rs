use bevy_nds::loops::geometry::{
    area, densify, dist_point_segment, enclosed, encloses_circle, find_closed_loop,
    find_closed_loop_within, perimeter, point_in_polygon, regularity, segment_intersection, smooth,
};
use bevy_nds::loops::glow::{paint_glow, rasterize_glow_polyline, stamp_feathered};
use bevy_nds::loops::raster::{
    rasterize_line, rasterize_line_aa, rasterize_polyline, rasterize_polyline_aa,
    rasterize_thick_polyline, stamp_disc,
};
use bevy_nds::loops::stroke::StrokePath;
use bevy_nds::math::fx::Fx32;
use bevy_nds::math::fx_vec::FxVec2;
use std::collections::{BTreeMap, BTreeSet};

fn fx(v: f32) -> Fx32 {
    Fx32::from_raw((v * 4096.0) as i32)
}

fn fl(v: Fx32) -> f32 {
    v.raw() as f32 / 4096.0
}

fn v(x: f32, y: f32) -> FxVec2 {
    FxVec2::new(fx(x), fx(y))
}

fn approx(a: Fx32, b: f32) -> bool {
    (fl(a) - b).abs() < 0.1
}

#[test]
fn segments_cross_at_expected_point() {
    // A "+" : horizontal vs vertical through (5, 5).
    let x = segment_intersection(v(0.0, 5.0), v(10.0, 5.0), v(5.0, 0.0), v(5.0, 10.0)).unwrap();
    assert!(
        approx(x.x, 5.0) && approx(x.y, 5.0),
        "{:?}",
        (fl(x.x), fl(x.y))
    );
}

#[test]
fn segments_that_miss_return_none() {
    // Disjoint, non-overlapping spans.
    assert!(segment_intersection(v(0.0, 0.0), v(1.0, 0.0), v(0.0, 5.0), v(1.0, 5.0)).is_none());
    // Would cross if extended, but not within the spans.
    assert!(segment_intersection(v(0.0, 0.0), v(1.0, 1.0), v(5.0, 0.0), v(6.0, 1.0)).is_none());
}

#[test]
fn point_in_square() {
    let sq = [v(0.0, 0.0), v(10.0, 0.0), v(10.0, 10.0), v(0.0, 10.0)];
    assert!(point_in_polygon(&sq, v(5.0, 5.0)));
    assert!(!point_in_polygon(&sq, v(15.0, 5.0)));
    assert!(!point_in_polygon(&sq, v(5.0, -1.0)));
    assert!(point_in_polygon(&sq, v(1.0, 9.0)));
}

#[test]
fn point_in_concave_polygon() {
    // A "U"/notched shape: a point in the notch is outside.
    let u = [
        v(0.0, 0.0),
        v(10.0, 0.0),
        v(10.0, 10.0),
        v(7.0, 10.0),
        v(7.0, 3.0),
        v(3.0, 3.0),
        v(3.0, 10.0),
        v(0.0, 10.0),
    ];
    assert!(point_in_polygon(&u, v(1.0, 5.0))); // left arm
    assert!(point_in_polygon(&u, v(9.0, 5.0))); // right arm
    assert!(!point_in_polygon(&u, v(5.0, 8.0))); // in the notch
    assert!(point_in_polygon(&u, v(5.0, 1.0))); // in the base
}

#[test]
fn open_path_has_no_loop() {
    // A simple non-crossing zigzag.
    let path = [v(0.0, 0.0), v(2.0, 1.0), v(4.0, 0.0), v(6.0, 1.0)];
    assert!(find_closed_loop(&path).is_none());
}

#[test]
fn self_crossing_path_closes_a_loop() {
    // Draw a box and overshoot so the final segment crosses the first edge:
    // (0,0)->(10,0)->(10,10)->(0,10)->(0,-2) crosses the first segment at ~(0,0).
    let path = [
        v(0.0, 0.0),
        v(10.0, 0.0),
        v(10.0, 10.0),
        v(0.0, 10.0),
        v(0.0, -2.0),
    ];
    let poly = find_closed_loop(&path).expect("should close");
    // The enclosed polygon should contain the box interior...
    assert!(point_in_polygon(&poly, v(5.0, 5.0)));
    // ...and exclude a point well outside it.
    assert!(!point_in_polygon(&poly, v(50.0, 50.0)));
}

#[test]
fn lax_closure_triggers_on_near_miss() {
    // An almost-closed box: the end returns near the start but never crosses.
    // 4px-ish spacing, enough vertices to clear SKIP_TAIL.
    let path = [
        v(0.0, 0.0),
        v(4.0, 0.0),
        v(8.0, 0.0),
        v(10.0, 4.0),
        v(10.0, 8.0),
        v(8.0, 10.0),
        v(4.0, 10.0),
        v(0.0, 8.0),
        v(0.0, 4.0),
        v(1.0, 2.0),
        v(2.0, 1.0), // ~2.2px from the start (0,0)
    ];
    // Exact crossing detection finds nothing here...
    assert!(find_closed_loop(&path).is_none());
    // ...but a lax tolerance closes it, and the loop contains the interior.
    let poly = find_closed_loop_within(&path, fx(6.0)).expect("lax close");
    assert!(point_in_polygon(&poly, v(5.0, 5.0)));
    // Too tight a tolerance: no closure.
    assert!(find_closed_loop_within(&path, fx(0.5)).is_none());
}

#[test]
fn densify_fills_even_steps_along_a_line() {
    // A single long segment, step 10 → points at 0,10,20,30,40.
    let line = [v(0.0, 0.0), v(40.0, 0.0)];
    let d = densify(&line, Fx32::from_int(10), 100);
    assert_eq!(d.len(), 5);
    assert!(approx(d[1].x, 10.0) && approx(d[2].x, 20.0) && approx(d[4].x, 40.0));
    // `max` caps the output.
    assert_eq!(densify(&line, Fx32::from_int(10), 3).len(), 3);
}

#[test]
fn enclosed_picks_only_inside_blips() {
    let sq = [v(0.0, 0.0), v(10.0, 0.0), v(10.0, 10.0), v(0.0, 10.0)];
    let blips = [v(5.0, 5.0), v(20.0, 5.0), v(2.0, 8.0)];
    let inside = enclosed(&sq, &blips);
    assert_eq!(inside, vec![0, 2]);
}

#[test]
fn smooth_preserves_endpoints_and_shortens_spikes() {
    let path = [v(0.0, 0.0), v(0.0, 10.0), v(2.0, 0.0)];
    let s = smooth(&path);
    assert_eq!(s[0], v(0.0, 0.0));
    assert_eq!(s[2], v(2.0, 0.0));
    // The middle spike at y=10 is pulled toward the mean (~3.33).
    assert!(approx(s[1].y, 10.0 / 3.0));
}

#[test]
fn area_of_square_and_triangle() {
    let sq = [v(0.0, 0.0), v(10.0, 0.0), v(10.0, 10.0), v(0.0, 10.0)];
    assert!(approx(area(&sq), 100.0));
    // Winding direction must not matter (absolute area).
    let cw = [v(0.0, 0.0), v(0.0, 10.0), v(10.0, 10.0), v(10.0, 0.0)];
    assert!(approx(area(&cw), 100.0));
    // Right triangle, legs 6 and 8 → area 24.
    let tri = [v(0.0, 0.0), v(6.0, 0.0), v(0.0, 8.0)];
    assert!(approx(area(&tri), 24.0));
    // Degenerate.
    assert_eq!(area(&[v(0.0, 0.0), v(1.0, 1.0)]), Fx32::zero());
}

#[test]
fn area_handles_large_loop_without_overflow() {
    // A near-full-screen box (~256×192): the i64 shoelace accumulation must
    // not wrap the way a Fx32 accumulator would.
    let big = [v(2.0, 2.0), v(254.0, 2.0), v(254.0, 190.0), v(2.0, 190.0)];
    assert!(approx(area(&big), 252.0 * 188.0));
}

#[test]
fn perimeter_of_square() {
    let sq = [v(0.0, 0.0), v(10.0, 0.0), v(10.0, 10.0), v(0.0, 10.0)];
    assert!(approx(perimeter(&sq), 40.0));
}

#[test]
fn regularity_circle_beats_square_beats_sliver() {
    // Approximate a circle (radius 10) with 24 segments.
    let mut circle = Vec::new();
    for k in 0..24 {
        let a = core::f32::consts::TAU * (k as f32) / 24.0;
        circle.push(v(10.0 * a.cos(), 10.0 * a.sin()));
    }
    let sq = [v(0.0, 0.0), v(10.0, 0.0), v(10.0, 10.0), v(0.0, 10.0)];
    let sliver = [v(0.0, 0.0), v(20.0, 0.0), v(20.0, 0.5), v(0.0, 0.5)];

    let (rc, rs, rl) = (
        fl(regularity(&circle)),
        fl(regularity(&sq)),
        fl(regularity(&sliver)),
    );
    // Circle ≈ 1 (polygon approximation slightly under), square ≈ 0.785.
    assert!(rc > 0.95 && rc <= 1.05, "circle reg = {rc}");
    assert!((rs - 0.785).abs() < 0.02, "square reg = {rs}");
    assert!(
        rl < rs,
        "sliver {rl} should be less regular than square {rs}"
    );
    assert_eq!(regularity(&[v(0.0, 0.0), v(1.0, 1.0)]), Fx32::zero());
}

#[test]
fn dist_point_segment_cases() {
    let a = v(0.0, 0.0);
    let b = v(10.0, 0.0);
    // Perpendicular foot inside the span.
    assert!(approx(dist_point_segment(v(5.0, 4.0), a, b), 4.0));
    // On the segment.
    assert!(approx(dist_point_segment(v(3.0, 0.0), a, b), 0.0));
    // Past the end → distance to the nearer endpoint (5-12-13 triangle).
    assert!(approx(dist_point_segment(v(13.0, 4.0), a, b), 5.0));
    // Degenerate segment → distance to the point.
    assert!(approx(dist_point_segment(v(3.0, 4.0), a, a), 5.0));
}

#[test]
fn circle_fully_inside_square() {
    let sq = [v(0.0, 0.0), v(20.0, 0.0), v(20.0, 20.0), v(0.0, 20.0)];
    // Centre + small radius clears every edge.
    assert!(encloses_circle(&sq, v(10.0, 10.0), fx(5.0)));
    // Same centre, radius reaches the wall → pokes out.
    assert!(!encloses_circle(&sq, v(10.0, 10.0), fx(11.0)));
    // Centre near a corner: fits as a point but the circle crosses the side.
    assert!(encloses_circle(&sq, v(3.0, 3.0), fx(2.0)));
    assert!(!encloses_circle(&sq, v(3.0, 3.0), fx(4.0)));
    // Centre outside is never enclosed.
    assert!(!encloses_circle(&sq, v(25.0, 10.0), fx(1.0)));
}

#[test]
fn circle_zero_radius_is_point_test() {
    let sq = [v(0.0, 0.0), v(10.0, 0.0), v(10.0, 10.0), v(0.0, 10.0)];
    assert!(encloses_circle(&sq, v(5.0, 5.0), Fx32::zero()));
    assert!(!encloses_circle(&sq, v(15.0, 5.0), Fx32::zero()));
}

/// The deduplicated set of pixels that a rasterizer plots.
fn pixels(plotted: Vec<(i32, i32)>) -> BTreeSet<(i32, i32)> {
    plotted.into_iter().collect()
}

#[test]
fn rasterize_horizontal_and_vertical_lines() {
    let h = pixels(rasterize_line(v(0.0, 0.0), v(5.0, 0.0)));
    assert_eq!(h.len(), 6); // 0..=5
    assert!(h.iter().all(|&(_, y)| y == 0));
    assert!(h.contains(&(0, 0)) && h.contains(&(5, 0)));

    let vert = pixels(rasterize_line(v(2.0, 0.0), v(2.0, 4.0)));
    assert_eq!(vert.len(), 5);
    assert!(vert.iter().all(|&(x, _)| x == 2));
}

#[test]
fn rasterize_diagonal_line_hits_endpoints() {
    let d = pixels(rasterize_line(v(0.0, 0.0), v(3.0, 3.0)));
    assert_eq!(d.len(), 4);
    for k in 0..=3 {
        assert!(d.contains(&(k, k)), "missing ({k},{k})");
    }
    // Direction-independent: reversing the segment plots the same pixels.
    let rev = pixels(rasterize_line(v(3.0, 3.0), v(0.0, 0.0)));
    assert_eq!(d, rev);
}

#[test]
fn rasterize_rounds_subpixel_endpoints() {
    // 2.4 → 2, 2.6 → 3 (round-to-nearest in fixed point).
    let s = pixels(rasterize_line(v(2.4, 0.0), v(2.6, 0.0)));
    assert_eq!(s, [(2, 0), (3, 0)].into_iter().collect());
}

#[test]
fn rasterize_polyline_covers_every_segment() {
    // An "L": (0,0)->(4,0)->(4,3).
    let path = [v(0.0, 0.0), v(4.0, 0.0), v(4.0, 3.0)];
    let px = pixels(rasterize_polyline(&path));
    assert!(px.contains(&(0, 0)) && px.contains(&(4, 0))); // first leg
    assert!(px.contains(&(4, 3))); // second leg
    // The shared corner is present exactly once (deduped set).
    assert!(px.contains(&(4, 0)));
    // Single-point and empty paths are safe.
    assert_eq!(
        pixels(rasterize_polyline(&[v(7.0, 9.0)])),
        [(7, 9)].into_iter().collect()
    );
    assert!(pixels(rasterize_polyline(&[])).is_empty());
}

#[test]
fn stamp_disc_footprints() {
    assert_eq!(
        pixels(stamp_disc(5, 5, 0)),
        [(5, 5)].into_iter().collect()
    );
    // radius 1 → a plus of 5 pixels.
    assert_eq!(pixels(stamp_disc(0, 0, 1)).len(), 5);
    // radius 2 → 13 pixels (the discretized disc).
    assert_eq!(pixels(stamp_disc(0, 0, 2)).len(), 13);
}

#[test]
fn thick_polyline_widens_the_stroke() {
    let path = [v(0.0, 5.0), v(6.0, 5.0)];
    let thin = pixels(rasterize_thick_polyline(&path, 0));
    let thick = pixels(rasterize_thick_polyline(&path, 1));
    // radius 0 matches the 1-px polyline.
    assert_eq!(thin, pixels(rasterize_polyline(&path)));
    // A radius-1 brush paints the rows above and below the centre line.
    assert!(thick.contains(&(3, 4)) && thick.contains(&(3, 5)) && thick.contains(&(3, 6)));
    assert!(thick.len() > thin.len());
}

#[test]
fn aa_axis_aligned_line_is_crisp() {
    // A horizontal line sits exactly on a row: full coverage, no bleed.
    let px = rasterize_line_aa(v(0.0, 3.0), v(5.0, 3.0));
    assert_eq!(px.len(), 6); // 0..=5, one pixel each
    assert!(px.iter().all(|&(_, y, c)| y == 3 && c == 255));
}

#[test]
fn aa_exact_diagonal_is_crisp() {
    // A 45° line falls on integer pixels each step → single full-coverage px.
    let px = rasterize_line_aa(v(0.0, 0.0), v(4.0, 4.0));
    assert_eq!(px.len(), 5);
    for k in 0..=4 {
        assert!(px.contains(&(k, k, 255)), "missing crisp ({k},{k})");
    }
}

#[test]
fn aa_shallow_line_ramps_coverage() {
    // Gradient 0.5: the true line runs between two rows, so mid-columns split
    // coverage across both. Per column the two pixels' coverage sums to 255.
    let px = rasterize_line_aa(v(0.0, 0.0), v(4.0, 2.0));
    let mut per_col: BTreeMap<i32, u32> =
        BTreeMap::new();
    for &(x, _, c) in &px {
        *per_col.entry(x).or_default() += c as u32;
    }
    for (&x, &sum) in &per_col {
        assert_eq!(sum, 255, "column {x} coverage should total 255, got {sum}");
    }
    // At least one column is genuinely split (a ~half-covered pixel exists).
    assert!(
        px.iter().any(|&(_, _, c)| (120..=135).contains(&c)),
        "no ~half-coverage pixel"
    );
}

#[test]
fn aa_handles_steep_lines() {
    // dy > dx → the algorithm iterates over Y; endpoints must still land.
    let px = rasterize_line_aa(v(0.0, 0.0), v(2.0, 5.0));
    assert!(
        px.iter().any(|&(x, y, _)| x == 0 && y == 0),
        "missing start"
    );
    assert!(px.iter().any(|&(x, y, _)| x == 2 && y == 5), "missing end");
    // Spans the full height (one plot per Y row across the major axis).
    let ys: BTreeSet<i32> = px.iter().map(|&(_, y, _)| y).collect();
    assert!((0..=5).all(|y| ys.contains(&y)));
}

#[test]
fn aa_polyline_and_degenerate_cases() {
    let px = rasterize_polyline_aa(&[v(0.0, 0.0), v(4.0, 0.0), v(4.0, 4.0)]);
    assert!(px.iter().any(|&(x, y, _)| x == 0 && y == 0));
    assert!(px.iter().any(|&(x, y, _)| x == 4 && y == 4));
    // Single point → one full-coverage pixel; empty → nothing.
    assert_eq!(
        rasterize_polyline_aa(&[v(2.0, 6.0)]),
        vec![(2, 6, 255)]
    );
    assert!(rasterize_polyline_aa(&[]).is_empty());
}

#[test]
fn feathered_stamp_has_bright_core_and_falloff() {
    let px = stamp_feathered(10, 10, 1, 4);
    let cov_at = |x: i32, y: i32| {
        px.iter()
            .find(|&&(a, b, _)| a == x && b == y)
            .map(|&(_, _, c)| c)
    };
    // Centre + the core radius (dist ≤ 1) are full brightness.
    assert_eq!(cov_at(10, 10), Some(255));
    assert_eq!(cov_at(11, 10), Some(255));
    // Toward the edge it dims (dist 3, inside radius 4).
    let near_edge = cov_at(13, 10).expect("dist-3 pixel present");
    assert!(
        near_edge > 0 && near_edge < 255,
        "falloff pixel = {near_edge}"
    );
    // At/after the radius, nothing is plotted.
    assert_eq!(cov_at(14, 10), None); // dist 4 == radius → coverage 0
    assert_eq!(cov_at(15, 10), None);
    // radius 0 → just the centre.
    assert_eq!(
        stamp_feathered(5, 5, 2, 0),
        vec![(5, 5, 255)]
    );
}

#[test]
fn glow_polyline_is_a_bright_line_in_a_halo() {
    let px = rasterize_glow_polyline(&[v(0.0, 10.0), v(10.0, 10.0)], 1, 3);
    // The centreline is full brightness...
    assert!(px.iter().any(|&(x, y, c)| x == 5 && y == 10 && c == 255));
    // ...wrapped in a dimmer halo above and below.
    assert!(px.iter().any(|&(_, y, c)| y == 12 && c > 0 && c < 255));
    assert!(px.iter().any(|&(_, y, c)| y == 8 && c > 0 && c < 255));
    // No coverage ever exceeds full.
    assert!(px.iter().all(|&(_, _, c)| c <= 255));
}

#[test]
fn paint_glow_writes_line_and_halo_into_buffer() {
    let (w, h) = (32usize, 16usize);
    let mut buf = vec![0u8; w * h];
    fn at(buf: &[u8], w: usize, x: usize, y: usize) -> u8 {
        buf[y * w + x]
    }
    paint_glow(&mut buf, w, h, &[v(2.0, 8.0), v(28.0, 8.0)], 1, 3);
    // Bright core on the line, dimmer halo above/below, background clear.
    assert_eq!(at(&buf, w, 15, 8), 255);
    assert!(at(&buf, w, 15, 10) > 0 && at(&buf, w, 15, 10) < 255);
    assert!(at(&buf, w, 15, 6) > 0 && at(&buf, w, 15, 6) < 255);
    assert_eq!(at(&buf, w, 15, 13), 0); // beyond the halo
    // Max-combine: a second overlapping pass never exceeds full / darkens.
    let before = at(&buf, w, 15, 8);
    paint_glow(&mut buf, w, h, &[v(2.0, 8.0), v(28.0, 8.0)], 1, 3);
    assert_eq!(at(&buf, w, 15, 8), before);
    // Out-of-bounds points don't panic (clipped).
    paint_glow(&mut buf, w, h, &[v(-50.0, -50.0), v(500.0, 500.0)], 1, 3);
}

#[test]
fn stroke_is_published_when_the_pen_lifts() {
    let mut stroke = StrokePath::default();
    assert!(!stroke.is_drawing());
    assert!(stroke.accumulate(None).is_none());
    assert!(stroke.accumulate(Some(v(10.0, 10.0))).is_none());
    assert!(stroke.is_drawing());
    // Nearer than the spacing: not recorded.
    assert!(stroke.accumulate(Some(v(10.5, 10.0))).is_none());
    assert!(stroke.accumulate(Some(v(30.0, 10.0))).is_none());
    let done = stroke.accumulate(None).unwrap();
    assert_eq!(done.0, vec![v(10.0, 10.0), v(30.0, 10.0)]);
    assert!(!stroke.is_drawing());
    // The next pen-down starts afresh.
    assert!(stroke.accumulate(Some(v(1.0, 1.0))).is_none());
    assert_eq!(stroke.points, vec![v(1.0, 1.0)]);
}

#[test]
fn densify_and_smooth_edge_cases() {
    assert!(densify(&[], fx(1.0), 10).is_empty());
    assert!(densify(&[v(1.0, 1.0)], fx(1.0), 0).is_empty());
    assert_eq!(densify(&[v(1.0, 1.0)], fx(1.0), 4), vec![v(1.0, 1.0)]);
    assert_eq!(smooth(&[v(1.0, 2.0), v(3.0, 4.0)]), vec![v(1.0, 2.0), v(3.0, 4.0)]);
    assert!(enclosed(&[v(0.0, 0.0), v(1.0, 0.0)], &[v(0.0, 0.0)]).is_empty());
    assert_eq!(perimeter(&[v(1.0, 1.0)]), Fx32::zero());
}
