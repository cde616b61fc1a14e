//! The stylus stroke: a touch stream accumulated into a path of spaced samples.

use crate::math::fx::Fx32;
use crate::math::fx_vec::{vec2_len, vec2_sub, FxVec2};
use vstd::prelude::*;

verus! {

/// The in-progress stylus stroke, in raw touch-screen pixels. Pen-down starts a
/// fresh stroke, later samples are kept once they are far enough from the last
/// one kept, and pen-up leaves the finished stroke in place until the next
/// pen-down.
#[derive(Debug, Clone)]
pub struct StrokePath {
    /// The points so far, oldest first.
    pub points: Vec<FxVec2>,
    /// Minimum spacing between kept samples.
    pub min_spacing: Fx32,
    /// Whether the pen was down at the last sample.
    pub down: bool,
}

/// A finished stroke, published when the pen lifts.
#[derive(Debug, Clone)]
pub struct StrokeCompleted(pub Vec<FxVec2>);

/// A sample at `p` is at least `spacing` from the last point of `points`, or the
/// first of them.
pub open spec fn far_enough(points: Seq<FxVec2>, spacing: Fx32, p: FxVec2) -> bool {
    points.len() == 0 || vec2_len(vec2_sub(p, points.last())) >= spacing.r()
}

/// The points after a sample: `touch` is where the pen is down, if it is.
pub open spec fn points_after(
    points: Seq<FxVec2>,
    spacing: Fx32,
    drawing: bool,
    touch: Option<FxVec2>,
) -> Seq<FxVec2> {
    match touch {
        Some(p) => if !drawing {
            seq![p]
        } else if far_enough(points, spacing, p) {
            points.push(p)
        } else {
            points
        },
        None => points,
    }
}

/// Consecutive points keep the minimum spacing.
pub open spec fn spaced(points: Seq<FxVec2>, spacing: Fx32) -> bool {
    forall|i: int|
        1 <= i < points.len() ==> vec2_len(vec2_sub(#[trigger] points[i], points[i - 1]))
            >= spacing.r()
}

impl Default for StrokePath {
    fn default() -> (s: Self)
        ensures
            s.points@ == Seq::<FxVec2>::empty(),
            s.min_spacing.0 == 4 * 4096,
            !s.drawing(),
    {
        StrokePath { points: Vec::new(), min_spacing: Fx32::from_int(4), down: false }
    }
}

impl StrokePath {
    /// A stroke is being drawn.
    pub open spec fn drawing(&self) -> bool {
        self.down
    }

    /// True while a stroke is being drawn.
    pub fn is_drawing(&self) -> (r: bool)
        ensures
            r == self.drawing(),
    {
        self.down
    }

    /// Take one sample of the touch stream. The frame the pen lifts, the finished
    /// stroke is published, unless it is empty.
    pub fn accumulate(&mut self, touch: Option<FxVec2>) -> (completed: Option<StrokeCompleted>)
        ensures
            final(self).points@ == points_after(
                old(self).points@,
                old(self).min_spacing,
                old(self).drawing(),
                touch,
            ),
            final(self).min_spacing == old(self).min_spacing,
            final(self).drawing() == (touch is Some),
            completed is Some <==> (touch is None && old(self).drawing()
                && old(self).points.len() > 0),
            completed matches Some(c) ==> c.0@ == old(self).points@,
    {
        match touch {
            Some(p) => {
                if !self.down {
                    self.points.clear();
                    self.points.push(p);
                    self.down = true;
                    assert(self.points@ =~= seq![p]);
                } else {
                    let n: usize = self.points.len();
                    let far: bool = if n == 0 {
                        true
                    } else {
                        (p - self.points[n - 1]).length().0 >= self.min_spacing.0
                    };
                    if far {
                        self.points.push(p);
                    }
                }
                None
            },
            None => {
                if self.down {
                    self.down = false;
                    if self.points.len() > 0 {
                        let mut copy: Vec<FxVec2> = Vec::new();
                        let mut k: usize = 0;
                        while k < self.points.len()
                            invariant
                                k <= self.points.len(),
                                copy@ == self.points@.subrange(0, k as int),
                            decreases self.points.len() - k,
                        {
                            copy.push(self.points[k]);
                            k = k + 1;
                        }
                        assert(copy@ =~= self.points@);
                        return Some(StrokeCompleted(copy));
                    }
                }
                None
            },
        }
    }
}

/// A stroke built by samples keeps its minimum spacing.
pub proof fn law_stroke_stays_spaced(
    points: Seq<FxVec2>,
    spacing: Fx32,
    drawing: bool,
    touch: Option<FxVec2>,
)
    requires
        spaced(points, spacing),
    ensures
        spaced(points_after(points, spacing, drawing, touch), spacing),
{
    let next = points_after(points, spacing, drawing, touch);
    assert forall|i: int| 1 <= i < next.len() implies vec2_len(
        vec2_sub(#[trigger] next[i], next[i - 1]),
    ) >= spacing.r() by {
        if i < points.len() && drawing {
            assert(next[i] == points[i]);
        } else if touch is None {
            assert(next[i] == points[i]);
        }
    }
}

} // verus!
