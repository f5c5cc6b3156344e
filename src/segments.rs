//! Compressing a walk, cell by cell, into its straight runs.

use crate::layout::{in_grid, points_inside, segments_inside, PathSegment};
use vstd::prelude::*;

verus! {

/// The step from point `i` of `pts` to point `i + 1`.
pub open spec fn step_dir(pts: Seq<(i32, i32)>, i: int) -> (int, int) {
    (pts[i + 1].0 - pts[i].0, pts[i + 1].1 - pts[i].1)
}

/// Where the straight run that starts at point `s` ends, looking from point
/// `i` on: the first point at which the walk turns, or its last point.
pub open spec fn run_end(pts: Seq<(i32, i32)>, s: int, i: int) -> int
    decreases pts.len() - i,
{
    if i >= pts.len() - 1 {
        pts.len() - 1
    } else if step_dir(pts, i) != step_dir(pts, s) {
        i
    } else {
        run_end(pts, s, i + 1)
    }
}

pub open spec fn segment_between(a: (i32, i32), b: (i32, i32), radius: i32) -> PathSegment {
    PathSegment { start_x: a.0, start_y: a.1, end_x: b.0, end_y: b.1, radius }
}

/// The maximal straight runs of `pts` from point `s` on, each from the point
/// where it starts to the point where the walk turns; consecutive runs share
/// that corner.
pub open spec fn runs_from(pts: Seq<(i32, i32)>, s: int, radius: i32) -> Seq<PathSegment>
    decreases pts.len() - s,
    via runs_from_decreases
{
    if s < 0 || s >= pts.len() - 1 {
        Seq::empty()
    } else {
        let e = run_end(pts, s, s + 1);
        seq![segment_between(pts[s], pts[e], radius)] + runs_from(pts, e, radius)
    }
}

#[via_fn]
proof fn runs_from_decreases(pts: Seq<(i32, i32)>, s: int, radius: i32) {
    if !(s < 0 || s >= pts.len() - 1) {
        lemma_run_end_bounds(pts, s, s + 1);
    }
}

pub proof fn lemma_run_end_bounds(pts: Seq<(i32, i32)>, s: int, i: int)
    requires
        i <= pts.len() - 1,
    ensures
        i <= run_end(pts, s, i) <= pts.len() - 1,
    decreases pts.len() - i,
{
    if i < pts.len() - 1 && step_dir(pts, i) == step_dir(pts, s) {
        lemma_run_end_bounds(pts, s, i + 1);
    }
}

/// While the walk keeps the direction of step `s`, the run's end is the same
/// from wherever it is looked for.
proof fn lemma_run_end_skip(pts: Seq<(i32, i32)>, s: int, k: int)
    requires
        s + 1 <= k <= pts.len() - 1,
        forall|i: int| s + 1 <= i < k ==> step_dir(pts, i) == step_dir(pts, s),
    ensures
        run_end(pts, s, s + 1) == run_end(pts, s, k),
    decreases k - s,
{
    if k > s + 1 {
        lemma_run_end_skip(pts, s, k - 1);
    }
}

/// Every run of a walk that stays on the grid starts and ends on the grid.
pub proof fn lemma_runs_inside(pts: Seq<(i32, i32)>, s: int, radius: i32, width: int, height: int)
    requires
        points_inside(pts, width, height),
    ensures
        segments_inside(runs_from(pts, s, radius), width, height),
    decreases pts.len() - s,
{
    if !(s < 0 || s >= pts.len() - 1) {
        let e = run_end(pts, s, s + 1);
        lemma_run_end_bounds(pts, s, s + 1);
        lemma_runs_inside(pts, e, radius, width, height);
        let head = seq![segment_between(pts[s], pts[e], radius)];
        let rest = runs_from(pts, e, radius);
        assert(in_grid(pts[s].0 as int, pts[s].1 as int, width, height));
        assert(in_grid(pts[e].0 as int, pts[e].1 as int, width, height));
        assert forall|i: int| 0 <= i < (head + rest).len() implies #[trigger] (head + rest)[i].ends_inside(width, height) by {
            if i > 0 {
                assert((head + rest)[i] == rest[i - 1]);
            }
        }
    }
}

/// Every run carries the radius it was made with.
pub proof fn lemma_runs_radius(pts: Seq<(i32, i32)>, s: int, radius: i32)
    ensures
        forall|i: int| 0 <= i < runs_from(pts, s, radius).len() ==> (#[trigger] runs_from(pts, s, radius)[i]).radius == radius,
    decreases pts.len() - s,
{
    if !(s < 0 || s >= pts.len() - 1) {
        let e = run_end(pts, s, s + 1);
        lemma_run_end_bounds(pts, s, s + 1);
        lemma_runs_radius(pts, e, radius);
        let head = seq![segment_between(pts[s], pts[e], radius)];
        let rest = runs_from(pts, e, radius);
        assert forall|i: int| 0 <= i < (head + rest).len() implies #[trigger] (head + rest)[i].radius == radius by {
            if i > 0 {
                assert((head + rest)[i] == rest[i - 1]);
            }
        }
    }
}

/// The walk `points` as its maximal straight runs, each with the given
/// radius; nothing for fewer than two points.
pub fn points_to_segments(points: &Vec<(i32, i32)>, radius: i32) -> (r: Vec<PathSegment>)
    ensures
        r@ == runs_from(points@, 0, radius),
{
    let n = points.len();
    if n < 2 {
        return Vec::new();
    }
    let pts = Ghost(points@);
    let mut segments: Vec<PathSegment> = Vec::new();
    let mut start = points[0];
    let mut prev = points[0];
    let mut dir = (points[1].0 as i64 - points[0].0 as i64, points[1].1 as i64 - points[0].1 as i64);
    let ghost mut s: int = 0;
    let mut j: usize = 1;
    while j < n
        invariant
            pts@ == points@,
            n == points@.len(),
            n >= 2,
            1 <= j <= n,
            0 <= s < j,
            s <= n - 2,
            start == pts@[s],
            prev == pts@[j - 1],
            (dir.0 as int, dir.1 as int) == step_dir(pts@, s),
            forall|i: int| s + 1 <= i < j - 1 ==> step_dir(pts@, i) == step_dir(pts@, s),
            segments@ + runs_from(pts@, s, radius) == runs_from(pts@, 0, radius),
        decreases n - j,
    {
        let point = points[j];
        let next_dir = (point.0 as i64 - prev.0 as i64, point.1 as i64 - prev.1 as i64);
        if next_dir.0 != dir.0 || next_dir.1 != dir.1 {
            proof {
                lemma_run_end_skip(pts@, s, j - 1);
                assert(run_end(pts@, s, (j - 1) as int) == j - 1);
                let e = j - 1;
                assert(runs_from(pts@, s, radius) == seq![segment_between(pts@[s], pts@[e], radius)]
                    + runs_from(pts@, e, radius));
                assert(segments@.push(segment_between(pts@[s], pts@[e], radius)) + runs_from(pts@, e, radius)
                    =~= segments@ + runs_from(pts@, s, radius));
                s = e as int;
            }
            segments.push(PathSegment {
                start_x: start.0,
                start_y: start.1,
                end_x: prev.0,
                end_y: prev.1,
                radius,
            });
            start = prev;
            dir = next_dir;
        }
        prev = point;
        j += 1;
    }
    proof {
        lemma_run_end_skip(pts@, s, n - 1);
        let e = n - 1;
        assert(runs_from(pts@, e as int, radius) =~= Seq::empty());
        assert(runs_from(pts@, s, radius) == seq![segment_between(pts@[s], pts@[e as int], radius)]
            + runs_from(pts@, e as int, radius));
        assert(segments@.push(segment_between(pts@[s], pts@[e as int], radius)) =~= segments@ + runs_from(pts@, s, radius));
    }
    segments.push(PathSegment { start_x: start.0, start_y: start.1, end_x: prev.0, end_y: prev.1, radius });
    segments
}

} // verus!
