//! A simpler path map: a trunk, three branches from the fork and short side
//! branches with capillaries, drawn as dirt on grass.

use crate::carve::{sign, step_toward};
use crate::layout::{in_grid, points_inside, segments_inside, PathSegment, MAX_DIM};
use crate::occupancy::{lemma_cell_index, lemma_grid_size, Occupancy};
use crate::placement::abs;
use crate::random::{draw_i32, draw_ratio, draw_usize};
use crate::raster::{is_grid, near, near_stamp, seg_steps, stamp_x, stamp_y, tile, BaseTile};
use crate::segments::{lemma_runs_inside, lemma_runs_radius, points_to_segments, runs_from};
use rand::rngs::StdRng;
use vstd::prelude::*;

verus! {

pub const PATH_RADIUS: i32 = 1;
pub const BRANCH_RADIUS: i32 = 0;
pub const BRANCH_LENGTH_MIN: i32 = 8;
pub const BRANCH_LENGTH_MAX: i32 = 12;
const BRANCH_CLEARANCE: i32 = 3;
const CAPILLARY_LENGTH_MIN: i32 = 4;
const CAPILLARY_LENGTH_STEP: i32 = 2;
const BRANCH_SET_ATTEMPTS: usize = 12;
const BRANCH_START_ATTEMPTS: usize = 24;

/// A straight side branch: `length` cells from the start in direction
/// `(dir_x, dir_y)`, the start itself excluded.
#[derive(Clone, Copy, Debug, PartialEq, Eq, Structural)]
pub struct BranchSpec {
    pub start_x: i32,
    pub start_y: i32,
    pub dir_x: i32,
    pub dir_y: i32,
    pub length: i32,
}

/// The segments of a generated path map.
#[derive(Clone, Debug)]
pub struct PathSkeleton {
    pub segments: Vec<PathSegment>,
}

/// A cell on the outermost ring of the grid (or beyond it).
pub open spec fn edge_cell(x: int, y: int, width: int, height: int) -> bool {
    width > 0 && height > 0 && (x <= 0 || y <= 0 || x >= width - 1 || y >= height - 1)
}

/// A cell of the grid off its outermost ring.
pub open spec fn interior(x: int, y: int, width: int, height: int) -> bool {
    in_grid(x, y, width, height) && !edge_cell(x, y, width, height)
}

pub open spec fn branch_x(b: BranchSpec, k: int) -> int {
    b.start_x + b.dir_x * k
}

pub open spec fn branch_y(b: BranchSpec, k: int) -> int {
    b.start_y + b.dir_y * k
}

/// The first `n` cells from `(sx, sy)` in direction `(dx, dy)` are interior.
pub open spec fn clear_run(sx: int, sy: int, dx: int, dy: int, width: int, height: int, n: int) -> bool {
    forall|k: int| 1 <= k <= n ==> #[trigger] interior(sx + dx * k, sy + dy * k, width, height)
}

pub open spec fn unit_dir(dx: int, dy: int) -> bool {
    -1 <= dx <= 1 && -1 <= dy <= 1
}

/// Whether `(x, y)` is on the grid's outermost ring; never on an empty grid.
pub fn is_edge(x: i32, y: i32, width: u32, height: u32) -> (r: bool)
    requires
        width <= MAX_DIM,
        height <= MAX_DIM,
    ensures
        r == edge_cell(x as int, y as int, width as int, height as int),
{
    if width == 0 || height == 0 {
        return false;
    }
    let max_x = (width - 1) as i32;
    let max_y = (height - 1) as i32;
    x <= 0 || y <= 0 || x >= max_x || y >= max_y
}

/// How many interior cells follow `(start_x, start_y)` in direction
/// `(dir_x, dir_y)` before the first that is not; zero for no direction.
pub fn max_length_in_direction(start_x: i32, start_y: i32, dir_x: i32, dir_y: i32, width: u32, height: u32) -> (r: i32)
    requires
        width <= MAX_DIM,
        height <= MAX_DIM,
        0 <= start_x <= MAX_DIM,
        0 <= start_y <= MAX_DIM,
        unit_dir(dir_x as int, dir_y as int),
    ensures
        0 <= r <= MAX_DIM,
        clear_run(start_x as int, start_y as int, dir_x as int, dir_y as int, width as int, height as int, r as int),
        dir_x != 0 || dir_y != 0 ==> !interior(start_x + dir_x * (r + 1), start_y + dir_y * (r + 1), width as int, height as int),
        dir_x == 0 && dir_y == 0 ==> r == 0,
{
    if dir_x == 0 && dir_y == 0 {
        return 0;
    }
    let mut length: i32 = 0;
    loop
        invariant
            width <= MAX_DIM,
            height <= MAX_DIM,
            0 <= start_x <= MAX_DIM,
            0 <= start_y <= MAX_DIM,
            unit_dir(dir_x as int, dir_y as int),
            dir_x != 0 || dir_y != 0,
            0 <= length <= MAX_DIM,
            length > 0 ==> interior(start_x + dir_x * length, start_y + dir_y * length, width as int, height as int),
            clear_run(start_x as int, start_y as int, dir_x as int, dir_y as int, width as int, height as int, length as int),
        ensures
            0 <= length <= MAX_DIM,
            clear_run(start_x as int, start_y as int, dir_x as int, dir_y as int, width as int, height as int, length as int),
            !interior(start_x + dir_x * (length + 1), start_y + dir_y * (length + 1), width as int, height as int),
        decreases MAX_DIM - length,
    {
        assert(-MAX_DIM - 1 <= dir_x * (length + 1) <= MAX_DIM + 1 && -MAX_DIM - 1 <= dir_y * (length + 1) <= MAX_DIM + 1)
            by (nonlinear_arith)
            requires
                -1 <= dir_x <= 1,
                -1 <= dir_y <= 1,
                0 <= length <= MAX_DIM,
        ;
        let next_x = start_x + dir_x * (length + 1);
        let next_y = start_y + dir_y * (length + 1);
        if next_x < 0 || next_y < 0 || next_x >= width as i32 || next_y >= height as i32 {
            break;
        }
        if is_edge(next_x, next_y, width, height) {
            break;
        }
        proof {
            if dir_x != 0 {
                assert(dir_x * (length + 1) == length + 1 || dir_x * (length + 1) == -(length + 1)) by (nonlinear_arith)
                    requires
                        dir_x == 1 || dir_x == -1,
                ;
            } else {
                assert(dir_y * (length + 1) == length + 1 || dir_y * (length + 1) == -(length + 1)) by (nonlinear_arith)
                    requires
                        dir_y == 1 || dir_y == -1,
                ;
            }
        }
        length += 1;
    }
    length
}

/// Each point of `pts` is at most one step, along one axis, from the one
/// before.
pub open spec fn unit_steps(pts: Seq<(i32, i32)>) -> bool {
    forall|i: int| 0 <= i < pts.len() - 1 ==> abs(pts[i + 1].0 - (#[trigger] pts[i]).0) + abs(pts[i + 1].1 - pts[i].1) <= 1
}

proof fn lemma_push_unit_step(pts: Seq<(i32, i32)>, p: (i32, i32), width: int, height: int)
    requires
        pts.len() >= 1,
        unit_steps(pts),
        points_inside(pts, width, height),
        in_grid(p.0 as int, p.1 as int, width, height),
        abs(p.0 - pts.last().0) + abs(p.1 - pts.last().1) <= 1,
    ensures
        unit_steps(pts.push(p)),
        points_inside(pts.push(p), width, height),
{
    let q = pts.push(p);
    assert forall|i: int| 0 <= i < q.len() - 1 implies abs(q[i + 1].0 - (#[trigger] q[i]).0) + abs(q[i + 1].1 - q[i].1) <= 1 by {
        if i < pts.len() - 1 {
            assert(q[i] == pts[i] && q[i + 1] == pts[i + 1]);
        } else {
            assert(q[i] == pts.last());
        }
    }
    assert forall|i: int| 0 <= i < q.len() implies in_grid(#[trigger] q[i].0 as int, q[i].1 as int, width, height) by {
        if i < pts.len() {
            assert(q[i] == pts[i]);
        }
    }
}

/// A walk from `start` to `end`: first along y, each step moving along x
/// instead with chance 45 in 100 while x is not yet aligned, then along x;
/// every point clamped to the grid, at most four steps per cell.
fn carve_path_segment_points(start_x: i32, start_y: i32, end_x: i32, end_y: i32, width: u32, height: u32, rng: &mut StdRng) -> (r: Vec<(i32, i32)>)
    requires
        1 <= width <= MAX_DIM,
        1 <= height <= MAX_DIM,
        in_grid(start_x as int, start_y as int, width as int, height as int),
        -MAX_DIM <= end_x <= MAX_DIM,
        -MAX_DIM <= end_y <= MAX_DIM,
    ensures
        r@.len() >= 1,
        r@[0] == (start_x, start_y),
        points_inside(r@, width as int, height as int),
        unit_steps(r@),
        in_grid(end_x as int, end_y as int, width as int, height as int) ==> r@.last() == (end_x, end_y) || r@.len() == 4 * width * height + 1,
{
    let mut segment: Vec<(i32, i32)> = Vec::new();
    let mut x = start_x;
    let mut y = start_y;
    segment.push((x, y));
    proof {
        lemma_grid_size(width as int, height as int);
    }
    assert(width * height * 4 == 4 * width * height) by (nonlinear_arith);
    let max_steps: usize = (width * height * 4) as usize;
    let mut steps: usize = 0;
    let max_x = (width - 1) as i32;
    let max_y = (height - 1) as i32;
    while y != end_y && steps < max_steps
        invariant
            1 <= width <= MAX_DIM,
            1 <= height <= MAX_DIM,
            max_x == width - 1,
            max_y == height - 1,
            -MAX_DIM <= end_x <= MAX_DIM,
            -MAX_DIM <= end_y <= MAX_DIM,
            max_steps == 4 * width * height,
            steps <= max_steps,
            segment@.len() == steps + 1,
            in_grid(x as int, y as int, width as int, height as int),
            segment@.len() >= 1,
            segment@[0] == (start_x, start_y),
            segment@.last() == (x, y),
            points_inside(segment@, width as int, height as int),
            unit_steps(segment@),
        decreases max_steps - steps,
    {
        let ghost before = segment@;
        let ghost px = x;
        let ghost py = y;
        steps += 1;
        if x != end_x && draw_ratio(rng, 45, 100) {
            x += if end_x > x { 1 } else { -1 };
        } else {
            y += if end_y > y { 1 } else { -1 };
        }
        x = if x < 0 { 0 } else if x > max_x { max_x } else { x };
        y = if y < 0 { 0 } else if y > max_y { max_y } else { y };
        proof {
            lemma_push_unit_step(before, (x, y), width as int, height as int);
        }
        segment.push((x, y));
    }
    let ghost y_done = y == end_y;
    while x != end_x && steps < max_steps
        invariant
            1 <= width <= MAX_DIM,
            1 <= height <= MAX_DIM,
            max_x == width - 1,
            max_y == height - 1,
            -MAX_DIM <= end_x <= MAX_DIM,
            -MAX_DIM <= end_y <= MAX_DIM,
            max_steps == 4 * width * height,
            steps <= max_steps,
            segment@.len() == steps + 1,
            y_done ==> y == end_y,
            !y_done ==> steps == max_steps,
            in_grid(x as int, y as int, width as int, height as int),
            segment@.len() >= 1,
            segment@[0] == (start_x, start_y),
            segment@.last() == (x, y),
            points_inside(segment@, width as int, height as int),
            unit_steps(segment@),
        decreases max_steps - steps,
    {
        let ghost before = segment@;
        let ghost px = x;
        steps += 1;
        x += if end_x > x { 1 } else { -1 };
        x = if x < 0 { 0 } else if x > max_x { max_x } else { x };
        proof {
            lemma_push_unit_step(before, (x, y), width as int, height as int);
        }
        segment.push((x, y));
    }
    segment
}

/// Reserves every grid cell within `clearance` of `(x, y)` in both axes.
fn mark_with_clearance(occupied: &mut Occupancy, x: i32, y: i32, clearance: i32)
    requires
        old(occupied).wf(),
        -2 * MAX_DIM <= x <= 2 * MAX_DIM,
        -2 * MAX_DIM <= y <= 2 * MAX_DIM,
        0 <= clearance <= 8,
    ensures
        final(occupied).wf(),
        final(occupied).grid_width() == old(occupied).grid_width(),
        final(occupied).grid_height() == old(occupied).grid_height(),
        forall|x2: int, y2: int|
            in_grid(x2, y2, old(occupied).grid_width(), old(occupied).grid_height()) ==> #[trigger] final(occupied).occupied(x2, y2) == (
            old(occupied).occupied(x2, y2) || near(x as int, y as int, clearance as int, x2, y2)),
{
    let ghost before = *occupied;
    let ghost w = before.grid_width();
    let ghost h = before.grid_height();
    let mut ny = y - clearance;
    while ny <= y + clearance
        invariant
            occupied.wf(),
            occupied.grid_width() == w,
            occupied.grid_height() == h,
            -2 * MAX_DIM <= x <= 2 * MAX_DIM,
            -2 * MAX_DIM <= y <= 2 * MAX_DIM,
            0 <= clearance <= 8,
            y - clearance <= ny <= y + clearance + 1,
            forall|x2: int, y2: int| in_grid(x2, y2, w, h) ==> #[trigger] occupied.occupied(x2, y2) == (before.occupied(x2, y2) || (
            near(x as int, y as int, clearance as int, x2, y2) && y2 < ny)),
        decreases y + clearance + 1 - ny,
    {
        let mut nx = x - clearance;
        while nx <= x + clearance
            invariant
                occupied.wf(),
                occupied.grid_width() == w,
                occupied.grid_height() == h,
                -2 * MAX_DIM <= x <= 2 * MAX_DIM,
                -2 * MAX_DIM <= y <= 2 * MAX_DIM,
                0 <= clearance <= 8,
                y - clearance <= ny <= y + clearance,
                x - clearance <= nx <= x + clearance + 1,
                forall|x2: int, y2: int| in_grid(x2, y2, w, h) ==> #[trigger] occupied.occupied(x2, y2) == (before.occupied(x2, y2) || (
                near(x as int, y as int, clearance as int, x2, y2) && (y2 < ny || (y2 == ny && x2 < nx)))),
            decreases x + clearance + 1 - nx,
        {
            occupied.occupy_cell(nx, ny);
            nx += 1;
        }
        ny += 1;
    }
}

/// Reserves the clearance square round every cell of the branch.
fn mark_branch_occupied(occupied: &mut Occupancy, branch: &BranchSpec, clearance: i32)
    requires
        old(occupied).wf(),
        -MAX_DIM <= branch.start_x <= MAX_DIM,
        -MAX_DIM <= branch.start_y <= MAX_DIM,
        unit_dir(branch.dir_x as int, branch.dir_y as int),
        branch.length <= MAX_DIM,
        0 <= clearance <= 8,
    ensures
        final(occupied).wf(),
        final(occupied).grid_width() == old(occupied).grid_width(),
        final(occupied).grid_height() == old(occupied).grid_height(),
        forall|x2: int, y2: int|
            in_grid(x2, y2, old(occupied).grid_width(), old(occupied).grid_height()) ==> #[trigger] final(occupied).occupied(x2, y2) == (
            old(occupied).occupied(x2, y2) || exists|k: int| 1 <= k <= branch.length && #[trigger] near(branch_x(*branch, k), branch_y(*branch, k), clearance as int, x2, y2)),
{
    let ghost before = *occupied;
    let ghost w = before.grid_width();
    let ghost h = before.grid_height();
    let mut step: i32 = 1;
    while step <= branch.length
        invariant
            occupied.wf(),
            occupied.grid_width() == w,
            occupied.grid_height() == h,
            -MAX_DIM <= branch.start_x <= MAX_DIM,
            -MAX_DIM <= branch.start_y <= MAX_DIM,
            unit_dir(branch.dir_x as int, branch.dir_y as int),
            branch.length <= MAX_DIM,
            0 <= clearance <= 8,
            1 <= step,
            step <= branch.length + 1 || branch.length < 1,
            branch.length < 1 ==> step == 1,
            forall|x2: int, y2: int| in_grid(x2, y2, w, h) ==> #[trigger] occupied.occupied(x2, y2) == (before.occupied(x2, y2) ||
                exists|k: int| 1 <= k < step && #[trigger] near(branch_x(*branch, k), branch_y(*branch, k), clearance as int, x2, y2)),
        decreases branch.length + 1 - step,
    {
        assert(-MAX_DIM <= branch.dir_x * step <= MAX_DIM && -MAX_DIM <= branch.dir_y * step <= MAX_DIM) by (nonlinear_arith)
            requires
                -1 <= branch.dir_x <= 1,
                -1 <= branch.dir_y <= 1,
                1 <= step <= MAX_DIM,
        ;
        let x = branch.start_x + branch.dir_x * step;
        let y = branch.start_y + branch.dir_y * step;
        let ghost prev = *occupied;
        mark_with_clearance(occupied, x, y, clearance);
        assert forall|x2: int, y2: int| in_grid(x2, y2, w, h) implies #[trigger] occupied.occupied(x2, y2) == (before.occupied(x2, y2) ||
            exists|k: int| 1 <= k < step + 1 && #[trigger] near(branch_x(*branch, k), branch_y(*branch, k), clearance as int, x2, y2)) by {
            assert(x == branch_x(*branch, step as int) && y == branch_y(*branch, step as int));
            if exists|k: int| 1 <= k < step + 1 && #[trigger] near(branch_x(*branch, k), branch_y(*branch, k), clearance as int, x2, y2) {
                let k = choose|k: int| 1 <= k < step + 1 && #[trigger] near(branch_x(*branch, k), branch_y(*branch, k), clearance as int, x2, y2);
                if k < step {
                    assert(prev.occupied(x2, y2));
                }
            }
        }
        step += 1;
    }
    assert forall|x2: int, y2: int| in_grid(x2, y2, w, h) implies #[trigger] occupied.occupied(x2, y2) == (before.occupied(x2, y2) ||
        exists|k: int| 1 <= k <= branch.length && #[trigger] near(branch_x(*branch, k), branch_y(*branch, k), clearance as int, x2, y2)) by {
        if exists|k: int| 1 <= k <= branch.length && #[trigger] near(branch_x(*branch, k), branch_y(*branch, k), clearance as int, x2, y2) {
            let k = choose|k: int| 1 <= k <= branch.length && #[trigger] near(branch_x(*branch, k), branch_y(*branch, k), clearance as int, x2, y2);
            assert(1 <= k < step);
        }
        if exists|k: int| 1 <= k < step && #[trigger] near(branch_x(*branch, k), branch_y(*branch, k), clearance as int, x2, y2) {
            let k = choose|k: int| 1 <= k < step && #[trigger] near(branch_x(*branch, k), branch_y(*branch, k), clearance as int, x2, y2);
            assert(1 <= k <= branch.length);
        }
    }
}

/// A branch fits when it stays off the grid's outer ring and every one of
/// its cells is free.
pub(crate) open spec fn fits_branch(b: BranchSpec, occupied: Occupancy, width: int, height: int) -> bool {
    &&& clear_run(b.start_x as int, b.start_y as int, b.dir_x as int, b.dir_y as int, width, height, b.length as int)
    &&& forall|k: int| 1 <= k <= b.length ==> !#[trigger] occupied.occupied(branch_x(b, k), branch_y(b, k))
}

/// Whether the branch fits on the grid among the reserved cells.
fn branch_fits(branch: &BranchSpec, occupied: &Occupancy, width: u32, height: u32) -> (r: bool)
    requires
        occupied.wf(),
        occupied.grid_width() == width,
        occupied.grid_height() == height,
        0 <= branch.start_x <= MAX_DIM,
        0 <= branch.start_y <= MAX_DIM,
        unit_dir(branch.dir_x as int, branch.dir_y as int),
        branch.dir_x != 0 || branch.dir_y != 0,
        branch.length <= MAX_DIM,
    ensures
        r == fits_branch(*branch, *occupied, width as int, height as int),
{
    let max_length = max_length_in_direction(branch.start_x, branch.start_y, branch.dir_x, branch.dir_y, width, height);
    if branch.length > max_length {
        assert(!interior(branch.start_x + branch.dir_x * (max_length + 1), branch.start_y + branch.dir_y * (max_length + 1), width as int, height as int));
        assert(1 <= max_length + 1 <= branch.length);
        return false;
    }
    let max_x = width as i32 - 1;
    let max_y = height as i32 - 1;
    let mut step: i32 = 1;
    while step <= branch.length
        invariant
            occupied.wf(),
            occupied.grid_width() == width,
            occupied.grid_height() == height,
            width <= MAX_DIM,
            height <= MAX_DIM,
            0 <= branch.start_x <= MAX_DIM,
            0 <= branch.start_y <= MAX_DIM,
            unit_dir(branch.dir_x as int, branch.dir_y as int),
            branch.length <= max_length <= MAX_DIM,
            max_x == width - 1,
            max_y == height - 1,
            clear_run(branch.start_x as int, branch.start_y as int, branch.dir_x as int, branch.dir_y as int, width as int, height as int, max_length as int),
            1 <= step,
            step <= branch.length + 1 || branch.length < 1,
            forall|k: int| 1 <= k < step ==> !#[trigger] occupied.occupied(branch_x(*branch, k), branch_y(*branch, k)),
        decreases branch.length + 1 - step,
    {
        assert(-MAX_DIM <= branch.dir_x * step <= MAX_DIM && -MAX_DIM <= branch.dir_y * step <= MAX_DIM) by (nonlinear_arith)
            requires
                -1 <= branch.dir_x <= 1,
                -1 <= branch.dir_y <= 1,
                1 <= step <= MAX_DIM,
        ;
        let x = branch.start_x + branch.dir_x * step;
        let y = branch.start_y + branch.dir_y * step;
        assert(interior(branch.start_x + branch.dir_x * step, branch.start_y + branch.dir_y * step, width as int, height as int));
        if x < 0 || y < 0 || x > max_x || y > max_y {
            return false;
        }
        if is_edge(x, y, width, height) {
            return false;
        }
        if occupied.is_occupied(x, y) {
            assert(occupied.occupied(branch_x(*branch, step as int), branch_y(*branch, step as int)));
            return false;
        }
        step += 1;
    }
    true
}

/// A side branch that can be drawn: 8 to 12 cells long, straight across,
/// starting on the grid and staying off its outer ring.
pub open spec fn branch_ok(b: BranchSpec, width: int, height: int) -> bool {
    &&& in_grid(b.start_x as int, b.start_y as int, width, height)
    &&& unit_dir(b.dir_x as int, b.dir_y as int)
    &&& (b.dir_x == 0) != (b.dir_y == 0)
    &&& BRANCH_LENGTH_MIN <= b.length <= BRANCH_LENGTH_MAX
    &&& clear_run(b.start_x as int, b.start_y as int, b.dir_x as int, b.dir_y as int, width, height, b.length as int)
}

/// Grid cells only ever become reserved.
pub(crate) open spec fn grows(before: Occupancy, after: Occupancy) -> bool {
    &&& after.wf()
    &&& after.grid_width() == before.grid_width()
    &&& after.grid_height() == before.grid_height()
    &&& forall|x: int, y: int| in_grid(x, y, before.grid_width(), before.grid_height()) && before.occupied(x, y) ==> #[trigger] after.occupied(x, y)
}

/// Reserves the branch with its clearance, then grows capillaries from its
/// end.
fn apply_branch(occupied: &mut Occupancy, branch: &BranchSpec, clearance: i32, width: u32, height: u32)
    requires
        old(occupied).wf(),
        old(occupied).grid_width() == width,
        old(occupied).grid_height() == height,
        width <= MAX_DIM,
        height <= MAX_DIM,
        in_grid(branch.start_x as int, branch.start_y as int, width as int, height as int),
        unit_dir(branch.dir_x as int, branch.dir_y as int),
        branch.dir_x != 0 || branch.dir_y != 0,
        0 <= branch.length <= MAX_DIM,
        clear_run(branch.start_x as int, branch.start_y as int, branch.dir_x as int, branch.dir_y as int, width as int, height as int, branch.length as int),
        0 <= clearance <= 8,
    ensures
        grows(*old(occupied), *final(occupied)),
        forall|k: int, x: int, y: int|
            1 <= k <= branch.length && in_grid(x, y, width as int, height as int) && #[trigger] near(branch_x(*branch, k), branch_y(*branch, k), clearance as int, x, y)
                ==> final(occupied).occupied(x, y),
    decreases branch.length, 1int,
{
    let ghost before = *occupied;
    mark_branch_occupied(occupied, branch, clearance);
    let ghost marked = *occupied;
    let (end_x, end_y) = if branch.length >= 1 {
        assert(interior(branch.start_x + branch.dir_x * branch.length, branch.start_y + branch.dir_y * branch.length, width as int, height as int));
        (branch.start_x + branch.dir_x * branch.length, branch.start_y + branch.dir_y * branch.length)
    } else {
        (branch.start_x, branch.start_y)
    };
    grow_capillaries(occupied, end_x, end_y, branch.dir_x, branch.dir_y, branch.length, clearance, width, height);
    assert forall|k: int, x: int, y: int|
        1 <= k <= branch.length && in_grid(x, y, width as int, height as int) && #[trigger] near(branch_x(*branch, k), branch_y(*branch, k), clearance as int, x, y)
            implies occupied.occupied(x, y) by {
        assert(marked.occupied(x, y));
    }
}

/// From the end of a branch of `length` cells, two capillaries across it,
/// each two cells shorter, while that is at least four, wherever they fit.
fn grow_capillaries(
    occupied: &mut Occupancy,
    start_x: i32,
    start_y: i32,
    dir_x: i32,
    dir_y: i32,
    length: i32,
    clearance: i32,
    width: u32,
    height: u32,
)
    requires
        old(occupied).wf(),
        old(occupied).grid_width() == width,
        old(occupied).grid_height() == height,
        width <= MAX_DIM,
        height <= MAX_DIM,
        in_grid(start_x as int, start_y as int, width as int, height as int),
        unit_dir(dir_x as int, dir_y as int),
        0 <= length <= MAX_DIM,
        0 <= clearance <= 8,
    ensures
        grows(*old(occupied), *final(occupied)),
    decreases length, 0int,
{
    let next_length = if length > CAPILLARY_LENGTH_STEP { length - CAPILLARY_LENGTH_STEP } else { 0 };
    if next_length < CAPILLARY_LENGTH_MIN {
        return;
    }
    let abs_x = if dir_x < 0 { -dir_x } else { dir_x };
    let abs_y = if dir_y < 0 { -dir_y } else { dir_y };
    let forks: [(i32, i32); 2] = if abs_x >= abs_y { [(0, 1), (0, -1)] } else { [(1, 0), (-1, 0)] };
    let ghost before = *occupied;
    let mut i: usize = 0;
    while i < 2
        invariant
            grows(before, *occupied),
            before.grid_width() == width,
            before.grid_height() == height,
            width <= MAX_DIM,
            height <= MAX_DIM,
            in_grid(start_x as int, start_y as int, width as int, height as int),
            4 <= next_length < length <= MAX_DIM,
            0 <= clearance <= 8,
            forall|j: int| 0 <= j < 2 ==> unit_dir(#[trigger] forks@[j].0 as int, forks@[j].1 as int) && (forks@[j].0 != 0 || forks@[j].1 != 0),
        decreases 2 - i,
    {
        let (fx, fy) = forks[i];
        assert(unit_dir(forks@[i as int].0 as int, forks@[i as int].1 as int));
        let branch = BranchSpec { start_x, start_y, dir_x: fx, dir_y: fy, length: next_length };
        if branch_fits(&branch, occupied, width, height) {
            let ghost mid = *occupied;
            apply_branch(occupied, &branch, clearance, width, height);
            assert forall|x: int, y: int| in_grid(x, y, width as int, height as int) && before.occupied(x, y) implies #[trigger] occupied.occupied(x, y) by {
                assert(mid.occupied(x, y));
            }
        }
        i += 1;
    }
}

/// A random side branch off `trunk` on side `side`: from a random inner
/// point of the trunk that is off the outer ring, across the trunk's
/// direction there, 8 to 12 cells long as room allows; up to 24 tries.
fn pick_branch_start(trunk: &Vec<(i32, i32)>, side: i32, rng: &mut StdRng, width: u32, height: u32) -> (r: Option<BranchSpec>)
    requires
        width <= MAX_DIM,
        height <= MAX_DIM,
        points_inside(trunk@, width as int, height as int),
        side == 1 || side == -1,
    ensures
        r is Some ==> branch_ok(r->0, width as int, height as int),
{
    if trunk.len() < 3 {
        return None;
    }
    let upper = trunk.len() - 1;
    let mut attempt: usize = 0;
    while attempt < BRANCH_START_ATTEMPTS
        invariant
            width <= MAX_DIM,
            height <= MAX_DIM,
            points_inside(trunk@, width as int, height as int),
            side == 1 || side == -1,
            upper == trunk@.len() - 1,
            upper >= 2,
        decreases BRANCH_START_ATTEMPTS - attempt,
    {
        attempt += 1;
        let start_idx = draw_usize(rng, 1, upper);
        let (sx, sy) = trunk[start_idx];
        assert(in_grid(trunk@[start_idx as int].0 as int, trunk@[start_idx as int].1 as int, width as int, height as int));
        if is_edge(sx, sy, width, height) {
            continue;
        }
        let (tx, ty) = trunk[start_idx + 1];
        assert(in_grid(trunk@[start_idx + 1].0 as int, trunk@[start_idx + 1].1 as int, width as int, height as int));
        let dir_x = tx - sx;
        let dir_y = ty - sy;
        if dir_x == 0 && dir_y == 0 {
            continue;
        }
        let abs_x = if dir_x < 0 { -dir_x } else { dir_x };
        let abs_y = if dir_y < 0 { -dir_y } else { dir_y };
        let (branch_dx, branch_dy) = if abs_x >= abs_y { (0, side) } else { (side, 0) };
        let max_length = max_length_in_direction(sx, sy, branch_dx, branch_dy, width, height);
        if max_length < BRANCH_LENGTH_MIN {
            continue;
        }
        let top = if BRANCH_LENGTH_MAX < max_length { BRANCH_LENGTH_MAX } else { max_length };
        let length = draw_i32(rng, BRANCH_LENGTH_MIN, top + 1);
        let b = BranchSpec { start_x: sx, start_y: sy, dir_x: branch_dx, dir_y: branch_dy, length };
        assert(clear_run(sx as int, sy as int, branch_dx as int, branch_dy as int, width as int, height as int, length as int));
        return Some(b);
    }
    None
}

/// Two side branches per trunk, one on each side, that fit together on the
/// grid one after the other with their clearance; up to 12 tries.
fn select_branch_set(
    main_segment: &Vec<(i32, i32)>,
    left_segment: &Vec<(i32, i32)>,
    right_segment: &Vec<(i32, i32)>,
    occupied: &Occupancy,
    width: u32,
    height: u32,
    rng: &mut StdRng,
) -> (r: Option<Vec<BranchSpec>>)
    requires
        occupied.wf(),
        occupied.grid_width() == width,
        occupied.grid_height() == height,
        width <= MAX_DIM,
        height <= MAX_DIM,
        points_inside(main_segment@, width as int, height as int),
        points_inside(left_segment@, width as int, height as int),
        points_inside(right_segment@, width as int, height as int),
    ensures
        r is Some ==> r->0@.len() == 6 && forall|i: int| 0 <= i < 6 ==> branch_ok(#[trigger] r->0@[i], width as int, height as int),
{
    if width <= 2 || height <= 2 {
        return None;
    }
    let mut attempt: usize = 0;
    while attempt < BRANCH_SET_ATTEMPTS
        invariant
            occupied.wf(),
            occupied.grid_width() == width,
            occupied.grid_height() == height,
            width <= MAX_DIM,
            height <= MAX_DIM,
            points_inside(main_segment@, width as int, height as int),
            points_inside(left_segment@, width as int, height as int),
            points_inside(right_segment@, width as int, height as int),
        decreases BRANCH_SET_ATTEMPTS - attempt,
    {
        attempt += 1;
        let mut specs: Vec<BranchSpec> = Vec::new();
        let mut valid = true;
        let mut t: usize = 0;
        while t < 3 && valid
            invariant
                width <= MAX_DIM,
                height <= MAX_DIM,
                points_inside(main_segment@, width as int, height as int),
                points_inside(left_segment@, width as int, height as int),
                points_inside(right_segment@, width as int, height as int),
                t <= 3,
                valid ==> specs@.len() == 2 * t,
                forall|i: int| 0 <= i < specs@.len() ==> branch_ok(#[trigger] specs@[i], width as int, height as int),
            decreases 3 - t,
        {
            let trunk = if t == 0 { main_segment } else if t == 1 { left_segment } else { right_segment };
            let mut side_index: usize = 0;
            while side_index < 2 && valid
                invariant
                    width <= MAX_DIM,
                    height <= MAX_DIM,
                    points_inside(trunk@, width as int, height as int),
                    t < 3,
                    side_index <= 2,
                    valid ==> specs@.len() == 2 * t + side_index,
                    forall|i: int| 0 <= i < specs@.len() ==> branch_ok(#[trigger] specs@[i], width as int, height as int),
                decreases 2 - side_index,
            {
                let side: i32 = if side_index == 0 { -1 } else { 1 };
                match pick_branch_start(trunk, side, rng, width, height) {
                    Some(spec) => {
                        specs.push(spec);
                    },
                    None => {
                        valid = false;
                    },
                }
                side_index += 1;
            }
            t += 1;
        }
        if !valid {
            continue;
        }
        let mut temp_occupied = occupied.copy();
        let mut k: usize = 0;
        let mut fits = true;
        while k < specs.len() && fits
            invariant
                temp_occupied.wf(),
                temp_occupied.grid_width() == width,
                temp_occupied.grid_height() == height,
                width <= MAX_DIM,
                height <= MAX_DIM,
                forall|i: int| 0 <= i < specs@.len() ==> branch_ok(#[trigger] specs@[i], width as int, height as int),
                k <= specs@.len(),
            decreases specs@.len() - k + (if fits { 1int } else { 0int }),
        {
            assert(branch_ok(specs@[k as int], width as int, height as int));
            if branch_fits(&specs[k], &temp_occupied, width, height) {
                mark_branch_occupied(&mut temp_occupied, &specs[k], BRANCH_CLEARANCE);
                k += 1;
            } else {
                fits = false;
            }
        }
        if fits {
            return Some(specs);
        }
    }
    None
}

/// Reserves every cell of a walk.
fn add_segment(occupied: &mut Occupancy, segment: &Vec<(i32, i32)>)
    requires
        old(occupied).wf(),
    ensures
        grows(*old(occupied), *final(occupied)),
{
    let ghost before = *occupied;
    let mut i: usize = 0;
    while i < segment.len()
        invariant
            grows(before, *occupied),
            i <= segment@.len(),
        decreases segment@.len() - i,
    {
        let (x, y) = segment[i];
        let ghost mid = *occupied;
        occupied.occupy_cell(x, y);
        assert forall|x2: int, y2: int| in_grid(x2, y2, before.grid_width(), before.grid_height()) && before.occupied(x2, y2) implies #[trigger] occupied.occupied(x2, y2) by {
            assert(mid.occupied(x2, y2));
        }
        i += 1;
    }
}

/// Appends the straight runs of `points` to `segments`.
fn push_runs(segments: &mut Vec<PathSegment>, points: &Vec<(i32, i32)>, radius: i32, width: u32, height: u32)
    requires
        points_inside(points@, width as int, height as int),
        segments_inside(old(segments)@, width as int, height as int),
        radius == 0 || radius == 1,
        forall|i: int| 0 <= i < old(segments)@.len() ==> 0 <= (#[trigger] old(segments)@[i]).radius <= 1,
    ensures
        segments_inside(final(segments)@, width as int, height as int),
        forall|i: int| 0 <= i < final(segments)@.len() ==> 0 <= (#[trigger] final(segments)@[i]).radius <= 1,
        final(segments)@ == old(segments)@ + runs_from(points@, 0, radius),
{
    let mut runs = points_to_segments(points, radius);
    proof {
        lemma_runs_inside(points@, 0, radius, width as int, height as int);
        lemma_runs_radius(points@, 0, radius);
    }
    let ghost before = segments@;
    let ghost added = runs@;
    segments.append(&mut runs);
    assert forall|i: int| 0 <= i < segments@.len() implies #[trigger] segments@[i].ends_inside(width as int, height as int) && 0 <= segments@[i].radius <= 1 by {
        if i < before.len() {
            assert(segments@[i] == before[i]);
        } else {
            assert(segments@[i] == added[i - before.len()]);
        }
    }
}

/// A walk of the path map from `start` towards `end`: unit steps on the
/// grid, ending at `end` (when that is on the grid) unless the step cap of
/// four steps per cell stopped it.
pub open spec fn path_walk(pts: Seq<(i32, i32)>, start: (i32, i32), end: (i32, i32), width: int, height: int) -> bool {
    &&& pts.len() >= 1
    &&& pts[0] == start
    &&& unit_steps(pts)
    &&& points_inside(pts, width, height)
    &&& (in_grid(end.0 as int, end.1 as int, width, height) ==> pts.last() == end || pts.len() == 4 * width * height + 1)
}

/// The straight corridor segment of a side branch.
pub open spec fn branch_segment(b: BranchSpec) -> PathSegment {
    PathSegment {
        start_x: b.start_x,
        start_y: b.start_y,
        end_x: (b.start_x + b.dir_x * b.length) as i32,
        end_y: (b.start_y + b.dir_y * b.length) as i32,
        radius: BRANCH_RADIUS,
    }
}

/// `seg` is the segment of a side branch that can be drawn.
pub open spec fn is_branch_segment(seg: PathSegment, width: int, height: int) -> bool {
    exists|b: BranchSpec| branch_ok(b, width, height) && seg == #[trigger] branch_segment(b)
}

/// The four walks of a path map: the trunk from the top right corner to the
/// centre, then from where it ended to the middle of the bottom edge, to the
/// middle of the left edge, and to the dead end near the bottom left.
pub open spec fn path_walks(
    main: Seq<(i32, i32)>,
    right: Seq<(i32, i32)>,
    left: Seq<(i32, i32)>,
    dead: Seq<(i32, i32)>,
    width: int,
    height: int,
) -> bool {
    &&& path_walk(main, ((width - 1) as i32, 0i32), ((width / 2) as i32, (height / 2) as i32), width, height)
    &&& path_walk(right, main.last(), ((width / 2) as i32, (height - 1) as i32), width, height)
    &&& path_walk(left, main.last(), (0i32, (height / 2) as i32), width, height)
    &&& path_walk(dead, main.last(), (((width + 5) / 10) as i32, ((9 * height + 5) / 10) as i32), width, height)
}

/// `segs` is a path skeleton of a `width` x `height` grid: the runs of its
/// four walks, then side branches only.
pub open spec fn path_skeleton_of(segs: Seq<PathSegment>, width: int, height: int) -> bool {
    exists|main: Seq<(i32, i32)>, right: Seq<(i32, i32)>, left: Seq<(i32, i32)>, dead: Seq<(i32, i32)>|
        #[trigger] path_walks(main, right, left, dead, width, height) && {
            let corridors = runs_from(main, 0, PATH_RADIUS) + runs_from(right, 0, PATH_RADIUS) + runs_from(left, 0, PATH_RADIUS) + runs_from(
                dead,
                0,
                PATH_RADIUS,
            );
            &&& corridors.len() <= segs.len()
            &&& segs.subrange(0, corridors.len() as int) == corridors
            &&& forall|i: int|
                corridors.len() <= i < segs.len() ==> is_branch_segment(#[trigger] segs[i], width, height)
        }
}

/// Reserves each side branch with its capillaries and appends its segment.
fn push_branches(segments: &mut Vec<PathSegment>, occupied: &mut Occupancy, branches: &Vec<BranchSpec>, width: u32, height: u32)
    requires
        old(occupied).wf(),
        old(occupied).grid_width() == width,
        old(occupied).grid_height() == height,
        1 <= width <= MAX_DIM,
        1 <= height <= MAX_DIM,
        branches@.len() == 6,
        forall|i: int| 0 <= i < 6 ==> branch_ok(#[trigger] branches@[i], width as int, height as int),
        segments_inside(old(segments)@, width as int, height as int),
        forall|i: int| 0 <= i < old(segments)@.len() ==> 0 <= (#[trigger] old(segments)@[i]).radius <= 1,
    ensures
        segments_inside(final(segments)@, width as int, height as int),
        forall|i: int| 0 <= i < final(segments)@.len() ==> 0 <= (#[trigger] final(segments)@[i]).radius <= 1,
        old(segments)@.len() <= final(segments)@.len(),
        final(segments)@.subrange(0, old(segments)@.len() as int) == old(segments)@,
        forall|i: int|
            old(segments)@.len() <= i < final(segments)@.len() ==> is_branch_segment(#[trigger] final(segments)@[i], width as int, height as int),
{
    let ghost start = segments@;
    let mut k: usize = 0;
    while k < branches.len()
        invariant
            occupied.wf(),
            occupied.grid_width() == width,
            occupied.grid_height() == height,
            1 <= width <= MAX_DIM,
            1 <= height <= MAX_DIM,
            branches@.len() == 6,
            forall|i: int| 0 <= i < 6 ==> branch_ok(#[trigger] branches@[i], width as int, height as int),
            segments_inside(segments@, width as int, height as int),
            forall|i: int| 0 <= i < segments@.len() ==> 0 <= (#[trigger] segments@[i]).radius <= 1,
            start.len() <= segments@.len(),
            segments@.subrange(0, start.len() as int) == start,
            forall|i: int|
                start.len() <= i < segments@.len() ==> is_branch_segment(#[trigger] segments@[i], width as int, height as int),
        decreases branches@.len() - k,
    {
        let branch = branches[k];
        assert(branch_ok(branches@[k as int], width as int, height as int));
        apply_branch(occupied, &branch, BRANCH_CLEARANCE, width, height);
        assert(interior(branch.start_x + branch.dir_x * branch.length, branch.start_y + branch.dir_y * branch.length, width as int, height as int));
        let ghost before = segments@;
        let seg = PathSegment {
            start_x: branch.start_x,
            start_y: branch.start_y,
            end_x: branch.start_x + branch.dir_x * branch.length,
            end_y: branch.start_y + branch.dir_y * branch.length,
            radius: BRANCH_RADIUS,
        };
        segments.push(seg);
        assert forall|i: int| 0 <= i < segments@.len() implies #[trigger] segments@[i].ends_inside(width as int, height as int) && 0 <= segments@[i].radius <= 1 by {
            if i < before.len() {
                assert(segments@[i] == before[i]);
            }
        }
        assert(seg == branch_segment(branch));
        assert(segments@.subrange(0, start.len() as int) =~= before.subrange(0, start.len() as int));
        assert forall|i: int| start.len() <= i < segments@.len() implies is_branch_segment(#[trigger] segments@[i], width as int, height as int) by {
            if i < before.len() {
                assert(segments@[i] == before[i]);
            } else {
                assert(segments@[i] == branch_segment(branch));
            }
        }
        k += 1;
    }
}

/// The path skeleton of a `width` x `height` map: a trunk from the top right
/// corner to the centre, branches from where it ends to the bottom edge, the
/// left edge and a dead end near the bottom left, and, if a set of side
/// branches fits, those with their capillaries reserved.
pub fn generate_path_skeleton(width: u32, height: u32, rng: &mut StdRng) -> (r: PathSkeleton)
    requires
        width <= MAX_DIM,
        height <= MAX_DIM,
    ensures
        segments_inside(r.segments@, width as int, height as int),
        forall|i: int| 0 <= i < r.segments@.len() ==> 0 <= (#[trigger] r.segments@[i]).radius <= 1,
        width == 0 || height == 0 ==> r.segments@.len() == 0,
        width > 0 && height > 0 ==> path_skeleton_of(r.segments@, width as int, height as int),
{
    if width == 0 || height == 0 {
        return PathSkeleton { segments: Vec::new() };
    }
    let start_x = (width - 1) as i32;
    let start_y: i32 = 0;
    let end_left: i32 = 0;
    let end_right = (width / 2) as i32;
    let fork_x = (width / 2) as i32;
    let fork_y = (height / 2) as i32;
    let exit_y = (height / 2) as i32;
    // The nearest whole cell to a tenth of the width and to nine tenths of
    // the height, halves rounded up.
    let dead_end_x = ((width + 5) / 10) as i32;
    let dead_end_y = ((9 * height + 5) / 10) as i32;

    let mut occupied = Occupancy::new(width as i32, height as i32);
    let mut segments: Vec<PathSegment> = Vec::new();

    let main_segment = carve_path_segment_points(start_x, start_y, fork_x, fork_y, width, height, rng);
    let (fork_px, fork_py) = main_segment[main_segment.len() - 1];
    assert(in_grid(main_segment@[main_segment@.len() - 1].0 as int, main_segment@[main_segment@.len() - 1].1 as int, width as int, height as int));
    add_segment(&mut occupied, &main_segment);
    push_runs(&mut segments, &main_segment, PATH_RADIUS, width, height);

    let right_segment = carve_path_segment_points(fork_px, fork_py, end_right, (height - 1) as i32, width, height, rng);
    add_segment(&mut occupied, &right_segment);
    push_runs(&mut segments, &right_segment, PATH_RADIUS, width, height);

    let left_segment = carve_path_segment_points(fork_px, fork_py, end_left, exit_y, width, height, rng);
    add_segment(&mut occupied, &left_segment);
    push_runs(&mut segments, &left_segment, PATH_RADIUS, width, height);

    let dead_segment = carve_path_segment_points(fork_px, fork_py, dead_end_x, dead_end_y, width, height, rng);
    add_segment(&mut occupied, &dead_segment);
    push_runs(&mut segments, &dead_segment, PATH_RADIUS, width, height);
    let ghost corridors = segments@;
    proof {
        assert(segments@ =~= runs_from(main_segment@, 0, PATH_RADIUS) + runs_from(right_segment@, 0, PATH_RADIUS) + runs_from(
            left_segment@,
            0,
            PATH_RADIUS,
        ) + runs_from(dead_segment@, 0, PATH_RADIUS));
        assert(path_walks(main_segment@, right_segment@, left_segment@, dead_segment@, width as int, height as int));
    }

    if let Some(branches) = select_branch_set(&main_segment, &left_segment, &right_segment, &occupied, width, height, rng) {
        push_branches(&mut segments, &mut occupied, &branches, width, height);
    }
    proof {
        if segments@.len() == corridors.len() {
            assert(segments@.subrange(0, corridors.len() as int) =~= segments@);
        }
        assert(path_walks(main_segment@, right_segment@, left_segment@, dead_segment@, width as int, height as int));
        assert(corridors == runs_from(main_segment@, 0, PATH_RADIUS) + runs_from(right_segment@, 0, PATH_RADIUS) + runs_from(
            left_segment@,
            0,
            PATH_RADIUS,
        ) + runs_from(dead_segment@, 0, PATH_RADIUS));
        assert(corridors.len() <= segments@.len());
        assert(segments@.subrange(0, corridors.len() as int) == corridors);
        assert(path_skeleton_of(segments@, width as int, height as int));
    }
    PathSkeleton { segments }
}

/// A cell that showed `t` after the segments `segs` are stamped in order
/// as dirt squares of their radius round every stamp.
pub open spec fn dirt_tile(t: BaseTile, segs: Seq<PathSegment>, x: int, y: int) -> BaseTile
    decreases segs.len(),
{
    if segs.len() == 0 {
        t
    } else if near_stamp(segs.last(), segs.last().radius as int, seg_steps(segs.last()) + 1, x, y) {
        BaseTile::Dirt
    } else {
        dirt_tile(t, segs.drop_last(), x, y)
    }
}

/// Turns every grid cell within `r` of `(cx, cy)` in both axes to dirt.
fn dirt_square(width: u32, height: u32, cx: i32, cy: i32, r: i32, cells: &mut Vec<BaseTile>)
    requires
        width <= MAX_DIM,
        height <= MAX_DIM,
        is_grid(old(cells)@, width as int, height as int),
        -5 * MAX_DIM <= cx <= 5 * MAX_DIM,
        -5 * MAX_DIM <= cy <= 5 * MAX_DIM,
        0 <= r <= 8,
    ensures
        is_grid(final(cells)@, width as int, height as int),
        forall|x: int, y: int|
            in_grid(x, y, width as int, height as int) ==> #[trigger] tile(final(cells)@, width as int, x, y) == if near(cx as int, cy as int, r as int, x, y) {
                BaseTile::Dirt
            } else {
                tile(old(cells)@, width as int, x, y)
            },
{
    let ghost w = width as int;
    let ghost c0 = cells@;
    let mut ny = cy - r;
    while ny <= cy + r
        invariant
            width <= MAX_DIM,
            height <= MAX_DIM,
            w == width,
            is_grid(cells@, width as int, height as int),
            -5 * MAX_DIM <= cx <= 5 * MAX_DIM,
            -5 * MAX_DIM <= cy <= 5 * MAX_DIM,
            0 <= r <= 8,
            cy - r <= ny <= cy + r + 1,
            forall|x: int, y: int| in_grid(x, y, width as int, height as int) ==> #[trigger] tile(cells@, w, x, y) == if near(cx as int, cy as int, r as int, x, y) && y < ny {
                BaseTile::Dirt
            } else {
                tile(c0, w, x, y)
            },
        decreases cy + r + 1 - ny,
    {
        let mut nx = cx - r;
        while nx <= cx + r
            invariant
                width <= MAX_DIM,
                height <= MAX_DIM,
                w == width,
                is_grid(cells@, width as int, height as int),
                -5 * MAX_DIM <= cx <= 5 * MAX_DIM,
                -5 * MAX_DIM <= cy <= 5 * MAX_DIM,
                0 <= r <= 8,
                cy - r <= ny <= cy + r,
                cx - r <= nx <= cx + r + 1,
                forall|x: int, y: int| in_grid(x, y, width as int, height as int) ==> #[trigger] tile(cells@, w, x, y) == if near(cx as int, cy as int, r as int, x, y) && (y < ny || (y == ny && x < nx)) {
                    BaseTile::Dirt
                } else {
                    tile(c0, w, x, y)
                },
            decreases cx + r + 1 - nx,
        {
            let ghost prev = cells@;
            if nx >= 0 && ny >= 0 && (nx as u32) < width && (ny as u32) < height {
                proof {
                    lemma_cell_index(w, height as int, nx as int, ny as int);
                    lemma_grid_size(w, height as int);
                }
                let idx = ((ny as u32) * width + (nx as u32)) as usize;
                cells.set(idx, BaseTile::Dirt);
            }
            proof {
                assert forall|x: int, y: int| in_grid(x, y, width as int, height as int) implies #[trigger] tile(cells@, w, x, y) == if x == nx && y == ny {
                    BaseTile::Dirt
                } else {
                    tile(prev, w, x, y)
                } by {
                    lemma_cell_index(w, height as int, x, y);
                }
            }
            nx += 1;
        }
        ny += 1;
    }
}

/// Stamps a dirt square of the segment's radius round each of its stamps.
fn rasterize_dirt_segment(width: u32, height: u32, segment: &PathSegment, cells: &mut Vec<BaseTile>)
    requires
        width <= MAX_DIM,
        height <= MAX_DIM,
        is_grid(old(cells)@, width as int, height as int),
        crate::raster::seg_bounded(*segment),
        0 <= segment.radius <= 8,
    ensures
        is_grid(final(cells)@, width as int, height as int),
        forall|x: int, y: int|
            in_grid(x, y, width as int, height as int) ==> #[trigger] tile(final(cells)@, width as int, x, y) == if near_stamp(
                *segment,
                segment.radius as int,
                seg_steps(*segment) + 1,
                x,
                y,
            ) {
                BaseTile::Dirt
            } else {
                tile(old(cells)@, width as int, x, y)
            },
{
    let ghost w = width as int;
    let ghost c0 = cells@;
    let r = segment.radius;
    let dx: i32 = if segment.end_x > segment.start_x { 1 } else if segment.end_x < segment.start_x { -1 } else { 0 };
    let dy: i32 = if segment.end_y > segment.start_y { 1 } else if segment.end_y < segment.start_y { -1 } else { 0 };
    let ax: i32 = if segment.end_x >= segment.start_x { segment.end_x - segment.start_x } else { segment.start_x - segment.end_x };
    let ay: i32 = if segment.end_y >= segment.start_y { segment.end_y - segment.start_y } else { segment.start_y - segment.end_y };
    let steps = ax + ay;
    let mut step: i32 = 0;
    while step <= steps
        invariant
            width <= MAX_DIM,
            height <= MAX_DIM,
            w == width,
            is_grid(cells@, width as int, height as int),
            crate::raster::seg_bounded(*segment),
            r == segment.radius,
            0 <= r <= 8,
            steps == seg_steps(*segment),
            dx == crate::raster::seg_dx(*segment),
            dy == crate::raster::seg_dy(*segment),
            0 <= step <= steps + 1,
            forall|x: int, y: int| in_grid(x, y, width as int, height as int) ==> #[trigger] tile(cells@, w, x, y) == if near_stamp(*segment, r as int, step as int, x, y) {
                BaseTile::Dirt
            } else {
                tile(c0, w, x, y)
            },
        decreases steps + 1 - step,
    {
        let x = segment.start_x + dx * step;
        let y = segment.start_y + dy * step;
        dirt_square(width, height, x, y, r, cells);
        assert forall|x2: int, y2: int| in_grid(x2, y2, width as int, height as int) implies #[trigger] tile(cells@, w, x2, y2) == if near_stamp(*segment, r as int, step + 1, x2, y2) {
            BaseTile::Dirt
        } else {
            tile(c0, w, x2, y2)
        } by {
            assert(x == stamp_x(*segment, step as int) && y == stamp_y(*segment, step as int));
            if near(x as int, y as int, r as int, x2, y2) {
                assert(near_stamp(*segment, r as int, step + 1, x2, y2));
            } else if near_stamp(*segment, r as int, step as int, x2, y2) {
                let s = choose|s: int| 0 <= s < step && #[trigger] near(stamp_x(*segment, s), stamp_y(*segment, s), r as int, x2, y2);
                assert(near_stamp(*segment, r as int, step + 1, x2, y2));
            } else {
                assert(!near_stamp(*segment, r as int, step + 1, x2, y2)) by {
                    if near_stamp(*segment, r as int, step + 1, x2, y2) {
                        let s = choose|s: int| 0 <= s < step + 1 && #[trigger] near(stamp_x(*segment, s), stamp_y(*segment, s), r as int, x2, y2);
                        assert(near_stamp(*segment, r as int, step as int, x2, y2));
                    }
                }
            }
        }
        step += 1;
    }
}

/// The tiles of a path skeleton: grass, with a dirt square of each segment's
/// radius round every one of its stamps.
pub fn rasterize_skeleton(width: u32, height: u32, skeleton: &PathSkeleton) -> (r: Vec<BaseTile>)
    requires
        width <= MAX_DIM,
        height <= MAX_DIM,
        forall|i: int| 0 <= i < skeleton.segments@.len() ==> crate::raster::seg_bounded(#[trigger] skeleton.segments@[i]) && 0 <= skeleton.segments@[i].radius <= 8,
    ensures
        is_grid(r@, width as int, height as int),
        forall|x: int, y: int| in_grid(x, y, width as int, height as int) ==> #[trigger] tile(r@, width as int, x, y) == dirt_tile(
            BaseTile::Grass, skeleton.segments@, x, y),
{
    let ghost w = width as int;
    proof {
        lemma_grid_size(width as int, height as int);
    }
    let mut cells = vec![BaseTile::Grass; (width * height) as usize];
    assert forall|x: int, y: int| in_grid(x, y, width as int, height as int) implies #[trigger] tile(cells@, w, x, y) == BaseTile::Grass by {
        lemma_cell_index(w, height as int, x, y);
    }
    let mut k: usize = 0;
    while k < skeleton.segments.len()
        invariant
            width <= MAX_DIM,
            height <= MAX_DIM,
            w == width,
            is_grid(cells@, width as int, height as int),
            forall|i: int| 0 <= i < skeleton.segments@.len() ==> crate::raster::seg_bounded(#[trigger] skeleton.segments@[i]) && 0 <= skeleton.segments@[i].radius <= 8,
            k <= skeleton.segments@.len(),
            forall|x: int, y: int| in_grid(x, y, width as int, height as int) ==> #[trigger] tile(cells@, w, x, y) == dirt_tile(
                BaseTile::Grass, skeleton.segments@.subrange(0, k as int), x, y),
        decreases skeleton.segments@.len() - k,
    {
        assert(crate::raster::seg_bounded(skeleton.segments@[k as int]));
        rasterize_dirt_segment(width, height, &skeleton.segments[k], &mut cells);
        assert(skeleton.segments@.subrange(0, k + 1).drop_last() =~= skeleton.segments@.subrange(0, k as int));
        k += 1;
    }
    assert(skeleton.segments@.subrange(0, skeleton.segments@.len() as int) =~= skeleton.segments@);
    cells
}

/// Stamping dirt leaves only grass and dirt on a grass grid.
proof fn lemma_dirt_tile_kinds(segs: Seq<PathSegment>, x: int, y: int)
    ensures
        dirt_tile(BaseTile::Grass, segs, x, y) == BaseTile::Grass || dirt_tile(BaseTile::Grass, segs, x, y) == BaseTile::Dirt,
    decreases segs.len(),
{
    if segs.len() > 0 {
        lemma_dirt_tile_kinds(segs.drop_last(), x, y);
    }
}

/// A `width` x `height` path map: the tiles of a freshly generated path
/// skeleton, grass and dirt only.
pub fn generate_path_map(width: u32, height: u32, rng: &mut StdRng) -> (r: Vec<BaseTile>)
    requires
        width <= MAX_DIM,
        height <= MAX_DIM,
    ensures
        is_grid(r@, width as int, height as int),
        forall|x: int, y: int| in_grid(x, y, width as int, height as int) ==> #[trigger] tile(r@, width as int, x, y) == BaseTile::Grass
            || tile(r@, width as int, x, y) == BaseTile::Dirt,
        width > 0 && height > 0 ==> exists|segs: Seq<PathSegment>|
            #[trigger] path_skeleton_of(segs, width as int, height as int) && forall|x: int, y: int|
                in_grid(x, y, width as int, height as int) ==> #[trigger] tile(r@, width as int, x, y) == dirt_tile(BaseTile::Grass, segs, x, y),
{
    let skeleton = generate_path_skeleton(width, height, rng);
    assert forall|i: int| 0 <= i < skeleton.segments@.len() implies crate::raster::seg_bounded(#[trigger] skeleton.segments@[i]) && 0 <= skeleton.segments@[i].radius <= 8 by {
        assert(skeleton.segments@[i].ends_inside(width as int, height as int));
    }
    let r = rasterize_skeleton(width, height, &skeleton);
    assert forall|x: int, y: int| in_grid(x, y, width as int, height as int) implies #[trigger] tile(r@, width as int, x, y) == BaseTile::Grass
        || tile(r@, width as int, x, y) == BaseTile::Dirt by {
        lemma_dirt_tile_kinds(skeleton.segments@, x, y);
    }
    r
}

} // verus!
