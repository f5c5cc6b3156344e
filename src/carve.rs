//! Biased random walks from one cell towards another that go round
//! obstacles: reserved cells of an occupancy grid, or other areas.

use crate::layout::{in_grid, points_inside, MapArea, MAX_DIM};
use crate::occupancy::Occupancy;
use crate::random::draw_ratio;
use rand::rngs::StdRng;
use vstd::prelude::*;

verus! {

pub open spec fn sign(v: int) -> int {
    if v > 0 {
        1
    } else if v < 0 {
        -1
    } else {
        0
    }
}

/// One step of a walk: to one of the four cells sharing an edge, so along
/// one axis at a time.
pub open spec fn adjacent(a: (i32, i32), b: (i32, i32)) -> bool {
    ||| b.0 == a.0 && (b.1 - a.1 == 1 || b.1 - a.1 == -1)
    ||| b.1 == a.1 && (b.0 - a.0 == 1 || b.0 - a.0 == -1)
}

/// A move along at most one axis.
pub open spec fn axis_move(m: (i32, i32)) -> bool {
    m.0 == 0 || m.1 == 0
}

/// Each point of `pts` is a neighbour of the one before.
pub open spec fn is_walk(pts: Seq<(i32, i32)>) -> bool {
    forall|i: int| 0 <= i < pts.len() - 1 ==> adjacent(#[trigger] pts[i], pts[i + 1])
}

pub open spec fn unit(v: i32) -> bool {
    -1 <= v <= 1
}

/// The moves the path carver tries, in order, before the random swap: towards
/// the target along each axis, then the bias direction if there is one, then
/// a sideways wiggle on each axis that is already aligned with the target.
pub open spec fn carver_moves(dx: i32, dy: i32, bias: (i32, i32), wiggle_x: i32, wiggle_y: i32) -> Seq<(i32, i32)> {
    seq![(dx, 0i32), (0i32, dy)] + (if bias != (0i32, 0i32) { seq![bias] } else { Seq::empty() }) + (if dx
        == 0 {
        seq![(wiggle_x, 0i32)]
    } else {
        Seq::empty()
    }) + (if dy == 0 { seq![(0i32, wiggle_y)] } else { Seq::empty() })
}

/// `moves` with its first and last entries exchanged.
pub open spec fn swap_ends(moves: Seq<(i32, i32)>) -> Seq<(i32, i32)> {
    moves.update(0, moves[moves.len() - 1]).update(moves.len() - 1, moves[0])
}

/// Entry `k` is the first of `moves` that `ok` accepts.
pub open spec fn is_first_fit(moves: Seq<(i32, i32)>, ok: spec_fn((i32, i32)) -> bool, k: int) -> bool {
    &&& 0 <= k < moves.len()
    &&& ok(moves[k])
    &&& forall|j: int| 0 <= j < k ==> !ok(#[trigger] moves[j])
}

pub open spec fn none_fits(moves: Seq<(i32, i32)>, ok: spec_fn((i32, i32)) -> bool) -> bool {
    forall|j: int| 0 <= j < moves.len() ==> !ok(#[trigger] moves[j])
}

/// A move from `(x, y)` onto a free cell of the grid.
pub(crate) open spec fn grid_open(grid: Occupancy, x: int, y: int, m: (i32, i32)) -> bool {
    &&& m != (0i32, 0i32)
    &&& in_grid(x + m.0, y + m.1, grid.grid_width(), grid.grid_height())
    &&& !grid.occupied(x + m.0, y + m.1)
}

pub(crate) open spec fn grid_ok(grid: Occupancy, x: int, y: int) -> spec_fn((i32, i32)) -> bool {
    |m: (i32, i32)| grid_open(grid, x, y, m)
}

/// Cell `(x, y)` lies in an area other than the one numbered `allowed`.
pub open spec fn blocked(areas: Seq<MapArea>, allowed: int, x: int, y: int) -> bool {
    exists|i: int| 0 <= i < areas.len() && i != allowed && #[trigger] areas[i].covers(x, y)
}

/// A move from `(x, y)` onto a cell of the grid outside every other area.
pub open spec fn area_open(areas: Seq<MapArea>, allowed: int, width: int, height: int, x: int, y: int, m: (i32, i32)) -> bool {
    &&& m != (0i32, 0i32)
    &&& in_grid(x + m.0, y + m.1, width, height)
    &&& !blocked(areas, allowed, x + m.0, y + m.1)
}

pub open spec fn area_ok(areas: Seq<MapArea>, allowed: int, width: int, height: int, x: int, y: int) -> spec_fn((i32, i32)) -> bool {
    |m: (i32, i32)| area_open(areas, allowed, width, height, x, y, m)
}

/// The sideways steps a stuck walk tries: across its last direction.
pub open spec fn detour_moves(last: (i32, i32)) -> Seq<(i32, i32)> {
    if last.0 != 0 {
        seq![(0i32, 1i32), (0i32, -1i32)]
    } else {
        seq![(1i32, 0i32), (-1i32, 0i32)]
    }
}

/// The detour a stuck walk takes: none before its first step, else the
/// first sideways step that `ok` accepts, if any.
pub open spec fn detour_choice(ok: spec_fn((i32, i32)) -> bool, last: (i32, i32)) -> Option<(i32, i32)> {
    if last == (0i32, 0i32) {
        None
    } else if ok(detour_moves(last)[0]) {
        Some(detour_moves(last)[0])
    } else if ok(detour_moves(last)[1]) {
        Some(detour_moves(last)[1])
    } else {
        None
    }
}

/// The walk properties every carved point list has: it starts at `start`,
/// moves one neighbouring cell at a time, stays on the grid and stops as soon
/// as it reaches `end`.
pub open spec fn walk_from(pts: Seq<(i32, i32)>, start: (i32, i32), end: (i32, i32), width: int, height: int) -> bool {
    &&& pts.len() >= 1
    &&& pts[0] == start
    &&& is_walk(pts)
    &&& points_inside(pts, width, height)
    &&& forall|i: int| 0 <= i < pts.len() - 1 ==> #[trigger] pts[i] != end
}

/// The step from `a` to `b`.
pub open spec fn step_between(a: (i32, i32), b: (i32, i32)) -> (i32, i32) {
    ((b.0 - a.0) as i32, (b.1 - a.1) as i32)
}

/// The step that led to point `i` of `pts`; none for the first point.
pub open spec fn step_into(pts: Seq<(i32, i32)>, i: int) -> (i32, i32) {
    if i == 0 {
        (0i32, 0i32)
    } else {
        step_between(pts[i - 1], pts[i])
    }
}

/// The candidate moves for one set of draws: the sideways wiggles (each
/// `1` or `-1`) and whether the first and last candidates were exchanged.
pub open spec fn drawn_moves(dx: i32, dy: i32, bias: (i32, i32), wiggle_x: i32, wiggle_y: i32, swap: bool) -> Seq<(i32, i32)> {
    if swap {
        swap_ends(carver_moves(dx, dy, bias, wiggle_x, wiggle_y))
    } else {
        carver_moves(dx, dy, bias, wiggle_x, wiggle_y)
    }
}

/// The step a set of draws leads to: the first free candidate move, or,
/// when no candidate is free, the detour.
pub open spec fn step_for_moves(moves: Seq<(i32, i32)>, ok: spec_fn((i32, i32)) -> bool, last: (i32, i32), step: (i32, i32)) -> bool {
    ||| exists|k: int| is_first_fit(moves, ok, k) && moves[k] == step
    ||| none_fits(moves, ok) && detour_choice(ok, last) == Some(step)
}

/// A set of draws leaves the walk stuck: no candidate move is free and
/// there is no detour.
pub open spec fn stuck_for_moves(moves: Seq<(i32, i32)>, ok: spec_fn((i32, i32)) -> bool, last: (i32, i32)) -> bool {
    none_fits(moves, ok) && detour_choice(ok, last) is None
}

/// The path carver can be stuck at `here` after a step of `last`: for some
/// outcome of its draws no candidate move is free and there is no detour.
pub(crate) open spec fn carver_stuck(grid: Occupancy, here: (i32, i32), last: (i32, i32), end: (i32, i32), bias: (i32, i32)) -> bool {
    exists|wiggle_x: i32, wiggle_y: i32, swap: bool|
        (wiggle_x == 1 || wiggle_x == -1) && (wiggle_y == 1 || wiggle_y == -1) && #[trigger] stuck_for_moves(
            drawn_moves(sign(end.0 - here.0) as i32, sign(end.1 - here.1) as i32, bias, wiggle_x, wiggle_y, swap),
            grid_ok(grid, here.0 as int, here.1 as int),
            last,
        )
}

/// A step the path carver can take from `here` towards `end` after a step
/// of `last`: the one some outcome of its draws leads to.
pub(crate) open spec fn carver_step(grid: Occupancy, here: (i32, i32), next: (i32, i32), last: (i32, i32), end: (i32, i32), bias: (i32, i32)) -> bool {
    exists|wiggle_x: i32, wiggle_y: i32, swap: bool|
        (wiggle_x == 1 || wiggle_x == -1) && (wiggle_y == 1 || wiggle_y == -1) && #[trigger] step_for_moves(
            drawn_moves(sign(end.0 - here.0) as i32, sign(end.1 - here.1) as i32, bias, wiggle_x, wiggle_y, swap),
            grid_ok(grid, here.0 as int, here.1 as int),
            last,
            step_between(here, next),
        )
}

pub(crate) open spec fn carver_steps(grid: Occupancy, pts: Seq<(i32, i32)>, end: (i32, i32), bias: (i32, i32)) -> bool {
    forall|i: int| 0 <= i < pts.len() - 1 ==> carver_step(grid, #[trigger] pts[i], pts[i + 1], step_into(pts, i), end, bias)
}

proof fn lemma_carver_steps_push(grid: Occupancy, pts: Seq<(i32, i32)>, p: (i32, i32), end: (i32, i32), bias: (i32, i32))
    requires
        pts.len() >= 1,
        carver_steps(grid, pts, end, bias),
        carver_step(grid, pts.last(), p, step_into(pts, pts.len() - 1), end, bias),
    ensures
        carver_steps(grid, pts.push(p), end, bias),
{
    let q = pts.push(p);
    let n = pts.len();
    assert forall|i: int| 0 <= i < q.len() - 1 implies carver_step(grid, #[trigger] q[i], q[i + 1], step_into(q, i), end, bias) by {
        if i < n - 1 {
            assert(q[i] == pts[i] && q[i + 1] == pts[i + 1]);
            if i > 0 {
                assert(q[i - 1] == pts[i - 1]);
            }
            assert(step_into(q, i) == step_into(pts, i));
        } else {
            assert(q[i] == pts.last() && q[i + 1] == p);
            if i > 0 {
                assert(q[i - 1] == pts[i - 1]);
            }
            assert(step_into(q, i) == step_into(pts, n - 1));
        }
    }
}

/// One unit towards `to` from `from`.
pub(crate) fn step_toward(from: i32, to: i32) -> (r: i32)
    ensures
        r == sign(to - from),
{
    if to > from {
        1
    } else if to < from {
        -1
    } else {
        0
    }
}

/// The moves the path carver tries from a cell, before the random swap.
pub fn candidate_moves(dx: i32, dy: i32, bias_dir: (i32, i32), wiggle_x: i32, wiggle_y: i32) -> (r: Vec<(i32, i32)>)
    ensures
        r@ == carver_moves(dx, dy, bias_dir, wiggle_x, wiggle_y),
{
    let mut moves: Vec<(i32, i32)> = Vec::new();
    moves.push((dx, 0));
    moves.push((0, dy));
    if bias_dir.0 != 0 || bias_dir.1 != 0 {
        moves.push(bias_dir);
    }
    if dx == 0 {
        moves.push((wiggle_x, 0));
    }
    if dy == 0 {
        moves.push((0, wiggle_y));
    }
    assert(moves@ =~= carver_moves(dx, dy, bias_dir, wiggle_x, wiggle_y));
    moves
}

/// Exchanges the first and last of at least two moves.
fn swap_first_last(moves: &mut Vec<(i32, i32)>)
    requires
        old(moves)@.len() >= 2,
    ensures
        final(moves)@ == swap_ends(old(moves)@),
{
    let last = moves.len() - 1;
    let first = moves[0];
    let tail = moves[last];
    moves.set(0, tail);
    moves.set(last, first);
}

/// The index of the first move from `(x, y)` onto a free cell of the grid.
pub(crate) fn first_open_move(grid: &Occupancy, x: i32, y: i32, moves: &Vec<(i32, i32)>) -> (r: Option<usize>)
    requires
        grid.wf(),
        in_grid(x as int, y as int, grid.grid_width(), grid.grid_height()),
        forall|j: int| 0 <= j < moves@.len() ==> unit(#[trigger] moves@[j].0) && unit(moves@[j].1),
    ensures
        match r {
            Some(k) => is_first_fit(moves@, grid_ok(*grid, x as int, y as int), k as int),
            None => none_fits(moves@, grid_ok(*grid, x as int, y as int)),
        },
{
    let ghost ok = grid_ok(*grid, x as int, y as int);
    let mut k: usize = 0;
    while k < moves.len()
        invariant
            grid.wf(),
            in_grid(x as int, y as int, grid.grid_width(), grid.grid_height()),
            forall|j: int| 0 <= j < moves@.len() ==> unit(#[trigger] moves@[j].0) && unit(moves@[j].1),
            ok == grid_ok(*grid, x as int, y as int),
            k <= moves@.len(),
            forall|j: int| 0 <= j < k ==> !ok(#[trigger] moves@[j]),
        decreases moves@.len() - k,
    {
        let (mx, my) = moves[k];
        assert(unit(moves@[k as int].0) && unit(moves@[k as int].1));
        if mx != 0 || my != 0 {
            let nx = x + mx;
            let ny = y + my;
            if nx >= 0 && ny >= 0 && nx < grid.width && ny < grid.height {
                if !grid.is_occupied(nx, ny) {
                    return Some(k);
                }
            }
        }
        k += 1;
    }
    None
}

/// Takes the first free sideways step across the last direction, records it
/// and returns true; returns false, changing nothing, when there is none or
/// the walk has not moved yet.
pub(crate) fn try_detour(
    x: &mut i32,
    y: &mut i32,
    last_dir: &mut (i32, i32),
    grid: &Occupancy,
    segment: &mut Vec<(i32, i32)>,
) -> (r: bool)
    requires
        grid.wf(),
        in_grid(*old(x) as int, *old(y) as int, grid.grid_width(), grid.grid_height()),
    ensures
        match detour_choice(grid_ok(*grid, *old(x) as int, *old(y) as int), *old(last_dir)) {
            Some(m) => {
                &&& r
                &&& *final(x) == *old(x) + m.0
                &&& *final(y) == *old(y) + m.1
                &&& *final(last_dir) == m
                &&& final(segment)@ == old(segment)@.push((*final(x), *final(y)))
            },
            None => {
                &&& !r
                &&& *final(x) == *old(x)
                &&& *final(y) == *old(y)
                &&& *final(last_dir) == *old(last_dir)
                &&& final(segment)@ == old(segment)@
            },
        },
{
    let (dx, dy) = *last_dir;
    if dx == 0 && dy == 0 {
        return false;
    }
    let detours: [(i32, i32); 2] = if dx != 0 {
        [(0, 1), (0, -1)]
    } else {
        [(1, 0), (-1, 0)]
    };
    let mut i: usize = 0;
    while i < 2
        invariant
            grid.wf(),
            in_grid(*x as int, *y as int, grid.grid_width(), grid.grid_height()),
            *x == *old(x),
            *y == *old(y),
            *last_dir == *old(last_dir),
            *segment == *old(segment),
            *old(last_dir) != (0i32, 0i32),
            detours@ == detour_moves(*old(last_dir)),
            i <= 2,
            forall|j: int| 0 <= j < i ==> !grid_open(*grid, *x as int, *y as int, #[trigger] detours@[j]),
        decreases 2 - i,
    {
        let (mx, my) = detours[i];
        let nx = *x + mx;
        let ny = *y + my;
        if nx >= 0 && ny >= 0 && nx < grid.width && ny < grid.height {
            if !grid.is_occupied(nx, ny) {
                *x = nx;
                *y = ny;
                *last_dir = (mx, my);
                segment.push((nx, ny));
                return true;
            }
        }
        i += 1;
    }
    false
}

/// Moves from `(x, y)` by the first free move of `moves`, or else by the
/// detour, and records the new cell; returns false, changing nothing, when
/// neither is possible.
fn select_step(
    x: &mut i32,
    y: &mut i32,
    last_dir: &mut (i32, i32),
    area_occupied: &Occupancy,
    moves: &Vec<(i32, i32)>,
    segment: &mut Vec<(i32, i32)>,
) -> (moved: bool)
    requires
        area_occupied.wf(),
        in_grid(*old(x) as int, *old(y) as int, area_occupied.grid_width(), area_occupied.grid_height()),
        forall|j: int| 0 <= j < moves@.len() ==> unit(#[trigger] moves@[j].0) && unit(moves@[j].1) && axis_move(moves@[j]),
    ensures
        !moved ==> stuck_for_moves(moves@, grid_ok(*area_occupied, *old(x) as int, *old(y) as int), *old(last_dir)),
        moved ==> {
            &&& final(segment)@ == old(segment)@.push((*final(x), *final(y)))
            &&& in_grid(*final(x) as int, *final(y) as int, area_occupied.grid_width(), area_occupied.grid_height())
            &&& !area_occupied.occupied(*final(x) as int, *final(y) as int)
            &&& adjacent((*old(x), *old(y)), (*final(x), *final(y)))
            &&& step_for_moves(
                moves@,
                grid_ok(*area_occupied, *old(x) as int, *old(y) as int),
                *old(last_dir),
                step_between((*old(x), *old(y)), (*final(x), *final(y))),
            )
            &&& *final(last_dir) == step_between((*old(x), *old(y)), (*final(x), *final(y)))
        },
        !moved ==> final(segment)@ == old(segment)@ && *final(x) == *old(x) && *final(y) == *old(y) && *final(last_dir) == *old(last_dir),
{
    let ghost here = (*x, *y);
    let ghost old_last = *last_dir;
    let ghost ok = grid_ok(*area_occupied, here.0 as int, here.1 as int);
    match first_open_move(area_occupied, *x, *y, moves) {
        Some(k) => {
            let (mx, my) = moves[k];
            assert(ok(moves@[k as int]));
            assert(axis_move(moves@[k as int]) && unit(mx) && unit(my));
            *x = *x + mx;
            *y = *y + my;
            *last_dir = (mx, my);
            segment.push((*x, *y));
            assert(step_between(here, (*x, *y)) == moves@[k as int]);
            true
        },
        None => {
            if !try_detour(x, y, last_dir, area_occupied, segment) {
                return false;
            }
            assert(step_between(here, (*x, *y)) == *last_dir);
            true
        },
    }
}

/// One step of the path carver from `(x, y)`: draws the wiggles and the
/// swap, then takes the step `select_step` picks.
fn take_step(
    x: &mut i32,
    y: &mut i32,
    last_dir: &mut (i32, i32),
    end_x: i32,
    end_y: i32,
    rng: &mut StdRng,
    area_occupied: &Occupancy,
    bias_dir: (i32, i32),
    segment: &mut Vec<(i32, i32)>,
) -> (moved: bool)
    requires
        area_occupied.wf(),
        in_grid(*old(x) as int, *old(y) as int, area_occupied.grid_width(), area_occupied.grid_height()),
        unit(bias_dir.0),
        unit(bias_dir.1),
        axis_move(bias_dir),
    ensures
        !moved ==> carver_stuck(*area_occupied, (*old(x), *old(y)), *old(last_dir), (end_x, end_y), bias_dir),
        moved ==> {
            &&& final(segment)@ == old(segment)@.push((*final(x), *final(y)))
            &&& in_grid(*final(x) as int, *final(y) as int, area_occupied.grid_width(), area_occupied.grid_height())
            &&& !area_occupied.occupied(*final(x) as int, *final(y) as int)
            &&& adjacent((*old(x), *old(y)), (*final(x), *final(y)))
            &&& carver_step(*area_occupied, (*old(x), *old(y)), (*final(x), *final(y)), *old(last_dir), (end_x, end_y), bias_dir)
            &&& *final(last_dir) == step_between((*old(x), *old(y)), (*final(x), *final(y)))
        },
        !moved ==> final(segment)@ == old(segment)@ && *final(x) == *old(x) && *final(y) == *old(y) && *final(last_dir) == *old(last_dir),
{
    let ghost here = (*x, *y);
    let ghost old_last = *last_dir;
    let dx = step_toward(*x, end_x);
    let dy = step_toward(*y, end_y);
    let wiggle_x: i32 = if dx == 0 {
        if draw_ratio(rng, 1, 2) { 1 } else { -1 }
    } else {
        1
    };
    let wiggle_y: i32 = if dy == 0 {
        if draw_ratio(rng, 1, 2) { 1 } else { -1 }
    } else {
        1
    };
    let mut moves = candidate_moves(dx, dy, bias_dir, wiggle_x, wiggle_y);
    let swap = moves.len() > 1 && draw_ratio(rng, 45, 100);
    if swap {
        swap_first_last(&mut moves);
    }
    assert(moves@ == drawn_moves(dx, dy, bias_dir, wiggle_x, wiggle_y, swap));
    assert forall|j: int| 0 <= j < moves@.len() implies unit(#[trigger] moves@[j].0) && unit(moves@[j].1) && axis_move(moves@[j]) by {}
    let moved = select_step(x, y, last_dir, area_occupied, &moves, segment);
    proof {
        let end = (end_x, end_y);
        assert(sign(end.0 - here.0) as i32 == dx && sign(end.1 - here.1) as i32 == dy);
        if !moved {
            assert(stuck_for_moves(
                drawn_moves(sign(end.0 - here.0) as i32, sign(end.1 - here.1) as i32, bias_dir, wiggle_x, wiggle_y, swap),
                grid_ok(*area_occupied, here.0 as int, here.1 as int),
                old_last,
            ));
            assert(carver_stuck(*area_occupied, here, old_last, end, bias_dir));
        }
        if moved {
            assert(sign(end_x - here.0) as i32 == dx && sign(end_y - here.1) as i32 == dy);
            let step = step_between(here, (*x, *y));
            let end = (end_x, end_y);
            assert(sign(end.0 - here.0) as i32 == dx && sign(end.1 - here.1) as i32 == dy);
            assert(step_for_moves(
                drawn_moves(sign(end.0 - here.0) as i32, sign(end.1 - here.1) as i32, bias_dir, wiggle_x, wiggle_y, swap),
                grid_ok(*area_occupied, here.0 as int, here.1 as int),
                old_last,
                step,
            ));
            assert(carver_step(*area_occupied, here, (*x, *y), old_last, end, bias_dir));
        }
    }
    moved
}

/// A walk from `start` towards `end` that never enters a reserved cell after
/// its first: at each step it takes the first free candidate move, else a
/// sideways detour, and stops at `end`, when stuck, or after four steps per
/// grid cell. `bias_dir` adds a preferred direction to the candidates.
pub(crate) fn carve_path_segment_points_avoiding(
    start_x: i32,
    start_y: i32,
    end_x: i32,
    end_y: i32,
    rng: &mut StdRng,
    area_occupied: &Occupancy,
    bias_dir: (i32, i32),
) -> (r: Vec<(i32, i32)>)
    requires
        area_occupied.wf(),
        in_grid(start_x as int, start_y as int, area_occupied.grid_width(), area_occupied.grid_height()),
        unit(bias_dir.0),
        unit(bias_dir.1),
        axis_move(bias_dir),
    ensures
        walk_from(r@, (start_x, start_y), (end_x, end_y), area_occupied.grid_width(), area_occupied.grid_height()),
        forall|i: int| 1 <= i < r@.len() ==> !area_occupied.occupied(#[trigger] r@[i].0 as int, r@[i].1 as int),
        r@.len() <= 4 * area_occupied.grid_width() * area_occupied.grid_height() + 1,
        carver_steps(*area_occupied, r@, (end_x, end_y), bias_dir),
        r@.last() == (end_x, end_y) || r@.len() == 4 * area_occupied.grid_width() * area_occupied.grid_height() + 1
            || carver_stuck(*area_occupied, r@.last(), step_into(r@, r@.len() - 1), (end_x, end_y), bias_dir),
{
    let width = area_occupied.width;
    let height = area_occupied.height;
    let ghost w = width as int;
    let ghost h = height as int;
    let mut segment: Vec<(i32, i32)> = Vec::new();
    let mut x = start_x;
    let mut y = start_y;
    let mut last_dir: (i32, i32) = (0, 0);
    proof {
        crate::occupancy::lemma_grid_size(w, h);
    }
    assert(width * height * 4 == 4 * w * h) by (nonlinear_arith)
        requires
            w == width,
            h == height,
    ;
    let max_steps: usize = (width * height * 4) as usize;
    let mut steps: usize = 0;
    let mut stuck = false;
    segment.push((x, y));
    while (x != end_x || y != end_y) && steps < max_steps && !stuck
        invariant
            area_occupied.wf(),
            width == area_occupied.grid_width(),
            height == area_occupied.grid_height(),
            w == width,
            h == height,
            unit(bias_dir.0),
            unit(bias_dir.1),
            axis_move(bias_dir),
            max_steps == 4 * w * h,
            steps <= max_steps,
            segment@.len() == steps + 1 || stuck,
            segment@.len() <= steps + 1,
            stuck ==> carver_stuck(*area_occupied, segment@.last(), step_into(segment@, segment@.len() - 1), (end_x, end_y), bias_dir),
            segment@.len() >= 1,
            segment@[0] == (start_x, start_y),
            segment@.last() == (x, y),
            in_grid(x as int, y as int, w, h),
            is_walk(segment@),
            points_inside(segment@, w, h),
            forall|i: int| 0 <= i < segment@.len() - 1 ==> #[trigger] segment@[i] != (end_x, end_y),
            forall|i: int| 1 <= i < segment@.len() ==> !area_occupied.occupied(#[trigger] segment@[i].0 as int, segment@[i].1 as int),
            last_dir == step_into(segment@, segment@.len() - 1),
            carver_steps(*area_occupied, segment@, (end_x, end_y), bias_dir),
        decreases max_steps - steps,
    {
        steps += 1;
        let ghost before = segment@;
        let ghost here = (x, y);
        if !take_step(&mut x, &mut y, &mut last_dir, end_x, end_y, rng, area_occupied, bias_dir, &mut segment) {
            stuck = true;
        } else {
        proof {
            let n = segment@.len();
            assert(segment@[n - 2] == here);
            assert forall|i: int| 0 <= i < segment@.len() - 1 implies adjacent(#[trigger] segment@[i], segment@[i + 1]) by {
                if i < n - 2 {
                    assert(segment@[i] == before[i] && segment@[i + 1] == before[i + 1]);
                }
            }
            assert(step_into(before, before.len() - 1) == step_into(segment@, n - 2)) by {
                if n - 2 > 0 {
                    assert(segment@[n - 3] == before[n - 3]);
                }
            }
            assert(step_into(segment@, n - 1) == last_dir);
            lemma_carver_steps_push(*area_occupied, before, (x, y), (end_x, end_y), bias_dir);
        }
        }
    }
    segment
}

/// Whether cell `(x, y)` lies in an area other than the one numbered
/// `allowed_area`.
pub(crate) fn is_blocked(x: i32, y: i32, areas: &Vec<MapArea>, allowed_area: usize) -> (r: bool)
    requires
        -1 <= x <= MAX_DIM,
        -1 <= y <= MAX_DIM,
        forall|i: int| 0 <= i < areas@.len() ==> #[trigger] areas@[i].inside(MAX_DIM as int, MAX_DIM as int),
    ensures
        r == blocked(areas@, allowed_area as int, x as int, y as int),
{
    let mut idx: usize = 0;
    while idx < areas.len()
        invariant
            -1 <= x <= MAX_DIM,
            -1 <= y <= MAX_DIM,
            forall|i: int| 0 <= i < areas@.len() ==> #[trigger] areas@[i].inside(MAX_DIM as int, MAX_DIM as int),
            idx <= areas@.len(),
            forall|i: int| 0 <= i < idx && i != allowed_area ==> !(#[trigger] areas@[i]).covers(x as int, y as int),
        decreases areas@.len() - idx,
    {
        if idx != allowed_area {
            let area = areas[idx];
            assert(areas@[idx as int].inside(MAX_DIM as int, MAX_DIM as int));
            let dx = x - area.center_x;
            let dy = y - area.center_y;
            assert(0 <= dx * dx <= 0x1000_8001 && 0 <= dy * dy <= 0x1000_8001 && 0 <= area.radius * area.radius <= 0x1000_0000)
                by (nonlinear_arith)
                requires
                    -MAX_DIM - 1 <= dx <= MAX_DIM + 1,
                    -MAX_DIM - 1 <= dy <= MAX_DIM + 1,
                    1 <= area.radius <= MAX_DIM,
            ;
            if dx * dx + dy * dy <= area.radius * area.radius {
                assert(areas@[idx as int].covers(x as int, y as int));
                return true;
            }
        }
        idx += 1;
    }
    false
}

/// The index of the first move from `(x, y)` onto a grid cell outside every
/// area but `allowed_area`.
pub(crate) fn first_unblocked_move(
    x: i32,
    y: i32,
    width: i32,
    height: i32,
    areas: &Vec<MapArea>,
    allowed_area: usize,
    moves: &Vec<(i32, i32)>,
) -> (r: Option<usize>)
    requires
        0 <= width <= MAX_DIM,
        0 <= height <= MAX_DIM,
        in_grid(x as int, y as int, width as int, height as int),
        forall|i: int| 0 <= i < areas@.len() ==> #[trigger] areas@[i].inside(MAX_DIM as int, MAX_DIM as int),
        forall|j: int| 0 <= j < moves@.len() ==> unit(#[trigger] moves@[j].0) && unit(moves@[j].1),
    ensures
        match r {
            Some(k) => is_first_fit(moves@, area_ok(areas@, allowed_area as int, width as int, height as int, x as int, y as int), k as int),
            None => none_fits(moves@, area_ok(areas@, allowed_area as int, width as int, height as int, x as int, y as int)),
        },
{
    let ghost ok = area_ok(areas@, allowed_area as int, width as int, height as int, x as int, y as int);
    let mut k: usize = 0;
    while k < moves.len()
        invariant
            0 <= width <= MAX_DIM,
            0 <= height <= MAX_DIM,
            in_grid(x as int, y as int, width as int, height as int),
            forall|i: int| 0 <= i < areas@.len() ==> #[trigger] areas@[i].inside(MAX_DIM as int, MAX_DIM as int),
            forall|j: int| 0 <= j < moves@.len() ==> unit(#[trigger] moves@[j].0) && unit(moves@[j].1),
            ok == area_ok(areas@, allowed_area as int, width as int, height as int, x as int, y as int),
            k <= moves@.len(),
            forall|j: int| 0 <= j < k ==> !ok(#[trigger] moves@[j]),
        decreases moves@.len() - k,
    {
        let (mx, my) = moves[k];
        assert(unit(moves@[k as int].0) && unit(moves@[k as int].1));
        if mx != 0 || my != 0 {
            let nx = x + mx;
            let ny = y + my;
            if nx >= 0 && ny >= 0 && nx < width && ny < height {
                if !is_blocked(nx, ny, areas, allowed_area) {
                    return Some(k);
                }
            }
        }
        k += 1;
    }
    None
}

/// `try_detour` for the connector walk, whose obstacles are the areas other
/// than `allowed_area`.
pub(crate) fn try_detour_connector(
    x: &mut i32,
    y: &mut i32,
    last_dir: &mut (i32, i32),
    width: i32,
    height: i32,
    areas: &Vec<MapArea>,
    allowed_area: usize,
    segment: &mut Vec<(i32, i32)>,
) -> (r: bool)
    requires
        0 <= width <= MAX_DIM,
        0 <= height <= MAX_DIM,
        in_grid(*old(x) as int, *old(y) as int, width as int, height as int),
        forall|i: int| 0 <= i < areas@.len() ==> #[trigger] areas@[i].inside(MAX_DIM as int, MAX_DIM as int),
    ensures
        match detour_choice(area_ok(areas@, allowed_area as int, width as int, height as int, *old(x) as int, *old(y) as int), *old(last_dir)) {
            Some(m) => {
                &&& r
                &&& *final(x) == *old(x) + m.0
                &&& *final(y) == *old(y) + m.1
                &&& *final(last_dir) == m
                &&& final(segment)@ == old(segment)@.push((*final(x), *final(y)))
            },
            None => {
                &&& !r
                &&& *final(x) == *old(x)
                &&& *final(y) == *old(y)
                &&& *final(last_dir) == *old(last_dir)
                &&& final(segment)@ == old(segment)@
            },
        },
{
    let (dx, dy) = *last_dir;
    if dx == 0 && dy == 0 {
        return false;
    }
    let detours: [(i32, i32); 2] = if dx != 0 {
        [(0, 1), (0, -1)]
    } else {
        [(1, 0), (-1, 0)]
    };
    let mut i: usize = 0;
    while i < 2
        invariant
            0 <= width <= MAX_DIM,
            0 <= height <= MAX_DIM,
            in_grid(*x as int, *y as int, width as int, height as int),
            forall|i: int| 0 <= i < areas@.len() ==> #[trigger] areas@[i].inside(MAX_DIM as int, MAX_DIM as int),
            *x == *old(x),
            *y == *old(y),
            *last_dir == *old(last_dir),
            *segment == *old(segment),
            *old(last_dir) != (0i32, 0i32),
            detours@ == detour_moves(*old(last_dir)),
            i <= 2,
            forall|j: int| 0 <= j < i ==> !area_open(areas@, allowed_area as int, width as int, height as int, *x as int, *y as int, #[trigger] detours@[j]),
        decreases 2 - i,
    {
        let (mx, my) = detours[i];
        let nx = *x + mx;
        let ny = *y + my;
        if nx >= 0 && ny >= 0 && nx < width && ny < height {
            if !is_blocked(nx, ny, areas, allowed_area) {
                *x = nx;
                *y = ny;
                *last_dir = (mx, my);
                segment.push((nx, ny));
                return true;
            }
        }
        i += 1;
    }
    false
}

/// The connector's two candidate moves towards the target, exchanged or not.
pub open spec fn connector_moves(dx: i32, dy: i32, swap: bool) -> Seq<(i32, i32)> {
    if swap {
        seq![(0i32, dy), (dx, 0i32)]
    } else {
        seq![(dx, 0i32), (0i32, dy)]
    }
}

/// A step the connector walk can take from `here` towards `end` after a
/// step of `last`: the one some outcome of its two draws leads to.
pub open spec fn connector_step(
    areas: Seq<MapArea>,
    allowed: int,
    width: int,
    height: int,
    here: (i32, i32),
    next: (i32, i32),
    last: (i32, i32),
    end: (i32, i32),
) -> bool {
    exists|swap: bool|
        #[trigger] step_for_moves(
            connector_moves(sign(end.0 - here.0) as i32, sign(end.1 - here.1) as i32, swap),
            area_ok(areas, allowed, width, height, here.0 as int, here.1 as int),
            last,
            step_between(here, next),
        )
}

/// The connector walk can be stuck at `here` after a step of `last`: for
/// some outcome of its draws neither move towards `end` is free and there
/// is no detour.
pub open spec fn connector_stuck(
    areas: Seq<MapArea>,
    allowed: int,
    width: int,
    height: int,
    here: (i32, i32),
    last: (i32, i32),
    end: (i32, i32),
) -> bool {
    exists|swap: bool|
        #[trigger] stuck_for_moves(
            connector_moves(sign(end.0 - here.0) as i32, sign(end.1 - here.1) as i32, swap),
            area_ok(areas, allowed, width, height, here.0 as int, here.1 as int),
            last,
        )
}

pub open spec fn connector_steps(areas: Seq<MapArea>, allowed: int, width: int, height: int, pts: Seq<(i32, i32)>, end: (i32, i32)) -> bool {
    forall|i: int|
        0 <= i < pts.len() - 1 ==> connector_step(areas, allowed, width, height, #[trigger] pts[i], pts[i + 1], step_into(pts, i), end)
}

/// One step of the connector walk from `(x, y)`: two draws order the two
/// moves towards `end`; the first unblocked one is taken, else the detour.
fn take_connector_step(
    x: &mut i32,
    y: &mut i32,
    last_dir: &mut (i32, i32),
    end: (i32, i32),
    width: i32,
    height: i32,
    rng: &mut StdRng,
    areas: &Vec<MapArea>,
    allowed_area: usize,
    segment: &mut Vec<(i32, i32)>,
) -> (moved: bool)
    requires
        1 <= width <= MAX_DIM,
        1 <= height <= MAX_DIM,
        in_grid(*old(x) as int, *old(y) as int, width as int, height as int),
        forall|i: int| 0 <= i < areas@.len() ==> #[trigger] areas@[i].inside(MAX_DIM as int, MAX_DIM as int),
    ensures
        moved ==> {
            &&& final(segment)@ == old(segment)@.push((*final(x), *final(y)))
            &&& in_grid(*final(x) as int, *final(y) as int, width as int, height as int)
            &&& !blocked(areas@, allowed_area as int, *final(x) as int, *final(y) as int)
            &&& adjacent((*old(x), *old(y)), (*final(x), *final(y)))
            &&& connector_step(areas@, allowed_area as int, width as int, height as int, (*old(x), *old(y)), (*final(x), *final(y)), *old(last_dir), end)
            &&& *final(last_dir) == step_between((*old(x), *old(y)), (*final(x), *final(y)))
        },
        !moved ==> final(segment)@ == old(segment)@ && *final(x) == *old(x) && *final(y) == *old(y) && *final(last_dir) == *old(last_dir),
        !moved ==> connector_stuck(areas@, allowed_area as int, width as int, height as int, (*old(x), *old(y)), *old(last_dir), end),
{
    let ghost here = (*x, *y);
    let ghost old_last = *last_dir;
    let ghost ok = area_ok(areas@, allowed_area as int, width as int, height as int, here.0 as int, here.1 as int);
    let dx = step_toward(*x, end.0);
    let dy = step_toward(*y, end.1);
    let mut moves: Vec<(i32, i32)> = Vec::new();
    moves.push((dx, 0));
    moves.push((0, dy));
    let first_swap = draw_ratio(rng, 45, 100);
    if first_swap {
        swap_first_last(&mut moves);
    }
    let second_swap = moves.len() > 1 && draw_ratio(rng, 35, 100);
    if second_swap {
        swap_first_last(&mut moves);
    }
    let ghost swap = first_swap != second_swap;
    assert(moves@ =~= connector_moves(dx, dy, swap));
    assert forall|j: int| 0 <= j < moves@.len() implies unit(#[trigger] moves@[j].0) && unit(moves@[j].1) by {}
    let moved = match first_unblocked_move(*x, *y, width, height, areas, allowed_area, &moves) {
        Some(k) => {
            let (mx, my) = moves[k];
            assert(ok(moves@[k as int]));
            assert(axis_move(moves@[k as int]) && unit(mx) && unit(my));
            *x = *x + mx;
            *y = *y + my;
            *last_dir = (mx, my);
            segment.push((*x, *y));
            assert(step_between(here, (*x, *y)) == moves@[k as int]);
            true
        },
        None => {
            if try_detour_connector(x, y, last_dir, width, height, areas, allowed_area, segment) {
                assert(step_between(here, (*x, *y)) == *last_dir);
                true
            } else {
                false
            }
        },
    };
    proof {
        assert(sign(end.0 - here.0) as i32 == dx && sign(end.1 - here.1) as i32 == dy);
        if !moved {
            assert(stuck_for_moves(connector_moves(sign(end.0 - here.0) as i32, sign(end.1 - here.1) as i32, swap), ok, old_last));
            assert(connector_stuck(areas@, allowed_area as int, width as int, height as int, here, old_last, end));
        }
        if moved {
            assert(step_for_moves(connector_moves(sign(end.0 - here.0) as i32, sign(end.1 - here.1) as i32, swap), ok, old_last, step_between(here, (*x, *y))));
            assert(connector_step(areas@, allowed_area as int, width as int, height as int, here, (*x, *y), old_last, end));
        }
    }
    moved
}

/// A walk from `start` towards `end` that never enters an area other than
/// `allowed_area` after its first point. Each step tries the two moves
/// towards `end`, in an order the two draws decide, then a sideways detour;
/// it stops at `end`, when stuck, or after four steps per grid cell.
pub(crate) fn carve_connector_points(
    start: (i32, i32),
    end: (i32, i32),
    width: i32,
    height: i32,
    rng: &mut StdRng,
    areas: &Vec<MapArea>,
    allowed_area: usize,
) -> (r: Vec<(i32, i32)>)
    requires
        1 <= width <= MAX_DIM,
        1 <= height <= MAX_DIM,
        in_grid(start.0 as int, start.1 as int, width as int, height as int),
        forall|i: int| 0 <= i < areas@.len() ==> #[trigger] areas@[i].inside(MAX_DIM as int, MAX_DIM as int),
    ensures
        walk_from(r@, start, end, width as int, height as int),
        forall|i: int| 1 <= i < r@.len() ==> !blocked(areas@, allowed_area as int, #[trigger] r@[i].0 as int, r@[i].1 as int),
        r@.len() <= 4 * width * height + 1,
        connector_steps(areas@, allowed_area as int, width as int, height as int, r@, end),
        r@.last() == end || r@.len() == 4 * width * height + 1 || connector_stuck(areas@, allowed_area as int, width as int, height as int,
            r@.last(), step_into(r@, r@.len() - 1), end),
{
    let ghost w = width as int;
    let ghost h = height as int;
    let mut segment: Vec<(i32, i32)> = Vec::new();
    let mut x = start.0;
    let mut y = start.1;
    let mut last_dir: (i32, i32) = (0, 0);
    proof {
        crate::occupancy::lemma_grid_size(w, h);
        assert(1 <= w * h) by (nonlinear_arith)
            requires
                1 <= w,
                1 <= h,
        ;
    }
    assert(width * height * 4 == 4 * w * h) by (nonlinear_arith)
        requires
            w == width,
            h == height,
    ;
    let max_steps: usize = (width * height * 4) as usize;
    let mut steps: usize = 0;
    let mut stuck = false;
    segment.push((x, y));
    while (x != end.0 || y != end.1) && steps < max_steps && !stuck
        invariant
            1 <= width <= MAX_DIM,
            1 <= height <= MAX_DIM,
            forall|i: int| 0 <= i < areas@.len() ==> #[trigger] areas@[i].inside(MAX_DIM as int, MAX_DIM as int),
            max_steps == 4 * w * h,
            w == width,
            h == height,
            steps <= max_steps,
            segment@.len() <= steps + 1,
            segment@.len() == steps + 1 || stuck,
            stuck ==> connector_stuck(areas@, allowed_area as int, w, h, segment@.last(), step_into(segment@, segment@.len() - 1), end),
            segment@.len() >= 1,
            segment@[0] == start,
            segment@.last() == (x, y),
            in_grid(x as int, y as int, w, h),
            is_walk(segment@),
            points_inside(segment@, w, h),
            forall|i: int| 0 <= i < segment@.len() - 1 ==> #[trigger] segment@[i] != end,
            forall|i: int| 1 <= i < segment@.len() ==> !blocked(areas@, allowed_area as int, #[trigger] segment@[i].0 as int, segment@[i].1 as int),
            last_dir == step_into(segment@, segment@.len() - 1),
            connector_steps(areas@, allowed_area as int, w, h, segment@, end),
        decreases max_steps - steps,
    {
        steps += 1;
        let ghost before = segment@;
        let ghost here = (x, y);
        if !take_connector_step(&mut x, &mut y, &mut last_dir, end, width, height, rng, areas, allowed_area, &mut segment) {
            stuck = true;
        } else {
        proof {
            let n = segment@.len();
            assert(segment@[n - 2] == here);
            assert forall|i: int| 0 <= i < segment@.len() - 1 implies adjacent(#[trigger] segment@[i], segment@[i + 1]) by {
                if i < n - 2 {
                    assert(segment@[i] == before[i] && segment@[i + 1] == before[i + 1]);
                }
            }
            assert(step_into(before, before.len() - 1) == step_into(segment@, n - 2)) by {
                if n - 2 > 0 {
                    assert(segment@[n - 3] == before[n - 3]);
                }
            }
            assert(step_into(segment@, n - 1) == last_dir);
            assert forall|i: int| 0 <= i < segment@.len() - 1 implies connector_step(areas@, allowed_area as int, w, h, #[trigger] segment@[i], segment@[i + 1], step_into(segment@, i), end) by {
                if i < n - 2 {
                    assert(segment@[i] == before[i] && segment@[i + 1] == before[i + 1]);
                    if i > 0 {
                        assert(segment@[i - 1] == before[i - 1]);
                    }
                    assert(step_into(segment@, i) == step_into(before, i));
                }
            }
        }
        }
    }
    segment
}

} // verus!
