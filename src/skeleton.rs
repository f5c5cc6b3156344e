//! The skeleton generator: areas, a trunk from the entry to the fork, one
//! branch per exit, connectors from areas into the network and water
//! channels from docks to the map's edge.

use crate::carve::{
    adjacent, blocked, carve_connector_points, carve_path_segment_points_avoiding, carver_stuck,
    connector_steps, connector_stuck, drawn_moves, grid_ok, is_walk, sign, step_into, step_toward,
    stuck_for_moves, walk_from,
};
use crate::layout::{
    areas_disjoint, areas_inside, dist_sq, in_grid, points_inside, resolve_coord, resolve_point,
    segments_inside, AreaType, Fraction, MapArea, MapAreaConfig, MapPointConfig, MapSkeleton,
    MapSkeletonConfig, PathSegment, MAX_DIM,
};
use crate::occupancy::{build_area_occupancy, Occupancy};
use crate::placement::{
    abs, build_areas, covered, lemma_shrink_keeps_apart, placement_story, shrink_areas, shrunk,
};
use crate::raster::{area_bounded, seg_bounded};
use crate::segments::{lemma_runs_inside, lemma_runs_radius, points_to_segments, runs_from};
use rand::rngs::StdRng;
use vstd::prelude::*;

verus! {

/// Half-width of trunk and branch corridors.
pub const PATH_RADIUS: i32 = 1;

/// Half-width of connectors and water channels.
pub const CONNECTOR_RADIUS: i32 = 0;

/// What a connector from an area leads to.
#[derive(Clone, Copy, Debug, PartialEq, Eq, Structural)]
pub enum ConnectorTarget {
    LeftFork,
    MainPath,
    RightFork,
    ForkPoint,
}

/// The connector role of the area anchor at position `i` of the
/// configuration; only the first five anchors have one.
pub open spec fn role_at(i: int) -> ConnectorTarget {
    if i == 0 {
        ConnectorTarget::LeftFork
    } else if i == 1 {
        ConnectorTarget::MainPath
    } else if i == 2 {
        ConnectorTarget::RightFork
    } else if i == 3 {
        ConnectorTarget::MainPath
    } else {
        ConnectorTarget::ForkPoint
    }
}

pub open spec fn frac(num: u32, den: u32) -> Fraction {
    Fraction { num, den }
}

pub open spec fn point(x: Fraction, y: Fraction) -> MapPointConfig {
    MapPointConfig { x, y }
}

pub open spec fn anchor(x: Fraction, y: Fraction, major: bool) -> MapAreaConfig {
    MapAreaConfig { x, y, major }
}

/// The layout used when none is given: entry at the top right, fork in the
/// middle, exits at the middle of the left and bottom edges, five areas.
pub fn default_map_skeleton_config() -> (r: MapSkeletonConfig)
    ensures
        r.entry == point(frac(1, 1), frac(0, 1)),
        r.fork == point(frac(1, 2), frac(1, 2)),
        r.exits@ == seq![point(frac(0, 1), frac(1, 2)), point(frac(1, 2), frac(1, 1))],
        r.areas@ == seq![
            anchor(frac(1, 6), frac(1, 4), false),
            anchor(frac(1, 2), frac(1, 5), false),
            anchor(frac(3, 4), frac(5, 6), false),
            anchor(frac(3, 4), frac(1, 2), false),
            anchor(frac(1, 4), frac(3, 4), true),
        ],
{
    let exits = vec![
        MapPointConfig { x: Fraction { num: 0, den: 1 }, y: Fraction { num: 1, den: 2 } },
        MapPointConfig { x: Fraction { num: 1, den: 2 }, y: Fraction { num: 1, den: 1 } },
    ];
    let areas = vec![
        MapAreaConfig { x: Fraction { num: 1, den: 6 }, y: Fraction { num: 1, den: 4 }, major: false },
        MapAreaConfig { x: Fraction { num: 1, den: 2 }, y: Fraction { num: 1, den: 5 }, major: false },
        MapAreaConfig { x: Fraction { num: 3, den: 4 }, y: Fraction { num: 5, den: 6 }, major: false },
        MapAreaConfig { x: Fraction { num: 3, den: 4 }, y: Fraction { num: 1, den: 2 }, major: false },
        MapAreaConfig { x: Fraction { num: 1, den: 4 }, y: Fraction { num: 3, den: 4 }, major: true },
    ];
    let r = MapSkeletonConfig {
        entry: MapPointConfig { x: Fraction { num: 1, den: 1 }, y: Fraction { num: 0, den: 1 } },
        fork: MapPointConfig { x: Fraction { num: 1, den: 2 }, y: Fraction { num: 1, den: 2 } },
        exits,
        areas,
    };
    assert(r.exits@ =~= seq![point(frac(0, 1), frac(1, 2)), point(frac(1, 2), frac(1, 1))]);
    assert(r.areas@ =~= seq![
        anchor(frac(1, 6), frac(1, 4), false),
        anchor(frac(1, 2), frac(1, 5), false),
        anchor(frac(3, 4), frac(5, 6), false),
        anchor(frac(3, 4), frac(1, 2), false),
        anchor(frac(1, 4), frac(3, 4), true),
    ]);
    r
}

/// The anchors of the first five configured areas, in grid cells, each with
/// its connector role.
pub fn connector_targets_from_config(config: &MapSkeletonConfig, width: i32, height: i32) -> (r: Vec<((i32, i32), ConnectorTarget)>)
    requires
        1 <= width <= MAX_DIM,
        1 <= height <= MAX_DIM,
    ensures
        r@.len() == if config.areas@.len() < 5 { config.areas@.len() } else { 5 },
        forall|i: int|
            0 <= i < r@.len() ==> {
                &&& (#[trigger] r@[i]).0.0 == resolve_coord(config.areas@[i].x, width as int)
                &&& r@[i].0.1 == resolve_coord(config.areas@[i].y, height as int)
                &&& r@[i].1 == role_at(i)
                &&& in_grid(r@[i].0.0 as int, r@[i].0.1 as int, width as int, height as int)
            },
{
    let roles: [ConnectorTarget; 5] = [
        ConnectorTarget::LeftFork,
        ConnectorTarget::MainPath,
        ConnectorTarget::RightFork,
        ConnectorTarget::MainPath,
        ConnectorTarget::ForkPoint,
    ];
    let mut targets: Vec<((i32, i32), ConnectorTarget)> = Vec::new();
    let mut index: usize = 0;
    while index < 5 && index < config.areas.len()
        invariant
            1 <= width <= MAX_DIM,
            1 <= height <= MAX_DIM,
            index <= 5,
            index <= config.areas@.len(),
            targets@.len() == index,
            forall|j: int| 0 <= j < 5 ==> #[trigger] roles@[j] == role_at(j),
            forall|i: int|
                0 <= i < targets@.len() ==> {
                    &&& (#[trigger] targets@[i]).0.0 == resolve_coord(config.areas@[i].x, width as int)
                    &&& targets@[i].0.1 == resolve_coord(config.areas@[i].y, height as int)
                    &&& targets@[i].1 == role_at(i)
                    &&& in_grid(targets@[i].0.0 as int, targets@[i].0.1 as int, width as int, height as int)
                },
        decreases 5 - index,
    {
        let area = config.areas[index];
        let anchor_cell = resolve_point(MapPointConfig { x: area.x, y: area.y }, width, height);
        assert(roles@[index as int] == role_at(index as int));
        targets.push((anchor_cell, roles[index]));
        index += 1;
    }
    targets
}

pub open spec fn min4(a: int, b: int, c: int, d: int) -> int {
    let ab = if a <= b { a } else { b };
    let abc = if ab <= c { ab } else { c };
    if abc <= d { abc } else { d }
}

/// The border cell nearest to `(x, y)`; on a tie the left edge wins, then
/// the right, then the top.
pub open spec fn edge_point(x: int, y: int, width: int, height: int) -> (int, int) {
    let left = x;
    let right = (width - 1) - x;
    let top = y;
    let bottom = (height - 1) - y;
    let m = min4(left, right, top, bottom);
    if m == left {
        (0, y)
    } else if m == right {
        (width - 1, y)
    } else if m == top {
        (x, 0)
    } else {
        (x, height - 1)
    }
}

/// The border cell nearest to `(x, y)`.
pub fn nearest_edge_point(x: i32, y: i32, width: i32, height: i32) -> (r: (i32, i32))
    requires
        1 <= width <= MAX_DIM,
        1 <= height <= MAX_DIM,
        in_grid(x as int, y as int, width as int, height as int),
    ensures
        (r.0 as int, r.1 as int) == edge_point(x as int, y as int, width as int, height as int),
        in_grid(r.0 as int, r.1 as int, width as int, height as int),
{
    let left = x;
    let right = (width - 1) - x;
    let top = y;
    let bottom = (height - 1) - y;
    let lr = if left <= right { left } else { right };
    let lrt = if lr <= top { lr } else { top };
    let min_dist = if lrt <= bottom { lrt } else { bottom };
    if min_dist == left {
        (0, y)
    } else if min_dist == right {
        (width - 1, y)
    } else if min_dist == top {
        (x, 0)
    } else {
        (x, height - 1)
    }
}

pub open spec fn area_dist(a: MapArea, t: (i32, i32)) -> int {
    dist_sq(a.center_x as int, a.center_y as int, t.0 as int, t.1 as int)
}

pub open spec fn point_dist(p: (i32, i32), t: (i32, i32)) -> int {
    dist_sq(p.0 as int, p.1 as int, t.0 as int, t.1 as int)
}

fn contains_index(used: &Vec<usize>, idx: usize) -> (r: bool)
    ensures
        r == used@.contains(idx),
{
    let mut i: usize = 0;
    while i < used.len()
        invariant
            i <= used@.len(),
            forall|j: int| 0 <= j < i ==> used@[j] != idx,
        decreases used@.len() - i,
    {
        if used[i] == idx {
            return true;
        }
        i += 1;
    }
    false
}

fn squared_distance(ax: i32, ay: i32, bx: i32, by: i32) -> (r: i32)
    requires
        0 <= ax < MAX_DIM,
        0 <= ay < MAX_DIM,
        0 <= bx < MAX_DIM,
        0 <= by < MAX_DIM,
    ensures
        r == dist_sq(ax as int, ay as int, bx as int, by as int),
        0 <= r <= 0x2000_0000,
{
    let dx = ax - bx;
    let dy = ay - by;
    assert(0 <= dx * dx <= 0x1000_0000 && 0 <= dy * dy <= 0x1000_0000) by (nonlinear_arith)
        requires
            -MAX_DIM <= dx <= MAX_DIM,
            -MAX_DIM <= dy <= MAX_DIM,
    ;
    dx * dx + dy * dy
}

/// Area `i` is the first, by position, among those not in `used`, whose
/// centre is nearest to `t`.
pub open spec fn nearest_area_at(areas: Seq<MapArea>, t: (i32, i32), used: Seq<usize>, i: int) -> bool {
    &&& 0 <= i < areas.len()
    &&& !used.contains(i as usize)
    &&& forall|j: int| 0 <= j < areas.len() && !used.contains(j as usize) ==> area_dist(areas[i], t) <= area_dist(#[trigger] areas[j], t)
    &&& forall|j: int| 0 <= j < i && !used.contains(j as usize) ==> area_dist(#[trigger] areas[j], t) > area_dist(areas[i], t)
}

/// The first area, by position, among those not listed in `used` whose
/// centre is nearest to `target`; `None` when every area is used.
pub fn find_nearest_area_index(areas: &Vec<MapArea>, target: (i32, i32), used: &Vec<usize>) -> (r: Option<usize>)
    requires
        areas_inside(areas@, MAX_DIM as int, MAX_DIM as int),
        in_grid(target.0 as int, target.1 as int, MAX_DIM as int, MAX_DIM as int),
    ensures
        match r {
            Some(i) => nearest_area_at(areas@, target, used@, i as int),
            None => forall|j: usize| j < areas@.len() ==> #[trigger] used@.contains(j),
        },
{
    let mut best: Option<usize> = None;
    let mut best_dist: i32 = i32::MAX;
    let mut idx: usize = 0;
    while idx < areas.len()
        invariant
            areas_inside(areas@, MAX_DIM as int, MAX_DIM as int),
            in_grid(target.0 as int, target.1 as int, MAX_DIM as int, MAX_DIM as int),
            idx <= areas@.len(),
            match best {
                Some(i) => {
                    &&& i < idx
                    &&& !used@.contains(i)
                    &&& best_dist == area_dist(areas@[i as int], target)
                    &&& forall|j: int| 0 <= j < idx && !used@.contains(j as usize) ==> area_dist(areas@[i as int], target) <= area_dist(#[trigger] areas@[j], target)
                    &&& forall|j: int| 0 <= j < i && !used@.contains(j as usize) ==> area_dist(#[trigger] areas@[j], target) > area_dist(areas@[i as int], target)
                },
                None => best_dist == i32::MAX && forall|j: usize| j < idx ==> #[trigger] used@.contains(j),
            },
        decreases areas@.len() - idx,
    {
        let ghost old_best = best;
        let is_used = contains_index(used, idx);
        if !is_used {
            let area = areas[idx];
            assert(areas@[idx as int].inside(MAX_DIM as int, MAX_DIM as int));
            let dist = squared_distance(area.center_x, area.center_y, target.0, target.1);
            if dist < best_dist {
                best_dist = dist;
                best = Some(idx);
            }
        }
        proof {
            let n = idx + 1;
            match best {
                Some(i) => {
                    assert forall|j: int| 0 <= j < n && !used@.contains(j as usize) implies area_dist(areas@[i as int], target) <= area_dist(#[trigger] areas@[j], target) by {
                        if j < idx {
                            if old_best is None {
                                assert(used@.contains(j as usize));
                            }
                        }
                    }
                    assert forall|j: int| 0 <= j < i && !used@.contains(j as usize) implies area_dist(#[trigger] areas@[j], target) > area_dist(areas@[i as int], target) by {
                        if old_best is None {
                            assert(used@.contains(j as usize));
                        }
                    }
                },
                None => {
                    assert forall|j: usize| j < n implies #[trigger] used@.contains(j) by {
                        if j < idx {
                        }
                    }
                },
            }
        }
        idx += 1;
    }
    best
}

/// Point `k` is the first of `points` nearest to `t`.
pub open spec fn nearest_at(points: Seq<(i32, i32)>, t: (i32, i32), k: int) -> bool {
    &&& 0 <= k < points.len()
    &&& forall|j: int| 0 <= j < points.len() ==> point_dist(points[k], t) <= point_dist(#[trigger] points[j], t)
    &&& forall|j: int| 0 <= j < k ==> point_dist(#[trigger] points[j], t) > point_dist(points[k], t)
}

/// The first of `points` nearest to `target`; `None` for no points.
pub fn find_nearest_point(points: &Vec<(i32, i32)>, target: (i32, i32)) -> (r: Option<(i32, i32)>)
    requires
        points_inside(points@, MAX_DIM as int, MAX_DIM as int),
        in_grid(target.0 as int, target.1 as int, MAX_DIM as int, MAX_DIM as int),
    ensures
        match r {
            Some(p) => exists|k: int| nearest_at(points@, target, k) && points@[k] == p,
            None => points@.len() == 0,
        },
{
    let mut best: Option<(i32, i32)> = None;
    let ghost mut best_k: int = 0;
    let mut best_dist: i32 = i32::MAX;
    let mut idx: usize = 0;
    while idx < points.len()
        invariant
            points_inside(points@, MAX_DIM as int, MAX_DIM as int),
            in_grid(target.0 as int, target.1 as int, MAX_DIM as int, MAX_DIM as int),
            idx <= points@.len(),
            match best {
                Some(p) => {
                    &&& 0 <= best_k < idx
                    &&& points@[best_k] == p
                    &&& best_dist == point_dist(p, target)
                    &&& forall|j: int| 0 <= j < idx ==> point_dist(p, target) <= point_dist(#[trigger] points@[j], target)
                    &&& forall|j: int| 0 <= j < best_k ==> point_dist(#[trigger] points@[j], target) > point_dist(p, target)
                },
                None => best_dist == i32::MAX && idx == 0,
            },
        decreases points@.len() - idx,
    {
        let (x, y) = points[idx];
        assert(in_grid(points@[idx as int].0 as int, points@[idx as int].1 as int, MAX_DIM as int, MAX_DIM as int));
        let dist = squared_distance(x, y, target.0, target.1);
        if dist < best_dist {
            best_dist = dist;
            best = Some((x, y));
            proof {
                best_k = idx as int;
            }
        }
        idx += 1;
    }
    proof {
        if best is Some {
            assert(nearest_at(points@, target, best_k));
        }
    }
    best
}

/// The point of all `segments` nearest to `target`: the first such point of
/// the first segment that holds one; `None` when all are empty.
pub fn find_nearest_point_on_segments(segments: &Vec<Vec<(i32, i32)>>, target: (i32, i32)) -> (r: Option<(i32, i32)>)
    requires
        forall|s: int| 0 <= s < segments@.len() ==> points_inside(#[trigger] segments@[s]@, MAX_DIM as int, MAX_DIM as int),
        in_grid(target.0 as int, target.1 as int, MAX_DIM as int, MAX_DIM as int),
    ensures
        match r {
            Some(p) => exists|s: int, k: int| 0 <= s < segments@.len() && #[trigger] nearest_at(segments@[s]@, target, k) && segments@[s]@[k] == p && {
                &&& forall|s2: int, j: int| 0 <= s2 < segments@.len() && 0 <= j < segments@[s2]@.len() ==> point_dist(p, target) <= point_dist(#[trigger] segments@[s2]@[j], target)
                &&& forall|s2: int, j: int| 0 <= s2 < s && 0 <= j < segments@[s2]@.len() ==> point_dist(#[trigger] segments@[s2]@[j], target) > point_dist(p, target)
            },
            None => forall|s: int| 0 <= s < segments@.len() ==> (#[trigger] segments@[s]@).len() == 0,
        },
{
    let mut best: Option<(i32, i32)> = None;
    let ghost mut best_s: int = 0;
    let ghost mut best_k: int = 0;
    let mut best_dist: i32 = i32::MAX;
    let mut s: usize = 0;
    while s < segments.len()
        invariant
            forall|s: int| 0 <= s < segments@.len() ==> points_inside(#[trigger] segments@[s]@, MAX_DIM as int, MAX_DIM as int),
            in_grid(target.0 as int, target.1 as int, MAX_DIM as int, MAX_DIM as int),
            s <= segments@.len(),
            match best {
                Some(p) => {
                    &&& 0 <= best_s < s
                    &&& nearest_at(segments@[best_s]@, target, best_k)
                    &&& segments@[best_s]@[best_k] == p
                    &&& best_dist == point_dist(p, target)
                    &&& forall|s2: int, j: int| 0 <= s2 < s && 0 <= j < segments@[s2]@.len() ==> point_dist(p, target) <= point_dist(#[trigger] segments@[s2]@[j], target)
                    &&& forall|s2: int, j: int| 0 <= s2 < best_s && 0 <= j < segments@[s2]@.len() ==> point_dist(#[trigger] segments@[s2]@[j], target) > point_dist(p, target)
                },
                None => best_dist == i32::MAX && forall|s2: int| 0 <= s2 < s ==> (#[trigger] segments@[s2]@).len() == 0,
            },
        decreases segments@.len() - s,
    {
        assert(points_inside(segments@[s as int]@, MAX_DIM as int, MAX_DIM as int));
        match find_nearest_point(&segments[s], target) {
            Some(p) => {
                let ghost k = choose|k: int| nearest_at(segments@[s as int]@, target, k) && segments@[s as int]@[k] == p;
                assert(in_grid(segments@[s as int]@[k].0 as int, segments@[s as int]@[k].1 as int, MAX_DIM as int, MAX_DIM as int));
                let dist = squared_distance(p.0, p.1, target.0, target.1);
                if dist < best_dist {
                    best_dist = dist;
                    best = Some(p);
                    proof {
                        best_s = s as int;
                        best_k = k;
                    }
                }
            },
            None => {},
        }
        s += 1;
    }
    best
}

/// Every segment is a corridor or a connector by its radius.
pub open spec fn radii_ok(segs: Seq<PathSegment>) -> bool {
    forall|i: int| 0 <= i < segs.len() ==> (#[trigger] segs[i]).radius == CONNECTOR_RADIUS || segs[i].radius == PATH_RADIUS
}

/// Appends the straight runs of the walk `points` to `paths`.
fn append_runs(paths: &mut Vec<PathSegment>, points: &Vec<(i32, i32)>, radius: i32, width: i32, height: i32)
    requires
        points_inside(points@, width as int, height as int),
        segments_inside(old(paths)@, width as int, height as int),
        radius == CONNECTOR_RADIUS || radius == PATH_RADIUS,
        radii_ok(old(paths)@),
    ensures
        final(paths)@ == old(paths)@ + runs_from(points@, 0, radius),
        segments_inside(final(paths)@, width as int, height as int),
        radii_ok(final(paths)@),
{
    let mut runs = points_to_segments(points, radius);
    proof {
        lemma_runs_inside(points@, 0, radius, width as int, height as int);
        lemma_runs_radius(points@, 0, radius);
    }
    let ghost before = paths@;
    let ghost added = runs@;
    paths.append(&mut runs);
    assert forall|i: int| 0 <= i < paths@.len() implies #[trigger] paths@[i].ends_inside(width as int, height as int) && (paths@[i].radius
        == CONNECTOR_RADIUS || paths@[i].radius == PATH_RADIUS) by {
        if i < before.len() {
            assert(paths@[i] == before[i]);
        } else {
            assert(paths@[i] == added[i - before.len()]);
        }
    }
}

/// The direction a branch is pulled in: towards its exit along the axis on
/// which the exit lies farther from the branch's start.
pub open spec fn fork_bias(from: (i32, i32), to: (i32, i32)) -> (i32, i32) {
    if abs(to.0 - from.0) >= abs(to.1 - from.1) {
        (sign(to.0 - from.0) as i32, 0i32)
    } else {
        (0i32, sign(to.1 - from.1) as i32)
    }
}

/// One branch per exit: a walk from the fork to that exit, avoiding the
/// reserved cells and pulled towards the exit's side of the fork.
fn build_fork_segments(
    fork_x: i32,
    fork_y: i32,
    exit_points: &Vec<(i32, i32)>,
    rng: &mut StdRng,
    area_occupied: &Occupancy,
) -> (r: Vec<Vec<(i32, i32)>>)
    requires
        area_occupied.wf(),
        in_grid(fork_x as int, fork_y as int, area_occupied.grid_width(), area_occupied.grid_height()),
    ensures
        r@.len() == exit_points@.len(),
        forall|i: int| 0 <= i < r@.len() ==> walk_from(#[trigger] r@[i]@, (fork_x, fork_y), exit_points@[i], area_occupied.grid_width(), area_occupied.grid_height()),
        forall|i: int, k: int| 0 <= i < r@.len() && 1 <= k < r@[i]@.len() ==> !area_occupied.occupied(#[trigger] r@[i]@[k].0 as int, r@[i]@[k].1 as int),
        forall|i: int| 0 <= i < r@.len() ==> grid_walk_settled(*area_occupied, #[trigger] r@[i]@, exit_points@[i], fork_bias((fork_x, fork_y), exit_points@[i])),
{
    let mut branches: Vec<Vec<(i32, i32)>> = Vec::new();
    let mut e: usize = 0;
    while e < exit_points.len()
        invariant
            area_occupied.wf(),
            in_grid(fork_x as int, fork_y as int, area_occupied.grid_width(), area_occupied.grid_height()),
            e <= exit_points@.len(),
            branches@.len() == e,
            forall|i: int| 0 <= i < branches@.len() ==> walk_from(#[trigger] branches@[i]@, (fork_x, fork_y), exit_points@[i], area_occupied.grid_width(), area_occupied.grid_height()),
            forall|i: int, k: int| 0 <= i < branches@.len() && 1 <= k < branches@[i]@.len() ==> !area_occupied.occupied(#[trigger] branches@[i]@[k].0 as int, branches@[i]@[k].1 as int),
            forall|i: int| 0 <= i < branches@.len() ==> grid_walk_settled(*area_occupied, #[trigger] branches@[i]@, exit_points@[i], fork_bias((fork_x, fork_y), exit_points@[i])),
        decreases exit_points@.len() - e,
    {
        let (exit_x, exit_y) = exit_points[e];
        let far_x: i64 = if exit_x >= fork_x { exit_x as i64 - fork_x as i64 } else { fork_x as i64 - exit_x as i64 };
        let far_y: i64 = if exit_y >= fork_y { exit_y as i64 - fork_y as i64 } else { fork_y as i64 - exit_y as i64 };
        let bias_dir = if far_x >= far_y { (step_toward(fork_x, exit_x), 0) } else { (0, step_toward(fork_y, exit_y)) };
        assert(bias_dir == fork_bias((fork_x, fork_y), exit_points@[e as int]));
        let branch = carve_path_segment_points_avoiding(fork_x, fork_y, exit_x, exit_y, rng, area_occupied, bias_dir);
        let ghost before = branches@;
        branches.push(branch);
        assert forall|i: int, k: int| 0 <= i < branches@.len() && 1 <= k < branches@[i]@.len() implies !area_occupied.occupied(#[trigger] branches@[i]@[k].0 as int, branches@[i]@[k].1 as int) by {
            if i < before.len() {
                assert(branches@[i] == before[i]);
            }
        }
        assert forall|i: int| 0 <= i < branches@.len() implies grid_walk_settled(*area_occupied, #[trigger] branches@[i]@, exit_points@[i], fork_bias((fork_x, fork_y), exit_points@[i])) by {
            if i < before.len() {
                assert(branches@[i] == before[i]);
            }
        }
        e += 1;
    }
    branches
}

/// Whether every branch ended at its exit.
fn branches_reach(branches: &Vec<Vec<(i32, i32)>>, exits: &Vec<(i32, i32)>) -> (r: bool)
    requires
        branches@.len() == exits@.len(),
        forall|i: int| 0 <= i < branches@.len() ==> (#[trigger] branches@[i]@).len() > 0,
    ensures
        r == forall|i: int| 0 <= i < branches@.len() ==> (#[trigger] branches@[i]@).last() == exits@[i],
{
    let mut i: usize = 0;
    while i < branches.len()
        invariant
            branches@.len() == exits@.len(),
            forall|j: int| 0 <= j < branches@.len() ==> (#[trigger] branches@[j]@).len() > 0,
            i <= branches@.len(),
            forall|j: int| 0 <= j < i ==> (#[trigger] branches@[j]@).last() == exits@[j],
        decreases branches@.len() - i,
    {
        assert(branches@[i as int]@.len() > 0);
        let last = branches[i][branches[i].len() - 1];
        if last.0 != exits[i].0 || last.1 != exits[i].1 {
            return false;
        }
        i += 1;
    }
    true
}

/// A walk carved on `grid` stopped where it may: at its target, at the step
/// cap, or where some outcome of the draws leaves no move.
pub(crate) open spec fn grid_walk_settled(grid: Occupancy, pts: Seq<(i32, i32)>, target: (i32, i32), bias: (i32, i32)) -> bool {
    ||| pts.last() == target
    ||| pts.len() == 4 * grid.grid_width() * grid.grid_height() + 1
    ||| carver_stuck(grid, pts.last(), step_into(pts, pts.len() - 1), target, bias)
}

/// A move from `(x, y)` onto a grid cell outside every area of `areas`.
pub open spec fn cover_open(areas: Seq<MapArea>, width: int, height: int, x: int, y: int, m: (i32, i32)) -> bool {
    &&& m != (0i32, 0i32)
    &&& in_grid(x + m.0, y + m.1, width, height)
    &&& !covered(areas, x + m.0, y + m.1)
}

pub open spec fn cover_ok(areas: Seq<MapArea>, width: int, height: int, x: int, y: int) -> spec_fn((i32, i32)) -> bool {
    |m: (i32, i32)| cover_open(areas, width, height, x, y, m)
}

/// The path carver can be stuck at `here` among `areas`: for some outcome
/// of its draws no candidate move leads to a free grid cell and there is no
/// detour.
pub open spec fn area_stuck(areas: Seq<MapArea>, width: int, height: int, here: (i32, i32), last: (i32, i32), end: (i32, i32), bias: (i32, i32)) -> bool {
    exists|wiggle_x: i32, wiggle_y: i32, swap: bool|
        (wiggle_x == 1 || wiggle_x == -1) && (wiggle_y == 1 || wiggle_y == -1) && #[trigger] stuck_for_moves(
            drawn_moves(sign(end.0 - here.0) as i32, sign(end.1 - here.1) as i32, bias, wiggle_x, wiggle_y, swap),
            cover_ok(areas, width, height, here.0 as int, here.1 as int),
            last,
        )
}

/// A walk carved round `areas` stopped where it may: at its target, at the
/// step cap of four steps per cell, or where it can be stuck.
pub open spec fn walk_settled(pts: Seq<(i32, i32)>, target: (i32, i32), bias: (i32, i32), areas: Seq<MapArea>, width: int, height: int) -> bool {
    ||| pts.last() == target
    ||| pts.len() == 4 * width * height + 1
    ||| area_stuck(areas, width, height, pts.last(), step_into(pts, pts.len() - 1), target, bias)
}

/// Every walk of the network stopped where it may.
pub open spec fn network_settled(
    trunk: Seq<(i32, i32)>,
    branches: Seq<Seq<(i32, i32)>>,
    fork: (i32, i32),
    exits: Seq<(i32, i32)>,
    areas: Seq<MapArea>,
    width: int,
    height: int,
) -> bool {
    &&& walk_settled(trunk, fork, (0i32, 0i32), areas, width, height)
    &&& forall|i: int|
        0 <= i < branches.len() ==> walk_settled(#[trigger] branches[i], exits[i], fork_bias(trunk.last(), exits[i]), areas, width, height)
}

/// The trunk ended at the fork and every branch at its exit.
pub open spec fn network_reached(trunk: Seq<(i32, i32)>, branches: Seq<Seq<(i32, i32)>>, fork: (i32, i32), exits: Seq<(i32, i32)>) -> bool {
    &&& trunk.last() == fork
    &&& forall|i: int| 0 <= i < branches.len() ==> (#[trigger] branches[i]).last() == exits[i]
}

/// Every area shrunk once.
pub open spec fn shrink_all(areas: Seq<MapArea>) -> Seq<MapArea> {
    Seq::new(areas.len(), |i: int| shrunk(areas[i]))
}

/// The areas after `k` shrinking passes.
pub open spec fn shrunk_times(areas: Seq<MapArea>, k: nat) -> Seq<MapArea>
    decreases k,
{
    if k == 0 {
        areas
    } else {
        shrink_all(shrunk_times(areas, (k - 1) as nat))
    }
}

proof fn lemma_shrunk_times_len(areas: Seq<MapArea>, k: nat)
    ensures
        shrunk_times(areas, k).len() == areas.len(),
    decreases k,
{
    if k > 0 {
        lemma_shrunk_times_len(areas, (k - 1) as nat);
    }
}

/// On a grid whose reserved cells are exactly those of `areas`, a walk that
/// can be stuck on the grid can be stuck among the areas.
proof fn lemma_stuck_over_areas(grid: Occupancy, areas: Seq<MapArea>, here: (i32, i32), last: (i32, i32), end: (i32, i32), bias: (i32, i32))
    requires
        grid.wf(),
        forall|x: int, y: int| in_grid(x, y, grid.grid_width(), grid.grid_height()) ==> (#[trigger] grid.occupied(x, y) <==> covered(areas, x, y)),
        carver_stuck(grid, here, last, end, bias),
    ensures
        area_stuck(areas, grid.grid_width(), grid.grid_height(), here, last, end, bias),
{
    let w = grid.grid_width();
    let h = grid.grid_height();
    let ok1 = grid_ok(grid, here.0 as int, here.1 as int);
    let ok2 = cover_ok(areas, w, h, here.0 as int, here.1 as int);
    assert forall|m: (i32, i32)| #[trigger] ok1(m) == ok2(m) by {
        if in_grid(here.0 + m.0, here.1 + m.1, w, h) {
            assert(grid.occupied(here.0 + m.0, here.1 + m.1) <==> covered(areas, here.0 + m.0, here.1 + m.1));
        }
    }
    assert(ok1 =~= ok2);
    let (wx, wy, sw) = choose|wx: i32, wy: i32, sw: bool|
        (wx == 1 || wx == -1) && (wy == 1 || wy == -1) && #[trigger] stuck_for_moves(
            drawn_moves(sign(end.0 - here.0) as i32, sign(end.1 - here.1) as i32, bias, wx, wy, sw),
            ok1,
            last,
        );
    assert(stuck_for_moves(drawn_moves(sign(end.0 - here.0) as i32, sign(end.1 - here.1) as i32, bias, wx, wy, sw), ok2, last));
}

proof fn lemma_walk_settled_over_areas(grid: Occupancy, areas: Seq<MapArea>, pts: Seq<(i32, i32)>, target: (i32, i32), bias: (i32, i32))
    requires
        grid.wf(),
        forall|x: int, y: int| in_grid(x, y, grid.grid_width(), grid.grid_height()) ==> (#[trigger] grid.occupied(x, y) <==> covered(areas, x, y)),
        grid_walk_settled(grid, pts, target, bias),
    ensures
        walk_settled(pts, target, bias, areas, grid.grid_width(), grid.grid_height()),
{
    if pts.last() != target && pts.len() != 4 * grid.grid_width() * grid.grid_height() + 1 {
        lemma_stuck_over_areas(grid, areas, pts.last(), step_into(pts, pts.len() - 1), target, bias);
    }
}

/// The shape of a carved network: a trunk walk from `entry` towards `fork`,
/// and for each exit a branch walk from where the trunk ended towards it.
pub open spec fn network_shape(
    trunk: Seq<(i32, i32)>,
    branches: Seq<Seq<(i32, i32)>>,
    entry: (i32, i32),
    fork: (i32, i32),
    exits: Seq<(i32, i32)>,
    width: int,
    height: int,
) -> bool {
    &&& walk_from(trunk, entry, fork, width, height)
    &&& branches.len() == exits.len()
    &&& forall|i: int| 0 <= i < branches.len() ==> walk_from(#[trigger] branches[i], trunk.last(), exits[i], width, height)
}

/// No cell of the network past a walk's first lies in one of the areas.
pub open spec fn network_avoids(trunk: Seq<(i32, i32)>, branches: Seq<Seq<(i32, i32)>>, areas: Seq<MapArea>) -> bool {
    &&& forall|k: int, a: int| 1 <= k < trunk.len() && 0 <= a < areas.len() ==> !(#[trigger] areas[a]).covers(#[trigger] trunk[k].0 as int, trunk[k].1 as int)
    &&& forall|i: int, k: int, a: int| 0 <= i < branches.len() && 1 <= k < branches[i].len() && 0 <= a < areas.len() ==> !(#[trigger] areas[a]).covers(#[trigger] branches[i][k].0 as int, branches[i][k].1 as int)
}

pub open spec fn views(branches: Seq<Vec<(i32, i32)>>) -> Seq<Seq<(i32, i32)>> {
    branches.map_values(|b: Vec<(i32, i32)>| b@)
}

/// Carves the trunk from `entry` to `fork` and one branch from the trunk's
/// end to each exit, round the areas. A walk that does not end at its
/// target is a failure: then every area shrinks by one and all is carved
/// again, at most six times in all; after that the areas are dropped and the
/// network carved once more regardless.
pub fn carve_network(
    width: i32,
    height: i32,
    rng: &mut StdRng,
    entry: (i32, i32),
    fork: (i32, i32),
    exits: &Vec<(i32, i32)>,
    areas: &mut Vec<MapArea>,
) -> (r: (Vec<(i32, i32)>, Vec<Vec<(i32, i32)>>))
    requires
        1 <= width <= MAX_DIM,
        1 <= height <= MAX_DIM,
        in_grid(entry.0 as int, entry.1 as int, width as int, height as int),
        areas_inside(old(areas)@, width as int, height as int),
        areas_disjoint(old(areas)@),
    ensures
        network_shape(r.0@, views(r.1@), entry, fork, exits@, width as int, height as int),
        network_avoids(r.0@, views(r.1@), final(areas)@),
        network_settled(r.0@, views(r.1@), fork, exits@, final(areas)@, width as int, height as int),
        areas_inside(final(areas)@, width as int, height as int),
        areas_disjoint(final(areas)@),
        final(areas)@.len() == 0 || (network_reached(r.0@, views(r.1@), fork, exits@) && exists|k: nat|
            k < 6 && final(areas)@ == #[trigger] shrunk_times(old(areas)@, k)),
{
    let ghost w = width as int;
    let ghost h = height as int;
    let mut trunk: Vec<(i32, i32)> = Vec::new();
    let mut branches: Vec<Vec<(i32, i32)>> = Vec::new();
    let mut carved = false;
    let mut attempt: u32 = 0;
    let ghost mut k: nat = 0;
    while attempt < 6 && !carved
        invariant
            1 <= width <= MAX_DIM,
            1 <= height <= MAX_DIM,
            w == width,
            h == height,
            in_grid(entry.0 as int, entry.1 as int, w, h),
            areas_inside(areas@, w, h),
            areas_disjoint(areas@),
            areas@ == shrunk_times(old(areas)@, k),
            attempt <= 6,
            !carved ==> k == attempt,
            carved ==> k < 6,
            carved ==> network_shape(trunk@, views(branches@), entry, fork, exits@, w, h),
            carved ==> network_avoids(trunk@, views(branches@), areas@),
            carved ==> network_reached(trunk@, views(branches@), fork, exits@),
        decreases 6 - attempt,
    {
        attempt += 1;
        let area_occupied = build_area_occupancy(width, height, areas);
        trunk = carve_path_segment_points_avoiding(entry.0, entry.1, fork.0, fork.1, rng, &area_occupied, (0, 0));
        let fork_point = trunk[trunk.len() - 1];
        let mut reached = false;
        if fork_point.0 == fork.0 && fork_point.1 == fork.1 {
            branches = build_fork_segments(fork_point.0, fork_point.1, exits, rng, &area_occupied);
            assert forall|i: int| 0 <= i < branches@.len() implies (#[trigger] branches@[i]@).len() > 0 by {
                assert(walk_from(branches@[i]@, fork_point, exits@[i], w, h));
            }
            reached = branches_reach(&branches, exits);
        }
        if reached {
            carved = true;
            proof {
                assert(views(branches@).len() == branches@.len());
                assert forall|i: int| 0 <= i < views(branches@).len() implies walk_from(#[trigger] views(branches@)[i], trunk@.last(), exits@[i], w, h) by {
                    assert(views(branches@)[i] == branches@[i]@);
                }
                assert forall|i: int| 0 <= i < views(branches@).len() implies (#[trigger] views(branches@)[i]).last() == exits@[i] by {
                    assert(views(branches@)[i] == branches@[i]@);
                }
                assert forall|kk: int, a: int| 1 <= kk < trunk@.len() && 0 <= a < areas@.len() implies !(#[trigger] areas@[a]).covers(#[trigger] trunk@[kk].0 as int, trunk@[kk].1 as int) by {
                    assert(!area_occupied.occupied(trunk@[kk].0 as int, trunk@[kk].1 as int));
                    assert(in_grid(trunk@[kk].0 as int, trunk@[kk].1 as int, w, h));
                }
                assert forall|i: int, kk: int, a: int| 0 <= i < views(branches@).len() && 1 <= kk < views(branches@)[i].len() && 0 <= a < areas@.len() implies !(#[trigger] areas@[a]).covers(#[trigger] views(branches@)[i][kk].0 as int, views(branches@)[i][kk].1 as int) by {
                    assert(views(branches@)[i] == branches@[i]@);
                    assert(!area_occupied.occupied(branches@[i]@[kk].0 as int, branches@[i]@[kk].1 as int));
                    assert(walk_from(branches@[i]@, fork_point, exits@[i], w, h));
                    assert(in_grid(branches@[i]@[kk].0 as int, branches@[i]@[kk].1 as int, w, h));
                }
            }
        } else {
            let ghost before = areas@;
            shrink_areas(areas);
            proof {
                lemma_shrink_keeps_apart(before, areas@, w, h);
                assert(areas@ =~= shrink_all(before));
                k = k + 1;
                assert(shrunk_times(old(areas)@, k) == shrink_all(shrunk_times(old(areas)@, (k - 1) as nat)));
            }
        }
    }
    if !carved {
        areas.clear();
        let area_occupied = build_area_occupancy(width, height, areas);
        trunk = carve_path_segment_points_avoiding(entry.0, entry.1, fork.0, fork.1, rng, &area_occupied, (0, 0));
        let fork_point = trunk[trunk.len() - 1];
        branches = build_fork_segments(fork_point.0, fork_point.1, exits, rng, &area_occupied);
        proof {
            assert forall|i: int| 0 <= i < views(branches@).len() implies walk_from(#[trigger] views(branches@)[i], trunk@.last(), exits@[i], w, h) by {
                assert(views(branches@)[i] == branches@[i]@);
            }
            assert(areas@.len() == 0);
            lemma_walk_settled_over_areas(area_occupied, areas@, trunk@, fork, (0, 0));
            assert forall|i: int| 0 <= i < views(branches@).len() implies walk_settled(#[trigger] views(branches@)[i], exits@[i], fork_bias(trunk@.last(), exits@[i]), areas@, w, h) by {
                assert(views(branches@)[i] == branches@[i]@);
                lemma_walk_settled_over_areas(area_occupied, areas@, branches@[i]@, exits@[i], fork_bias(fork_point, exits@[i]));
            }
        }
    } else {
        proof {
            assert(walk_settled(trunk@, fork, (0, 0), areas@, w, h));
            assert forall|i: int| 0 <= i < views(branches@).len() implies walk_settled(#[trigger] views(branches@)[i], exits@[i], fork_bias(trunk@.last(), exits@[i]), areas@, w, h) by {
                assert(views(branches@)[i].last() == exits@[i]);
            }
            assert(areas@ == shrunk_times(old(areas)@, k));
        }
    }
    (trunk, branches)
}

/// The cells of a network: those of its trunk and of its branches.
pub open spec fn network_cells(trunk: Seq<(i32, i32)>, branches: Seq<Seq<(i32, i32)>>) -> Set<(i32, i32)> {
    Set::new(|p: (i32, i32)| trunk.contains(p) || exists|i: int| 0 <= i < branches.len() && #[trigger] branches[i].contains(p))
}

/// `b` can be reached from `a` by steps between neighbouring cells of `cells`.
pub open spec fn reachable(cells: Set<(i32, i32)>, a: (i32, i32), b: (i32, i32)) -> bool {
    exists|w: Seq<(i32, i32)>|
        w.len() >= 1 && w[0] == a && w.last() == b && is_walk(w) && forall|i: int| 0 <= i < w.len() ==> cells.contains(#[trigger] w[i])
}

/// A network is connected: every cell of its trunk and branches can be
/// reached from the entry through the network's own cells.
pub proof fn lemma_network_connected(
    trunk: Seq<(i32, i32)>,
    branches: Seq<Seq<(i32, i32)>>,
    entry: (i32, i32),
    fork: (i32, i32),
    exits: Seq<(i32, i32)>,
    width: int,
    height: int,
    p: (i32, i32),
)
    requires
        network_shape(trunk, branches, entry, fork, exits, width, height),
        network_cells(trunk, branches).contains(p),
    ensures
        reachable(network_cells(trunk, branches), entry, p),
{
    let cells = network_cells(trunk, branches);
    assert forall|k: int| 0 <= k < trunk.len() implies cells.contains(#[trigger] trunk[k]) by {
        assert(trunk.contains(trunk[k]));
    }
    if trunk.contains(p) {
        let k = choose|k: int| 0 <= k < trunk.len() && trunk[k] == p;
        let w = trunk.subrange(0, k + 1);
        assert(w[0] == entry);
        assert(w.last() == p);
        assert forall|i: int| 0 <= i < w.len() - 1 implies adjacent(#[trigger] w[i], w[i + 1]) by {
            assert(w[i] == trunk[i] && w[i + 1] == trunk[i + 1]);
        }
        assert forall|i: int| 0 <= i < w.len() implies cells.contains(#[trigger] w[i]) by {
            assert(w[i] == trunk[i]);
        }
        assert(is_walk(w));
    } else {
        let b = choose|b: int| 0 <= b < branches.len() && #[trigger] branches[b].contains(p);
        let branch = branches[b];
        assert(walk_from(branch, trunk.last(), exits[b], width, height));
        let k = choose|k: int| 0 <= k < branch.len() && branch[k] == p;
        assert forall|j: int| 0 <= j < branch.len() implies cells.contains(#[trigger] branch[j]) by {
            assert(branch.contains(branch[j]));
        }
        let w = trunk + branch.subrange(1, k + 1);
        let t = trunk.len();
        assert(w[0] == entry);
        if k == 0 {
            assert(w =~= trunk);
            assert(w.last() == trunk.last());
        } else {
            assert(w.last() == branch[k]);
        }
        assert forall|i: int| 0 <= i < w.len() - 1 implies adjacent(#[trigger] w[i], w[i + 1]) by {
            if i < t - 1 {
                assert(w[i] == trunk[i] && w[i + 1] == trunk[i + 1]);
            } else if i == t - 1 {
                assert(w[i] == trunk[t - 1]);
                assert(w[i + 1] == branch[1]);
                assert(branch[0] == trunk[t - 1]);
            } else {
                assert(w[i] == branch[i - t + 1] && w[i + 1] == branch[i - t + 2]);
            }
        }
        assert forall|i: int| 0 <= i < w.len() implies cells.contains(#[trigger] w[i]) by {
            if i < t {
                assert(w[i] == trunk[i]);
            } else {
                assert(w[i] == branch[i - t + 1]);
            }
        }
        assert(is_walk(w));
    }
}

/// Where the trunk reached the fork, the fork is reached from the entry;
/// where a branch reached its exit, that exit is.
pub proof fn lemma_network_reaches_targets(
    trunk: Seq<(i32, i32)>,
    branches: Seq<Seq<(i32, i32)>>,
    entry: (i32, i32),
    fork: (i32, i32),
    exits: Seq<(i32, i32)>,
    width: int,
    height: int,
)
    requires
        network_shape(trunk, branches, entry, fork, exits, width, height),
    ensures
        trunk.last() == fork ==> reachable(network_cells(trunk, branches), entry, fork),
        forall|i: int| 0 <= i < exits.len() && (#[trigger] branches[i]).last() == exits[i] ==> reachable(network_cells(trunk, branches), entry, exits[i]),
{
    if trunk.last() == fork {
        assert(trunk.contains(trunk[trunk.len() - 1]));
        lemma_network_connected(trunk, branches, entry, fork, exits, width, height, fork);
    }
    assert forall|i: int| 0 <= i < exits.len() && (#[trigger] branches[i]).last() == exits[i] implies reachable(network_cells(trunk, branches), entry, exits[i]) by {
        assert(walk_from(branches[i], trunk.last(), exits[i], width, height));
        assert(branches[i].contains(branches[i][branches[i].len() - 1]));
        assert(network_cells(trunk, branches).contains(exits[i]));
        lemma_network_connected(trunk, branches, entry, fork, exits, width, height, exits[i]);
    }
}

pub open spec fn is_dock(a: MapArea) -> bool {
    a.area_type == Some(AreaType::Dock)
}

/// The border cell nearest to the centre of `a`.
pub open spec fn dock_edge(a: MapArea, width: int, height: int) -> (i32, i32) {
    let e = edge_point(a.center_x as int, a.center_y as int, width, height);
    (e.0 as i32, e.1 as i32)
}

/// `walk` is a connector walk the channel of area `i` can take: from the
/// area's centre towards the nearest border cell, round the other areas,
/// stopping only where the connector walk may.
pub open spec fn dock_walk(areas: Seq<MapArea>, i: int, walk: Seq<(i32, i32)>, width: int, height: int) -> bool {
    let a = areas[i];
    let end = dock_edge(a, width, height);
    &&& walk_from(walk, (a.center_x, a.center_y), end, width, height)
    &&& forall|j: int| 1 <= j < walk.len() ==> !blocked(areas, i, #[trigger] walk[j].0 as int, walk[j].1 as int)
    &&& connector_steps(areas, i, width, height, walk, end)
    &&& (walk.last() == end || walk.len() == 4 * width * height + 1 || connector_stuck(areas, i, width, height, walk.last(), step_into(
        walk,
        walk.len() - 1,
    ), end))
}

/// The runs of the channels of the docks among the first `n` areas, in order.
pub open spec fn dock_runs(areas: Seq<MapArea>, walks: Seq<Seq<(i32, i32)>>, n: int) -> Seq<PathSegment>
    decreases n,
{
    if n <= 0 {
        Seq::empty()
    } else if is_dock(areas[n - 1]) {
        dock_runs(areas, walks, n - 1) + runs_from(walks[n - 1], 0, CONNECTOR_RADIUS)
    } else {
        dock_runs(areas, walks, n - 1)
    }
}

/// `segs` is one water channel per dock of `areas`, in order: the straight
/// runs of a connector walk from the dock's centre to the nearest border cell.
pub open spec fn dock_channels(segs: Seq<PathSegment>, areas: Seq<MapArea>, width: int, height: int) -> bool {
    exists|walks: Seq<Seq<(i32, i32)>>|
        walks.len() == areas.len() && (forall|i: int| 0 <= i < areas.len() && is_dock(areas[i]) ==> dock_walk(areas, i, #[trigger] walks[i], width, height))
            && segs == #[trigger] dock_runs(areas, walks, areas.len() as int)
}

proof fn lemma_dock_runs_prefix(areas: Seq<MapArea>, walks: Seq<Seq<(i32, i32)>>, more: Seq<Seq<(i32, i32)>>, n: int)
    requires
        0 <= n <= walks.len(),
        walks.len() <= more.len(),
        forall|j: int| 0 <= j < walks.len() ==> #[trigger] more[j] == walks[j],
    ensures
        dock_runs(areas, more, n) == dock_runs(areas, walks, n),
    decreases n,
{
    if n > 0 {
        lemma_dock_runs_prefix(areas, walks, more, n - 1);
        assert(more[n - 1] == walks[n - 1]);
    }
}

/// One water channel per dock: a connector walk from the dock's centre to
/// the nearest border cell, round the other areas, as straight runs.
pub fn build_dock_paths(width: i32, height: i32, areas: &Vec<MapArea>, rng: &mut StdRng) -> (r: Vec<PathSegment>)
    requires
        1 <= width <= MAX_DIM,
        1 <= height <= MAX_DIM,
        areas_inside(areas@, width as int, height as int),
    ensures
        segments_inside(r@, width as int, height as int),
        forall|i: int| 0 <= i < r@.len() ==> (#[trigger] r@[i]).radius == CONNECTOR_RADIUS,
        dock_channels(r@, areas@, width as int, height as int),
        (forall|i: int| 0 <= i < areas@.len() ==> !is_dock(#[trigger] areas@[i])) ==> *final(rng) == *old(rng),
{
    let ghost w = width as int;
    let ghost h = height as int;
    let mut segments: Vec<PathSegment> = Vec::new();
    let ghost mut walks: Seq<Seq<(i32, i32)>> = Seq::empty();
    let mut idx: usize = 0;
    while idx < areas.len()
        invariant
            1 <= width <= MAX_DIM,
            1 <= height <= MAX_DIM,
            w == width,
            h == height,
            areas_inside(areas@, w, h),
            idx <= areas@.len(),
            segments_inside(segments@, w, h),
            forall|i: int| 0 <= i < segments@.len() ==> (#[trigger] segments@[i]).radius == CONNECTOR_RADIUS,
            walks.len() == idx,
            forall|i: int| 0 <= i < idx && is_dock(areas@[i]) ==> dock_walk(areas@, i, #[trigger] walks[i], w, h),
            segments@ == dock_runs(areas@, walks, idx as int),
            (forall|i: int| 0 <= i < idx ==> !is_dock(#[trigger] areas@[i])) ==> *rng == *old(rng),
        decreases areas@.len() - idx,
    {
        let area = areas[idx];
        let ghost old_walks = walks;
        let ghost before = segments@;
        if area.area_type == Some(AreaType::Dock) {
            assert(areas@[idx as int].inside(w, h));
            let edge_point = nearest_edge_point(area.center_x, area.center_y, width, height);
            assert(edge_point == dock_edge(areas@[idx as int], w, h));
            assert forall|i: int| 0 <= i < areas@.len() implies #[trigger] areas@[i].inside(MAX_DIM as int, MAX_DIM as int) by {
                assert(areas@[i].inside(w, h));
            }
            let points = carve_connector_points((area.center_x, area.center_y), edge_point, width, height, rng, areas, idx);
            append_runs(&mut segments, &points, CONNECTOR_RADIUS, width, height);
            proof {
                walks = old_walks.push(points@);
                lemma_runs_radius(points@, 0, CONNECTOR_RADIUS);
                assert forall|i: int| 0 <= i < segments@.len() implies (#[trigger] segments@[i]).radius == CONNECTOR_RADIUS by {
                    if i >= before.len() {
                        assert(segments@[i] == runs_from(points@, 0, CONNECTOR_RADIUS)[i - before.len()]);
                    } else {
                        assert(segments@[i] == before[i]);
                    }
                }
                assert(dock_walk(areas@, idx as int, points@, w, h));
            }
        } else {
            proof {
                walks = old_walks.push(Seq::empty());
            }
        }
        proof {
            lemma_dock_runs_prefix(areas@, old_walks, walks, idx as int);
            assert forall|i: int| 0 <= i < idx + 1 && is_dock(areas@[i]) implies dock_walk(areas@, i, #[trigger] walks[i], w, h) by {
                if i < idx {
                    assert(walks[i] == old_walks[i]);
                }
            }
            assert(segments@ == dock_runs(areas@, walks, idx + 1));
        }
        idx += 1;
    }
    segments
}

/// The grid cell of a configured point.
pub open spec fn resolved(p: MapPointConfig, width: int, height: int) -> (i32, i32) {
    (resolve_coord(p.x, width) as i32, resolve_coord(p.y, height) as i32)
}

/// The cells of the configured exits; the middle of the left edge when
/// none is configured.
pub open spec fn exit_cells(config: MapSkeletonConfig, width: int, height: int) -> Seq<(i32, i32)> {
    if config.exits@.len() == 0 {
        seq![(0i32, (height / 2) as i32)]
    } else {
        Seq::new(config.exits@.len(), |i: int| resolved(config.exits@[i], width, height))
    }
}

/// The corridor runs of the branches, one branch after the other.
pub open spec fn branch_runs(branches: Seq<Seq<(i32, i32)>>) -> Seq<PathSegment>
    decreases branches.len(),
{
    if branches.len() == 0 {
        Seq::empty()
    } else {
        branch_runs(branches.drop_last()) + runs_from(branches.last(), 0, PATH_RADIUS)
    }
}

/// The corridor runs of a network: its trunk's, then its branches'.
pub open spec fn network_runs(trunk: Seq<(i32, i32)>, branches: Seq<Seq<(i32, i32)>>) -> Seq<PathSegment> {
    runs_from(trunk, 0, PATH_RADIUS) + branch_runs(branches)
}

pub open spec fn center(a: MapArea) -> (i32, i32) {
    (a.center_x, a.center_y)
}

/// The area a connector role takes: the nearest unused one, or, when every
/// area is used, the nearest of all.
pub open spec fn area_pick(areas: Seq<MapArea>, t: (i32, i32), used: Seq<usize>, pick: Option<usize>) -> bool {
    match pick {
        Some(i) => nearest_area_at(areas, t, used, i as int) || ((forall|j: usize| j < areas.len() ==> #[trigger] used.contains(j))
            && nearest_area_at(areas, t, Seq::empty(), i as int)),
        None => areas.len() == 0,
    }
}

/// `p` is the first point, over the segments in order, nearest to `t`.
pub open spec fn nearest_on_segments(segs: Seq<Seq<(i32, i32)>>, t: (i32, i32), p: (i32, i32)) -> bool {
    exists|s: int, k: int|
        0 <= s < segs.len() && #[trigger] nearest_at(segs[s], t, k) && segs[s][k] == p && {
            &&& forall|s2: int, j: int| 0 <= s2 < segs.len() && 0 <= j < segs[s2].len() ==> point_dist(p, t) <= point_dist(#[trigger] segs[s2][j], t)
            &&& forall|s2: int, j: int| 0 <= s2 < s && 0 <= j < segs[s2].len() ==> point_dist(#[trigger] segs[s2][j], t) > point_dist(p, t)
        }
}

/// Where a connector of `role` from `start` leads: the nearest point of the
/// branches, the nearest point of the trunk, or the trunk's end.
pub open spec fn role_end(
    role: ConnectorTarget,
    start: (i32, i32),
    trunk: Seq<(i32, i32)>,
    branches: Seq<Seq<(i32, i32)>>,
    end: Option<(i32, i32)>,
) -> bool {
    match role {
        ConnectorTarget::MainPath => match end {
            Some(p) => exists|k: int| nearest_at(trunk, start, k) && trunk[k] == p,
            None => trunk.len() == 0,
        },
        ConnectorTarget::ForkPoint => end == Some(trunk.last()),
        _ => match end {
            Some(p) => nearest_on_segments(branches, start, p),
            None => forall|s: int| 0 <= s < branches.len() ==> (#[trigger] branches[s]).len() == 0,
        },
    }
}

/// `walk` is one the connector walk can take from `start` to `end` round
/// every area but area `i`.
pub open spec fn connector_walk(areas: Seq<MapArea>, i: int, walk: Seq<(i32, i32)>, start: (i32, i32), end: (i32, i32), width: int, height: int) -> bool {
    &&& walk_from(walk, start, end, width, height)
    &&& forall|j: int| 1 <= j < walk.len() ==> !blocked(areas, i, #[trigger] walk[j].0 as int, walk[j].1 as int)
    &&& connector_steps(areas, i, width, height, walk, end)
    &&& (walk.last() == end || walk.len() == 4 * width * height + 1 || connector_stuck(areas, i, width, height, walk.last(), step_into(
        walk,
        walk.len() - 1,
    ), end))
}

pub open spec fn next_used(used: Seq<usize>, pick: Option<usize>) -> Seq<usize> {
    match pick {
        Some(i) => if used.contains(i) {
            used
        } else {
            used.push(i)
        },
        None => used,
    }
}

/// The connector targets of the configuration: the anchors of its first
/// five areas with their roles.
pub open spec fn connector_targets_of(config: MapSkeletonConfig, width: int, height: int) -> Seq<((i32, i32), ConnectorTarget)> {
    let n = if config.areas@.len() < 5 { config.areas@.len() } else { 5 };
    Seq::new(n as nat, |i: int| ((resolve_coord(config.areas@[i].x, width) as i32, resolve_coord(config.areas@[i].y, height) as i32), role_at(i)))
}

/// What happened for connector role `t`: the areas used before it, the area
/// it took, the end it led to, and the walk carved.
pub type ConnectorRecord = (Seq<usize>, Option<usize>, Option<(i32, i32)>, Seq<(i32, i32)>);

pub open spec fn connector_trace_step(
    areas: Seq<MapArea>,
    targets: Seq<((i32, i32), ConnectorTarget)>,
    trunk: Seq<(i32, i32)>,
    branches: Seq<Seq<(i32, i32)>>,
    width: int,
    height: int,
    trace: Seq<ConnectorRecord>,
    t: int,
) -> bool {
    let r = trace[t];
    &&& area_pick(areas, targets[t].0, r.0, r.1)
    &&& (t + 1 < trace.len() ==> trace[t + 1].0 == next_used(r.0, r.1))
    &&& match r.1 {
        Some(i) => role_end(targets[t].1, center(areas[i as int]), trunk, branches, r.2) && (r.2 is Some ==> connector_walk(
            areas,
            i as int,
            r.3,
            center(areas[i as int]),
            r.2->0,
            width,
            height,
        )),
        None => r.2 is None,
    }
}

/// The connectors, one role after the other: each takes its area and end as
/// the roles say, starting with no area used, and carves a connector walk.
pub open spec fn connector_trace(
    areas: Seq<MapArea>,
    targets: Seq<((i32, i32), ConnectorTarget)>,
    trunk: Seq<(i32, i32)>,
    branches: Seq<Seq<(i32, i32)>>,
    width: int,
    height: int,
    trace: Seq<ConnectorRecord>,
) -> bool {
    &&& trace.len() == targets.len()
    &&& (trace.len() > 0 ==> trace[0].0 == Seq::<usize>::empty())
    &&& forall|t: int| 0 <= t < trace.len() ==> #[trigger] connector_trace_step(areas, targets, trunk, branches, width, height, trace, t)
}

/// The runs of the connectors of the first `n` roles that were carved.
pub open spec fn trace_runs(trace: Seq<ConnectorRecord>, n: int) -> Seq<PathSegment>
    decreases n,
{
    if n <= 0 {
        Seq::empty()
    } else if trace[n - 1].1 is Some && trace[n - 1].2 is Some {
        trace_runs(trace, n - 1) + runs_from(trace[n - 1].3, 0, CONNECTOR_RADIUS)
    } else {
        trace_runs(trace, n - 1)
    }
}

proof fn lemma_trace_runs_prefix(trace: Seq<ConnectorRecord>, more: Seq<ConnectorRecord>, n: int)
    requires
        0 <= n <= trace.len(),
        trace.len() <= more.len(),
        forall|j: int| 0 <= j < trace.len() ==> #[trigger] more[j] == trace[j],
    ensures
        trace_runs(more, n) == trace_runs(trace, n),
    decreases n,
{
    if n > 0 {
        lemma_trace_runs_prefix(trace, more, n - 1);
        assert(more[n - 1] == trace[n - 1]);
    }
}

proof fn lemma_segments_view(segments: Seq<Vec<(i32, i32)>>, t: (i32, i32), p: (i32, i32))
    requires
        exists|s: int, k: int| 0 <= s < segments.len() && #[trigger] nearest_at(segments[s]@, t, k) && segments[s]@[k] == p && {
            &&& forall|s2: int, j: int| 0 <= s2 < segments.len() && 0 <= j < segments[s2]@.len() ==> point_dist(p, t) <= point_dist(#[trigger] segments[s2]@[j], t)
            &&& forall|s2: int, j: int| 0 <= s2 < s && 0 <= j < segments[s2]@.len() ==> point_dist(#[trigger] segments[s2]@[j], t) > point_dist(p, t)
        },
    ensures
        nearest_on_segments(views(segments), t, p),
{
    let v = views(segments);
    assert forall|s2: int| 0 <= s2 < segments.len() implies #[trigger] v[s2] == segments[s2]@ by {}
    let (s, k) = choose|s: int, k: int| 0 <= s < segments.len() && #[trigger] nearest_at(segments[s]@, t, k) && segments[s]@[k] == p && {
        &&& forall|s2: int, j: int| 0 <= s2 < segments.len() && 0 <= j < segments[s2]@.len() ==> point_dist(p, t) <= point_dist(#[trigger] segments[s2]@[j], t)
        &&& forall|s2: int, j: int| 0 <= s2 < s && 0 <= j < segments[s2]@.len() ==> point_dist(#[trigger] segments[s2]@[j], t) > point_dist(p, t)
    };
    assert(v[s] == segments[s]@);
    assert forall|s2: int, j: int| 0 <= s2 < v.len() && 0 <= j < v[s2].len() implies point_dist(p, t) <= point_dist(#[trigger] v[s2][j], t) by {
        assert(v[s2] == segments[s2]@);
    }
    assert forall|s2: int, j: int| 0 <= s2 < s && 0 <= j < v[s2].len() implies point_dist(#[trigger] v[s2][j], t) > point_dist(p, t) by {
        assert(v[s2] == segments[s2]@);
    }
    assert(nearest_at(v[s], t, k) && v[s][k] == p);
}

/// One connector per role: from the area the role picks (the nearest unused
/// one, or the nearest of all) to the end the role names, appended as runs.
fn add_connectors(
    paths: &mut Vec<PathSegment>,
    areas: &Vec<MapArea>,
    connector_targets: &Vec<((i32, i32), ConnectorTarget)>,
    main_segment: &Vec<(i32, i32)>,
    fork_segments: &Vec<Vec<(i32, i32)>>,
    width_i: i32,
    height_i: i32,
    rng: &mut StdRng,
)
    requires
        1 <= width_i <= MAX_DIM,
        1 <= height_i <= MAX_DIM,
        areas@.len() > 0,
        areas_inside(areas@, width_i as int, height_i as int),
        main_segment@.len() >= 1,
        points_inside(main_segment@, width_i as int, height_i as int),
        forall|s: int| 0 <= s < fork_segments@.len() ==> points_inside(#[trigger] fork_segments@[s]@, width_i as int, height_i as int),
        forall|i: int| 0 <= i < connector_targets@.len() ==> in_grid((#[trigger] connector_targets@[i]).0.0 as int, connector_targets@[i].0.1 as int, width_i as int, height_i as int),
        segments_inside(old(paths)@, width_i as int, height_i as int),
        radii_ok(old(paths)@),
    ensures
        segments_inside(final(paths)@, width_i as int, height_i as int),
        radii_ok(final(paths)@),
        old(paths)@.len() <= final(paths)@.len(),
        final(paths)@.subrange(0, old(paths)@.len() as int) == old(paths)@,
        forall|i: int| old(paths)@.len() <= i < final(paths)@.len() ==> (#[trigger] final(paths)@[i]).radius == CONNECTOR_RADIUS,
        exists|trace: Seq<ConnectorRecord>|
            #[trigger] connector_trace(areas@, connector_targets@, main_segment@, views(fork_segments@), width_i as int, height_i as int, trace)
                && final(paths)@.subrange(old(paths)@.len() as int, final(paths)@.len() as int) == trace_runs(trace, trace.len() as int),
{
    let ghost w = width_i as int;
    let ghost h = height_i as int;
    let ghost start_len = paths@.len();
    let ghost start_paths = paths@;
    let ghost trunk = main_segment@;
    let ghost branches = views(fork_segments@);
    let ghost targets = connector_targets@;
    let fork_point = main_segment[main_segment.len() - 1];
    let mut used_areas: Vec<usize> = Vec::new();
    let empty: Vec<usize> = Vec::new();
    assert forall|i: int| 0 <= i < areas@.len() implies #[trigger] areas@[i].inside(MAX_DIM as int, MAX_DIM as int) by {
        assert(areas@[i].inside(w, h));
    }
    assert forall|s: int| 0 <= s < fork_segments@.len() implies points_inside(#[trigger] fork_segments@[s]@, MAX_DIM as int, MAX_DIM as int) by {
        assert(points_inside(fork_segments@[s]@, w, h));
    }
    assert(points_inside(main_segment@, MAX_DIM as int, MAX_DIM as int));
    assert(empty@ =~= Seq::<usize>::empty());
    let ghost mut trace: Seq<ConnectorRecord> = Seq::empty();
    let mut t: usize = 0;
    while t < connector_targets.len()
        invariant
            1 <= width_i <= MAX_DIM,
            1 <= height_i <= MAX_DIM,
            w == width_i,
            h == height_i,
            areas_inside(areas@, w, h),
            areas_inside(areas@, MAX_DIM as int, MAX_DIM as int),
            areas@.len() > 0,
            empty@ == Seq::<usize>::empty(),
            trunk == main_segment@,
            branches == views(fork_segments@),
            targets == connector_targets@,
            fork_point == trunk.last(),
            points_inside(main_segment@, MAX_DIM as int, MAX_DIM as int),
            forall|s: int| 0 <= s < fork_segments@.len() ==> points_inside(#[trigger] fork_segments@[s]@, MAX_DIM as int, MAX_DIM as int),
            forall|i: int| 0 <= i < connector_targets@.len() ==> in_grid((#[trigger] connector_targets@[i]).0.0 as int, connector_targets@[i].0.1 as int, w, h),
            t <= connector_targets@.len(),
            segments_inside(paths@, w, h),
            radii_ok(paths@),
            start_len <= paths@.len(),
            paths@.subrange(0, start_len as int) == start_paths,
            forall|i: int| start_len <= i < paths@.len() ==> (#[trigger] paths@[i]).radius == CONNECTOR_RADIUS,
            trace.len() == t,
            t == 0 ==> used_areas@ == Seq::<usize>::empty(),
            t > 0 ==> used_areas@ == next_used(trace[t - 1].0, trace[t - 1].1),
            forall|tt: int| 0 <= tt < t ==> area_pick(areas@, targets[tt].0, #[trigger] trace[tt].0, trace[tt].1),
            forall|tt: int| 0 <= tt < t - 1 ==> #[trigger] trace[tt + 1].0 == next_used(trace[tt].0, trace[tt].1),
            t > 0 ==> trace[0].0 == Seq::<usize>::empty(),
            forall|tt: int| 0 <= tt < t ==> match (#[trigger] trace[tt]).1 {
                Some(i) => role_end(targets[tt].1, center(areas@[i as int]), trunk, branches, trace[tt].2) && (trace[tt].2 is Some ==> connector_walk(
                    areas@,
                    i as int,
                    trace[tt].3,
                    center(areas@[i as int]),
                    trace[tt].2->0,
                    w,
                    h,
                )),
                None => trace[tt].2 is None,
            },
            paths@.subrange(start_len as int, paths@.len() as int) == trace_runs(trace, t as int),
        decreases connector_targets@.len() - t,
    {
        let (target_point, target) = connector_targets[t];
        assert(in_grid(connector_targets@[t as int].0.0 as int, connector_targets@[t as int].0.1 as int, w, h));
        let ghost used_before = used_areas@;
        let first = find_nearest_area_index(areas, target_point, &used_areas);
        let area_index = match first {
            Some(i) => Some(i),
            None => find_nearest_area_index(areas, target_point, &empty),
        };
        proof {
            assert(targets[t as int].0 == target_point);
            assert(!empty@.contains(0usize));
            match first {
                Some(i) => {},
                None => {
                    assert(area_index is Some);
                },
            }
            assert(area_pick(areas@, target_point, used_before, area_index));
        }
        let ghost before = paths@;
        let ghost mut end_opt: Option<(i32, i32)> = None;
        let ghost mut walk: Seq<(i32, i32)> = Seq::empty();
        if let Some(area_index) = area_index {
            if !contains_index(&used_areas, area_index) {
                used_areas.push(area_index);
            }
            let area = areas[area_index];
            assert(areas@[area_index as int].inside(w, h));
            let start = (area.center_x, area.center_y);
            let end = match target {
                ConnectorTarget::LeftFork | ConnectorTarget::RightFork => {
                    let e = find_nearest_point_on_segments(fork_segments, start);
                    proof {
                        match e {
                            Some(p) => lemma_segments_view(fork_segments@, start, p),
                            None => {
                                assert forall|s: int| 0 <= s < branches.len() implies (#[trigger] branches[s]).len() == 0 by {
                                    assert(branches[s] == fork_segments@[s]@);
                                }
                            },
                        }
                    }
                    e
                },
                ConnectorTarget::MainPath => find_nearest_point(main_segment, start),
                ConnectorTarget::ForkPoint => Some(fork_point),
            };
            proof {
                end_opt = end;
                assert(role_end(target, center(areas@[area_index as int]), trunk, branches, end_opt));
            }
            if let Some(end) = end {
                let connector_points = carve_connector_points(start, end, width_i, height_i, rng, areas, area_index);
                append_runs(paths, &connector_points, CONNECTOR_RADIUS, width_i, height_i);
                proof {
                    walk = connector_points@;
                    lemma_runs_radius(connector_points@, 0, CONNECTOR_RADIUS);
                    assert(paths@.subrange(0, start_len as int) =~= before.subrange(0, start_len as int));
                    assert forall|i: int| start_len <= i < paths@.len() implies (#[trigger] paths@[i]).radius == CONNECTOR_RADIUS by {
                        if i < before.len() {
                            assert(paths@[i] == before[i]);
                        } else {
                            assert(paths@[i] == runs_from(connector_points@, 0, CONNECTOR_RADIUS)[i - before.len()]);
                        }
                    }
                    assert(paths@.subrange(start_len as int, paths@.len() as int) =~= before.subrange(start_len as int, before.len() as int)
                        + runs_from(walk, 0, CONNECTOR_RADIUS));
                    assert(connector_walk(areas@, area_index as int, walk, center(areas@[area_index as int]), end, w, h));
                }
            }
        }
        proof {
            let old_trace = trace;
            let rec: ConnectorRecord = (used_before, area_index, end_opt, walk);
            trace = old_trace.push(rec);
            assert(area_pick(areas@, targets[t as int].0, used_before, area_index));
            assert(used_areas@ =~= next_used(used_before, area_index));
            lemma_trace_runs_prefix(old_trace, trace, t as int);
            assert(trace[t as int] == rec);
            assert forall|tt: int| 0 <= tt < t + 1 implies area_pick(areas@, targets[tt].0, #[trigger] trace[tt].0, trace[tt].1) by {
                if tt < t {
                    assert(trace[tt] == old_trace[tt]);
                }
            }
            assert forall|tt: int| 0 <= tt < t implies #[trigger] trace[tt + 1].0 == next_used(trace[tt].0, trace[tt].1) by {
                assert(trace[tt] == old_trace[tt]);
                if tt + 1 < t {
                    assert(trace[tt + 1] == old_trace[tt + 1]);
                }
            }
            assert forall|tt: int| 0 <= tt < t + 1 implies match (#[trigger] trace[tt]).1 {
                Some(i) => role_end(targets[tt].1, center(areas@[i as int]), trunk, branches, trace[tt].2) && (trace[tt].2 is Some ==> connector_walk(
                    areas@,
                    i as int,
                    trace[tt].3,
                    center(areas@[i as int]),
                    trace[tt].2->0,
                    w,
                    h,
                )),
                None => trace[tt].2 is None,
            } by {
                if tt < t {
                    assert(trace[tt] == old_trace[tt]);
                }
            }
            if t == 0 {
                assert(trace[0].0 == Seq::<usize>::empty());
            } else {
                assert(trace[0] == old_trace[0]);
            }
        }
        t += 1;
    }
    proof {
        assert forall|tt: int| 0 <= tt < trace.len() implies #[trigger] connector_trace_step(areas@, targets, trunk, branches, w, h, trace, tt) by {
            assert(area_pick(areas@, targets[tt].0, trace[tt].0, trace[tt].1));
            if tt + 1 < trace.len() {
                assert(trace[tt + 1].0 == next_used(trace[tt].0, trace[tt].1));
            }
        }
        assert(connector_trace(areas@, targets, trunk, branches, w, h, trace));
    }
}

/// `paths` is the corridor runs of a network carved from the configured
/// entry to the configured fork and on to each exit, round `areas`,
/// followed by connector runs only.
pub open spec fn carved_from(paths: Seq<PathSegment>, areas: Seq<MapArea>, config: MapSkeletonConfig, width: int, height: int) -> bool {
    exists|trunk: Seq<(i32, i32)>, branches: Seq<Seq<(i32, i32)>>|
        #[trigger] network_shape(
            trunk,
            branches,
            resolved(config.entry, width, height),
            resolved(config.fork, width, height),
            exit_cells(config, width, height),
            width,
            height,
        ) && network_avoids(trunk, branches, areas) && network_settled(
            trunk,
            branches,
            resolved(config.fork, width, height),
            exit_cells(config, width, height),
            areas,
            width,
            height,
        ) && (areas.len() == 0 || network_reached(trunk, branches, resolved(config.fork, width, height), exit_cells(config, width, height)))
            && network_runs(trunk, branches).len() <= paths.len() && paths.subrange(
            0,
            network_runs(trunk, branches).len() as int,
        ) == network_runs(trunk, branches) && (forall|i: int|
            network_runs(trunk, branches).len() <= i < paths.len() ==> (#[trigger] paths[i]).radius == CONNECTOR_RADIUS) && (areas.len()
            == 0 ==> paths.len() == network_runs(trunk, branches).len()) && (areas.len() > 0 ==> exists|trace: Seq<ConnectorRecord>|
            #[trigger] connector_trace(areas, connector_targets_of(config, width, height), trunk, branches, width, height, trace)
                && paths.subrange(network_runs(trunk, branches).len() as int, paths.len() as int) == trace_runs(trace, trace.len() as int))
}

/// Generates a skeleton on a `width` x `height` grid: areas placed near their
/// anchors, the trunk and branches carved round them (see `carve_network`),
/// each walk compressed into straight runs, water channels from the docks,
/// and, while any area is left, one connector per connector role from the
/// nearest unused area into the network. A zero side gives an empty skeleton.
pub fn generate_map_skeleton_with_config(width: u32, height: u32, rng: &mut StdRng, config: &MapSkeletonConfig) -> (r: MapSkeleton)
    requires
        width == 0 || height == 0 || (width <= MAX_DIM && height <= MAX_DIM),
    ensures
        width == 0 || height == 0 ==> r.paths@.len() == 0 && r.areas@.len() == 0 && r.water_paths@.len() == 0,
        width == 0 || height == 0 ==> *final(rng) == *old(rng),
        segments_inside(r.paths@, width as int, height as int),
        segments_inside(r.water_paths@, width as int, height as int),
        radii_ok(r.paths@),
        forall|i: int| 0 <= i < r.water_paths@.len() ==> (#[trigger] r.water_paths@[i]).radius == CONNECTOR_RADIUS,
        areas_inside(r.areas@, width as int, height as int),
        areas_disjoint(r.areas@),
        r.areas@.len() <= config.areas@.len(),
        width > 0 && height > 0 ==> carved_from(r.paths@, r.areas@, *config, width as int, height as int),
        width > 0 && height > 0 ==> dock_channels(r.water_paths@, r.areas@, width as int, height as int),
        width > 0 && height > 0 ==> exists|origin: Seq<int>, placed: Seq<MapArea>|
            #[trigger] placement_story(placed, config.areas@, origin, width as int, height as int, config.areas@.len() as int) && (
            r.areas@.len() == 0 || exists|k: nat| k < 6 && r.areas@ == #[trigger] shrunk_times(placed, k)),
{
    if width == 0 || height == 0 {
        return MapSkeleton { paths: Vec::new(), areas: Vec::new(), water_paths: Vec::new() };
    }
    let width_i = width as i32;
    let height_i = height as i32;
    let entry = resolve_point(config.entry, width_i, height_i);
    let fork = resolve_point(config.fork, width_i, height_i);
    let mut exit_points: Vec<(i32, i32)> = Vec::new();
    let mut e: usize = 0;
    while e < config.exits.len()
        invariant
            1 <= width_i <= MAX_DIM,
            1 <= height_i <= MAX_DIM,
            e <= config.exits@.len(),
            exit_points@.len() == e,
            forall|i: int| 0 <= i < e ==> #[trigger] exit_points@[i] == resolved(config.exits@[i], width_i as int, height_i as int),
        decreases config.exits@.len() - e,
    {
        exit_points.push(resolve_point(config.exits[e], width_i, height_i));
        e += 1;
    }
    if exit_points.len() == 0 {
        exit_points.push((0, height_i / 2));
    }
    assert(exit_points@ =~= exit_cells(*config, width_i as int, height_i as int));
    assert(entry == resolved(config.entry, width_i as int, height_i as int));
    assert(fork == resolved(config.fork, width_i as int, height_i as int));

    let mut areas = build_areas(width_i, height_i, rng, &config.areas);
    let ghost placed = areas@;
    let (main_segment, fork_segments) = carve_network(width_i, height_i, rng, entry, fork, &exit_points, &mut areas);
    let ghost kept = areas@;
    let ghost trunk = main_segment@;
    let ghost branches = views(fork_segments@);
    assert(walk_from(trunk, entry, fork, width_i as int, height_i as int));

    let mut paths: Vec<PathSegment> = Vec::new();
    append_runs(&mut paths, &main_segment, PATH_RADIUS, width_i, height_i);
    assert(paths@ =~= runs_from(trunk, 0, PATH_RADIUS) + branch_runs(branches.subrange(0, 0)));
    let mut b: usize = 0;
    while b < fork_segments.len()
        invariant
            1 <= width_i <= MAX_DIM,
            1 <= height_i <= MAX_DIM,
            branches == views(fork_segments@),
            network_shape(trunk, branches, entry, fork, exit_points@, width_i as int, height_i as int),
            b <= fork_segments@.len(),
            segments_inside(paths@, width_i as int, height_i as int),
            radii_ok(paths@),
            paths@ == runs_from(trunk, 0, PATH_RADIUS) + branch_runs(branches.subrange(0, b as int)),
        decreases fork_segments@.len() - b,
    {
        assert(branches[b as int] == fork_segments@[b as int]@);
        assert(walk_from(branches[b as int], trunk.last(), exit_points@[b as int], width_i as int, height_i as int));
        let ghost before = paths@;
        append_runs(&mut paths, &fork_segments[b], PATH_RADIUS, width_i, height_i);
        proof {
            let next = branches.subrange(0, b + 1);
            assert(next.drop_last() =~= branches.subrange(0, b as int));
            assert(next.last() == fork_segments@[b as int]@);
            assert(paths@ =~= runs_from(trunk, 0, PATH_RADIUS) + branch_runs(next));
        }
        b += 1;
    }
    assert(branches.subrange(0, fork_segments@.len() as int) =~= branches);
    let ghost corridor_len = paths@.len();
    assert(paths@ == network_runs(trunk, branches));

    let water_paths = build_dock_paths(width_i, height_i, &areas, rng);

    let ghost net_paths = paths@;
    let connector_targets = connector_targets_from_config(config, width_i, height_i);
    assert(connector_targets@ =~= connector_targets_of(*config, width_i as int, height_i as int));
    if areas.len() > 0 {
        assert forall|s: int| 0 <= s < fork_segments@.len() implies points_inside(#[trigger] fork_segments@[s]@, width_i as int, height_i as int) by {
            assert(branches[s] == fork_segments@[s]@);
            assert(walk_from(branches[s], trunk.last(), exit_points@[s], width_i as int, height_i as int));
        }
        add_connectors(&mut paths, &areas, &connector_targets, &main_segment, &fork_segments, width_i, height_i, rng);
    }
    proof {
        assert(areas@ == kept);
        assert(width_i as int == width as int && height_i as int == height as int);
        assert(paths@.subrange(0, corridor_len as int) == network_runs(trunk, branches)) by {
            if paths@.len() == corridor_len {
                assert(paths@.subrange(0, corridor_len as int) =~= paths@);
            }
        }
        assert(network_shape(trunk, branches, resolved(config.entry, width_i as int, height_i as int), resolved(config.fork, width_i as int,
            height_i as int), exit_cells(*config, width_i as int, height_i as int), width_i as int, height_i as int));
        if areas@.len() == 0 {
            assert(paths@ == net_paths);
        }
    }
    let r = MapSkeleton { paths, areas, water_paths };
    proof {
        assert(r.areas@ == kept);
        let origin = choose|origin: Seq<int>|
            placement_story(placed, config.areas@, origin, width_i as int, height_i as int, config.areas@.len() as int);
        assert(placement_story(placed, config.areas@, origin, width as int, height as int, config.areas@.len() as int));
        if r.areas@.len() != 0 {
            let k = choose|k: nat| k < 6 && kept == #[trigger] shrunk_times(placed, k);
            lemma_shrunk_times_len(placed, k);
            assert(r.areas@ == shrunk_times(placed, k));
        }
        assert(r.areas@.len() <= config.areas@.len()) by {
            if r.areas@.len() != 0 {
                let k = choose|k: nat| k < 6 && kept == #[trigger] shrunk_times(placed, k);
                lemma_shrunk_times_len(placed, k);
            }
        }
    }
    r
}

/// What the generator returns can be drawn: its segments and areas meet
/// what `rasterize_layout` asks of a skeleton.
pub proof fn lemma_skeleton_drawable(skeleton: MapSkeleton, width: int, height: int)
    requires
        0 <= width <= MAX_DIM,
        0 <= height <= MAX_DIM,
        segments_inside(skeleton.paths@, width, height),
        segments_inside(skeleton.water_paths@, width, height),
        radii_ok(skeleton.paths@),
        forall|i: int| 0 <= i < skeleton.water_paths@.len() ==> (#[trigger] skeleton.water_paths@[i]).radius == CONNECTOR_RADIUS,
        areas_inside(skeleton.areas@, width, height),
    ensures
        forall|i: int| 0 <= i < skeleton.paths@.len() ==> seg_bounded(#[trigger] skeleton.paths@[i]),
        forall|i: int| 0 <= i < skeleton.water_paths@.len() ==> seg_bounded(#[trigger] skeleton.water_paths@[i]),
        forall|i: int| 0 <= i < skeleton.areas@.len() ==> area_bounded(#[trigger] skeleton.areas@[i]),
{
    assert forall|i: int| 0 <= i < skeleton.paths@.len() implies seg_bounded(#[trigger] skeleton.paths@[i]) by {
        assert(skeleton.paths@[i].ends_inside(width, height));
    }
    assert forall|i: int| 0 <= i < skeleton.water_paths@.len() implies seg_bounded(#[trigger] skeleton.water_paths@[i]) by {
        assert(skeleton.water_paths@[i].ends_inside(width, height));
    }
    assert forall|i: int| 0 <= i < skeleton.areas@.len() implies area_bounded(#[trigger] skeleton.areas@[i]) by {
        assert(skeleton.areas@[i].inside(width, height));
    }
}

/// The corridors of a generated skeleton are connected: they are the runs of
/// a network every cell of which can be reached from the entry through the
/// network; the fork is reached wherever the trunk got there, and each exit
/// wherever its branch got there, which is always so while areas are kept.
pub proof fn lemma_generated_network_connected(
    paths: Seq<PathSegment>,
    areas: Seq<MapArea>,
    config: MapSkeletonConfig,
    width: int,
    height: int,
)
    requires
        carved_from(paths, areas, config, width, height),
    ensures
        exists|trunk: Seq<(i32, i32)>, branches: Seq<Seq<(i32, i32)>>|
            #[trigger] network_runs(trunk, branches).len() <= paths.len() && paths.subrange(0, network_runs(trunk, branches).len() as int)
                == network_runs(trunk, branches) && (forall|p: (i32, i32)|
                #[trigger] network_cells(trunk, branches).contains(p) ==> reachable(
                    network_cells(trunk, branches),
                    resolved(config.entry, width, height),
                    p,
                )) && (trunk.last() == resolved(config.fork, width, height) ==> reachable(
                network_cells(trunk, branches),
                resolved(config.entry, width, height),
                resolved(config.fork, width, height),
            )) && (forall|i: int|
                0 <= i < exit_cells(config, width, height).len() && (#[trigger] branches[i]).last() == exit_cells(config, width, height)[i]
                    ==> reachable(network_cells(trunk, branches), resolved(config.entry, width, height), exit_cells(config, width, height)[i]))
                && (areas.len() == 0 || network_reached(trunk, branches, resolved(config.fork, width, height), exit_cells(config, width, height))),
{
    let entry = resolved(config.entry, width, height);
    let fork = resolved(config.fork, width, height);
    let exits = exit_cells(config, width, height);
    let (trunk, branches) = choose|trunk: Seq<(i32, i32)>, branches: Seq<Seq<(i32, i32)>>|
        #[trigger] network_shape(trunk, branches, entry, fork, exits, width, height) && network_avoids(trunk, branches, areas)
            && network_settled(trunk, branches, fork, exits, areas, width, height) && (areas.len() == 0 || network_reached(
            trunk,
            branches,
            fork,
            exits,
        )) && network_runs(trunk, branches).len() <= paths.len() && paths.subrange(0, network_runs(trunk, branches).len() as int)
            == network_runs(trunk, branches) && forall|i: int|
            network_runs(trunk, branches).len() <= i < paths.len() ==> (#[trigger] paths[i]).radius == CONNECTOR_RADIUS;
    assert forall|p: (i32, i32)| #[trigger] network_cells(trunk, branches).contains(p) implies reachable(network_cells(trunk, branches), entry, p) by {
        lemma_network_connected(trunk, branches, entry, fork, exits, width, height, p);
    }
    lemma_network_reaches_targets(trunk, branches, entry, fork, exits, width, height);
    assert(network_runs(trunk, branches).len() <= paths.len());
}

} // verus!
