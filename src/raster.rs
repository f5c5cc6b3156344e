//! Turning a skeleton into a grid of base tiles.

use crate::carve::sign;
use crate::layout::{in_circle, in_grid, AreaType, MapArea, MapSkeleton, PathSegment, MAX_DIM};
use crate::occupancy::{lemma_cell_index, lemma_grid_size};
use crate::placement::abs;
use vstd::prelude::*;

verus! {

/// The kind of ground a map cell shows.
#[derive(Clone, Copy, Debug, PartialEq, Eq, Structural)]
pub enum BaseTile {
    Grass,
    Dirt,
    Path,
    Water,
}

/// The tile of cell `(x, y)` in a row-major grid of width `w`.
pub open spec fn tile(cells: Seq<BaseTile>, w: int, x: int, y: int) -> BaseTile {
    cells[y * w + x]
}

/// A grid of `width` x `height` tiles.
pub open spec fn is_grid(cells: Seq<BaseTile>, width: int, height: int) -> bool {
    cells.len() == width * height
}

/// A segment whose coordinates and radius stay within the grid sizes the
/// library handles.
pub open spec fn seg_bounded(seg: PathSegment) -> bool {
    &&& -MAX_DIM <= seg.start_x <= MAX_DIM
    &&& -MAX_DIM <= seg.start_y <= MAX_DIM
    &&& -MAX_DIM <= seg.end_x <= MAX_DIM
    &&& -MAX_DIM <= seg.end_y <= MAX_DIM
    &&& -MAX_DIM <= seg.radius <= MAX_DIM
}

pub open spec fn seg_dx(seg: PathSegment) -> int {
    sign(seg.end_x - seg.start_x)
}

pub open spec fn seg_dy(seg: PathSegment) -> int {
    sign(seg.end_y - seg.start_y)
}

/// How many unit steps a segment is stamped with, beyond its first cell.
pub open spec fn seg_steps(seg: PathSegment) -> int {
    abs(seg.end_x - seg.start_x) + abs(seg.end_y - seg.start_y)
}

/// A corridor is two cells wide if its radius is at least one, else one.
pub open spec fn path_width(seg: PathSegment) -> int {
    if seg.radius >= 1 {
        2
    } else {
        1
    }
}

pub open spec fn stamp_x(seg: PathSegment, s: int) -> int {
    seg.start_x + seg_dx(seg) * s
}

pub open spec fn stamp_y(seg: PathSegment, s: int) -> int {
    seg.start_y + seg_dy(seg) * s
}

/// Cell `(x, y)` is corridor at stamp `s`: the corridor runs across the
/// segment's horizontal direction when it has one, else across the vertical.
pub open spec fn on_path_at(seg: PathSegment, s: int, x: int, y: int) -> bool {
    if seg_dx(seg) != 0 {
        x == stamp_x(seg, s) && stamp_y(seg, s) <= y < stamp_y(seg, s) + path_width(seg)
    } else {
        y == stamp_y(seg, s) && stamp_x(seg, s) <= x < stamp_x(seg, s) + path_width(seg)
    }
}

/// Cell `(x, y)` is the dirt verge on either side of stamp `s`.
pub open spec fn on_border_at(seg: PathSegment, s: int, x: int, y: int) -> bool {
    if seg_dx(seg) != 0 {
        x == stamp_x(seg, s) && (y == stamp_y(seg, s) - 1 || y == stamp_y(seg, s) + path_width(seg))
    } else {
        y == stamp_y(seg, s) && (x == stamp_x(seg, s) - 1 || x == stamp_x(seg, s) + path_width(seg))
    }
}

pub open spec fn on_path(seg: PathSegment, n: int, x: int, y: int) -> bool {
    exists|s: int| 0 <= s < n && #[trigger] on_path_at(seg, s, x, y)
}

pub open spec fn on_border(seg: PathSegment, n: int, x: int, y: int) -> bool {
    exists|s: int| 0 <= s < n && #[trigger] on_border_at(seg, s, x, y)
}

/// What the first `n` stamps of `seg` make of a cell that showed `t`:
/// corridor cells become path; verge cells that were grass become dirt.
pub open spec fn painted(t: BaseTile, seg: PathSegment, n: int, x: int, y: int) -> BaseTile {
    if on_path(seg, n, x, y) {
        BaseTile::Path
    } else if on_border(seg, n, x, y) && t == BaseTile::Grass {
        BaseTile::Dirt
    } else {
        t
    }
}

pub open spec fn near(cx: int, cy: int, r: int, x: int, y: int) -> bool {
    abs(x - cx) <= r && abs(y - cy) <= r
}

/// Cell `(x, y)` is within `r` cells, in both axes, of one of the first `n`
/// stamps of `seg`.
pub open spec fn near_stamp(seg: PathSegment, r: int, n: int, x: int, y: int) -> bool {
    exists|s: int| 0 <= s < n && #[trigger] near(stamp_x(seg, s), stamp_y(seg, s), r, x, y)
}

pub open spec fn water_radius(seg: PathSegment) -> int {
    if seg.radius > 2 {
        seg.radius as int
    } else {
        2
    }
}

/// Water over a cell that showed `t` unless it is dirt or path.
pub open spec fn flooded(t: BaseTile, covered: bool) -> BaseTile {
    if covered && t != BaseTile::Dirt && t != BaseTile::Path {
        BaseTile::Water
    } else {
        t
    }
}

/// Sets one tile: out-of-grid cells are ignored, and without `overwrite`
/// only grass is replaced.
pub fn set_tile(width: u32, height: u32, x: i32, y: i32, t: BaseTile, cells: &mut Vec<BaseTile>, overwrite: bool)
    requires
        width <= MAX_DIM,
        height <= MAX_DIM,
        is_grid(old(cells)@, width as int, height as int),
    ensures
        is_grid(final(cells)@, width as int, height as int),
        forall|x2: int, y2: int|
            in_grid(x2, y2, width as int, height as int) ==> #[trigger] tile(final(cells)@, width as int, x2, y2) == if x2 == x && y2 == y
                && (overwrite || tile(old(cells)@, width as int, x2, y2) == BaseTile::Grass) {
                t
            } else {
                tile(old(cells)@, width as int, x2, y2)
            },
{
    proof {
        assert forall|x2: int, y2: int| in_grid(x2, y2, width as int, height as int) implies 0 <= #[trigger] (y2 * width + x2) < width * height by {
            lemma_cell_index(width as int, height as int, x2, y2);
        }
    }
    if x < 0 || y < 0 {
        return;
    }
    let xu = x as u32;
    let yu = y as u32;
    if xu >= width || yu >= height {
        return;
    }
    proof {
        lemma_cell_index(width as int, height as int, x as int, y as int);
        lemma_grid_size(width as int, height as int);
    }
    let idx = (yu * width + xu) as usize;
    if overwrite || cells[idx] == BaseTile::Grass {
        cells.set(idx, t);
    }
}

/// What one stamp does to a cell that showed `t`.
pub open spec fn stamped(t: BaseTile, seg: PathSegment, s: int, x: int, y: int) -> BaseTile {
    if on_path_at(seg, s, x, y) {
        BaseTile::Path
    } else if on_border_at(seg, s, x, y) && t == BaseTile::Grass {
        BaseTile::Dirt
    } else {
        t
    }
}

proof fn lemma_painted_step(t_old: BaseTile, seg: PathSegment, s: int, x: int, y: int)
    requires
        s >= 0,
    ensures
        stamped(painted(t_old, seg, s, x, y), seg, s, x, y) == painted(t_old, seg, s + 1, x, y),
{
    if on_path_at(seg, s, x, y) {
        assert(on_path(seg, s + 1, x, y));
    } else {
        if on_path(seg, s, x, y) {
            let w = choose|w: int| 0 <= w < s && #[trigger] on_path_at(seg, w, x, y);
            assert(on_path(seg, s + 1, x, y));
        } else {
            assert(!on_path(seg, s + 1, x, y)) by {
                if on_path(seg, s + 1, x, y) {
                    let w = choose|w: int| 0 <= w < s + 1 && #[trigger] on_path_at(seg, w, x, y);
                    assert(on_path(seg, s, x, y));
                }
            }
            if on_border_at(seg, s, x, y) {
                assert(on_border(seg, s + 1, x, y));
            } else if on_border(seg, s, x, y) {
                let w = choose|w: int| 0 <= w < s && #[trigger] on_border_at(seg, w, x, y);
                assert(on_border(seg, s + 1, x, y));
            } else {
                assert(!on_border(seg, s + 1, x, y)) by {
                    if on_border(seg, s + 1, x, y) {
                        let w = choose|w: int| 0 <= w < s + 1 && #[trigger] on_border_at(seg, w, x, y);
                        assert(on_border(seg, s, x, y));
                    }
                }
            }
        }
    }
}

/// Stamps one point of a segment: its corridor cells become path, and the
/// verge on either side becomes dirt where it is grass.
fn stamp_point(width: u32, height: u32, segment: &PathSegment, step: i32, cells: &mut Vec<BaseTile>)
    requires
        width <= MAX_DIM,
        height <= MAX_DIM,
        is_grid(old(cells)@, width as int, height as int),
        seg_bounded(*segment),
        0 <= step <= seg_steps(*segment),
    ensures
        is_grid(final(cells)@, width as int, height as int),
        forall|x: int, y: int|
            in_grid(x, y, width as int, height as int) ==> #[trigger] tile(final(cells)@, width as int, x, y) == stamped(
                tile(old(cells)@, width as int, x, y),
                *segment,
                step as int,
                x,
                y,
            ),
{
    let ghost w = width as int;
    let ghost c0 = cells@;
    let dx: i32 = if segment.end_x > segment.start_x { 1 } else if segment.end_x < segment.start_x { -1 } else { 0 };
    let dy: i32 = if segment.end_y > segment.start_y { 1 } else if segment.end_y < segment.start_y { -1 } else { 0 };
    let x = segment.start_x + dx * step;
    let y = segment.start_y + dy * step;
    assert(x == stamp_x(*segment, step as int) && y == stamp_y(*segment, step as int));
    let path_w: i32 = if segment.radius >= 1 { 2 } else { 1 };
    if dx != 0 {
        set_tile(width, height, x, y, BaseTile::Path, cells, true);
        if path_w == 2 {
            set_tile(width, height, x, y + 1, BaseTile::Path, cells, true);
        }
        set_tile(width, height, x, y - 1, BaseTile::Dirt, cells, false);
        set_tile(width, height, x, y + path_w, BaseTile::Dirt, cells, false);
        assert forall|x2: int, y2: int| in_grid(x2, y2, width as int, height as int) implies #[trigger] tile(cells@, w, x2, y2) == stamped(
            tile(c0, w, x2, y2), *segment, step as int, x2, y2) by {
        }
    } else {
        set_tile(width, height, x, y, BaseTile::Path, cells, true);
        if path_w == 2 {
            set_tile(width, height, x + 1, y, BaseTile::Path, cells, true);
        }
        set_tile(width, height, x - 1, y, BaseTile::Dirt, cells, false);
        set_tile(width, height, x + path_w, y, BaseTile::Dirt, cells, false);
        assert forall|x2: int, y2: int| in_grid(x2, y2, width as int, height as int) implies #[trigger] tile(cells@, w, x2, y2) == stamped(
            tile(c0, w, x2, y2), *segment, step as int, x2, y2) by {
        }
    }
}

/// Draws a corridor segment: at each of its stamps the corridor cells become
/// path and the grass beside them dirt.
pub fn rasterize_segment(width: u32, height: u32, segment: &PathSegment, cells: &mut Vec<BaseTile>)
    requires
        width <= MAX_DIM,
        height <= MAX_DIM,
        is_grid(old(cells)@, width as int, height as int),
        seg_bounded(*segment),
    ensures
        is_grid(final(cells)@, width as int, height as int),
        forall|x: int, y: int|
            in_grid(x, y, width as int, height as int) ==> #[trigger] tile(final(cells)@, width as int, x, y) == painted(
                tile(old(cells)@, width as int, x, y),
                *segment,
                seg_steps(*segment) + 1,
                x,
                y,
            ),
{
    let ghost w = width as int;
    let ghost c0 = cells@;
    let ax: i32 = if segment.end_x >= segment.start_x { segment.end_x - segment.start_x } else { segment.start_x - segment.end_x };
    let ay: i32 = if segment.end_y >= segment.start_y { segment.end_y - segment.start_y } else { segment.start_y - segment.end_y };
    let steps = ax + ay;
    let mut step: i32 = 0;
    assert forall|x: int, y: int| in_grid(x, y, width as int, height as int) implies #[trigger] tile(cells@, w, x, y) == painted(
        tile(c0, w, x, y), *segment, 0, x, y) by {
    }
    while step <= steps
        invariant
            width <= MAX_DIM,
            height <= MAX_DIM,
            w == width,
            is_grid(cells@, width as int, height as int),
            is_grid(c0, width as int, height as int),
            seg_bounded(*segment),
            steps == seg_steps(*segment),
            0 <= step <= steps + 1,
            forall|x: int, y: int| in_grid(x, y, width as int, height as int) ==> #[trigger] tile(cells@, w, x, y) == painted(
                tile(c0, w, x, y), *segment, step as int, x, y),
        decreases steps + 1 - step,
    {
        let ghost before = cells@;
        stamp_point(width, height, segment, step, cells);
        assert forall|x: int, y: int| in_grid(x, y, width as int, height as int) implies #[trigger] tile(cells@, w, x, y) == painted(
            tile(c0, w, x, y), *segment, step + 1, x, y) by {
            assert(tile(before, w, x, y) == painted(tile(c0, w, x, y), *segment, step as int, x, y));
            lemma_painted_step(tile(c0, w, x, y), *segment, step as int, x, y);
        }
        step += 1;
    }
}

/// Floods every grid cell within `r` of `(cx, cy)` in both axes, but dirt
/// and path.
fn flood_square(width: u32, height: u32, cx: i32, cy: i32, r: i32, cells: &mut Vec<BaseTile>)
    requires
        width <= MAX_DIM,
        height <= MAX_DIM,
        is_grid(old(cells)@, width as int, height as int),
        -5 * MAX_DIM <= cx <= 5 * MAX_DIM,
        -5 * MAX_DIM <= cy <= 5 * MAX_DIM,
        0 <= r <= MAX_DIM,
    ensures
        is_grid(final(cells)@, width as int, height as int),
        forall|x: int, y: int|
            in_grid(x, y, width as int, height as int) ==> #[trigger] tile(final(cells)@, width as int, x, y) == flooded(
                tile(old(cells)@, width as int, x, y),
                near(cx as int, cy as int, r as int, x, y),
            ),
{
    let ghost w = width as int;
    let ghost c0 = cells@;
    let mut ny = cy - r;
    while ny <= cy + r
        invariant
            width <= MAX_DIM,
            height <= MAX_DIM,
            w == width,
            is_grid(cells@, width as int, height as int),
            -5 * MAX_DIM <= cx <= 5 * MAX_DIM,
            -5 * MAX_DIM <= cy <= 5 * MAX_DIM,
            0 <= r <= MAX_DIM,
            cy - r <= ny <= cy + r + 1,
            forall|x: int, y: int| in_grid(x, y, width as int, height as int) ==> #[trigger] tile(cells@, w, x, y) == flooded(
                tile(c0, w, x, y), near(cx as int, cy as int, r as int, x, y) && y < ny),
        decreases cy + r + 1 - ny,
    {
        let mut nx = cx - r;
        while nx <= cx + r
            invariant
                width <= MAX_DIM,
                height <= MAX_DIM,
                w == width,
                is_grid(cells@, width as int, height as int),
                -5 * MAX_DIM <= cx <= 5 * MAX_DIM,
                -5 * MAX_DIM <= cy <= 5 * MAX_DIM,
                0 <= r <= MAX_DIM,
                cy - r <= ny <= cy + r,
                cx - r <= nx <= cx + r + 1,
                forall|x: int, y: int| in_grid(x, y, width as int, height as int) ==> #[trigger] tile(cells@, w, x, y) == flooded(
                    tile(c0, w, x, y), near(cx as int, cy as int, r as int, x, y) && (y < ny || (y == ny && x < nx))),
            decreases cx + r + 1 - nx,
        {
            let ghost prev = cells@;
            if nx >= 0 && ny >= 0 && (nx as u32) < width && (ny as u32) < height {
                proof {
                    lemma_cell_index(w, height as int, nx as int, ny as int);
                    lemma_grid_size(w, height as int);
                }
                let idx = ((ny as u32) * width + (nx as u32)) as usize;
                if cells[idx] != BaseTile::Dirt && cells[idx] != BaseTile::Path {
                    cells.set(idx, BaseTile::Water);
                }
            }
            proof {
                assert forall|x: int, y: int| in_grid(x, y, width as int, height as int) implies #[trigger] tile(cells@, w, x, y) == flooded(
                    tile(prev, w, x, y), x == nx && y == ny) by {
                    lemma_cell_index(w, height as int, x, y);
                }
            }
            nx += 1;
        }
        ny += 1;
    }
}

/// Floods every grid cell of the disc of radius `r` (at least one) around
/// `(cx, cy)`, but dirt and path.
pub fn fill_water_circle(width: u32, height: u32, center_x: i32, center_y: i32, radius: i32, cells: &mut Vec<BaseTile>)
    requires
        width <= MAX_DIM,
        height <= MAX_DIM,
        is_grid(old(cells)@, width as int, height as int),
        -MAX_DIM <= center_x <= MAX_DIM,
        -MAX_DIM <= center_y <= MAX_DIM,
        radius <= MAX_DIM,
    ensures
        is_grid(final(cells)@, width as int, height as int),
        forall|x: int, y: int|
            in_grid(x, y, width as int, height as int) ==> #[trigger] tile(final(cells)@, width as int, x, y) == flooded(
                tile(old(cells)@, width as int, x, y),
                in_circle(center_x as int, center_y as int, if radius > 1 { radius as int } else { 1 }, x, y),
            ),
{
    let ghost w = width as int;
    let ghost c0 = cells@;
    let radius: i32 = if radius > 1 { radius } else { 1 };
    proof {
        lemma_grid_size(radius as int, radius as int);
    }
    let radius_sq = radius * radius;
    let mut y = center_y - radius;
    assert forall|x2: int, y2: int| y2 < y && in_circle(center_x as int, center_y as int, radius as int, x2, y2) implies false by {
        crate::occupancy::lemma_circle_box(center_x as int, center_y as int, radius as int, x2, y2);
    }
    while y <= center_y + radius
        invariant
            width <= MAX_DIM,
            height <= MAX_DIM,
            w == width,
            is_grid(cells@, width as int, height as int),
            -MAX_DIM <= center_x <= MAX_DIM,
            -MAX_DIM <= center_y <= MAX_DIM,
            1 <= radius <= MAX_DIM,
            radius_sq == radius * radius,
            radius_sq <= MAX_DIM * MAX_DIM,
            center_y - radius <= y <= center_y + radius + 1,
            forall|x2: int, y2: int| in_grid(x2, y2, width as int, height as int) ==> #[trigger] tile(cells@, w, x2, y2) == flooded(
                tile(c0, w, x2, y2), in_circle(center_x as int, center_y as int, radius as int, x2, y2) && y2 < y),
        decreases center_y + radius + 1 - y,
    {
        let mut x = center_x - radius;
        assert forall|x2: int| x2 < x && in_circle(center_x as int, center_y as int, radius as int, x2, y as int) implies false by {
            crate::occupancy::lemma_circle_box(center_x as int, center_y as int, radius as int, x2, y as int);
        }
        while x <= center_x + radius
            invariant
                width <= MAX_DIM,
                height <= MAX_DIM,
                w == width,
                is_grid(cells@, width as int, height as int),
                -MAX_DIM <= center_x <= MAX_DIM,
                -MAX_DIM <= center_y <= MAX_DIM,
                1 <= radius <= MAX_DIM,
                radius_sq == radius * radius,
                radius_sq <= MAX_DIM * MAX_DIM,
                center_y - radius <= y <= center_y + radius,
                center_x - radius <= x <= center_x + radius + 1,
                forall|x2: int, y2: int| in_grid(x2, y2, width as int, height as int) ==> #[trigger] tile(cells@, w, x2, y2) == flooded(
                    tile(c0, w, x2, y2), in_circle(center_x as int, center_y as int, radius as int, x2, y2) && (y2 < y || (y2 == y && x2 < x))),
            decreases center_x + radius + 1 - x,
        {
            let ghost prev = cells@;
            if x >= 0 && y >= 0 && (x as u32) < width && (y as u32) < height {
                let dx = x - center_x;
                let dy = y - center_y;
                assert(0 <= dx * dx <= 0x1000_0000 && 0 <= dy * dy <= 0x1000_0000) by (nonlinear_arith)
                    requires
                        -radius <= dx <= radius,
                        -radius <= dy <= radius,
                        radius <= 0x4000,
                ;
                if dx * dx + dy * dy <= radius_sq {
                    proof {
                        lemma_cell_index(w, height as int, x as int, y as int);
                        lemma_grid_size(w, height as int);
                    }
                    let idx = ((y as u32) * width + (x as u32)) as usize;
                    if cells[idx] != BaseTile::Dirt && cells[idx] != BaseTile::Path {
                        cells.set(idx, BaseTile::Water);
                    }
                }
            }
            proof {
                assert forall|x2: int, y2: int| in_grid(x2, y2, width as int, height as int) implies #[trigger] tile(cells@, w, x2, y2) == flooded(
                    tile(prev, w, x2, y2), x2 == x && y2 == y && in_circle(center_x as int, center_y as int, radius as int, x2, y2)) by {
                    lemma_cell_index(w, height as int, x2, y2);
                }
            }
            x += 1;
        }
        assert forall|x2: int, y2: int| in_grid(x2, y2, width as int, height as int) implies #[trigger] tile(cells@, w, x2, y2) == flooded(
            tile(c0, w, x2, y2), in_circle(center_x as int, center_y as int, radius as int, x2, y2) && y2 < y + 1) by {
            if y2 == y && in_circle(center_x as int, center_y as int, radius as int, x2, y2) {
                crate::occupancy::lemma_circle_box(center_x as int, center_y as int, radius as int, x2, y2);
            }
        }
        y += 1;
    }
    assert forall|x2: int, y2: int| in_grid(x2, y2, width as int, height as int) implies #[trigger] tile(cells@, w, x2, y2) == flooded(
        tile(c0, w, x2, y2), in_circle(center_x as int, center_y as int, radius as int, x2, y2)) by {
        if in_circle(center_x as int, center_y as int, radius as int, x2, y2) {
            crate::occupancy::lemma_circle_box(center_x as int, center_y as int, radius as int, x2, y2);
        }
    }
}

/// Draws a water channel: every cell within the channel's radius (at least
/// two) of one of its stamps becomes water, but dirt and path.
pub fn rasterize_water_segment(width: u32, height: u32, segment: &PathSegment, cells: &mut Vec<BaseTile>)
    requires
        width <= MAX_DIM,
        height <= MAX_DIM,
        is_grid(old(cells)@, width as int, height as int),
        seg_bounded(*segment),
    ensures
        is_grid(final(cells)@, width as int, height as int),
        forall|x: int, y: int|
            in_grid(x, y, width as int, height as int) ==> #[trigger] tile(final(cells)@, width as int, x, y) == flooded(
                tile(old(cells)@, width as int, x, y),
                near_stamp(*segment, water_radius(*segment), seg_steps(*segment) + 1, x, y),
            ),
{
    let ghost w = width as int;
    let ghost c0 = cells@;
    let wr: i32 = if segment.radius > 2 { segment.radius } else { 2 };
    let dx: i32 = if segment.end_x > segment.start_x { 1 } else if segment.end_x < segment.start_x { -1 } else { 0 };
    let dy: i32 = if segment.end_y > segment.start_y { 1 } else if segment.end_y < segment.start_y { -1 } else { 0 };
    let ax: i32 = if segment.end_x >= segment.start_x { segment.end_x - segment.start_x } else { segment.start_x - segment.end_x };
    let ay: i32 = if segment.end_y >= segment.start_y { segment.end_y - segment.start_y } else { segment.start_y - segment.end_y };
    let steps = ax + ay;
    let mut step: i32 = 0;
    while step <= steps
        invariant
            width <= MAX_DIM,
            height <= MAX_DIM,
            w == width,
            is_grid(cells@, width as int, height as int),
            seg_bounded(*segment),
            steps == seg_steps(*segment),
            wr == water_radius(*segment),
            dx == seg_dx(*segment),
            dy == seg_dy(*segment),
            0 <= step <= steps + 1,
            forall|x: int, y: int| in_grid(x, y, width as int, height as int) ==> #[trigger] tile(cells@, w, x, y) == flooded(
                tile(c0, w, x, y), near_stamp(*segment, wr as int, step as int, x, y)),
        decreases steps + 1 - step,
    {
        let x = segment.start_x + dx * step;
        let y = segment.start_y + dy * step;
        let ghost prev = cells@;
        flood_square(width, height, x, y, wr, cells);
        assert forall|x2: int, y2: int| in_grid(x2, y2, width as int, height as int) implies #[trigger] tile(cells@, w, x2, y2) == flooded(
            tile(c0, w, x2, y2), near_stamp(*segment, wr as int, step + 1, x2, y2)) by {
            assert(x == stamp_x(*segment, step as int) && y == stamp_y(*segment, step as int));
            assert(tile(prev, w, x2, y2) == flooded(tile(c0, w, x2, y2), near_stamp(*segment, wr as int, step as int, x2, y2)));
            if near(x as int, y as int, wr as int, x2, y2) {
                assert(near_stamp(*segment, wr as int, step + 1, x2, y2));
            } else if near_stamp(*segment, wr as int, step as int, x2, y2) {
                let s = choose|s: int| 0 <= s < step && #[trigger] near(stamp_x(*segment, s), stamp_y(*segment, s), wr as int, x2, y2);
                assert(near_stamp(*segment, wr as int, step + 1, x2, y2));
            } else {
                assert(!near_stamp(*segment, wr as int, step + 1, x2, y2)) by {
                    if near_stamp(*segment, wr as int, step + 1, x2, y2) {
                        let s = choose|s: int| 0 <= s < step + 1 && #[trigger] near(stamp_x(*segment, s), stamp_y(*segment, s), wr as int, x2, y2);
                        assert(near_stamp(*segment, wr as int, step as int, x2, y2));
                    }
                }
            }
        }
        step += 1;
    }
}

/// A cell that showed `t` after the segments `segs` are drawn in order.
pub open spec fn paint_tile(t: BaseTile, segs: Seq<PathSegment>, x: int, y: int) -> BaseTile
    decreases segs.len(),
{
    if segs.len() == 0 {
        t
    } else {
        painted(paint_tile(t, segs.drop_last(), x, y), segs.last(), seg_steps(segs.last()) + 1, x, y)
    }
}

/// A cell that showed `t` after the docks among `areas` are flooded in order.
pub open spec fn dock_tile(t: BaseTile, areas: Seq<MapArea>, x: int, y: int) -> BaseTile
    decreases areas.len(),
{
    if areas.len() == 0 {
        t
    } else {
        let prev = dock_tile(t, areas.drop_last(), x, y);
        let a = areas.last();
        if a.area_type == Some(AreaType::Dock) {
            flooded(prev, in_circle(a.center_x as int, a.center_y as int, if a.radius > 1 { a.radius as int } else { 1 }, x, y))
        } else {
            prev
        }
    }
}

/// A cell that showed `t` after the water channels `segs` are drawn in order.
pub open spec fn water_tile(t: BaseTile, segs: Seq<PathSegment>, x: int, y: int) -> BaseTile
    decreases segs.len(),
{
    if segs.len() == 0 {
        t
    } else {
        flooded(water_tile(t, segs.drop_last(), x, y), near_stamp(segs.last(), water_radius(segs.last()), seg_steps(segs.last()) + 1, x, y))
    }
}

pub open spec fn area_bounded(a: MapArea) -> bool {
    &&& -MAX_DIM <= a.center_x <= MAX_DIM
    &&& -MAX_DIM <= a.center_y <= MAX_DIM
    &&& a.radius <= MAX_DIM
}

fn grass_grid(width: u32, height: u32) -> (r: Vec<BaseTile>)
    requires
        width <= MAX_DIM,
        height <= MAX_DIM,
    ensures
        is_grid(r@, width as int, height as int),
        forall|x: int, y: int| in_grid(x, y, width as int, height as int) ==> #[trigger] tile(r@, width as int, x, y) == BaseTile::Grass,
{
    proof {
        lemma_grid_size(width as int, height as int);
    }
    let r = vec![BaseTile::Grass; (width * height) as usize];
    assert forall|x: int, y: int| in_grid(x, y, width as int, height as int) implies #[trigger] tile(r@, width as int, x, y) == BaseTile::Grass by {
        lemma_cell_index(width as int, height as int, x, y);
    }
    r
}

/// Draws the corridor segments `paths`, in order, over grass.
fn draw_paths(width: u32, height: u32, paths: &Vec<PathSegment>, cells: &mut Vec<BaseTile>)
    requires
        width <= MAX_DIM,
        height <= MAX_DIM,
        is_grid(old(cells)@, width as int, height as int),
        forall|i: int| 0 <= i < paths@.len() ==> seg_bounded(#[trigger] paths@[i]),
    ensures
        is_grid(final(cells)@, width as int, height as int),
        forall|x: int, y: int| in_grid(x, y, width as int, height as int) ==> #[trigger] tile(final(cells)@, width as int, x, y) == paint_tile(
            tile(old(cells)@, width as int, x, y), paths@, x, y),
{
    let ghost w = width as int;
    let ghost c0 = cells@;
    let mut k: usize = 0;
    while k < paths.len()
        invariant
            width <= MAX_DIM,
            height <= MAX_DIM,
            w == width,
            is_grid(cells@, width as int, height as int),
            forall|i: int| 0 <= i < paths@.len() ==> seg_bounded(#[trigger] paths@[i]),
            k <= paths@.len(),
            forall|x: int, y: int| in_grid(x, y, width as int, height as int) ==> #[trigger] tile(cells@, w, x, y) == paint_tile(
                tile(c0, w, x, y), paths@.subrange(0, k as int), x, y),
        decreases paths@.len() - k,
    {
        assert(seg_bounded(paths@[k as int]));
        rasterize_segment(width, height, &paths[k], cells);
        assert(paths@.subrange(0, k + 1).drop_last() =~= paths@.subrange(0, k as int));
        k += 1;
    }
    assert(paths@.subrange(0, paths@.len() as int) =~= paths@);
}

/// Draws the water channels `segs`, in order.
fn draw_water_paths(width: u32, height: u32, segs: &Vec<PathSegment>, cells: &mut Vec<BaseTile>)
    requires
        width <= MAX_DIM,
        height <= MAX_DIM,
        is_grid(old(cells)@, width as int, height as int),
        forall|i: int| 0 <= i < segs@.len() ==> seg_bounded(#[trigger] segs@[i]),
    ensures
        is_grid(final(cells)@, width as int, height as int),
        forall|x: int, y: int| in_grid(x, y, width as int, height as int) ==> #[trigger] tile(final(cells)@, width as int, x, y) == water_tile(
            tile(old(cells)@, width as int, x, y), segs@, x, y),
{
    let ghost w = width as int;
    let ghost c0 = cells@;
    let mut k: usize = 0;
    while k < segs.len()
        invariant
            width <= MAX_DIM,
            height <= MAX_DIM,
            w == width,
            is_grid(cells@, width as int, height as int),
            forall|i: int| 0 <= i < segs@.len() ==> seg_bounded(#[trigger] segs@[i]),
            k <= segs@.len(),
            forall|x: int, y: int| in_grid(x, y, width as int, height as int) ==> #[trigger] tile(cells@, w, x, y) == water_tile(
                tile(c0, w, x, y), segs@.subrange(0, k as int), x, y),
        decreases segs@.len() - k,
    {
        assert(seg_bounded(segs@[k as int]));
        rasterize_water_segment(width, height, &segs[k], cells);
        assert(segs@.subrange(0, k + 1).drop_last() =~= segs@.subrange(0, k as int));
        k += 1;
    }
    assert(segs@.subrange(0, segs@.len() as int) =~= segs@);
}

/// Floods the docks among `areas`, in order.
fn draw_docks(width: u32, height: u32, areas: &Vec<MapArea>, cells: &mut Vec<BaseTile>)
    requires
        width <= MAX_DIM,
        height <= MAX_DIM,
        is_grid(old(cells)@, width as int, height as int),
        forall|i: int| 0 <= i < areas@.len() ==> area_bounded(#[trigger] areas@[i]),
    ensures
        is_grid(final(cells)@, width as int, height as int),
        forall|x: int, y: int| in_grid(x, y, width as int, height as int) ==> #[trigger] tile(final(cells)@, width as int, x, y) == dock_tile(
            tile(old(cells)@, width as int, x, y), areas@, x, y),
{
    let ghost w = width as int;
    let ghost c0 = cells@;
    let mut k: usize = 0;
    while k < areas.len()
        invariant
            width <= MAX_DIM,
            height <= MAX_DIM,
            w == width,
            is_grid(cells@, width as int, height as int),
            forall|i: int| 0 <= i < areas@.len() ==> area_bounded(#[trigger] areas@[i]),
            k <= areas@.len(),
            forall|x: int, y: int| in_grid(x, y, width as int, height as int) ==> #[trigger] tile(cells@, w, x, y) == dock_tile(
                tile(c0, w, x, y), areas@.subrange(0, k as int), x, y),
        decreases areas@.len() - k,
    {
        let area = areas[k];
        assert(area_bounded(areas@[k as int]));
        if area.area_type == Some(AreaType::Dock) {
            fill_water_circle(width, height, area.center_x, area.center_y, area.radius, cells);
        }
        assert(areas@.subrange(0, k + 1).drop_last() =~= areas@.subrange(0, k as int));
        k += 1;
    }
    assert(areas@.subrange(0, areas@.len() as int) =~= areas@);
}

/// A `width` x `height` grid of grass with the corridor segments `paths`
/// drawn on it in order.
pub fn rasterize_paths(width: u32, height: u32, paths: &Vec<PathSegment>) -> (r: Vec<BaseTile>)
    requires
        width <= MAX_DIM,
        height <= MAX_DIM,
        forall|i: int| 0 <= i < paths@.len() ==> seg_bounded(#[trigger] paths@[i]),
    ensures
        is_grid(r@, width as int, height as int),
        forall|x: int, y: int| in_grid(x, y, width as int, height as int) ==> #[trigger] tile(r@, width as int, x, y) == paint_tile(
            BaseTile::Grass, paths@, x, y),
{
    let mut cells = grass_grid(width, height);
    draw_paths(width, height, paths, &mut cells);
    cells
}

/// The tiles of a skeleton on a `width` x `height` grid: grass, then its
/// corridors, then water over its docks, then its water channels.
pub fn rasterize_layout(width: u32, height: u32, skeleton: &MapSkeleton) -> (r: Vec<BaseTile>)
    requires
        width <= MAX_DIM,
        height <= MAX_DIM,
        forall|i: int| 0 <= i < skeleton.paths@.len() ==> seg_bounded(#[trigger] skeleton.paths@[i]),
        forall|i: int| 0 <= i < skeleton.water_paths@.len() ==> seg_bounded(#[trigger] skeleton.water_paths@[i]),
        forall|i: int| 0 <= i < skeleton.areas@.len() ==> area_bounded(#[trigger] skeleton.areas@[i]),
    ensures
        is_grid(r@, width as int, height as int),
        forall|x: int, y: int| in_grid(x, y, width as int, height as int) ==> #[trigger] tile(r@, width as int, x, y) == water_tile(
            dock_tile(paint_tile(BaseTile::Grass, skeleton.paths@, x, y), skeleton.areas@, x, y),
            skeleton.water_paths@,
            x,
            y,
        ),
{
    let mut cells = grass_grid(width, height);
    draw_paths(width, height, &skeleton.paths, &mut cells);
    draw_docks(width, height, &skeleton.areas, &mut cells);
    draw_water_paths(width, height, &skeleton.water_paths, &mut cells);
    cells
}

} // verus!
