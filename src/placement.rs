//! Placing circular areas near their anchors without overlap.

use crate::layout::{
    areas_disjoint, areas_inside, in_circle, in_grid, resolve_coord, resolve_point, AreaType,
    MapArea, MapAreaConfig, MapPointConfig, MAX_DIM,
};
use crate::occupancy::{build_area_occupancy, lemma_circle_box, Occupancy};
use crate::random::draw_ratio;
use rand::rngs::StdRng;
use vstd::prelude::*;

verus! {

pub open spec fn abs(v: int) -> int {
    if v < 0 {
        -v
    } else {
        v
    }
}

pub open spec fn manhattan(p: (i32, i32)) -> int {
    abs(p.0 as int) + abs(p.1 as int)
}

/// The order in which offsets from an anchor are tried: nearer ones (by
/// Manhattan distance) first; equally near ones row by row, left to right.
pub open spec fn before_xy(ax: int, ay: int, bx: int, by: int) -> bool {
    ||| abs(ax) + abs(ay) < abs(bx) + abs(by)
    ||| abs(ax) + abs(ay) == abs(bx) + abs(by) && ay < by
    ||| abs(ax) + abs(ay) == abs(bx) + abs(by) && ay == by && ax < bx
}

pub open spec fn search_before(a: (i32, i32), b: (i32, i32)) -> bool {
    before_xy(a.0 as int, a.1 as int, b.0 as int, b.1 as int)
}

pub open spec fn in_square_xy(x: int, y: int, m: int) -> bool {
    -m <= x <= m && -m <= y <= m
}

pub open spec fn in_square(p: (i32, i32), m: int) -> bool {
    in_square_xy(p.0 as int, p.1 as int, m)
}

/// Every offset with both coordinates in `-max_offset..=max_offset`, each
/// once, in search order.
pub fn build_search_offsets(max_offset: i32) -> (r: Vec<(i32, i32)>)
    requires
        0 <= max_offset < 0x4000_0000,
    ensures
        forall|i: int| 0 <= i < r@.len() ==> in_square(#[trigger] r@[i], max_offset as int),
        forall|i: int, j: int| 0 <= i < j < r@.len() ==> search_before(#[trigger] r@[i], #[trigger] r@[j]),
        forall|x: i32, y: i32| in_square((x, y), max_offset as int) ==> #[trigger] r@.contains((x, y)),
{
    let m = max_offset;
    let mut offsets: Vec<(i32, i32)> = Vec::new();
    let mut d: i32 = 0;
    while d <= 2 * m
        invariant
            0 <= m < 0x4000_0000,
            0 <= d <= 2 * m + 1,
            forall|i: int| 0 <= i < offsets@.len() ==> in_square(#[trigger] offsets@[i], m as int) && manhattan(offsets@[i]) < d,
            forall|i: int, j: int| 0 <= i < j < offsets@.len() ==> search_before(#[trigger] offsets@[i], #[trigger] offsets@[j]),
            forall|x: i32, y: i32| in_square((x, y), m as int) && manhattan((x, y)) < d ==> #[trigger] offsets@.contains((x, y)),
        decreases 2 * m + 1 - d,
    {
        let mut dy: i32 = -m;
        while dy <= m
            invariant
                0 <= m < 0x4000_0000,
                0 <= d <= 2 * m,
                -m <= dy <= m + 1,
                forall|i: int| 0 <= i < offsets@.len() ==> in_square(#[trigger] offsets@[i], m as int) && (manhattan(offsets@[i]) < d
                    || (manhattan(offsets@[i]) == d && offsets@[i].1 < dy)),
                forall|i: int, j: int| 0 <= i < j < offsets@.len() ==> search_before(#[trigger] offsets@[i], #[trigger] offsets@[j]),
                forall|x: i32, y: i32| in_square((x, y), m as int) && (manhattan((x, y)) < d || (manhattan((x, y)) == d && y < dy))
                    ==> #[trigger] offsets@.contains((x, y)),
            decreases m + 1 - dy,
        {
            let mut dx: i32 = -m;
            while dx <= m
                invariant
                    0 <= m < 0x4000_0000,
                    0 <= d <= 2 * m,
                    -m <= dy <= m,
                    -m <= dx <= m + 1,
                    forall|i: int| 0 <= i < offsets@.len() ==> in_square(#[trigger] offsets@[i], m as int) && (manhattan(offsets@[i]) < d
                        || (manhattan(offsets@[i]) == d && offsets@[i].1 < dy) || (manhattan(offsets@[i]) == d && offsets@[i].1 == dy
                        && offsets@[i].0 < dx)),
                    forall|i: int, j: int| 0 <= i < j < offsets@.len() ==> search_before(#[trigger] offsets@[i], #[trigger] offsets@[j]),
                    forall|x: i32, y: i32| in_square((x, y), m as int) && (manhattan((x, y)) < d || (manhattan((x, y)) == d && y < dy)
                        || (manhattan((x, y)) == d && y == dy && x < dx)) ==> #[trigger] offsets@.contains((x, y)),
                decreases m + 1 - dx,
            {
                let ax: i32 = if dx < 0 { -dx } else { dx };
                let ay: i32 = if dy < 0 { -dy } else { dy };
                let ghost old_offsets = offsets@;
                if ax + ay == d {
                    offsets.push((dx, dy));
                    proof {
                        assert forall|x: i32, y: i32| #[trigger] old_offsets.contains((x, y)) implies offsets@.contains((x, y)) by {
                            let i = choose|i: int| 0 <= i < old_offsets.len() && old_offsets[i] == (x, y);
                            assert(offsets@[i] == (x, y));
                        }
                        assert(offsets@[offsets@.len() - 1] == (dx, dy));
                        assert(offsets@.contains((dx, dy)));
                    }
                }
                assert forall|x: i32, y: i32| in_square((x, y), m as int) && (manhattan((x, y)) < d || (manhattan((x, y)) == d && y < dy)
                    || (manhattan((x, y)) == d && y == dy && x < dx + 1)) implies #[trigger] offsets@.contains((x, y)) by {
                    if !(x == dx && y == dy) {
                        assert(old_offsets.contains((x, y)));
                        if offsets@ != old_offsets {
                            let i = choose|i: int| 0 <= i < old_offsets.len() && old_offsets[i] == (x, y);
                            assert(offsets@[i] == (x, y));
                        }
                    }
                }
                dx += 1;
            }
            dy += 1;
        }
        d += 1;
    }
    offsets
}

/// The disc centred at anchor `(tx, ty)` moved by `off` with radius `r` fits.
pub(crate) open spec fn fits_at(grid: Occupancy, tx: int, ty: int, off: (i32, i32), r: int) -> bool {
    grid.fits(tx + off.0, ty + off.1, r)
}

/// What the search of `place_area` found, in terms of the offset list.
pub(crate) open spec fn search_outcome(
    grid: Occupancy,
    tx: int,
    ty: int,
    lo: int,
    hi: int,
    offsets: Seq<(i32, i32)>,
    r: Option<(usize, i32)>,
) -> bool {
    match r {
        Some((k, radius)) => {
            &&& lo <= radius <= hi
            &&& k < offsets.len()
            &&& fits_at(grid, tx, ty, offsets[k as int], radius as int)
            &&& forall|j: int| 0 <= j < k ==> !fits_at(grid, tx, ty, #[trigger] offsets[j], radius as int)
            &&& forall|j: int, r2: int| 0 <= j < offsets.len() && radius < r2 <= hi ==> !#[trigger] fits_at(grid, tx, ty, offsets[j], r2)
        },
        None => forall|j: int, r2: int| 0 <= j < offsets.len() && lo <= r2 <= hi ==> !#[trigger] fits_at(grid, tx, ty, offsets[j], r2),
    }
}

/// Where an area goes: the largest radius from `base_radius` down to
/// `min_radius` at which some offset fits, with the first fitting offset in
/// the list; as (offset index, radius). `None` when no radius fits.
pub(crate) fn place_area(
    grid: &Occupancy,
    target_x: i32,
    target_y: i32,
    base_radius: i32,
    min_radius: i32,
    offsets: &Vec<(i32, i32)>,
) -> (r: Option<(usize, i32)>)
    requires
        grid.wf(),
        in_grid(target_x as int, target_y as int, grid.grid_width(), grid.grid_height()),
        0 <= min_radius <= base_radius,
        base_radius <= MAX_DIM,
        forall|i: int| 0 <= i < offsets@.len() ==> in_square(#[trigger] offsets@[i], 64),
    ensures
        search_outcome(*grid, target_x as int, target_y as int, min_radius as int, base_radius as int, offsets@, r),
{
    let mut radius = base_radius;
    while radius >= min_radius
        invariant
            grid.wf(),
            in_grid(target_x as int, target_y as int, grid.grid_width(), grid.grid_height()),
            0 <= min_radius,
            base_radius <= MAX_DIM,
            forall|i: int| 0 <= i < offsets@.len() ==> in_square(#[trigger] offsets@[i], 64),
            min_radius - 1 <= radius <= base_radius,
            forall|j: int, r2: int| 0 <= j < offsets@.len() && radius < r2 <= base_radius ==> !#[trigger] fits_at(*grid, target_x as int, target_y as int, offsets@[j], r2),
        decreases radius - min_radius + 1,
    {
        let mut k: usize = 0;
        while k < offsets.len()
            invariant
                grid.wf(),
                in_grid(target_x as int, target_y as int, grid.grid_width(), grid.grid_height()),
                0 <= min_radius <= radius <= base_radius <= MAX_DIM,
                forall|i: int| 0 <= i < offsets@.len() ==> in_square(#[trigger] offsets@[i], 64),
                k <= offsets@.len(),
                forall|j: int, r2: int| 0 <= j < offsets@.len() && radius < r2 <= base_radius ==> !#[trigger] fits_at(*grid, target_x as int, target_y as int, offsets@[j], r2),
                forall|j: int| 0 <= j < k ==> !fits_at(*grid, target_x as int, target_y as int, #[trigger] offsets@[j], radius as int),
            decreases offsets@.len() - k,
        {
            let (ox, oy) = offsets[k];
            assert(in_square(offsets@[k as int], 64));
            if grid.circle_fits(target_x + ox, target_y + oy, radius) {
                return Some((k, radius));
            }
            k += 1;
        }
        radius -= 1;
    }
    None
}

pub open spec fn min_side(w: int, h: int) -> int {
    if w < h {
        w
    } else {
        h
    }
}

/// The radius a minor area is placed with first, on a grid whose shorter
/// side is `d`: a tenth of it, kept within 3..=8.
pub open spec fn minor_radius_for(d: int) -> int {
    if d / 10 < 3 {
        3
    } else if d / 10 > 8 {
        8
    } else {
        d / 10
    }
}

/// The radius a major area is placed with first: a sixth of the shorter
/// side, at least one more than a minor radius, at most a third of the side
/// (but at least two).
pub open spec fn major_radius_for(d: int) -> int {
    let minor = minor_radius_for(d);
    let wanted = if d / 6 > minor + 1 { d / 6 } else { minor + 1 };
    let cap = if d / 3 > 2 { d / 3 } else { 2 };
    if wanted < cap {
        wanted
    } else {
        cap
    }
}

pub open spec fn largest_radius(cfg: MapAreaConfig, d: int) -> int {
    if cfg.major {
        major_radius_for(d)
    } else {
        minor_radius_for(d)
    }
}

/// The smallest radius tried: two for a minor area, three (or the major
/// radius, if smaller) for a major one.
pub open spec fn smallest_radius(cfg: MapAreaConfig, d: int) -> int {
    if cfg.major {
        if 3 < major_radius_for(d) {
            3
        } else {
            major_radius_for(d)
        }
    } else {
        2
    }
}

/// How far from its anchor an area's centre may move: a fifth of the
/// shorter side, kept within 6..=16.
pub open spec fn search_spread(d: int) -> int {
    let s = if d / 5 > 6 { d / 5 } else { 6 };
    if s < 16 {
        s
    } else {
        16
    }
}

/// Cell `(x, y)` belongs to one of `placed`.
pub open spec fn covered(placed: Seq<MapArea>, x: int, y: int) -> bool {
    exists|i: int| 0 <= i < placed.len() && #[trigger] placed[i].covers(x, y)
}

/// The disc of radius `r` around `(cx, cy)` lies on the grid and shares no
/// cell with `placed`.
pub open spec fn fits_among(placed: Seq<MapArea>, cx: int, cy: int, r: int, w: int, h: int) -> bool {
    &&& cx - r >= 0
    &&& cy - r >= 0
    &&& cx + r < w
    &&& cy + r < h
    &&& forall|x: int, y: int| in_circle(cx, cy, r, x, y) ==> !#[trigger] covered(placed, x, y)
}

pub open spec fn fits_offset(placed: Seq<MapArea>, tx: int, ty: int, ox: int, oy: int, r: int, w: int, h: int) -> bool {
    fits_among(placed, tx + ox, ty + oy, r, w, h)
}

/// The disc at offset `(ox, oy)` from anchor `(tx, ty)` with radius `r` is
/// the one the search settles on: `r` is the largest radius in `lo..=hi` at
/// which some offset within `m` fits, and `(ox, oy)` the first offset in
/// search order that fits at `r`.
pub open spec fn first_fit(placed: Seq<MapArea>, tx: int, ty: int, lo: int, hi: int, m: int, ox: int, oy: int, r: int, w: int, h: int) -> bool {
    &&& lo <= r <= hi
    &&& in_square_xy(ox, oy, m)
    &&& fits_offset(placed, tx, ty, ox, oy, r, w, h)
    &&& forall|ox2: int, oy2: int|
        in_square_xy(ox2, oy2, m) && before_xy(ox2, oy2, ox, oy) ==> !#[trigger] fits_offset(placed, tx, ty, ox2, oy2, r, w, h)
    &&& forall|ox2: int, oy2: int, r2: int|
        in_square_xy(ox2, oy2, m) && r < r2 <= hi ==> !#[trigger] fits_offset(placed, tx, ty, ox2, oy2, r2, w, h)
}

/// No offset within `m` of the anchor fits at any radius in `lo..=hi`.
pub open spec fn no_room(placed: Seq<MapArea>, tx: int, ty: int, lo: int, hi: int, m: int, w: int, h: int) -> bool {
    forall|ox2: int, oy2: int, r2: int|
        in_square_xy(ox2, oy2, m) && lo <= r2 <= hi ==> !#[trigger] fits_offset(placed, tx, ty, ox2, oy2, r2, w, h)
}

/// Area `k` is where the search put the area of anchor `cfg`, given the
/// areas placed before it.
pub open spec fn placed_for(areas: Seq<MapArea>, k: int, cfg: MapAreaConfig, w: int, h: int) -> bool {
    let d = min_side(w, h);
    let tx = resolve_coord(cfg.x, w);
    let ty = resolve_coord(cfg.y, h);
    &&& first_fit(
        areas.subrange(0, k),
        tx,
        ty,
        smallest_radius(cfg, d),
        largest_radius(cfg, d),
        search_spread(d),
        areas[k].center_x - tx,
        areas[k].center_y - ty,
        areas[k].radius as int,
        w,
        h,
    )
    &&& (cfg.major ==> areas[k].area_type is None)
}

/// Anchor `c` got no area: with the areas placed before it there was no room.
pub open spec fn skipped_at(areas: Seq<MapArea>, origin: Seq<int>, c: int, cfg: MapAreaConfig, w: int, h: int) -> bool {
    let d = min_side(w, h);
    exists|k: int|
        0 <= k <= origin.len() && (forall|j: int| 0 <= j < k ==> #[trigger] origin[j] < c) && (forall|j: int|
            k <= j < origin.len() ==> #[trigger] origin[j] > c) && no_room(
            areas.subrange(0, k),
            resolve_coord(cfg.x, w),
            resolve_coord(cfg.y, h),
            smallest_radius(cfg, d),
            largest_radius(cfg, d),
            search_spread(d),
            w,
            h,
        )
}

/// How `areas` came from the first `n` anchors of `configs`: area `k` was
/// placed for anchor `origin[k]`, in order, each by the search; every other
/// anchor had no room.
pub open spec fn placement_story(areas: Seq<MapArea>, configs: Seq<MapAreaConfig>, origin: Seq<int>, w: int, h: int, n: int) -> bool {
    &&& origin.len() == areas.len()
    &&& forall|k: int| 0 <= k < origin.len() ==> 0 <= #[trigger] origin[k] < n
    &&& forall|k1: int, k2: int| 0 <= k1 < k2 < origin.len() ==> #[trigger] origin[k1] < #[trigger] origin[k2]
    &&& forall|k: int| 0 <= k < areas.len() ==> #[trigger] placed_for(areas, k, configs[origin[k]], w, h)
    &&& forall|c: int| 0 <= c < n && !origin.contains(c) ==> #[trigger] skipped_at(areas, origin, c, configs[c], w, h)
}

/// On a grid whose reserved cells are exactly those of `placed`, a disc
/// fits on the grid exactly when it fits among `placed`.
proof fn lemma_grid_fits(grid: Occupancy, placed: Seq<MapArea>, cx: int, cy: int, r: int)
    requires
        grid.wf(),
        r >= 0,
        forall|x: int, y: int|
            in_grid(x, y, grid.grid_width(), grid.grid_height()) ==> (#[trigger] grid.occupied(x, y) <==> covered(placed, x, y)),
    ensures
        grid.fits(cx, cy, r) == fits_among(placed, cx, cy, r, grid.grid_width(), grid.grid_height()),
{
    let w = grid.grid_width();
    let h = grid.grid_height();
    if cx - r >= 0 && cy - r >= 0 && cx + r < w && cy + r < h {
        assert forall|x: int, y: int| in_circle(cx, cy, r, x, y) implies (grid.occupied(x, y) <==> covered(placed, x, y)) by {
            lemma_circle_box(cx, cy, r, x, y);
        }
    }
}

/// What `place_area` found, restated over offsets in search order rather
/// than positions in the offset list.
proof fn lemma_search_outcome(
    grid: Occupancy,
    placed: Seq<MapArea>,
    offsets: Seq<(i32, i32)>,
    tx: int,
    ty: int,
    lo: int,
    hi: int,
    m: int,
    outcome: Option<(usize, i32)>,
)
    requires
        grid.wf(),
        0 <= lo,
        0 <= m < 0x4000_0000,
        forall|x: int, y: int|
            in_grid(x, y, grid.grid_width(), grid.grid_height()) ==> (#[trigger] grid.occupied(x, y) <==> covered(placed, x, y)),
        forall|i: int| 0 <= i < offsets.len() ==> in_square(#[trigger] offsets[i], m),
        forall|i: int, j: int| 0 <= i < j < offsets.len() ==> search_before(#[trigger] offsets[i], #[trigger] offsets[j]),
        forall|x: i32, y: i32| in_square((x, y), m) ==> #[trigger] offsets.contains((x, y)),
        search_outcome(grid, tx, ty, lo, hi, offsets, outcome),
    ensures
        match outcome {
            Some((k, radius)) => first_fit(placed, tx, ty, lo, hi, m, offsets[k as int].0 as int, offsets[k as int].1 as int, radius as int,
                grid.grid_width(), grid.grid_height()),
            None => no_room(placed, tx, ty, lo, hi, m, grid.grid_width(), grid.grid_height()),
        },
{
    let w = grid.grid_width();
    let h = grid.grid_height();
    match outcome {
        Some((k, radius)) => {
            let o = offsets[k as int];
            lemma_grid_fits(grid, placed, tx + o.0, ty + o.1, radius as int);
            assert forall|ox2: int, oy2: int|
                in_square_xy(ox2, oy2, m) && before_xy(ox2, oy2, o.0 as int, o.1 as int) implies !#[trigger] fits_offset(placed, tx, ty, ox2, oy2, radius as int, w, h) by {
                let p = (ox2 as i32, oy2 as i32);
                assert(in_square(p, m));
                assert(offsets.contains(p));
                let j = choose|j: int| 0 <= j < offsets.len() && offsets[j] == p;
                if j >= k {
                    if j > k {
                        assert(search_before(offsets[k as int], offsets[j]));
                    }
                }
                assert(!fits_at(grid, tx, ty, offsets[j], radius as int));
                lemma_grid_fits(grid, placed, tx + ox2, ty + oy2, radius as int);
            }
            assert forall|ox2: int, oy2: int, r2: int|
                in_square_xy(ox2, oy2, m) && radius < r2 <= hi implies !#[trigger] fits_offset(placed, tx, ty, ox2, oy2, r2, w, h) by {
                let p = (ox2 as i32, oy2 as i32);
                assert(in_square(p, m));
                assert(offsets.contains(p));
                let j = choose|j: int| 0 <= j < offsets.len() && offsets[j] == p;
                assert(!fits_at(grid, tx, ty, offsets[j], r2));
                lemma_grid_fits(grid, placed, tx + ox2, ty + oy2, r2);
            }
        },
        None => {
            assert forall|ox2: int, oy2: int, r2: int|
                in_square_xy(ox2, oy2, m) && lo <= r2 <= hi implies !#[trigger] fits_offset(placed, tx, ty, ox2, oy2, r2, w, h) by {
                let p = (ox2 as i32, oy2 as i32);
                assert(in_square(p, m));
                assert(offsets.contains(p));
                let j = choose|j: int| 0 <= j < offsets.len() && offsets[j] == p;
                assert(!fits_at(grid, tx, ty, offsets[j], r2));
                lemma_grid_fits(grid, placed, tx + ox2, ty + oy2, r2);
            }
        },
    }
}

/// Places one area per anchor, in order, each as large and as near its
/// anchor as the areas before it allow; an anchor with no room is skipped.
/// A minor area is made a dock with chance one in four; a major one never.
pub fn build_areas(width: i32, height: i32, rng: &mut StdRng, area_configs: &Vec<MapAreaConfig>) -> (r: Vec<MapArea>)
    requires
        0 <= width <= MAX_DIM,
        0 <= height <= MAX_DIM,
    ensures
        areas_inside(r@, width as int, height as int),
        areas_disjoint(r@),
        r@.len() <= area_configs@.len(),
        width < 5 || height < 5 ==> r@.len() == 0 && *final(rng) == *old(rng),
        exists|origin: Seq<int>| placement_story(r@, area_configs@, origin, width as int, height as int, area_configs@.len() as int),
{
    let ghost w = width as int;
    let ghost h = height as int;
    if width < 5 || height < 5 {
        proof {
            let empty = Seq::<MapArea>::empty();
            let origin = Seq::<int>::empty();
            assert forall|c: int| 0 <= c < area_configs@.len() && !origin.contains(c) implies #[trigger] skipped_at(empty, origin, c, area_configs@[c], w, h) by {
                let cfg = area_configs@[c];
                let d = min_side(w, h);
                let tx = resolve_coord(cfg.x, w);
                let ty = resolve_coord(cfg.y, h);
                assert(smallest_radius(cfg, d) >= 2);
                assert forall|ox2: int, oy2: int, r2: int|
                    in_square_xy(ox2, oy2, search_spread(d)) && smallest_radius(cfg, d) <= r2 <= largest_radius(cfg, d)
                    implies !#[trigger] fits_offset(empty.subrange(0, 0), tx, ty, ox2, oy2, r2, w, h) by {}
                assert(no_room(empty.subrange(0, 0), tx, ty, smallest_radius(cfg, d), largest_radius(cfg, d), search_spread(d), w, h));
                assert(0 <= 0 <= origin.len() && (forall|j: int| 0 <= j < 0 ==> #[trigger] origin[j] < c) && (forall|j: int|
                    0 <= j < origin.len() ==> #[trigger] origin[j] > c));
            }
            assert(placement_story(empty, area_configs@, origin, w, h, area_configs@.len() as int));
        }
        return Vec::new();
    }
    let mut area_occupied = Occupancy::new(width, height);
    let min_dim = if width < height { width } else { height };
    let minor_radius = if min_dim / 10 < 3 {
        3
    } else if min_dim / 10 > 8 {
        8
    } else {
        min_dim / 10
    };
    let min_minor_radius: i32 = 2;
    let major_wanted = if min_dim / 6 > minor_radius + 1 { min_dim / 6 } else { minor_radius + 1 };
    let major_cap = if min_dim / 3 > 2 { min_dim / 3 } else { 2 };
    let major_radius = if major_wanted < major_cap { major_wanted } else { major_cap };
    let min_major_radius = if min_minor_radius + 1 < major_radius { min_minor_radius + 1 } else { major_radius };
    let spread = if min_dim / 5 > 6 { min_dim / 5 } else { 6 };
    let max_offset = if spread < 16 { spread } else { 16 };
    let offsets = build_search_offsets(max_offset);
    let ghost d = min_side(w, h);
    assert(min_dim == d);
    assert(minor_radius == minor_radius_for(d));
    assert(major_radius == major_radius_for(d));
    assert(max_offset == search_spread(d));

    let mut areas: Vec<MapArea> = Vec::new();
    let ghost mut origin: Seq<int> = Seq::empty();
    let mut c: usize = 0;
    while c < area_configs.len()
        invariant
            5 <= width <= MAX_DIM,
            5 <= height <= MAX_DIM,
            w == width,
            h == height,
            d == min_side(w, h),
            area_occupied.wf(),
            area_occupied.grid_width() == width,
            area_occupied.grid_height() == height,
            minor_radius == minor_radius_for(d),
            major_radius == major_radius_for(d),
            min_major_radius == (if 3 < major_radius_for(d) { 3 } else { major_radius_for(d) }),
            min_minor_radius == 2,
            max_offset == search_spread(d),
            2 <= min_major_radius <= major_radius <= MAX_DIM,
            2 <= min_minor_radius <= minor_radius <= 8,
            0 <= max_offset <= 16,
            forall|i: int| 0 <= i < offsets@.len() ==> in_square(#[trigger] offsets@[i], max_offset as int),
            forall|i: int, j: int| 0 <= i < j < offsets@.len() ==> search_before(#[trigger] offsets@[i], #[trigger] offsets@[j]),
            forall|x: i32, y: i32| in_square((x, y), max_offset as int) ==> #[trigger] offsets@.contains((x, y)),
            c <= area_configs@.len(),
            areas@.len() <= c,
            areas_inside(areas@, width as int, height as int),
            areas_disjoint(areas@),
            forall|x: int, y: int| in_grid(x, y, w, h) ==> (#[trigger] area_occupied.occupied(x, y) <==> covered(areas@, x, y)),
            placement_story(areas@, area_configs@, origin, w, h, c as int),
        decreases area_configs@.len() - c,
    {
        let config = area_configs[c];
        let (target_x, target_y) = resolve_point(MapPointConfig { x: config.x, y: config.y }, width, height);
        let base_radius = if config.major { major_radius } else { minor_radius };
        let min_radius = if config.major { min_major_radius } else { min_minor_radius };
        assert(base_radius == largest_radius(config, d));
        assert(min_radius == smallest_radius(config, d));
        assert forall|i: int| 0 <= i < offsets@.len() implies in_square(#[trigger] offsets@[i], 64) by {
            assert(in_square(offsets@[i], max_offset as int));
        }
        let outcome = place_area(&area_occupied, target_x, target_y, base_radius, min_radius, &offsets);
        proof {
            lemma_search_outcome(area_occupied, areas@, offsets@, target_x as int, target_y as int, min_radius as int, base_radius as int,
                max_offset as int, outcome);
        }
        let ghost old_areas = areas@;
        let ghost old_origin = origin;
        match outcome {
            Some((k, radius)) => {
                let (ox, oy) = offsets[k];
                assert(in_square(offsets@[k as int], 64));
                let cx = target_x + ox;
                let cy = target_y + oy;
                let area_type = if config.major {
                    None
                } else if draw_ratio(rng, 1, 4) {
                    Some(AreaType::Dock)
                } else {
                    None
                };
                let area = MapArea { center_x: cx, center_y: cy, radius, area_type };
                let ghost before = area_occupied;
                proof {
                    assert(before.fits(cx as int, cy as int, radius as int));
                    assert forall|i: int, j: int, x: int, y: int|
                        0 <= i < old_areas.push(area).len() && 0 <= j < old_areas.push(area).len() && i != j
                            && #[trigger] old_areas.push(area)[i].covers(x, y) implies !#[trigger] old_areas.push(area)[j].covers(x, y) by {
                        if i == old_areas.len() as int && old_areas.push(area)[j].covers(x, y) {
                            lemma_circle_box(cx as int, cy as int, radius as int, x, y);
                            assert(old_areas[j].covers(x, y));
                            assert(covered(old_areas, x, y));
                        } else if j == old_areas.len() as int && old_areas.push(area)[j].covers(x, y) {
                            lemma_circle_box(cx as int, cy as int, radius as int, x, y);
                            assert(old_areas[i].covers(x, y));
                            assert(covered(old_areas, x, y));
                        } else if i < old_areas.len() && j < old_areas.len() {
                            assert(old_areas.push(area)[i] == old_areas[i]);
                            assert(old_areas.push(area)[j] == old_areas[j]);
                        }
                    }
                }
                area_occupied.mark_circle_occupancy(cx, cy, radius);
                areas.push(area);
                proof {
                    origin = old_origin.push(c as int);
                    let new_areas = areas@;
                    assert(new_areas == old_areas.push(area));
                    assert forall|x: int, y: int| in_grid(x, y, w, h) implies (#[trigger] area_occupied.occupied(x, y) <==> covered(new_areas, x, y)) by {
                        if covered(old_areas, x, y) {
                            let i = choose|i: int| 0 <= i < old_areas.len() && #[trigger] old_areas[i].covers(x, y);
                            assert(new_areas[i] == old_areas[i]);
                        }
                        if covered(new_areas, x, y) {
                            let i = choose|i: int| 0 <= i < new_areas.len() && #[trigger] new_areas[i].covers(x, y);
                            if i < old_areas.len() {
                                assert(new_areas[i] == old_areas[i]);
                            } else {
                                assert(new_areas[i] == area);
                            }
                        }
                        if in_circle(cx as int, cy as int, radius as int, x, y) {
                            assert(new_areas[old_areas.len() as int] == area);
                            assert(area.covers(x, y));
                        }
                        assert(area_occupied.occupied(x, y) == (before.occupied(x, y) || in_circle(cx as int, cy as int, radius as int, x, y)));
                        assert(before.occupied(x, y) <==> covered(old_areas, x, y));
                    }
                    assert forall|i: int| 0 <= i < new_areas.len() implies #[trigger] new_areas[i].inside(w, h) by {
                        if i < old_areas.len() {
                            assert(new_areas[i] == old_areas[i]);
                        }
                    }
                    // The story so far still holds, and the new area is placed by the search.
                    assert(new_areas.subrange(0, old_areas.len() as int) =~= old_areas);
                    assert forall|k2: int| 0 <= k2 < new_areas.len() implies #[trigger] placed_for(new_areas, k2, area_configs@[origin[k2]], w, h) by {
                        if k2 < old_areas.len() {
                            assert(placed_for(old_areas, k2, area_configs@[old_origin[k2]], w, h));
                            assert(new_areas.subrange(0, k2) =~= old_areas.subrange(0, k2));
                            assert(new_areas[k2] == old_areas[k2]);
                            assert(origin[k2] == old_origin[k2]);
                        } else {
                            assert(origin[k2] == c);
                            assert(new_areas[k2] == area);
                            assert(new_areas.subrange(0, k2) =~= old_areas);
                        }
                    }
                    assert forall|c2: int| 0 <= c2 < c + 1 && !origin.contains(c2) implies #[trigger] skipped_at(new_areas, origin, c2, area_configs@[c2], w, h) by {
                        assert(origin[old_origin.len() as int] == c);
                        assert(c2 != c);
                        assert forall|j: int| 0 <= j < old_origin.len() implies old_origin[j] == #[trigger] origin[j] by {}
                        if old_origin.contains(c2) {
                            let j = choose|j: int| 0 <= j < old_origin.len() && old_origin[j] == c2;
                            assert(origin[j] == c2);
                        }
                        assert(skipped_at(old_areas, old_origin, c2, area_configs@[c2], w, h));
                        let cfg = area_configs@[c2];
                        let kk = choose|kk: int|
                            0 <= kk <= old_origin.len() && (forall|j: int| 0 <= j < kk ==> #[trigger] old_origin[j] < c2) && (forall|j: int|
                                kk <= j < old_origin.len() ==> #[trigger] old_origin[j] > c2) && no_room(
                                old_areas.subrange(0, kk),
                                resolve_coord(cfg.x, w),
                                resolve_coord(cfg.y, h),
                                smallest_radius(cfg, d),
                                largest_radius(cfg, d),
                                search_spread(d),
                                w,
                                h,
                            );
                        assert(new_areas.subrange(0, kk) =~= old_areas.subrange(0, kk));
                        assert forall|j: int| 0 <= j < kk implies #[trigger] origin[j] < c2 by {
                            assert(old_origin[j] < c2);
                        }
                        assert forall|j: int| kk <= j < origin.len() implies #[trigger] origin[j] > c2 by {
                            if j < old_origin.len() {
                                assert(old_origin[j] > c2);
                            }
                        }
                    }
                    assert forall|k1: int, k2: int| 0 <= k1 < k2 < origin.len() implies #[trigger] origin[k1] < #[trigger] origin[k2] by {
                        if k2 < old_origin.len() {
                            assert(old_origin[k1] < old_origin[k2]);
                        } else {
                            assert(old_origin[k1] < c);
                        }
                    }
                    assert forall|k2: int| 0 <= k2 < origin.len() implies 0 <= #[trigger] origin[k2] < c + 1 by {
                        if k2 < old_origin.len() {
                            assert(old_origin[k2] < c);
                        }
                    }
                }
            },
            None => {
                proof {
                    let cfg = area_configs@[c as int];
                    assert(!origin.contains(c as int));
                    assert(areas@.subrange(0, origin.len() as int) =~= areas@);
                    assert forall|j: int| 0 <= j < origin.len() implies #[trigger] origin[j] < c by {}
                    assert(skipped_at(areas@, origin, c as int, cfg, w, h));
                }
            },
        }
        c += 1;
    }
    areas
}

/// The area with its radius one smaller, but never below one.
pub open spec fn shrunk(a: MapArea) -> MapArea {
    MapArea { radius: if a.radius > 1 { (a.radius - 1) as i32 } else { a.radius }, ..a }
}

/// Makes every area's radius one smaller, but never below one.
pub fn shrink_areas(areas: &mut Vec<MapArea>)
    ensures
        final(areas)@.len() == old(areas)@.len(),
        forall|i: int| 0 <= i < old(areas)@.len() ==> #[trigger] final(areas)@[i] == shrunk(old(areas)@[i]),
{
    let mut i: usize = 0;
    while i < areas.len()
        invariant
            areas@.len() == old(areas)@.len(),
            i <= areas@.len(),
            forall|j: int| 0 <= j < i ==> #[trigger] areas@[j] == shrunk(old(areas)@[j]),
            forall|j: int| i <= j < areas@.len() ==> #[trigger] areas@[j] == old(areas)@[j],
        decreases areas@.len() - i,
    {
        let mut area = areas[i];
        if area.radius > 1 {
            area.radius -= 1;
        }
        areas.set(i, area);
        i += 1;
    }
}

/// A shrunk area covers only cells it covered before.
pub proof fn lemma_shrunk_within(a: MapArea, x: int, y: int)
    requires
        shrunk(a).covers(x, y),
    ensures
        a.covers(x, y),
{
    if a.radius > 1 {
        let r = a.radius as int;
        assert((r - 1) * (r - 1) <= r * r) by (nonlinear_arith)
            requires
                r > 1,
        ;
    }
}

/// Shrinking keeps areas apart and on the grid: placed areas share no cell,
/// and after any number of shrinking passes they still share none.
pub proof fn lemma_shrink_keeps_apart(areas: Seq<MapArea>, shrunk_areas: Seq<MapArea>, width: int, height: int)
    requires
        areas_inside(areas, width, height),
        areas_disjoint(areas),
        shrunk_areas.len() == areas.len(),
        forall|i: int| 0 <= i < areas.len() ==> #[trigger] shrunk_areas[i] == shrunk(areas[i]),
    ensures
        areas_inside(shrunk_areas, width, height),
        areas_disjoint(shrunk_areas),
{
    assert forall|i: int, j: int, x: int, y: int|
        0 <= i < shrunk_areas.len() && 0 <= j < shrunk_areas.len() && i != j && #[trigger] shrunk_areas[i].covers(x, y)
            implies !#[trigger] shrunk_areas[j].covers(x, y) by {
        lemma_shrunk_within(areas[i], x, y);
        if shrunk_areas[j].covers(x, y) {
            lemma_shrunk_within(areas[j], x, y);
        }
    }
    assert forall|i: int| 0 <= i < shrunk_areas.len() implies #[trigger] shrunk_areas[i].inside(width, height) by {
        assert(areas[i].inside(width, height));
    }
}

} // verus!
