//! The values a map skeleton is made of, and the geometry that its
//! contracts speak of.

use vstd::prelude::*;

verus! {

/// The largest grid side the generator takes: squared distances and step
/// counts on such a grid fit in an `i32`.
pub const MAX_DIM: u32 = 16384;

/// A straight run of corridor from one cell to another.
#[derive(Clone, Copy, Debug, PartialEq, Eq, Structural)]
pub struct PathSegment {
    pub start_x: i32,
    pub start_y: i32,
    pub end_x: i32,
    pub end_y: i32,
    /// Half-width of the corridor when it is drawn.
    pub radius: i32,
}

#[derive(Clone, Copy, Debug, PartialEq, Eq, Structural)]
pub enum AreaType {
    /// An area by the water; a channel leads from it to the map's edge.
    Dock,
}

/// A circular point of interest: every cell within `radius` of the centre.
#[derive(Clone, Copy, Debug, PartialEq, Eq, Structural)]
pub struct MapArea {
    pub center_x: i32,
    pub center_y: i32,
    pub radius: i32,
    pub area_type: Option<AreaType>,
}

/// The generator's result.
#[derive(Clone, Debug, PartialEq, Eq)]
pub struct MapSkeleton {
    pub paths: Vec<PathSegment>,
    pub areas: Vec<MapArea>,
    pub water_paths: Vec<PathSegment>,
}

/// A coordinate given as a fraction of the map's extent, `num / den`.
/// Values above one count as one. A zero denominator reads as IEEE division
/// would: `0/0` as zero, anything else over zero as one.
#[derive(Clone, Copy, Debug, PartialEq, Eq, Structural)]
pub struct Fraction {
    pub num: u32,
    pub den: u32,
}

/// A point in normalized coordinates.
#[derive(Clone, Copy, Debug, PartialEq, Eq, Structural)]
pub struct MapPointConfig {
    pub x: Fraction,
    pub y: Fraction,
}

/// Where an area should go, and whether it is a major (larger) one.
#[derive(Clone, Copy, Debug, PartialEq, Eq, Structural)]
pub struct MapAreaConfig {
    pub x: Fraction,
    pub y: Fraction,
    pub major: bool,
}

/// The layout a skeleton is generated from, in normalized coordinates.
#[derive(Clone, Debug)]
pub struct MapSkeletonConfig {
    pub entry: MapPointConfig,
    pub fork: MapPointConfig,
    pub exits: Vec<MapPointConfig>,
    pub areas: Vec<MapAreaConfig>,
}

pub open spec fn in_grid(x: int, y: int, width: int, height: int) -> bool {
    0 <= x < width && 0 <= y < height
}

pub open spec fn dist_sq(ax: int, ay: int, bx: int, by: int) -> int {
    (ax - bx) * (ax - bx) + (ay - by) * (ay - by)
}

/// Cell `(x, y)` lies in the disc of radius `r` around `(cx, cy)`.
pub open spec fn in_circle(cx: int, cy: int, r: int, x: int, y: int) -> bool {
    dist_sq(x, y, cx, cy) <= r * r
}

impl MapArea {
    pub open spec fn covers(self, x: int, y: int) -> bool {
        in_circle(self.center_x as int, self.center_y as int, self.radius as int, x, y)
    }

    /// The area's whole disc lies on a `width` x `height` grid.
    pub open spec fn inside(self, width: int, height: int) -> bool {
        &&& self.radius >= 1
        &&& self.center_x - self.radius >= 0
        &&& self.center_y - self.radius >= 0
        &&& self.center_x + self.radius < width
        &&& self.center_y + self.radius < height
    }
}

impl PathSegment {
    pub open spec fn ends_inside(self, width: int, height: int) -> bool {
        in_grid(self.start_x as int, self.start_y as int, width, height) && in_grid(
            self.end_x as int,
            self.end_y as int,
            width,
            height,
        )
    }
}

pub open spec fn areas_inside(areas: Seq<MapArea>, width: int, height: int) -> bool {
    forall|i: int| 0 <= i < areas.len() ==> #[trigger] areas[i].inside(width, height)
}

/// No cell belongs to two different areas.
pub open spec fn areas_disjoint(areas: Seq<MapArea>) -> bool {
    forall|i: int, j: int, x: int, y: int|
        0 <= i < areas.len() && 0 <= j < areas.len() && i != j && #[trigger] areas[i].covers(x, y)
            ==> !#[trigger] areas[j].covers(x, y)
}

pub open spec fn segments_inside(segs: Seq<PathSegment>, width: int, height: int) -> bool {
    forall|i: int| 0 <= i < segs.len() ==> #[trigger] segs[i].ends_inside(width, height)
}

pub open spec fn points_inside(points: Seq<(i32, i32)>, width: int, height: int) -> bool {
    forall|i: int|
        0 <= i < points.len() ==> in_grid(#[trigger] points[i].0 as int, points[i].1 as int, width, height)
}

/// The fraction's value clamped to `[0, 1]`, as a numerator over `frac_den`.
pub open spec fn frac_num(f: Fraction) -> int {
    if f.den == 0 {
        if f.num == 0 { 0 } else { 1 }
    } else if f.num > f.den {
        f.den as int
    } else {
        f.num as int
    }
}

pub open spec fn frac_den(f: Fraction) -> int {
    if f.den == 0 { 1 } else { f.den as int }
}

/// The cell that fraction `f` of an axis of `dim` cells falls on: the
/// fraction of `dim - 1`, rounded to the nearest cell, halves upward.
pub open spec fn resolve_coord(f: Fraction, dim: int) -> int {
    (2 * frac_num(f) * (dim - 1) + frac_den(f)) / (2 * frac_den(f))
}

fn resolve_coord_exec(f: Fraction, dim: i32) -> (r: i32)
    requires
        1 <= dim <= MAX_DIM,
    ensures
        r == resolve_coord(f, dim as int),
        0 <= r < dim,
{
    let (n, d): (u64, u64) = if f.den == 0 {
        (if f.num == 0 { 0 } else { 1 }, 1)
    } else if f.num > f.den {
        (f.den as u64, f.den as u64)
    } else {
        (f.num as u64, f.den as u64)
    };
    let m: u64 = (dim - 1) as u64;
    assert(2 * n * m <= 2 * 0xffff_ffff * 16384) by (nonlinear_arith)
        requires
            n <= 0xffff_ffff,
            m <= 16384,
    ;
    let x: u64 = 2 * n * m + d;
    let q: u64 = x / (2 * d);
    assert(q <= m) by (nonlinear_arith)
        requires
            x == 2 * n * m + d,
            q as int == x as int / (2 * d as int),
            n <= d,
            d >= 1,
    ;
    q as i32
}

/// The grid cell of a normalized point on a `width` x `height` grid.
pub fn resolve_point(point: MapPointConfig, width: i32, height: i32) -> (r: (i32, i32))
    requires
        1 <= width <= MAX_DIM,
        1 <= height <= MAX_DIM,
    ensures
        r.0 == resolve_coord(point.x, width as int),
        r.1 == resolve_coord(point.y, height as int),
        in_grid(r.0 as int, r.1 as int, width as int, height as int),
{
    (resolve_coord_exec(point.x, width), resolve_coord_exec(point.y, height))
}

} // verus!
