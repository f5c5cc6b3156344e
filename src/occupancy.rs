//! A grid of cells, each free or reserved by an area.

use crate::layout::{in_circle, in_grid, MapArea, MAX_DIM};
use vstd::prelude::*;

verus! {

/// The index of cell `(x, y)` in a row-major grid of width `w` lies in the
/// grid and is held by that cell alone.
pub proof fn lemma_cell_index(w: int, h: int, x: int, y: int)
    requires
        in_grid(x, y, w, h),
    ensures
        0 <= y * w + x < w * h,
        forall|x2: int, y2: int|
            in_grid(x2, y2, w, h) && (x2 != x || y2 != y) ==> #[trigger] (y2 * w + x2) != y * w
                + x,
{
    assert(0 <= y * w + x < w * h) by (nonlinear_arith)
        requires
            0 <= x < w,
            0 <= y < h,
    ;
    assert forall|x2: int, y2: int|
        in_grid(x2, y2, w, h) && (x2 != x || y2 != y) implies #[trigger] (y2 * w + x2) != y * w
        + x by {
        if y2 < y {
            assert(y2 * w + x2 < y * w + x) by (nonlinear_arith)
                requires
                    y2 < y,
                    0 <= x2 < w,
                    0 <= x,
            ;
        } else if y2 > y {
            assert(y2 * w + x2 > y * w + x) by (nonlinear_arith)
                requires
                    y2 > y,
                    0 <= x < w,
                    0 <= x2,
            ;
        }
    }
}

pub proof fn lemma_grid_size(w: int, h: int)
    requires
        0 <= w <= MAX_DIM,
        0 <= h <= MAX_DIM,
    ensures
        0 <= w * h <= MAX_DIM * MAX_DIM,
        w * w <= MAX_DIM * MAX_DIM,
{
    assert(0 <= w * h <= MAX_DIM * MAX_DIM && w * w <= MAX_DIM * MAX_DIM) by (nonlinear_arith)
        requires
            0 <= w <= MAX_DIM,
            0 <= h <= MAX_DIM,
    ;
}

/// A cell of a disc lies within the disc's bounding square.
pub proof fn lemma_circle_box(cx: int, cy: int, r: int, x: int, y: int)
    requires
        r >= 0,
        in_circle(cx, cy, r, x, y),
    ensures
        cx - r <= x <= cx + r,
        cy - r <= y <= cy + r,
{
    assert(cx - r <= x <= cx + r && cy - r <= y <= cy + r) by (nonlinear_arith)
        requires
            (x - cx) * (x - cx) + (y - cy) * (y - cy) <= r * r,
            r >= 0,
    ;
}

/// Which cells of a `width` x `height` grid are reserved.
pub(crate) struct Occupancy {
    pub(crate) width: i32,
    pub(crate) height: i32,
    pub(crate) cells: Vec<bool>,
}

impl Occupancy {
    pub(crate) open spec fn wf(&self) -> bool {
        &&& 0 <= self.width <= MAX_DIM
        &&& 0 <= self.height <= MAX_DIM
        &&& self.cells@.len() == self.width * self.height
    }

    pub(crate) open spec fn grid_width(&self) -> int {
        self.width as int
    }

    pub(crate) open spec fn grid_height(&self) -> int {
        self.height as int
    }

    pub(crate) open spec fn occupied(&self, x: int, y: int) -> bool {
        self.cells@[y * self.width + x]
    }

    /// Whether the disc of radius `r` around `(cx, cy)` lies on the grid and
    /// holds no reserved cell.
    pub(crate) open spec fn fits(&self, cx: int, cy: int, r: int) -> bool {
        &&& cx - r >= 0
        &&& cy - r >= 0
        &&& cx + r < self.width
        &&& cy + r < self.height
        &&& forall|x: int, y: int| in_circle(cx, cy, r, x, y) ==> !#[trigger] self.occupied(x, y)
    }

    /// A grid with every cell free.
    pub(crate) fn new(width: i32, height: i32) -> (r: Occupancy)
        requires
            0 <= width <= MAX_DIM,
            0 <= height <= MAX_DIM,
        ensures
            r.wf(),
            r.grid_width() == width,
            r.grid_height() == height,
            forall|x: int, y: int| in_grid(x, y, width as int, height as int) ==> !#[trigger] r.occupied(x, y),
    {
        assert(0 <= width * height <= MAX_DIM * MAX_DIM) by (nonlinear_arith)
            requires
                0 <= width <= MAX_DIM,
                0 <= height <= MAX_DIM,
        ;
        let n: usize = (width * height) as usize;
        let cells: Vec<bool> = vec![false; n];
        let r = Occupancy { width, height, cells };
        assert forall|x: int, y: int| in_grid(x, y, width as int, height as int) implies !#[trigger] r.occupied(x, y) by {
            lemma_cell_index(width as int, height as int, x, y);
        }
        r
    }

    pub(crate) fn is_occupied(&self, x: i32, y: i32) -> (r: bool)
        requires
            self.wf(),
            in_grid(x as int, y as int, self.grid_width(), self.grid_height()),
        ensures
            r == self.occupied(x as int, y as int),
    {
        proof {
            lemma_cell_index(self.width as int, self.height as int, x as int, y as int);
            lemma_grid_size(self.width as int, self.height as int);
        }
        self.cells[(y * self.width + x) as usize]
    }

    /// True exactly when the whole disc is on the grid and none of its cells
    /// is reserved. Changes nothing.
    pub(crate) fn circle_fits(&self, center_x: i32, center_y: i32, radius: i32) -> (r: bool)
        requires
            self.wf(),
            -2 * MAX_DIM <= center_x <= 2 * MAX_DIM,
            -2 * MAX_DIM <= center_y <= 2 * MAX_DIM,
            0 <= radius <= MAX_DIM,
        ensures
            r == self.fits(center_x as int, center_y as int, radius as int),
    {
        if center_x - radius < 0 || center_y - radius < 0 || center_x + radius >= self.width
            || center_y + radius >= self.height {
            return false;
        }
        proof {
            lemma_grid_size(radius as int, radius as int);
        }
        let radius_sq = radius * radius;
        let mut y = center_y - radius;
        while y <= center_y + radius
            invariant
                self.wf(),
                0 <= radius <= MAX_DIM,
                center_x - radius >= 0,
                center_y - radius >= 0,
                center_x + radius < self.width,
                center_y + radius < self.height,
                radius_sq == radius * radius,
                radius_sq <= MAX_DIM * MAX_DIM,
                center_y - radius <= y <= center_y + radius + 1,
                forall|x2: int, y2: int|
                    center_y - radius <= y2 < y && in_circle(center_x as int, center_y as int, radius as int, x2, y2)
                        ==> !#[trigger] self.occupied(x2, y2),
            decreases center_y + radius + 1 - y,
        {
            let mut x = center_x - radius;
            while x <= center_x + radius
                invariant
                    self.wf(),
                    0 <= radius <= MAX_DIM,
                    center_x - radius >= 0,
                    center_y - radius >= 0,
                    center_x + radius < self.width,
                    center_y + radius < self.height,
                    radius_sq == radius * radius,
                    radius_sq <= MAX_DIM * MAX_DIM,
                radius_sq <= MAX_DIM * MAX_DIM,
                    center_y - radius <= y <= center_y + radius,
                    center_x - radius <= x <= center_x + radius + 1,
                    forall|x2: int, y2: int|
                        center_y - radius <= y2 < y && in_circle(center_x as int, center_y as int, radius as int, x2, y2)
                            ==> !#[trigger] self.occupied(x2, y2),
                    forall|x2: int|
                        center_x - radius <= x2 < x && in_circle(center_x as int, center_y as int, radius as int, x2, y as int)
                            ==> !#[trigger] self.occupied(x2, y as int),
                decreases center_x + radius + 1 - x,
            {
                let dx = x - center_x;
                let dy = y - center_y;
                assert(0 <= dx * dx <= 0x1000_0000 && 0 <= dy * dy <= 0x1000_0000) by (nonlinear_arith)
                    requires
                        -radius <= dx <= radius,
                        -radius <= dy <= radius,
                        radius <= 0x4000,
                ;
                if dx * dx + dy * dy <= radius_sq {
                    if self.is_occupied(x, y) {
                        return false;
                    }
                }
                x += 1;
            }
            assert forall|x2: int, y2: int|
                center_y - radius <= y2 < y + 1 && in_circle(center_x as int, center_y as int, radius as int, x2, y2)
                    implies !#[trigger] self.occupied(x2, y2) by {
                lemma_circle_box(center_x as int, center_y as int, radius as int, x2, y2);
            }
            y += 1;
        }
        assert forall|x2: int, y2: int| in_circle(center_x as int, center_y as int, radius as int, x2, y2) implies !#[trigger] self.occupied(x2, y2) by {
            lemma_circle_box(center_x as int, center_y as int, radius as int, x2, y2);
        }
        true
    }

    /// Reserves every cell of the grid within `radius` of the centre.
    pub(crate) fn mark_circle_occupancy(&mut self, center_x: i32, center_y: i32, radius: i32)
        requires
            old(self).wf(),
            -2 * MAX_DIM <= center_x <= 2 * MAX_DIM,
            -2 * MAX_DIM <= center_y <= 2 * MAX_DIM,
            0 <= radius <= MAX_DIM,
        ensures
            final(self).wf(),
            final(self).grid_width() == old(self).grid_width(),
            final(self).grid_height() == old(self).grid_height(),
            forall|x: int, y: int|
                in_grid(x, y, old(self).grid_width(), old(self).grid_height()) ==> #[trigger] final(self).occupied(x, y) == (
                old(self).occupied(x, y) || in_circle(center_x as int, center_y as int, radius as int, x, y)),
    {
        let ghost before = *self;
        let width = self.width;
        let height = self.height;
        proof {
            lemma_grid_size(radius as int, radius as int);
        }
        let radius_sq = radius * radius;
        let mut y = center_y - radius;
        assert forall|x2: int, y2: int| y2 < y && in_circle(center_x as int, center_y as int, radius as int, x2, y2) implies false by {
            lemma_circle_box(center_x as int, center_y as int, radius as int, x2, y2);
        }
        while y <= center_y + radius
            invariant
                self.wf(),
                self.width == width,
                self.height == height,
                before.wf(),
                before.width == width,
                before.height == height,
                0 <= radius <= MAX_DIM,
                -2 * MAX_DIM <= center_x <= 2 * MAX_DIM,
                -2 * MAX_DIM <= center_y <= 2 * MAX_DIM,
                radius_sq == radius * radius,
                radius_sq <= MAX_DIM * MAX_DIM,
                center_y - radius <= y <= center_y + radius + 1,
                forall|x2: int, y2: int|
                    in_grid(x2, y2, width as int, height as int) ==> #[trigger] self.occupied(x2, y2) == (
                    before.occupied(x2, y2) || (y2 < y && in_circle(center_x as int, center_y as int, radius as int, x2, y2))),
            decreases center_y + radius + 1 - y,
        {
            let mut x = center_x - radius;
            assert forall|x2: int| x2 < x && in_circle(center_x as int, center_y as int, radius as int, x2, y as int) implies false by {
                lemma_circle_box(center_x as int, center_y as int, radius as int, x2, y as int);
            }
            while x <= center_x + radius
                invariant
                    self.wf(),
                    self.width == width,
                    self.height == height,
                    before.wf(),
                    before.width == width,
                    before.height == height,
                    0 <= radius <= MAX_DIM,
                    -2 * MAX_DIM <= center_x <= 2 * MAX_DIM,
                    -2 * MAX_DIM <= center_y <= 2 * MAX_DIM,
                    radius_sq == radius * radius,
                    radius_sq <= MAX_DIM * MAX_DIM,
                radius_sq <= MAX_DIM * MAX_DIM,
                    center_y - radius <= y <= center_y + radius,
                    center_x - radius <= x <= center_x + radius + 1,
                    forall|x2: int, y2: int|
                        in_grid(x2, y2, width as int, height as int) ==> #[trigger] self.occupied(x2, y2) == (
                        before.occupied(x2, y2) || ((y2 < y || (y2 == y && x2 < x)) && in_circle(
                            center_x as int,
                            center_y as int,
                            radius as int,
                            x2,
                            y2,
                        ))),
                decreases center_x + radius + 1 - x,
            {
                let ghost prev = *self;
                if x >= 0 && y >= 0 && x < width && y < height {
                    let dx = x - center_x;
                    let dy = y - center_y;
                    assert(0 <= dx * dx <= 0x1000_0000 && 0 <= dy * dy <= 0x1000_0000) by (nonlinear_arith)
                        requires
                            -radius <= dx <= radius,
                            -radius <= dy <= radius,
                            radius <= 0x4000,
                    ;
                    if dx * dx + dy * dy <= radius_sq {
                        proof {
                            lemma_cell_index(width as int, height as int, x as int, y as int);
                            lemma_grid_size(width as int, height as int);
                        }
                        let idx = (y * width + x) as usize;
                        self.cells.set(idx, true);
                    }
                }
                proof {
                    assert forall|x2: int, y2: int| in_grid(x2, y2, width as int, height as int) implies
                        #[trigger] self.occupied(x2, y2) == (prev.occupied(x2, y2) || (x2 == x && y2 == y
                        && in_circle(center_x as int, center_y as int, radius as int, x2, y2))) by {
                        lemma_cell_index(width as int, height as int, x2, y2);
                    }
                }
                x += 1;
            }
            proof {
                assert forall|x2: int, y2: int| in_grid(x2, y2, width as int, height as int) implies
                    #[trigger] self.occupied(x2, y2) == (before.occupied(x2, y2) || (y2 < y + 1
                    && in_circle(center_x as int, center_y as int, radius as int, x2, y2))) by {
                    if y2 == y && in_circle(center_x as int, center_y as int, radius as int, x2, y2) {
                        lemma_circle_box(center_x as int, center_y as int, radius as int, x2, y2);
                    }
                }
            }
            y += 1;
        }
        assert forall|x2: int, y2: int| in_grid(x2, y2, width as int, height as int) implies
            #[trigger] self.occupied(x2, y2) == (before.occupied(x2, y2) || in_circle(
            center_x as int, center_y as int, radius as int, x2, y2)) by {
            if in_circle(center_x as int, center_y as int, radius as int, x2, y2) {
                lemma_circle_box(center_x as int, center_y as int, radius as int, x2, y2);
            }
        }
    }
    /// Reserves cell `(x, y)` if it lies on the grid.
    pub(crate) fn occupy_cell(&mut self, x: i32, y: i32)
        requires
            old(self).wf(),
        ensures
            final(self).wf(),
            final(self).grid_width() == old(self).grid_width(),
            final(self).grid_height() == old(self).grid_height(),
            forall|x2: int, y2: int|
                in_grid(x2, y2, old(self).grid_width(), old(self).grid_height()) ==> #[trigger] final(self).occupied(x2, y2) == (
                old(self).occupied(x2, y2) || (x2 == x && y2 == y)),
    {
        let ghost before = *self;
        if x >= 0 && y >= 0 && x < self.width && y < self.height {
            proof {
                lemma_cell_index(self.width as int, self.height as int, x as int, y as int);
                lemma_grid_size(self.width as int, self.height as int);
            }
            let idx = (y * self.width + x) as usize;
            self.cells.set(idx, true);
        }
        assert forall|x2: int, y2: int| in_grid(x2, y2, before.grid_width(), before.grid_height()) implies #[trigger] self.occupied(x2, y2) == (
            before.occupied(x2, y2) || (x2 == x && y2 == y)) by {
            lemma_cell_index(self.width as int, self.height as int, x2, y2);
        }
    }

    /// A second grid with the same cells reserved.
    pub(crate) fn copy(&self) -> (r: Occupancy)
        requires
            self.wf(),
        ensures
            r.wf(),
            r.grid_width() == self.grid_width(),
            r.grid_height() == self.grid_height(),
            r.cells@ == self.cells@,
    {
        let mut cells: Vec<bool> = Vec::new();
        let mut i: usize = 0;
        while i < self.cells.len()
            invariant
                i <= self.cells@.len(),
                cells@ == self.cells@.subrange(0, i as int),
            decreases self.cells@.len() - i,
        {
            cells.push(self.cells[i]);
            i += 1;
            assert(cells@ =~= self.cells@.subrange(0, i as int));
        }
        assert(cells@ =~= self.cells@);
        Occupancy { width: self.width, height: self.height, cells }
    }
}


/// A grid on which exactly the cells of the given areas are reserved.
pub(crate) fn build_area_occupancy(width: i32, height: i32, areas: &Vec<MapArea>) -> (r: Occupancy)
    requires
        0 <= width <= MAX_DIM,
        0 <= height <= MAX_DIM,
        forall|i: int| 0 <= i < areas@.len() ==> #[trigger] areas@[i].inside(width as int, height as int),
    ensures
        r.wf(),
        r.grid_width() == width,
        r.grid_height() == height,
        forall|x: int, y: int|
            in_grid(x, y, width as int, height as int) ==> (#[trigger] r.occupied(x, y) <==> exists|i: int|
                0 <= i < areas@.len() && #[trigger] areas@[i].covers(x, y)),
{
    let mut occupied = Occupancy::new(width, height);
    let mut k: usize = 0;
    while k < areas.len()
        invariant
            occupied.wf(),
            occupied.grid_width() == width,
            occupied.grid_height() == height,
            k <= areas@.len(),
            forall|i: int| 0 <= i < areas@.len() ==> #[trigger] areas@[i].inside(width as int, height as int),
            forall|x: int, y: int|
                in_grid(x, y, width as int, height as int) ==> (#[trigger] occupied.occupied(x, y) <==> exists|i: int|
                    0 <= i < k && #[trigger] areas@[i].covers(x, y)),
        decreases areas@.len() - k,
    {
        let area = areas[k];
        assert(areas@[k as int].inside(width as int, height as int));
        let ghost prev = occupied;
        occupied.mark_circle_occupancy(area.center_x, area.center_y, area.radius);
        assert forall|x: int, y: int| in_grid(x, y, width as int, height as int) implies (#[trigger] occupied.occupied(x, y) <==> exists|i: int|
            0 <= i < k + 1 && #[trigger] areas@[i].covers(x, y)) by {
            if occupied.occupied(x, y) {
                if !prev.occupied(x, y) {
                    assert(areas@[k as int].covers(x, y));
                }
            }
            if exists|i: int| 0 <= i < k + 1 && #[trigger] areas@[i].covers(x, y) {
                let i = choose|i: int| 0 <= i < k + 1 && #[trigger] areas@[i].covers(x, y);
                if i < k {
                    assert(prev.occupied(x, y));
                }
            }
        }
        k += 1;
    }
    occupied
}

} // verus!
