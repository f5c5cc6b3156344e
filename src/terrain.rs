//! Cellular smoothing of a terrain grid.

use crate::layout::{in_grid, MAX_DIM};
use crate::occupancy::{lemma_cell_index, lemma_grid_size};
use crate::raster::{is_grid, tile, BaseTile};
use vstd::arithmetic::div_mod::{lemma_fundamental_div_mod, lemma_mod_bound};
use vstd::prelude::*;

verus! {

/// Position `i` of a row-major grid of width `w` is cell `(i % w, i / w)`.
pub proof fn lemma_index_coords(w: int, h: int, i: int)
    requires
        0 < w,
        0 <= i < w * h,
    ensures
        in_grid(i % w, i / w, w, h),
        (i / w) * w + i % w == i,
{
    lemma_fundamental_div_mod(i, w);
    lemma_mod_bound(i, w);
    let q = i / w;
    let r = i % w;
    assert(q * w == w * q) by (nonlinear_arith);
    assert(0 <= q < h) by (nonlinear_arith)
        requires
            i == q * w + r,
            0 <= r < w,
            0 <= i < w * h,
            0 < w,
    ;
}

/// 1 when cell `(x, y)` is on the grid and shows `t`, else 0.
pub open spec fn is_kind(cells: Seq<BaseTile>, w: int, h: int, x: int, y: int, t: BaseTile) -> int {
    if in_grid(x, y, w, h) && tile(cells, w, x, y) == t {
        1
    } else {
        0
    }
}

pub open spec fn row_count(cells: Seq<BaseTile>, w: int, h: int, x: int, y: int, t: BaseTile) -> int {
    is_kind(cells, w, h, x - 1, y, t) + is_kind(cells, w, h, x, y, t) + is_kind(cells, w, h, x + 1, y, t)
}

/// How many cells of the 3 x 3 block around `(x, y)`, itself included and
/// clipped to the grid, show `t`.
pub open spec fn count_around(cells: Seq<BaseTile>, w: int, h: int, x: int, y: int, t: BaseTile) -> int {
    row_count(cells, w, h, x, y - 1, t) + row_count(cells, w, h, x, y, t) + row_count(cells, w, h, x, y + 1, t)
}

/// The most frequent of the three kinds; on a tie water wins, then grass.
pub open spec fn majority(grass: int, dirt: int, water: int) -> BaseTile {
    let m1 = if grass >= dirt { grass } else { dirt };
    let m = if m1 >= water { m1 } else { water };
    if m == water {
        BaseTile::Water
    } else if m == grass {
        BaseTile::Grass
    } else {
        BaseTile::Dirt
    }
}

/// What one smoothing pass makes of cell `(x, y)`: the majority kind of its
/// block. Path cells count as none of the three kinds.
pub open spec fn smoothed_tile(cells: Seq<BaseTile>, w: int, h: int, x: int, y: int) -> BaseTile {
    majority(
        count_around(cells, w, h, x, y, BaseTile::Grass),
        count_around(cells, w, h, x, y, BaseTile::Dirt),
        count_around(cells, w, h, x, y, BaseTile::Water),
    )
}

/// What one island-reduction pass makes of cell `(x, y)`: water with fewer
/// than three water neighbours becomes dirt; other cells stay.
pub open spec fn reduced_tile(cells: Seq<BaseTile>, w: int, h: int, x: int, y: int) -> BaseTile {
    if tile(cells, w, x, y) != BaseTile::Water {
        tile(cells, w, x, y)
    } else if count_around(cells, w, h, x, y, BaseTile::Water) - 1 < 3 {
        BaseTile::Dirt
    } else {
        BaseTile::Water
    }
}

pub open spec fn smooth_pass(cells: Seq<BaseTile>, w: int, h: int) -> Seq<BaseTile> {
    Seq::new(cells.len(), |i: int| smoothed_tile(cells, w, h, i % w, i / w))
}

pub open spec fn reduce_pass(cells: Seq<BaseTile>, w: int, h: int) -> Seq<BaseTile> {
    Seq::new(cells.len(), |i: int| reduced_tile(cells, w, h, i % w, i / w))
}

pub open spec fn smooth_passes(cells: Seq<BaseTile>, w: int, h: int, n: nat) -> Seq<BaseTile>
    decreases n,
{
    if n == 0 {
        cells
    } else {
        smooth_pass(smooth_passes(cells, w, h, (n - 1) as nat), w, h)
    }
}

pub open spec fn reduce_passes(cells: Seq<BaseTile>, w: int, h: int, n: nat) -> Seq<BaseTile>
    decreases n,
{
    if n == 0 {
        cells
    } else {
        reduce_pass(reduce_passes(cells, w, h, (n - 1) as nat), w, h)
    }
}

fn kind_at(cells: &Vec<BaseTile>, width: u32, height: u32, x: i64, y: i64, t: BaseTile) -> (r: u32)
    requires
        width <= MAX_DIM,
        height <= MAX_DIM,
        is_grid(cells@, width as int, height as int),
        -1 <= x <= MAX_DIM,
        -1 <= y <= MAX_DIM,
    ensures
        r == is_kind(cells@, width as int, height as int, x as int, y as int, t),
{
    if x < 0 || y < 0 || x >= width as i64 || y >= height as i64 {
        return 0;
    }
    proof {
        lemma_cell_index(width as int, height as int, x as int, y as int);
        lemma_grid_size(width as int, height as int);
    }
    let idx = (y as u32 * width + x as u32) as usize;
    if cells[idx] == t {
        1
    } else {
        0
    }
}

fn count_kind(cells: &Vec<BaseTile>, width: u32, height: u32, x: u32, y: u32, t: BaseTile) -> (r: u32)
    requires
        width <= MAX_DIM,
        height <= MAX_DIM,
        is_grid(cells@, width as int, height as int),
        in_grid(x as int, y as int, width as int, height as int),
    ensures
        r == count_around(cells@, width as int, height as int, x as int, y as int, t),
{
    let xi = x as i64;
    let yi = y as i64;
    let mut total: u32 = 0;
    let mut dy: i64 = -1;
    while dy <= 1
        invariant
            width <= MAX_DIM,
            height <= MAX_DIM,
            is_grid(cells@, width as int, height as int),
            in_grid(x as int, y as int, width as int, height as int),
            xi == x,
            yi == y,
            -1 <= dy <= 2,
            total == (if dy > -1 { row_count(cells@, width as int, height as int, x as int, y - 1, t) } else { 0 }) + (if dy > 0 {
                row_count(cells@, width as int, height as int, x as int, y as int, t)
            } else {
                0
            }) + (if dy > 1 { row_count(cells@, width as int, height as int, x as int, y + 1, t) } else { 0 }),
        decreases 2 - dy,
    {
        let row = kind_at(cells, width, height, xi - 1, yi + dy, t) + kind_at(cells, width, height, xi, yi + dy, t) + kind_at(
            cells,
            width,
            height,
            xi + 1,
            yi + dy,
            t,
        );
        total = total + row;
        dy += 1;
    }
    total
}

fn smoothed_at(cells: &Vec<BaseTile>, width: u32, height: u32, x: u32, y: u32) -> (r: BaseTile)
    requires
        width <= MAX_DIM,
        height <= MAX_DIM,
        is_grid(cells@, width as int, height as int),
        in_grid(x as int, y as int, width as int, height as int),
    ensures
        r == smoothed_tile(cells@, width as int, height as int, x as int, y as int),
{
    let grass_count = count_kind(cells, width, height, x, y, BaseTile::Grass);
    let dirt_count = count_kind(cells, width, height, x, y, BaseTile::Dirt);
    let water_count = count_kind(cells, width, height, x, y, BaseTile::Water);
    let m1 = if grass_count >= dirt_count { grass_count } else { dirt_count };
    let max = if m1 >= water_count { m1 } else { water_count };
    if max == water_count {
        BaseTile::Water
    } else if max == grass_count {
        BaseTile::Grass
    } else {
        BaseTile::Dirt
    }
}

fn reduced_at(cells: &Vec<BaseTile>, width: u32, height: u32, x: u32, y: u32) -> (r: BaseTile)
    requires
        width <= MAX_DIM,
        height <= MAX_DIM,
        is_grid(cells@, width as int, height as int),
        in_grid(x as int, y as int, width as int, height as int),
    ensures
        r == reduced_tile(cells@, width as int, height as int, x as int, y as int),
{
    proof {
        lemma_cell_index(width as int, height as int, x as int, y as int);
        lemma_grid_size(width as int, height as int);
    }
    let idx = (y * width + x) as usize;
    if cells[idx] != BaseTile::Water {
        return cells[idx];
    }
    let water_count = count_kind(cells, width, height, x, y, BaseTile::Water);
    assert(is_kind(cells@, width as int, height as int, x as int, y as int, BaseTile::Water) == 1);
    if water_count - 1 < 3 {
        BaseTile::Dirt
    } else {
        BaseTile::Water
    }
}

/// One pass over the grid, every cell computed from the grid as it was
/// before the pass: smoothing when `smooth`, island reduction otherwise.
fn one_pass(cells: &Vec<BaseTile>, width: u32, height: u32, smooth: bool) -> (r: Vec<BaseTile>)
    requires
        width <= MAX_DIM,
        height <= MAX_DIM,
        is_grid(cells@, width as int, height as int),
    ensures
        r@ == if smooth { smooth_pass(cells@, width as int, height as int) } else { reduce_pass(cells@, width as int, height as int) },
{
    let ghost w = width as int;
    let ghost h = height as int;
    let ghost target = if smooth { smooth_pass(cells@, w, h) } else { reduce_pass(cells@, w, h) };
    let mut temp: Vec<BaseTile> = Vec::new();
    let mut y: u32 = 0;
    proof {
        lemma_grid_size(w, h);
    }
    while y < height
        invariant
            width <= MAX_DIM,
            height <= MAX_DIM,
            w == width,
            h == height,
            is_grid(cells@, w, h),
            target == if smooth { smooth_pass(cells@, w, h) } else { reduce_pass(cells@, w, h) },
            y <= height,
            temp@.len() == y * w,
            forall|i: int| 0 <= i < temp@.len() ==> temp@[i] == #[trigger] target[i],
        decreases height - y,
    {
        let mut x: u32 = 0;
        while x < width
            invariant
                width <= MAX_DIM,
                height <= MAX_DIM,
                w == width,
                h == height,
                is_grid(cells@, w, h),
                target == if smooth { smooth_pass(cells@, w, h) } else { reduce_pass(cells@, w, h) },
                y < height,
                x <= width,
                temp@.len() == y * w + x,
                forall|i: int| 0 <= i < temp@.len() ==> temp@[i] == #[trigger] target[i],
            decreases width - x,
        {
            let t = if smooth { smoothed_at(cells, width, height, x, y) } else { reduced_at(cells, width, height, x, y) };
            proof {
                let i = y * w + x;
                lemma_cell_index(w, h, x as int, y as int);
                lemma_index_coords(w, h, i);
                vstd::arithmetic::div_mod::lemma_fundamental_div_mod_converse(i, w, y as int, x as int);
                assert(target[i] == t);
            }
            temp.push(t);
            x += 1;
        }
        assert((y + 1) * w == y * w + w) by (nonlinear_arith);
        y += 1;
    }
    assert(h * w == w * h) by (nonlinear_arith);
    assert(temp@ =~= target);
    temp
}

/// Replaces every cell, `passes` times over, by the majority kind of the
/// 3 x 3 block around it (water first, then grass, on a tie).
pub fn smooth_terrain(cells: &mut Vec<BaseTile>, width: u32, height: u32, passes: usize)
    requires
        width <= MAX_DIM,
        height <= MAX_DIM,
        is_grid(old(cells)@, width as int, height as int),
    ensures
        final(cells)@ == smooth_passes(old(cells)@, width as int, height as int, passes as nat),
{
    let mut pass: usize = 0;
    while pass < passes
        invariant
            width <= MAX_DIM,
            height <= MAX_DIM,
            pass <= passes,
            is_grid(cells@, width as int, height as int),
            cells@ == smooth_passes(old(cells)@, width as int, height as int, pass as nat),
        decreases passes - pass,
    {
        let temp = one_pass(cells, width, height, true);
        *cells = temp;
        pass += 1;
    }
}

/// Turns, `passes` times over, every water cell with fewer than three water
/// neighbours into dirt.
pub fn reduce_water_islands(cells: &mut Vec<BaseTile>, width: u32, height: u32, passes: usize)
    requires
        width <= MAX_DIM,
        height <= MAX_DIM,
        is_grid(old(cells)@, width as int, height as int),
    ensures
        final(cells)@ == reduce_passes(old(cells)@, width as int, height as int, passes as nat),
{
    let mut pass: usize = 0;
    while pass < passes
        invariant
            width <= MAX_DIM,
            height <= MAX_DIM,
            pass <= passes,
            is_grid(cells@, width as int, height as int),
            cells@ == reduce_passes(old(cells)@, width as int, height as int, pass as nat),
        decreases passes - pass,
    {
        let temp = one_pass(cells, width, height, false);
        *cells = temp;
        pass += 1;
    }
}

} // verus!
