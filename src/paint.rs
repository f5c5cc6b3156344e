//! Choosing tile-sheet entries for each layer of a rendered map.

use crate::layout::{in_grid, MAX_DIM};
use crate::masks::{filled, normalize_mask, CORNER_NE, CORNER_NW, CORNER_SE, CORNER_SW, EDGE_E, EDGE_N, EDGE_S, EDGE_W};
use crate::occupancy::{lemma_cell_index, lemma_grid_size};
use crate::random::draw_usize;
use crate::raster::{is_grid, tile, BaseTile};
use crate::terrain::lemma_index_coords;
use rand::rngs::StdRng;
use std::collections::HashMap;
use vstd::prelude::*;

verus! {

/// The layers a map is drawn in, bottom to top.
#[derive(Clone, Copy, Debug, PartialEq, Eq, Hash, Structural)]
pub enum LayerKind {
    Grass,
    Dirt,
    Path,
    PathTransition,
    Transition,
    Water,
    WaterTransition,
    Trees,
    Bushes,
}

/// One tile of a tile sheet.
#[derive(Clone, Debug)]
pub struct TileMetadata {
    pub index: usize,
    pub row: u32,
    pub col: u32,
    pub x: u32,
    pub y: u32,
    pub width: u32,
    pub height: u32,
    pub seed: u64,
    /// The transition mask the tile was drawn for, if any.
    pub transition_mask: Option<u8>,
}

/// A tile sheet: its image, layout and tiles.
#[derive(Clone, Debug)]
pub struct TilesheetMetadata {
    pub image: String,
    pub config: String,
    pub sprite_width: Option<u32>,
    pub sprite_height: Option<u32>,
    pub columns: u32,
    pub rows: u32,
    pub padding: u32,
    pub tile_count: usize,
    pub tiles: Vec<TileMetadata>,
}

/// The tile sheet of each layer.
#[derive(Clone, Debug)]
pub struct LayerSheets {
    pub grass: TilesheetMetadata,
    pub dirt: TilesheetMetadata,
    pub path: TilesheetMetadata,
    pub path_transition: TilesheetMetadata,
    pub water: TilesheetMetadata,
    pub water_transition: TilesheetMetadata,
    pub transition: TilesheetMetadata,
    pub trees: TilesheetMetadata,
    pub bushes: TilesheetMetadata,
}

#[derive(Clone, Copy, Debug, PartialEq, Eq, Structural)]
pub enum EnvironmentKind {
    Tree,
    Bush,
}

/// A tree or bush standing on a map cell.
#[derive(Clone, Copy, Debug, PartialEq, Eq, Structural)]
pub struct EnvironmentObject {
    pub x: u32,
    pub y: u32,
    pub kind: EnvironmentKind,
}

/// 1 for a cell on the grid that shows something other than `kind`.
pub open spec fn differs(tiles: Seq<BaseTile>, w: int, h: int, x: int, y: int, kind: BaseTile) -> bool {
    in_grid(x, y, w, h) && tile(tiles, w, x, y) != kind
}

/// The neighbours of `(x, y)` that show something other than `kind`, as a
/// mask: the cell below sets the south edge, the cell left the west edge,
/// the cell above the north edge, the cell right the east edge, and the
/// diagonal cells the corners.
pub open spec fn raw_mask(tiles: Seq<BaseTile>, w: int, h: int, x: int, y: int, kind: BaseTile) -> u8 {
    (if differs(tiles, w, h, x, y - 1, kind) { 4u8 } else { 0u8 }) | (if differs(tiles, w, h, x - 1, y, kind) {
        8u8
    } else {
        0u8
    }) | (if differs(tiles, w, h, x, y + 1, kind) { 1u8 } else { 0u8 }) | (if differs(tiles, w, h, x + 1, y, kind) {
        2u8
    } else {
        0u8
    }) | (if differs(tiles, w, h, x + 1, y + 1, kind) { 16u8 } else { 0u8 }) | (if differs(tiles, w, h, x + 1, y - 1, kind) {
        32u8
    } else {
        0u8
    }) | (if differs(tiles, w, h, x - 1, y - 1, kind) { 64u8 } else { 0u8 }) | (if differs(tiles, w, h, x - 1, y + 1, kind) {
        128u8
    } else {
        0u8
    })
}

/// The normalized mask of the neighbours of `(x, y)` unlike `kind`.
pub open spec fn transition_mask_at(tiles: Seq<BaseTile>, w: int, h: int, x: int, y: int, kind: BaseTile) -> u8 {
    filled(raw_mask(tiles, w, h, x, y, kind))
}

fn differs_at(tiles: &Vec<BaseTile>, width: u32, height: u32, x: i64, y: i64, kind: BaseTile) -> (r: bool)
    requires
        width <= MAX_DIM,
        height <= MAX_DIM,
        is_grid(tiles@, width as int, height as int),
        -1 <= x <= MAX_DIM,
        -1 <= y <= MAX_DIM,
    ensures
        r == differs(tiles@, width as int, height as int, x as int, y as int, kind),
{
    if x < 0 || y < 0 || x >= width as i64 || y >= height as i64 {
        return false;
    }
    proof {
        lemma_cell_index(width as int, height as int, x as int, y as int);
        lemma_grid_size(width as int, height as int);
    }
    tiles[(y as u32 * width + x as u32) as usize] != kind
}

/// The normalized mask of the neighbours of `(x, y)` that show something
/// other than `kind`.
pub fn adjacent_mask(x: u32, y: u32, width: u32, height: u32, tiles: &Vec<BaseTile>, kind: BaseTile) -> (r: u8)
    requires
        width <= MAX_DIM,
        height <= MAX_DIM,
        is_grid(tiles@, width as int, height as int),
        in_grid(x as int, y as int, width as int, height as int),
    ensures
        r == transition_mask_at(tiles@, width as int, height as int, x as int, y as int, kind),
{
    let xi = x as i64;
    let yi = y as i64;
    let south = differs_at(tiles, width, height, xi, yi - 1, kind);
    let west = differs_at(tiles, width, height, xi - 1, yi, kind);
    let north = differs_at(tiles, width, height, xi, yi + 1, kind);
    let east = differs_at(tiles, width, height, xi + 1, yi, kind);
    let north_east = differs_at(tiles, width, height, xi + 1, yi + 1, kind);
    let south_east = differs_at(tiles, width, height, xi + 1, yi - 1, kind);
    let south_west = differs_at(tiles, width, height, xi - 1, yi - 1, kind);
    let north_west = differs_at(tiles, width, height, xi - 1, yi + 1, kind);
    let mask: u8 = (if south { EDGE_S } else { 0 }) | (if west { EDGE_W } else { 0 }) | (if north { EDGE_N } else { 0 }) | (if east {
        EDGE_E
    } else {
        0
    }) | (if north_east { CORNER_NE } else { 0 }) | (if south_east { CORNER_SE } else { 0 }) | (if south_west {
        CORNER_SW
    } else {
        0
    }) | (if north_west { CORNER_NW } else { 0 });
    normalize_mask(mask)
}

/// The neighbours of `(x, y)` that are not water.
pub fn adjacent_non_water_mask(x: u32, y: u32, width: u32, height: u32, tiles: &Vec<BaseTile>) -> (r: u8)
    requires
        width <= MAX_DIM,
        height <= MAX_DIM,
        is_grid(tiles@, width as int, height as int),
        in_grid(x as int, y as int, width as int, height as int),
    ensures
        r == transition_mask_at(tiles@, width as int, height as int, x as int, y as int, BaseTile::Water),
{
    adjacent_mask(x, y, width, height, tiles, BaseTile::Water)
}

/// The neighbours of `(x, y)` that are not grass.
pub fn adjacent_non_grass_mask(x: u32, y: u32, width: u32, height: u32, tiles: &Vec<BaseTile>) -> (r: u8)
    requires
        width <= MAX_DIM,
        height <= MAX_DIM,
        is_grid(tiles@, width as int, height as int),
        in_grid(x as int, y as int, width as int, height as int),
    ensures
        r == transition_mask_at(tiles@, width as int, height as int, x as int, y as int, BaseTile::Grass),
{
    adjacent_mask(x, y, width, height, tiles, BaseTile::Grass)
}

/// The neighbours of `(x, y)` that are not path.
pub fn adjacent_non_path_mask(x: u32, y: u32, width: u32, height: u32, tiles: &Vec<BaseTile>) -> (r: u8)
    requires
        width <= MAX_DIM,
        height <= MAX_DIM,
        is_grid(tiles@, width as int, height as int),
        in_grid(x as int, y as int, width as int, height as int),
    ensures
        r == transition_mask_at(tiles@, width as int, height as int, x as int, y as int, BaseTile::Path),
{
    adjacent_mask(x, y, width, height, tiles, BaseTile::Path)
}

/// The indices of the tiles drawn for mask `m`, in sheet order.
pub open spec fn tiles_with_mask(tiles: Seq<TileMetadata>, m: u8) -> Seq<u32>
    decreases tiles.len(),
{
    if tiles.len() == 0 {
        Seq::empty()
    } else {
        let prev = tiles_with_mask(tiles.drop_last(), m);
        if tiles.last().transition_mask == Some(m) {
            prev.push(tiles.last().index as u32)
        } else {
            prev
        }
    }
}

/// For each transition mask that some tile of the sheet was drawn for, the
/// indices of those tiles in sheet order.
pub fn build_transition_lookup(meta: &TilesheetMetadata) -> (r: HashMap<u8, Vec<u32>>)
    ensures
        forall|m: u8| #[trigger] r@.contains_key(m) <==> tiles_with_mask(meta.tiles@, m).len() > 0,
        forall|m: u8| #[trigger] r@.contains_key(m) ==> r@[m]@ == tiles_with_mask(meta.tiles@, m),
{
    let mut map: HashMap<u8, Vec<u32>> = HashMap::new();
    let mut k: usize = 0;
    while k < meta.tiles.len()
        invariant
            k <= meta.tiles@.len(),
            forall|m: u8| #[trigger] map@.contains_key(m) <==> tiles_with_mask(meta.tiles@.subrange(0, k as int), m).len() > 0,
            forall|m: u8| #[trigger] map@.contains_key(m) ==> map@[m]@ == tiles_with_mask(meta.tiles@.subrange(0, k as int), m),
        decreases meta.tiles@.len() - k,
    {
        let ghost prefix = meta.tiles@.subrange(0, k + 1);
        assert(prefix.drop_last() =~= meta.tiles@.subrange(0, k as int));
        let tile_index = meta.tiles[k].index;
        if let Some(mask) = meta.tiles[k].transition_mask {
            let mut entry = match map.remove(&mask) {
                Some(v) => v,
                None => Vec::new(),
            };
            entry.push(tile_index as u32);
            map.insert(mask, entry);
        }
        k += 1;
    }
    assert(meta.tiles@.subrange(0, meta.tiles@.len() as int) =~= meta.tiles@);
    map
}

/// A random tile among those drawn for the normalized `mask`; `None` when
/// the lookup has none.
pub fn pick_transition_index(mask: u8, lookup: &HashMap<u8, Vec<u32>>, rng: &mut StdRng) -> (r: Option<u32>)
    ensures
        r is Some <==> lookup@.contains_key(filled(mask)) && lookup@[filled(mask)]@.len() > 0,
        r is Some ==> lookup@[filled(mask)]@.contains(r->0),
{
    if lookup.is_empty() {
        return None;
    }
    let mask = normalize_mask(mask);
    let choices = match lookup.get(&mask) {
        Some(c) => c,
        None => {
            return None;
        },
    };
    if choices.len() == 0 {
        return None;
    }
    let k = draw_usize(rng, 0, choices.len());
    Some(choices[k])
}

/// For each layer, the tile-sheet entry drawn at each map cell, if any.
#[derive(Clone, Debug)]
pub struct RenderTileLayers {
    pub width: u32,
    pub height: u32,
    pub grass: Vec<Option<u32>>,
    pub dirt: Vec<Option<u32>>,
    pub path: Vec<Option<u32>>,
    pub path_transition: Vec<Option<u32>>,
    pub transition: Vec<Option<u32>>,
    pub water: Vec<Option<u32>>,
    pub water_transition: Vec<Option<u32>>,
    pub trees: Vec<Option<u32>>,
    pub bushes: Vec<Option<u32>>,
}

impl RenderTileLayers {
    pub open spec fn layer_spec(&self, kind: LayerKind) -> Seq<Option<u32>> {
        match kind {
            LayerKind::Grass => self.grass@,
            LayerKind::Dirt => self.dirt@,
            LayerKind::Path => self.path@,
            LayerKind::PathTransition => self.path_transition@,
            LayerKind::Transition => self.transition@,
            LayerKind::Water => self.water@,
            LayerKind::WaterTransition => self.water_transition@,
            LayerKind::Trees => self.trees@,
            LayerKind::Bushes => self.bushes@,
        }
    }

    /// The cells of one layer.
    pub fn layer(&self, kind: LayerKind) -> (r: &Vec<Option<u32>>)
        ensures
            r@ == self.layer_spec(kind),
    {
        match kind {
            LayerKind::Grass => &self.grass,
            LayerKind::Dirt => &self.dirt,
            LayerKind::Path => &self.path,
            LayerKind::PathTransition => &self.path_transition,
            LayerKind::Transition => &self.transition,
            LayerKind::Water => &self.water,
            LayerKind::WaterTransition => &self.water_transition,
            LayerKind::Trees => &self.trees,
            LayerKind::Bushes => &self.bushes,
        }
    }
}

/// The transition mask a cell is drawn with: that of its neighbours unlike
/// it, for grass, water and path; dirt has none.
pub open spec fn cell_mask(tiles: Seq<BaseTile>, w: int, h: int, x: int, y: int) -> u8 {
    let t = tile(tiles, w, x, y);
    if t == BaseTile::Dirt {
        0
    } else {
        transition_mask_at(tiles, w, h, x, y, t)
    }
}

/// Whether the layer of `kind` has an entry at cell `(x, y)`: the plain tile
/// of the cell's kind when it borders nothing else, else the kind's
/// transition tile over dirt; dirt cells show dirt.
pub open spec fn base_layer_present(tiles: Seq<BaseTile>, w: int, h: int, x: int, y: int, kind: LayerKind) -> bool {
    let t = tile(tiles, w, x, y);
    let edged = cell_mask(tiles, w, h, x, y) != 0;
    match kind {
        LayerKind::Grass => t == BaseTile::Grass && !edged,
        LayerKind::Transition => t == BaseTile::Grass && edged,
        LayerKind::Water => t == BaseTile::Water && !edged,
        LayerKind::WaterTransition => t == BaseTile::Water && edged,
        LayerKind::Path => t == BaseTile::Path && !edged,
        LayerKind::PathTransition => t == BaseTile::Path && edged,
        LayerKind::Dirt => t == BaseTile::Dirt || edged,
        _ => false,
    }
}

/// Some object of `kind` stands on the cell with index `j` of a grid of
/// width `w` and height `h`.
pub open spec fn object_at(env: Seq<EnvironmentObject>, w: int, h: int, j: int, kind: EnvironmentKind) -> bool {
    exists|k: int|
        0 <= k < env.len() && (#[trigger] env[k]).kind == kind && env[k].x < w && env[k].y < h && env[k].y * w + env[k].x == j
}

pub open spec fn sheet_ok(s: TilesheetMetadata) -> bool {
    0 < s.tile_count <= u32::MAX
}

pub open spec fn sheets_ok(s: LayerSheets) -> bool {
    &&& sheet_ok(s.grass)
    &&& sheet_ok(s.dirt)
    &&& sheet_ok(s.path)
    &&& sheet_ok(s.path_transition)
    &&& sheet_ok(s.water)
    &&& sheet_ok(s.water_transition)
    &&& sheet_ok(s.transition)
    &&& sheet_ok(s.trees)
    &&& sheet_ok(s.bushes)
}

/// An entry drawn at random from a sheet of `count` tiles.
pub open spec fn drawn_from(v: Option<u32>, count: usize) -> bool {
    v is Some ==> (v->0 as int) < count
}

pub open spec fn layers_sized(l: RenderTileLayers, n: int) -> bool {
    &&& l.grass@.len() == n
    &&& l.dirt@.len() == n
    &&& l.path@.len() == n
    &&& l.path_transition@.len() == n
    &&& l.transition@.len() == n
    &&& l.water@.len() == n
    &&& l.water_transition@.len() == n
    &&& l.trees@.len() == n
    &&& l.bushes@.len() == n
}

/// Cell `j` of the base layers is filled as the cell's kind and mask ask,
/// with random entries in range of their sheets.
pub open spec fn base_cell_done(l: RenderTileLayers, tiles: Seq<BaseTile>, w: int, h: int, s: LayerSheets, j: int) -> bool {
    let (x, y) = (j % w, j / w);
    &&& (l.grass@[j] is Some <==> base_layer_present(tiles, w, h, x, y, LayerKind::Grass))
    &&& (l.dirt@[j] is Some <==> base_layer_present(tiles, w, h, x, y, LayerKind::Dirt))
    &&& (l.path@[j] is Some <==> base_layer_present(tiles, w, h, x, y, LayerKind::Path))
    &&& (l.path_transition@[j] is Some <==> base_layer_present(tiles, w, h, x, y, LayerKind::PathTransition))
    &&& (l.transition@[j] is Some <==> base_layer_present(tiles, w, h, x, y, LayerKind::Transition))
    &&& (l.water@[j] is Some <==> base_layer_present(tiles, w, h, x, y, LayerKind::Water))
    &&& (l.water_transition@[j] is Some <==> base_layer_present(tiles, w, h, x, y, LayerKind::WaterTransition))
    &&& drawn_from(l.grass@[j], s.grass.tile_count)
    &&& drawn_from(l.dirt@[j], s.dirt.tile_count)
    &&& drawn_from(l.water@[j], s.water.tile_count)
    &&& drawn_from(l.path@[j], s.path.tile_count)
}

pub open spec fn base_cell_empty(l: RenderTileLayers, j: int) -> bool {
    &&& l.grass@[j] is None
    &&& l.dirt@[j] is None
    &&& l.path@[j] is None
    &&& l.path_transition@[j] is None
    &&& l.transition@[j] is None
    &&& l.water@[j] is None
    &&& l.water_transition@[j] is None
}

pub open spec fn base_cell_same(a: RenderTileLayers, b: RenderTileLayers, j: int) -> bool {
    &&& a.grass@[j] == b.grass@[j]
    &&& a.dirt@[j] == b.dirt@[j]
    &&& a.path@[j] == b.path@[j]
    &&& a.path_transition@[j] == b.path_transition@[j]
    &&& a.transition@[j] == b.transition@[j]
    &&& a.water@[j] == b.water@[j]
    &&& a.water_transition@[j] == b.water_transition@[j]
}

fn draw_entry(rng: &mut StdRng, sheet: &TilesheetMetadata) -> (r: u32)
    requires
        sheet_ok(*sheet),
    ensures
        r < sheet.tile_count,
{
    draw_usize(rng, 0, sheet.tile_count) as u32
}

fn all_none(n: usize) -> (r: Vec<Option<u32>>)
    ensures
        r@.len() == n,
        forall|j: int| 0 <= j < n ==> #[trigger] r@[j] is None,
{
    vec![None; n]
}

/// Fills the base layers of one cell: a plain tile of its kind, or a
/// transition tile from the matching lookup (failing that, a random one)
/// with dirt beneath.
fn paint_cell(
    layers: &mut RenderTileLayers,
    base_tiles: &Vec<BaseTile>,
    width: u32,
    height: u32,
    x: u32,
    y: u32,
    sheets: &LayerSheets,
    transition_lookup: &HashMap<u8, Vec<u32>>,
    path_transition_lookup: &HashMap<u8, Vec<u32>>,
    water_transition_lookup: &HashMap<u8, Vec<u32>>,
    rng: &mut StdRng,
)
    requires
        width <= MAX_DIM,
        height <= MAX_DIM,
        is_grid(base_tiles@, width as int, height as int),
        in_grid(x as int, y as int, width as int, height as int),
        layers_sized(*old(layers), width * height),
        base_cell_empty(*old(layers), y * width + x),
        sheets_ok(*sheets),
    ensures
        layers_sized(*final(layers), width * height),
        base_cell_done(*final(layers), base_tiles@, width as int, height as int, *sheets, y * width + x),
        forall|j: int| 0 <= j < width * height && j != y * width + x ==> #[trigger] base_cell_same(*final(layers), *old(layers), j),
        final(layers).trees == old(layers).trees,
        final(layers).bushes == old(layers).bushes,
        final(layers).width == old(layers).width,
        final(layers).height == old(layers).height,
{
    let ghost w = width as int;
    let ghost h = height as int;
    proof {
        lemma_cell_index(w, h, x as int, y as int);
        lemma_grid_size(w, h);
    }
    let idx = (y * width + x) as usize;
    proof {
        vstd::arithmetic::div_mod::lemma_fundamental_div_mod_converse(idx as int, w, y as int, x as int);
    }
    let ghost before = *layers;
    assert(base_cell_empty(before, idx as int));
    match base_tiles[idx] {
        BaseTile::Grass => {
            let mask = adjacent_non_grass_mask(x, y, width, height, base_tiles);
            if mask != 0 {
                let index = match pick_transition_index(mask, transition_lookup, rng) {
                    Some(i) => i,
                    None => draw_entry(rng, &sheets.dirt),
                };
                layers.transition.set(idx, Some(index));
                let dirt_index = draw_entry(rng, &sheets.dirt);
                layers.dirt.set(idx, Some(dirt_index));
            } else {
                let index = draw_entry(rng, &sheets.grass);
                layers.grass.set(idx, Some(index));
            }
        },
        BaseTile::Water => {
            let mask = adjacent_non_water_mask(x, y, width, height, base_tiles);
            if mask != 0 {
                let index = match pick_transition_index(mask, water_transition_lookup, rng) {
                    Some(i) => i,
                    None => draw_entry(rng, &sheets.water_transition),
                };
                layers.water_transition.set(idx, Some(index));
            } else {
                let index = draw_entry(rng, &sheets.water);
                layers.water.set(idx, Some(index));
            }
        },
        BaseTile::Dirt => {
            let dirt_index = draw_entry(rng, &sheets.dirt);
            layers.dirt.set(idx, Some(dirt_index));
        },
        BaseTile::Path => {
            let mask = adjacent_non_path_mask(x, y, width, height, base_tiles);
            if mask != 0 {
                let index = match pick_transition_index(mask, path_transition_lookup, rng) {
                    Some(i) => i,
                    None => draw_entry(rng, &sheets.path_transition),
                };
                layers.path_transition.set(idx, Some(index));
            } else {
                let path_index = draw_entry(rng, &sheets.path);
                layers.path.set(idx, Some(path_index));
            }
        },
    }
    if layers.water_transition[idx].is_some() && layers.dirt[idx].is_none() {
        let dirt_index = draw_entry(rng, &sheets.dirt);
        layers.dirt.set(idx, Some(dirt_index));
    }
    if layers.path_transition[idx].is_some() && layers.dirt[idx].is_none() {
        let dirt_index = draw_entry(rng, &sheets.dirt);
        layers.dirt.set(idx, Some(dirt_index));
    }
    proof {
        let j = idx as int;
        assert(j % w == x && j / w == y);
        assert(tile(base_tiles@, w, x as int, y as int) == base_tiles@[j]);
        assert forall|i: int| 0 <= i < width * height && i != j implies #[trigger] base_cell_same(*layers, before, i) by {}
    }
}

/// Chooses a tile-sheet entry for every layer of every cell of the map, and
/// places the trees and bushes of `environment`.
pub fn build_render_layers(
    base_tiles: &Vec<BaseTile>,
    environment: &Vec<EnvironmentObject>,
    width: u32,
    height: u32,
    sheets: &LayerSheets,
    rng: &mut StdRng,
) -> (r: RenderTileLayers)
    requires
        width <= MAX_DIM,
        height <= MAX_DIM,
        is_grid(base_tiles@, width as int, height as int),
        sheets_ok(*sheets),
    ensures
        r.width == width,
        r.height == height,
        layers_sized(r, width * height),
        forall|j: int| 0 <= j < width * height ==> #[trigger] base_cell_done(r, base_tiles@, width as int, height as int, *sheets, j),
        forall|j: int| 0 <= j < width * height ==> (#[trigger] r.trees@[j] is Some <==> object_at(environment@, width as int, height as int, j, EnvironmentKind::Tree)),
        forall|j: int| 0 <= j < width * height ==> (#[trigger] r.bushes@[j] is Some <==> object_at(environment@, width as int, height as int, j, EnvironmentKind::Bush)),
{
    let ghost w = width as int;
    let ghost h = height as int;
    let n = base_tiles.len();
    let mut layers = RenderTileLayers {
        width,
        height,
        grass: all_none(n),
        dirt: all_none(n),
        path: all_none(n),
        path_transition: all_none(n),
        transition: all_none(n),
        water: all_none(n),
        water_transition: all_none(n),
        trees: all_none(n),
        bushes: all_none(n),
    };
    let transition_lookup = build_transition_lookup(&sheets.transition);
    let path_transition_lookup = build_transition_lookup(&sheets.path_transition);
    let water_transition_lookup = build_transition_lookup(&sheets.water_transition);
    proof {
        lemma_grid_size(w, h);
    }
    let mut y: u32 = 0;
    while y < height
        invariant
            width <= MAX_DIM,
            height <= MAX_DIM,
            w == width,
            h == height,
            n == w * h,
            is_grid(base_tiles@, w, h),
            sheets_ok(*sheets),
            y <= height,
            layers.width == width,
            layers.height == height,
            layers_sized(layers, w * h),
            forall|j: int| 0 <= j < w * h ==> #[trigger] layers.trees@[j] is None && layers.bushes@[j] is None,
            forall|j: int| 0 <= j < y * w ==> #[trigger] base_cell_done(layers, base_tiles@, w, h, *sheets, j),
            forall|j: int| y * w <= j < w * h ==> #[trigger] base_cell_empty(layers, j),
        decreases height - y,
    {
        let mut x: u32 = 0;
        while x < width
            invariant
                width <= MAX_DIM,
                height <= MAX_DIM,
                w == width,
                h == height,
                n == w * h,
                is_grid(base_tiles@, w, h),
                sheets_ok(*sheets),
                y < height,
                x <= width,
                layers.width == width,
                layers.height == height,
                layers_sized(layers, w * h),
                forall|j: int| 0 <= j < w * h ==> #[trigger] layers.trees@[j] is None && layers.bushes@[j] is None,
                forall|j: int| 0 <= j < y * w + x ==> #[trigger] base_cell_done(layers, base_tiles@, w, h, *sheets, j),
                forall|j: int| y * w + x <= j < w * h ==> #[trigger] base_cell_empty(layers, j),
            decreases width - x,
        {
            proof {
                lemma_cell_index(w, h, x as int, y as int);
            }
            let ghost before = layers;
            paint_cell(&mut layers, base_tiles, width, height, x, y, sheets, &transition_lookup, &path_transition_lookup, &water_transition_lookup, rng);
            proof {
                let c = y * w + x;
                assert forall|j: int| 0 <= j < c + 1 implies #[trigger] base_cell_done(layers, base_tiles@, w, h, *sheets, j) by {
                    if j < c {
                        assert(base_cell_done(before, base_tiles@, w, h, *sheets, j));
                        assert(base_cell_same(layers, before, j));
                    }
                }
                assert forall|j: int| c + 1 <= j < w * h implies #[trigger] base_cell_empty(layers, j) by {
                    assert(base_cell_empty(before, j));
                    assert(base_cell_same(layers, before, j));
                }
            }
            x += 1;
        }
        assert((y + 1) * w == y * w + w) by (nonlinear_arith);
        y += 1;
    }
    assert(h * w == w * h) by (nonlinear_arith);
    assert forall|j: int| 0 <= j < w * h implies (#[trigger] layers.bushes@[j] is Some <==> object_at(environment@.subrange(0, 0), w, h, j, EnvironmentKind::Bush)) by {
        assert(layers.trees@[j] is None && layers.bushes@[j] is None);
    }
    let mut k: usize = 0;
    while k < environment.len()
        invariant
            width <= MAX_DIM,
            height <= MAX_DIM,
            w == width,
            h == height,
            sheets_ok(*sheets),
            k <= environment@.len(),
            layers.width == width,
            layers.height == height,
            layers_sized(layers, w * h),
            forall|j: int| 0 <= j < w * h ==> #[trigger] base_cell_done(layers, base_tiles@, w, h, *sheets, j),
            forall|j: int| 0 <= j < w * h ==> (#[trigger] layers.trees@[j] is Some <==> object_at(environment@.subrange(0, k as int), w, h, j, EnvironmentKind::Tree)),
            forall|j: int| 0 <= j < w * h ==> (#[trigger] layers.bushes@[j] is Some <==> object_at(environment@.subrange(0, k as int), w, h, j, EnvironmentKind::Bush)),
        decreases environment@.len() - k,
    {
        let object = environment[k];
        let ghost before = layers;
        let ghost prefix = environment@.subrange(0, k as int);
        let ghost next = environment@.subrange(0, k + 1);
        if object.x < width && object.y < height {
            proof {
                lemma_cell_index(w, h, object.x as int, object.y as int);
                lemma_grid_size(w, h);
            }
            let idx = (object.y * width + object.x) as usize;
            match object.kind {
                EnvironmentKind::Tree => {
                    let tree_index = draw_entry(rng, &sheets.trees);
                    layers.trees.set(idx, Some(tree_index));
                },
                EnvironmentKind::Bush => {
                    let bush_index = draw_entry(rng, &sheets.bushes);
                    layers.bushes.set(idx, Some(bush_index));
                },
            }
        }
        proof {
            assert forall|j: int| 0 <= j < w * h implies #[trigger] base_cell_done(layers, base_tiles@, w, h, *sheets, j) by {
                assert(base_cell_done(before, base_tiles@, w, h, *sheets, j));
            }
            assert(next[k as int] == object);
            assert forall|j: int| 0 <= j < w * h implies (#[trigger] layers.trees@[j] is Some <==> object_at(next, w, h, j, EnvironmentKind::Tree)) by {
                if object.kind == EnvironmentKind::Tree && object.x < w && object.y < h && object.y * w + object.x == j {
                    assert(0 <= k < next.len() && (#[trigger] next[k as int]).kind == EnvironmentKind::Tree && next[k as int].x < w && next[k as int].y < h
                        && next[k as int].y * w + next[k as int].x == j);
                }
                if object_at(prefix, w, h, j, EnvironmentKind::Tree) {
                    let i = choose|i: int| 0 <= i < prefix.len() && (#[trigger] prefix[i]).kind == EnvironmentKind::Tree && prefix[i].x < w && prefix[i].y < h && prefix[i].y * w + prefix[i].x == j;
                    assert(next[i] == prefix[i]);
                }
                if object_at(next, w, h, j, EnvironmentKind::Tree) {
                    let i = choose|i: int| 0 <= i < next.len() && (#[trigger] next[i]).kind == EnvironmentKind::Tree && next[i].x < w && next[i].y < h && next[i].y * w + next[i].x == j;
                    if i < k {
                        assert(prefix[i] == next[i]);
                    }
                }
            }
            assert(next[k as int] == object);
            assert forall|j: int| 0 <= j < w * h implies (#[trigger] layers.bushes@[j] is Some <==> object_at(next, w, h, j, EnvironmentKind::Bush)) by {
                if object.kind == EnvironmentKind::Bush && object.x < w && object.y < h && object.y * w + object.x == j {
                    assert(0 <= k < next.len() && (#[trigger] next[k as int]).kind == EnvironmentKind::Bush && next[k as int].x < w && next[k as int].y < h
                        && next[k as int].y * w + next[k as int].x == j);
                }
                if object_at(prefix, w, h, j, EnvironmentKind::Bush) {
                    let i = choose|i: int| 0 <= i < prefix.len() && (#[trigger] prefix[i]).kind == EnvironmentKind::Bush && prefix[i].x < w && prefix[i].y < h && prefix[i].y * w + prefix[i].x == j;
                    assert(next[i] == prefix[i]);
                }
                if object_at(next, w, h, j, EnvironmentKind::Bush) {
                    let i = choose|i: int| 0 <= i < next.len() && (#[trigger] next[i]).kind == EnvironmentKind::Bush && next[i].x < w && next[i].y < h && next[i].y * w + next[i].x == j;
                    if i < k {
                        assert(prefix[i] == next[i]);
                    }
                }
            }
        }
        k += 1;
    }
    assert(environment@.subrange(0, environment@.len() as int) =~= environment@);
    layers
}

} // verus!
