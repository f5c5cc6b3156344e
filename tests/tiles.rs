use spriteforge::{
    rasterize_paths, reduce_water_islands, smooth_terrain, BaseTile, PathSegment,
};

fn grid(text: &str) -> Vec<BaseTile> {
    text.chars()
        .filter(|c| !c.is_whitespace())
        .map(|c| match c {
            'G' => BaseTile::Grass,
            'D' => BaseTile::Dirt,
            'P' => BaseTile::Path,
            _ => BaseTile::Water,
        })
        .collect()
}

#[test]
fn horizontal_corridor_with_verges() {
    let seg = PathSegment { start_x: 0, start_y: 2, end_x: 3, end_y: 2, radius: 0 };
    let tiles = rasterize_paths(5, 5, &vec![seg]);
    assert_eq!(tiles, grid("GGGGG DDDDG PPPPG DDDDG GGGGG"));
}

#[test]
fn wide_vertical_corridor() {
    let seg = PathSegment { start_x: 1, start_y: 0, end_x: 1, end_y: 2, radius: 1 };
    let tiles = rasterize_paths(5, 4, &vec![seg]);
    assert_eq!(tiles, grid("DPPDG DPPDG DPPDG GGGGG"));
}

#[test]
fn later_corridor_overrides_verge() {
    let a = PathSegment { start_x: 0, start_y: 1, end_x: 2, end_y: 1, radius: 0 };
    let b = PathSegment { start_x: 1, start_y: 0, end_x: 1, end_y: 0, radius: 0 };
    let tiles = rasterize_paths(3, 3, &vec![a, b]);
    assert_eq!(tiles, grid("DPD PPP DDD"));
}

#[test]
fn smoothing_takes_majority() {
    let mut cells = grid("WWG WDG GGG");
    smooth_terrain(&mut cells, 3, 3, 1);
    assert_eq!(cells, grid("WWG WGG GGG"));
    let mut cells = grid("DGW GDW DGW");
    smooth_terrain(&mut cells, 3, 3, 2);
    let mut once = grid("DGW GDW DGW");
    smooth_terrain(&mut once, 3, 3, 1);
    assert_eq!(once, grid("GWW GWW GWW"));
    smooth_terrain(&mut once, 3, 3, 1);
    assert_eq!(cells, once);
}

#[test]
fn lone_water_dries_up() {
    let mut cells = grid("WWD WWD DDW");
    reduce_water_islands(&mut cells, 3, 3, 1);
    assert_eq!(cells, grid("WWD WWD DDD"));
}
