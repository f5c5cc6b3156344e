use rand::rngs::StdRng;
use rand::SeedableRng;
use spriteforge::{
    adjacent_mask, adjacent_non_grass_mask, adjacent_non_path_mask, adjacent_non_water_mask,
    build_render_layers, build_transition_lookup, pick_transition_index, BaseTile,
    EnvironmentKind, EnvironmentObject, LayerKind, LayerSheets, TileMetadata, TilesheetMetadata,
    CORNER_NE, CORNER_NW, EDGE_N, EDGE_S,
};

fn tile_meta(index: usize, mask: Option<u8>) -> TileMetadata {
    TileMetadata { index, row: 0, col: index as u32, x: 0, y: 0, width: 8, height: 8, seed: 1, transition_mask: mask }
}

fn sheet(count: usize, masks: &[Option<u8>]) -> TilesheetMetadata {
    TilesheetMetadata {
        image: "sheet.png".to_string(),
        config: "sheet.config".to_string(),
        sprite_width: None,
        sprite_height: None,
        columns: 4,
        rows: 1,
        padding: 0,
        tile_count: count,
        tiles: masks.iter().enumerate().map(|(i, m)| tile_meta(i, *m)).collect(),
    }
}

fn sheets() -> LayerSheets {
    let plain = sheet(3, &[None, None, None]);
    let trans = sheet(3, &[Some(EDGE_N | CORNER_NE | CORNER_NW), Some(EDGE_S | 96), Some(EDGE_N | CORNER_NE | CORNER_NW)]);
    LayerSheets {
        grass: plain.clone(),
        dirt: plain.clone(),
        path: plain.clone(),
        path_transition: trans.clone(),
        water: plain.clone(),
        water_transition: trans.clone(),
        transition: trans,
        trees: plain.clone(),
        bushes: plain,
    }
}

#[test]
fn masks_of_a_path_cell() {
    // Row-major 3 x 3 grid, y growing downwards in the vector.
    let g = BaseTile::Grass;
    let p = BaseTile::Path;
    let tiles = vec![g, g, g, p, p, p, g, g, g];
    assert_eq!(adjacent_non_path_mask(1, 1, 3, 3, &tiles), 0b1111_0101);
    assert_eq!(adjacent_non_grass_mask(1, 1, 3, 3, &tiles), 250);
    assert_eq!(adjacent_non_grass_mask(1, 0, 3, 3, &tiles), adjacent_mask(1, 0, 3, 3, &tiles, g));
    assert_eq!(adjacent_non_water_mask(0, 0, 3, 3, &tiles), 179);
}

#[test]
fn lookup_groups_tiles_by_mask() {
    let meta = sheet(4, &[Some(1), None, Some(2), Some(1)]);
    let lookup = build_transition_lookup(&meta);
    assert_eq!(lookup.len(), 2);
    assert_eq!(lookup[&1], vec![0, 3]);
    assert_eq!(lookup[&2], vec![2]);
}

#[test]
fn pick_uses_normalized_mask() {
    let meta = sheet(3, &[Some(EDGE_N | CORNER_NE | CORNER_NW), None, Some(EDGE_S)]);
    let lookup = build_transition_lookup(&meta);
    let mut rng = StdRng::seed_from_u64(2);
    assert_eq!(pick_transition_index(EDGE_N, &lookup, &mut rng), Some(0));
    assert_eq!(pick_transition_index(EDGE_S, &lookup, &mut rng), None);
    let empty = build_transition_lookup(&sheet(1, &[None]));
    assert_eq!(pick_transition_index(EDGE_N, &empty, &mut rng), None);
}

#[test]
fn layers_follow_tile_kinds() {
    let g = BaseTile::Grass;
    let d = BaseTile::Dirt;
    let tiles = vec![g, g, g, g, g, g, g, g, g, g, g, g, g, g, g, d];
    let env = vec![
        EnvironmentObject { x: 0, y: 0, kind: EnvironmentKind::Tree },
        EnvironmentObject { x: 1, y: 0, kind: EnvironmentKind::Bush },
        EnvironmentObject { x: 9, y: 0, kind: EnvironmentKind::Tree },
    ];
    let mut rng = StdRng::seed_from_u64(11);
    let layers = build_render_layers(&tiles, &env, 4, 4, &sheets(), &mut rng);
    assert!(layers.grass[0].is_some());
    assert!(layers.transition[0].is_none());
    assert!(layers.dirt[15].is_some());
    assert!(layers.transition[10].is_some() && layers.dirt[10].is_some() && layers.grass[10].is_none());
    assert!(layers.trees[0].is_some() && layers.bushes[1].is_some());
    assert_eq!(layers.layer(LayerKind::Trees).iter().filter(|t| t.is_some()).count(), 1);
    assert!(layers.layer(LayerKind::Grass)[0].unwrap() < 3);
}

#[test]
fn pick_spreads_over_choices() {
    let meta = sheet(4, &[Some(EDGE_S | 96), None, Some(EDGE_S | 96), Some(EDGE_S | 96)]);
    let lookup = build_transition_lookup(&meta);
    let mut seen = std::collections::BTreeSet::new();
    for seed in 0..40u64 {
        let mut rng = StdRng::seed_from_u64(seed);
        let pick = pick_transition_index(EDGE_S, &lookup, &mut rng).unwrap();
        assert!([0, 2, 3].contains(&pick));
        seen.insert(pick);
    }
    assert_eq!(seen.len(), 3);
}
