use spriteforge::{
    all_47_masks, all_transition_masks, mask_corners, mask_edges, mask_index, mask_index_47,
    normalize_47, normalize_mask, CORNER_NE, CORNER_NW, CORNER_SE, CORNER_SW, EDGE_E, EDGE_N,
    EDGE_S, EDGE_W,
};

#[test]
fn transition_mask_count() {
    let masks = all_transition_masks();
    assert_eq!(masks.len(), 46);
}

#[test]
fn transition_masks_ascending_and_fixed() {
    let masks = all_transition_masks();
    assert_eq!(&masks[..4], &[16, 32, 48, 50]);
    for pair in masks.windows(2) {
        assert!(pair[0] < pair[1]);
    }
    for &m in &masks {
        assert_eq!(normalize_mask(m), m);
    }
}

#[test]
fn normalize_mask_fills_corners_beside_edges() {
    assert_eq!(normalize_mask(EDGE_N), EDGE_N | CORNER_NE | CORNER_NW);
    assert_eq!(normalize_mask(EDGE_N | EDGE_S), 245);
    assert_eq!(normalize_mask(CORNER_SE), CORNER_SE);
    assert_eq!(normalize_mask(0), 0);
    assert_eq!(normalize_mask(EDGE_E | EDGE_W), EDGE_E | EDGE_W | CORNER_NE | CORNER_SE | CORNER_SW | CORNER_NW);
}

#[test]
fn mask_index_positions() {
    assert_eq!(mask_index(EDGE_N), Some(14));
    assert_eq!(mask_index(EDGE_N | EDGE_S), Some(35));
    assert_eq!(mask_index(0), None);
    assert_eq!(mask_index(16), Some(0));
}

#[test]
fn normalize_47_clears_covered_corners() {
    assert_eq!(normalize_47(255), 15);
    assert_eq!(normalize_47(EDGE_N | EDGE_E | CORNER_NE), EDGE_N | EDGE_E);
    assert_eq!(normalize_47(CORNER_SW | EDGE_S), CORNER_SW | EDGE_S);
}

#[test]
fn masks_47_count_and_index() {
    let masks = all_47_masks();
    assert_eq!(masks.len(), 160);
    assert_eq!(&masks[..3], &[1, 2, 3]);
    assert_eq!(mask_index_47(255), Some(14));
    assert_eq!(mask_index_47(0), None);
}

#[test]
fn mask_edges_and_corners_split() {
    assert_eq!(mask_edges(0b1010_0101), 0b0000_0101);
    assert_eq!(mask_corners(0b1010_0101), 0b1010_0000);
    assert_eq!(mask_edges(EDGE_W | CORNER_NW), EDGE_W);
}
