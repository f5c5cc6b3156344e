//! Procedural map skeletons: a connected network of corridors and circular
//! areas on a bounded grid, the tiles it is drawn with, and the transition
//! masks used to pick tile art.

mod carve;
mod layout;
mod masks;
mod occupancy;
mod placement;
mod random;
mod segments;
mod skeleton;

pub use carve::{
    adjacent, candidate_moves, carver_moves, connector_steps, connector_stuck, is_walk, walk_from,
};
pub use layout::{
    areas_disjoint, areas_inside, in_circle, in_grid, resolve_coord, resolve_point,
    segments_inside, AreaType, Fraction, MapArea, MapAreaConfig, MapPointConfig, MapSkeleton,
    MapSkeletonConfig, PathSegment, MAX_DIM,
};
pub use masks::{
    all_47_masks, all_transition_masks, filled, is_mask_47, is_transition_mask,
    lemma_normalize_idempotent, mask_corners, mask_edges, mask_index, mask_index_47,
    masks_47_below, masks_below, normalize_47, normalize_mask, trimmed, CORNER_MASK, CORNER_NE,
    CORNER_NW, CORNER_SE, CORNER_SW, EDGE_E, EDGE_MASK, EDGE_N, EDGE_S, EDGE_W,
};
pub use placement::{
    before_xy, build_areas, build_search_offsets, covered, first_fit, fits_among, fits_offset,
    largest_radius, lemma_shrink_keeps_apart, major_radius_for, min_side, minor_radius_for,
    no_room, placed_for, placement_story, search_before, search_spread, shrink_areas, shrunk,
    skipped_at, smallest_radius,
};
pub use segments::{points_to_segments, runs_from};
pub use skeleton::{
    build_dock_paths, carve_network, connector_targets_from_config, default_map_skeleton_config,
    edge_point, find_nearest_area_index, find_nearest_point, find_nearest_point_on_segments,
    generate_map_skeleton_with_config, lemma_network_connected, lemma_network_reaches_targets,
    lemma_generated_network_connected, lemma_skeleton_drawable, branch_runs, carved_from,
    exit_cells, network_runs, resolved, area_pick, area_stuck, connector_trace, connector_walk,
    dock_channels, dock_runs, dock_walk, fork_bias, network_reached, network_settled, role_end,
    shrunk_times, trace_runs, walk_settled, ConnectorRecord,
    nearest_edge_point, network_avoids, network_cells, network_shape, radii_ok, reachable,
    ConnectorTarget, CONNECTOR_RADIUS, PATH_RADIUS,
};

mod raster;
pub use raster::{
    dock_tile, fill_water_circle, paint_tile, painted, rasterize_layout, rasterize_paths,
    rasterize_segment, rasterize_water_segment, set_tile, tile, water_tile, BaseTile,
};

mod terrain;
pub use terrain::{reduce_water_islands, smooth_terrain};

mod paint;
pub use paint::{
    adjacent_mask, adjacent_non_grass_mask, adjacent_non_path_mask, adjacent_non_water_mask,
    build_render_layers, build_transition_lookup, pick_transition_index, EnvironmentKind,
    EnvironmentObject, LayerKind, RenderTileLayers, LayerSheets, TileMetadata, TilesheetMetadata,
};

mod path_map;
pub use path_map::{
    generate_path_map, generate_path_skeleton, is_edge, max_length_in_direction, rasterize_skeleton,
    path_skeleton_of, path_walk,
    BranchSpec, PathSkeleton, BRANCH_LENGTH_MAX, BRANCH_LENGTH_MIN,
};

mod color;
pub use color::{
    color_from_bytes, darken_color, parse_color_text, parse_hex_color, Color, ColorError,
};
