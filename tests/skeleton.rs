use rand::rngs::StdRng;
use rand::{Rng, SeedableRng};
use spriteforge::{
    build_areas, build_dock_paths, build_search_offsets, candidate_moves, carve_network, default_map_skeleton_config,
    find_nearest_area_index, find_nearest_point, find_nearest_point_on_segments,
    generate_map_skeleton_with_config, nearest_edge_point, points_to_segments, rasterize_layout,
    resolve_point, shrink_areas, AreaType, BaseTile, Fraction, MapArea, MapAreaConfig,
    MapPointConfig, MapSkeleton, MapSkeletonConfig, PathSegment,
};

fn frac(num: u32, den: u32) -> Fraction {
    Fraction { num, den }
}

fn pt(x: Fraction, y: Fraction) -> MapPointConfig {
    MapPointConfig { x, y }
}

fn sample_layout_config() -> MapSkeletonConfig {
    MapSkeletonConfig {
        entry: pt(frac(1, 1), frac(0, 1)),
        fork: pt(frac(1, 2), frac(1, 2)),
        exits: vec![pt(frac(0, 1), frac(1, 2)), pt(frac(1, 2), frac(1, 1))],
        areas: vec![
            MapAreaConfig { x: frac(1, 6), y: frac(1, 4), major: false },
            MapAreaConfig { x: frac(3, 4), y: frac(3, 4), major: true },
        ],
    }
}

fn total_length(skeleton: &MapSkeleton) -> i32 {
    skeleton
        .paths
        .iter()
        .map(|s| (s.end_x - s.start_x).abs() + (s.end_y - s.start_y).abs())
        .sum()
}

fn covers(a: &MapArea, x: i32, y: i32) -> bool {
    let dx = x - a.center_x;
    let dy = y - a.center_y;
    dx * dx + dy * dy <= a.radius * a.radius
}

#[test]
fn map_raster_path_map_basic_metrics() {
    let width = 64;
    let height = 64;
    let mut rng = StdRng::seed_from_u64(1337);
    let layout = generate_map_skeleton_with_config(width, height, &mut rng, &sample_layout_config());
    let tiles = rasterize_layout(width, height, &layout);
    assert_eq!(tiles.len(), (width * height) as usize);

    let dirt_count = tiles
        .iter()
        .filter(|tile| matches!(tile, BaseTile::Dirt | BaseTile::Path))
        .count();
    let dirt_pct = dirt_count as f32 / tiles.len() as f32;
    let min_dirt = (width * height) as usize / 20;
    let max_dirt = (width * height) as usize * 3 / 4;
    assert!(dirt_count >= min_dirt, "dirt tiles too few: {dirt_count} ({dirt_pct:.2}%)");
    assert!(dirt_count <= max_dirt, "dirt tiles too many: {dirt_count} ({dirt_pct:.2}%)");
}

#[test]
fn map_raster_skeleton_total_length_reasonable() {
    let width = 64;
    let height = 64;
    let mut rng = StdRng::seed_from_u64(1337);
    let layout = generate_map_skeleton_with_config(width, height, &mut rng, &sample_layout_config());
    let total_length = total_length(&layout);
    assert!(total_length > 0, "skeleton has no length");
    assert!(total_length < (width * height) as i32, "skeleton length too large: {total_length}");
}

#[test]
fn same_seed_same_skeleton() {
    let config = default_map_skeleton_config();
    for seed in [1u64, 7, 42, 1337] {
        let mut a = StdRng::seed_from_u64(seed);
        let mut b = StdRng::seed_from_u64(seed);
        let first = generate_map_skeleton_with_config(48, 40, &mut a, &config);
        let second = generate_map_skeleton_with_config(48, 40, &mut b, &config);
        assert_eq!(first, second);
    }
}

#[test]
fn segments_stay_on_grid() {
    let config = default_map_skeleton_config();
    for seed in 0..20u64 {
        let mut rng = StdRng::seed_from_u64(seed);
        let (w, h) = (30 + seed as i32, 25 + (seed as i32 % 7));
        let skeleton = generate_map_skeleton_with_config(w as u32, h as u32, &mut rng, &config);
        for s in skeleton.paths.iter().chain(skeleton.water_paths.iter()) {
            for (x, y) in [(s.start_x, s.start_y), (s.end_x, s.end_y)] {
                assert!(0 <= x && x < w && 0 <= y && y < h, "{s:?} leaves {w}x{h}");
            }
        }
    }
}

#[test]
fn default_config_length_in_range() {
    let mut rng = StdRng::seed_from_u64(1337);
    let skeleton = generate_map_skeleton_with_config(64, 64, &mut rng, &default_map_skeleton_config());
    let total = total_length(&skeleton);
    assert!(total > 0);
    assert!(total < 64 * 64);
}

#[test]
fn placed_areas_share_no_cell() {
    let config = default_map_skeleton_config();
    for seed in 0..10u64 {
        let mut rng = StdRng::seed_from_u64(seed);
        let skeleton = generate_map_skeleton_with_config(64, 64, &mut rng, &config);
        assert!(!skeleton.areas.is_empty());
        for (i, a) in skeleton.areas.iter().enumerate() {
            assert!(a.center_x - a.radius >= 0 && a.center_x + a.radius < 64);
            assert!(a.center_y - a.radius >= 0 && a.center_y + a.radius < 64);
            for b in skeleton.areas.iter().skip(i + 1) {
                for y in 0..64 {
                    for x in 0..64 {
                        assert!(!(covers(a, x, y) && covers(b, x, y)));
                    }
                }
            }
        }
    }
}

#[test]
fn network_reaches_fork_and_exits() {
    let mut rng = StdRng::seed_from_u64(3);
    let exits = vec![(0, 16), (16, 31)];
    let mut areas = Vec::new();
    let (trunk, branches) = carve_network(32, 32, &mut rng, (31, 0), (16, 16), &exits, &mut areas);
    assert_eq!(trunk[0], (31, 0));
    assert_eq!(*trunk.last().unwrap(), (16, 16));
    assert_eq!(branches.len(), 2);
    for (branch, exit) in branches.iter().zip(exits.iter()) {
        assert_eq!(branch[0], (16, 16));
        assert_eq!(branch.last().unwrap(), exit);
        for pair in branch.windows(2) {
            let (a, b) = (pair[0], pair[1]);
            assert!((a.0 - b.0).abs() <= 1 && (a.1 - b.1).abs() <= 1 && a != b);
        }
    }
}

#[test]
fn oversized_area_on_fork_still_gives_paths() {
    let config = MapSkeletonConfig {
        entry: pt(frac(1, 1), frac(0, 1)),
        fork: pt(frac(1, 2), frac(1, 2)),
        exits: vec![pt(frac(0, 1), frac(1, 2)), pt(frac(1, 2), frac(1, 1))],
        areas: vec![MapAreaConfig { x: frac(1, 2), y: frac(1, 2), major: true }],
    };
    let mut rng = StdRng::seed_from_u64(1);
    let skeleton = generate_map_skeleton_with_config(32, 32, &mut rng, &config);
    assert!(!skeleton.paths.is_empty());
    // The fork lies inside the area at every radius, so the areas are dropped.
    assert!(skeleton.areas.is_empty());
    assert!(skeleton.water_paths.is_empty());
}

#[test]
fn kept_areas_mean_every_walk_arrived() {
    let config = default_map_skeleton_config();
    for seed in 0..10u64 {
        let mut rng = StdRng::seed_from_u64(seed);
        let skeleton = generate_map_skeleton_with_config(64, 64, &mut rng, &config);
        if !skeleton.areas.is_empty() {
            let corridors: Vec<&PathSegment> = skeleton.paths.iter().filter(|s| s.radius == 1).collect();
            assert!(corridors.iter().any(|s| (s.end_x, s.end_y) == (32, 32)));
            assert!(corridors.iter().any(|s| (s.end_x, s.end_y) == (0, 32)));
            assert!(corridors.iter().any(|s| (s.end_x, s.end_y) == (32, 63)));
        }
    }
}

#[test]
fn runs_are_axis_aligned() {
    let config = default_map_skeleton_config();
    for seed in 0..10u64 {
        let mut rng = StdRng::seed_from_u64(seed);
        let skeleton = generate_map_skeleton_with_config(50, 40, &mut rng, &config);
        for s in skeleton.paths.iter().chain(skeleton.water_paths.iter()) {
            assert!(s.start_x == s.end_x || s.start_y == s.end_y, "{s:?}");
        }
    }
}

#[test]
fn huge_zero_sided_grid_is_empty() {
    let config = default_map_skeleton_config();
    let mut rng = StdRng::seed_from_u64(5);
    let skeleton = generate_map_skeleton_with_config(0, 100_000, &mut rng, &config);
    assert!(skeleton.paths.is_empty() && skeleton.areas.is_empty() && skeleton.water_paths.is_empty());
}

#[test]
fn zero_sized_grid_gives_empty_skeleton() {
    let config = default_map_skeleton_config();
    let mut rng = StdRng::seed_from_u64(5);
    let empty = MapSkeleton { paths: vec![], areas: vec![], water_paths: vec![] };
    assert_eq!(generate_map_skeleton_with_config(0, 10, &mut rng, &config), empty);
    assert_eq!(generate_map_skeleton_with_config(10, 0, &mut rng, &config), empty);
    assert_eq!(generate_map_skeleton_with_config(0, 0, &mut rng, &config), empty);
}

#[test]
fn some_minor_areas_become_docks() {
    let config = default_map_skeleton_config();
    let mut docks = 0;
    let mut water = 0;
    for seed in 0..20u64 {
        let mut rng = StdRng::seed_from_u64(seed);
        let skeleton = generate_map_skeleton_with_config(64, 64, &mut rng, &config);
        docks += skeleton.areas.iter().filter(|a| a.area_type == Some(AreaType::Dock)).count();
        water += skeleton.water_paths.len();
    }
    assert!(docks > 0);
    assert!(water > 0);
}

#[test]
fn resolve_point_rounds_to_nearest_cell() {
    assert_eq!(resolve_point(pt(frac(1, 2), frac(1, 2)), 64, 64), (32, 32));
    assert_eq!(resolve_point(pt(frac(1, 1), frac(0, 1)), 64, 64), (63, 0));
    assert_eq!(resolve_point(pt(frac(1, 6), frac(1, 5)), 64, 64), (11, 13));
    assert_eq!(resolve_point(pt(frac(3, 2), frac(0, 0)), 10, 20), (9, 0));
    assert_eq!(resolve_point(pt(frac(5, 0), frac(1, 3)), 10, 1), (9, 0));
}

#[test]
fn search_offsets_nearest_first() {
    let offsets = build_search_offsets(1);
    assert_eq!(
        offsets,
        vec![(0, 0), (0, -1), (-1, 0), (1, 0), (0, 1), (-1, -1), (1, -1), (-1, 1), (1, 1)]
    );
    assert_eq!(build_search_offsets(6).len(), 169);
}

#[test]
fn small_grids_get_no_areas() {
    let mut rng = StdRng::seed_from_u64(9);
    let configs = vec![MapAreaConfig { x: frac(1, 2), y: frac(1, 2), major: true }];
    assert!(build_areas(4, 40, &mut rng, &configs).is_empty());
    let placed = build_areas(40, 40, &mut rng, &configs);
    assert_eq!(placed.len(), 1);
    assert_eq!(placed[0].area_type, None);
    assert_eq!(placed[0].radius, 6);
    assert_eq!((placed[0].center_x, placed[0].center_y), (20, 20));
}

#[test]
fn shrink_stops_at_one() {
    let mut areas = vec![
        MapArea { center_x: 5, center_y: 5, radius: 3, area_type: None },
        MapArea { center_x: 9, center_y: 9, radius: 1, area_type: Some(AreaType::Dock) },
    ];
    shrink_areas(&mut areas);
    assert_eq!(areas[0].radius, 2);
    assert_eq!(areas[1].radius, 1);
    assert_eq!(areas[1].area_type, Some(AreaType::Dock));
}

#[test]
fn segments_follow_turns() {
    let points = vec![(0, 0), (1, 0), (2, 0), (2, 1), (2, 2), (3, 3)];
    let segments = points_to_segments(&points, 1);
    assert_eq!(
        segments,
        vec![
            PathSegment { start_x: 0, start_y: 0, end_x: 2, end_y: 0, radius: 1 },
            PathSegment { start_x: 2, start_y: 0, end_x: 2, end_y: 2, radius: 1 },
            PathSegment { start_x: 2, start_y: 2, end_x: 3, end_y: 3, radius: 1 },
        ]
    );
    assert!(points_to_segments(&vec![(4, 4)], 0).is_empty());
}

#[test]
fn nearest_edge_prefers_left_then_right_then_top() {
    assert_eq!(nearest_edge_point(2, 5, 10, 10), (0, 5));
    assert_eq!(nearest_edge_point(5, 8, 10, 10), (5, 9));
    assert_eq!(nearest_edge_point(7, 1, 10, 10), (7, 0));
    assert_eq!(nearest_edge_point(8, 5, 10, 10), (9, 5));
    assert_eq!(nearest_edge_point(1, 1, 10, 10), (0, 1));
}

#[test]
fn nearest_area_skips_used() {
    let areas = vec![
        MapArea { center_x: 10, center_y: 10, radius: 2, area_type: None },
        MapArea { center_x: 3, center_y: 3, radius: 2, area_type: None },
        MapArea { center_x: 3, center_y: 3, radius: 1, area_type: None },
    ];
    assert_eq!(find_nearest_area_index(&areas, (2, 2), &vec![]), Some(1));
    assert_eq!(find_nearest_area_index(&areas, (2, 2), &vec![1]), Some(2));
    assert_eq!(find_nearest_area_index(&areas, (2, 2), &vec![1, 2]), Some(0));
    assert_eq!(find_nearest_area_index(&areas, (2, 2), &vec![0, 1, 2]), None);
}

#[test]
fn nearest_points() {
    let walk = vec![(0, 0), (1, 0), (2, 0), (2, 1)];
    assert_eq!(find_nearest_point(&walk, (3, 1)), Some((2, 1)));
    assert_eq!(find_nearest_point(&walk, (1, 5)), Some((2, 1)));
    assert_eq!(find_nearest_point(&vec![], (1, 5)), None);
    let branches = vec![vec![], vec![(5, 5), (6, 5)], vec![(6, 5), (6, 6)]];
    assert_eq!(find_nearest_point_on_segments(&branches, (7, 5)), Some((6, 5)));
    assert_eq!(find_nearest_point_on_segments(&vec![vec![], vec![]], (7, 5)), None);
}

#[test]
fn candidate_moves_order() {
    assert_eq!(candidate_moves(1, -1, (0, 0), 0, 0), vec![(1, 0), (0, -1)]);
    assert_eq!(candidate_moves(0, 1, (1, 1), -1, 0), vec![(0, 0), (0, 1), (1, 1), (-1, 0)]);
    assert_eq!(candidate_moves(0, 0, (0, 0), 1, -1), vec![(0, 0), (0, 0), (1, 0), (0, -1)]);
}

#[test]
fn network_walks_avoid_areas() {
    let mut rng = StdRng::seed_from_u64(8);
    let exits = vec![(0, 20), (20, 39)];
    let mut areas = vec![MapArea { center_x: 30, center_y: 10, radius: 4, area_type: None }];
    let (trunk, branches) = carve_network(40, 40, &mut rng, (39, 0), (20, 20), &exits, &mut areas);
    assert_eq!(areas.len(), 1);
    for &(x, y) in trunk.iter().skip(1).chain(branches.iter().flat_map(|b| b.iter().skip(1))) {
        assert!(!covers(&areas[0], x, y), "({x}, {y}) lies in the area");
    }
}

#[test]
fn no_dock_no_draw() {
    let areas = vec![MapArea { center_x: 10, center_y: 10, radius: 3, area_type: None }];
    let mut rng = StdRng::seed_from_u64(77);
    let mut fresh = StdRng::seed_from_u64(77);
    assert!(build_dock_paths(30, 30, &areas, &mut rng).is_empty());
    assert_eq!(rng.gen::<u64>(), fresh.gen::<u64>());
}

#[test]
fn wide_search_offsets() {
    let offsets = build_search_offsets(20);
    assert_eq!(offsets.len(), 41 * 41);
    assert_eq!(offsets[0], (0, 0));
    assert_eq!(*offsets.last().unwrap(), (20, 20));
}
