use rand::rngs::StdRng;
use rand::SeedableRng;
use spriteforge::{
    generate_path_map, generate_path_skeleton, is_edge, max_length_in_direction, BaseTile,
};

fn dirt_metrics(tiles: &[BaseTile]) -> (usize, f32) {
    let dirt_count = tiles.iter().filter(|tile| matches!(tile, BaseTile::Dirt)).count();
    let dirt_pct = if tiles.is_empty() { 0.0 } else { dirt_count as f32 / tiles.len() as f32 };
    (dirt_count, dirt_pct)
}

#[test]
fn path_path_map_basic_metrics() {
    let width = 64;
    let height = 64;
    let mut rng = StdRng::seed_from_u64(1337);
    let tiles = generate_path_map(width, height, &mut rng);
    assert_eq!(tiles.len(), (width * height) as usize);

    let (dirt_count, dirt_pct) = dirt_metrics(&tiles);
    let min_dirt = (width * height) as usize / 20;
    let max_dirt = (width * height) as usize * 3 / 4;
    assert!(dirt_count >= min_dirt, "dirt tiles too few: {dirt_count} ({dirt_pct:.2}%)");
    assert!(dirt_count <= max_dirt, "dirt tiles too many: {dirt_count} ({dirt_pct:.2}%)");
}

#[test]
fn path_path_skeleton_total_length_reasonable() {
    let width = 64;
    let height = 64;
    let mut rng = StdRng::seed_from_u64(1337);
    let skeleton = generate_path_skeleton(width, height, &mut rng);
    let total_length: i32 = skeleton
        .segments
        .iter()
        .map(|segment| (segment.end_x - segment.start_x).abs() + (segment.end_y - segment.start_y).abs())
        .sum();
    assert!(total_length > 0, "skeleton has no length");
    assert!(total_length < (width * height) as i32, "skeleton length too large: {total_length}");
}

#[test]
fn path_map_of_empty_grid_is_empty() {
    let mut rng = StdRng::seed_from_u64(4);
    assert!(generate_path_map(0, 9, &mut rng).is_empty());
    assert!(generate_path_skeleton(9, 0, &mut rng).segments.is_empty());
}

#[test]
fn edges_and_room_to_grow() {
    assert!(is_edge(0, 5, 10, 10));
    assert!(is_edge(9, 5, 10, 10));
    assert!(!is_edge(4, 5, 10, 10));
    assert!(!is_edge(0, 0, 0, 10));
    assert_eq!(max_length_in_direction(2, 5, 1, 0, 10, 10), 6);
    assert_eq!(max_length_in_direction(2, 5, 0, -1, 10, 10), 4);
    assert_eq!(max_length_in_direction(2, 5, 0, 0, 10, 10), 0);
}

#[test]
fn side_branches_are_eight_to_twelve_long() {
    let mut lengths = Vec::new();
    for seed in 0..20u64 {
        let mut rng = StdRng::seed_from_u64(seed);
        let skeleton = generate_path_skeleton(64, 64, &mut rng);
        for s in skeleton.segments.iter().filter(|s| s.radius == 0) {
            lengths.push((s.end_x - s.start_x).abs() + (s.end_y - s.start_y).abs());
        }
    }
    assert!(!lengths.is_empty());
    assert!(lengths.iter().all(|&l| (8..=12).contains(&l)));
    assert!(lengths.iter().any(|&l| l > 8));
}
