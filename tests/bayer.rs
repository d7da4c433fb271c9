use ascii_maze::bayer::{generate_bayer_points, BayerPatterns, TILE_UNITS};

#[test]
fn test_bayer_level_0() {
    let points = generate_bayer_points(0);
    assert_eq!(points.len(), 4);
}

#[test]
fn test_bayer_level_1() {
    let points = generate_bayer_points(1);
    assert_eq!(points.len(), 16);
}

#[test]
fn test_bayer_level_2() {
    let points = generate_bayer_points(2);
    assert_eq!(points.len(), 64);
}

#[test]
fn test_bayer_level_3() {
    let points = generate_bayer_points(3);
    assert_eq!(points.len(), 256);
}

#[test]
fn test_bayer_patterns() {
    let patterns = BayerPatterns::new();
    assert_eq!(patterns.level_0.len(), 4);
    assert_eq!(patterns.level_1.len(), 16);
    assert_eq!(patterns.level_2.len(), 64);
    assert_eq!(patterns.level_3.len(), 256);
}

#[test]
fn base_pattern_points() {
    assert_eq!(generate_bayer_points(0), vec![(0, 0), (8, 8), (8, 0), (0, 8)]);
}

#[test]
fn first_subdivision_points() {
    let p = generate_bayer_points(1);
    assert_eq!(&p[0..4], &[(0, 0), (8, 8), (8, 0), (0, 8)]);
    assert_eq!(&p[4..8], &[(4, 4), (12, 12), (12, 4), (4, 12)]);
    assert_eq!(&p[8..12], &[(4, 0), (12, 8), (12, 0), (4, 8)]);
    assert_eq!(&p[12..16], &[(0, 4), (8, 12), (8, 4), (0, 12)]);
}

#[test]
fn finest_level_moves_by_one_sixteenth() {
    let p = generate_bayer_points(3);
    assert_eq!(p[64], (1, 1));
    assert_eq!(p[128], (1, 0));
    assert_eq!(p[192], (0, 1));
}

#[test]
fn levels_are_prefixes_of_finer_levels() {
    for level in 0..3 {
        let coarse = generate_bayer_points(level);
        let fine = generate_bayer_points(level + 1);
        assert_eq!(&fine[..coarse.len()], &coarse[..]);
    }
}

#[test]
fn points_lie_in_the_unit_tile_and_are_distinct() {
    for level in 0..4 {
        let p = generate_bayer_points(level);
        for (i, a) in p.iter().enumerate() {
            assert!(a.0 < TILE_UNITS && a.1 < TILE_UNITS);
            for b in &p[i + 1..] {
                assert_ne!(a, b);
            }
        }
    }
}

#[test]
fn get_level_serves_finest_past_the_last() {
    let patterns = BayerPatterns::new();
    assert_eq!(patterns.get_level(0).len(), 4);
    assert_eq!(patterns.get_level(2).len(), 64);
    assert_eq!(patterns.get_level(3).len(), 256);
    assert_eq!(patterns.get_level(7).len(), 256);
    assert_eq!(patterns.get_level(1), &patterns.level_1[..]);
}

#[test]
fn dots_per_side_doubles_per_level() {
    let patterns = BayerPatterns::default();
    assert_eq!(patterns.dots_per_side(0), 1);
    assert_eq!(patterns.dots_per_side(1), 2);
    assert_eq!(patterns.dots_per_side(2), 4);
    assert_eq!(patterns.dots_per_side(3), 8);
    assert_eq!(patterns.dots_per_side(9), 8);
}
