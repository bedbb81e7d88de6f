use raytracer::tiling::{ideal_tile_rows, nearest_factor, pick_tiling_dimensions};

#[test]
fn ideal_rows_is_the_rounded_root() {
    // sqrt(16 * 600 / 800) = sqrt(12) = 3.46..
    assert_eq!(ideal_tile_rows(16, 800, 600), 3);
    // sqrt(16 * 800 / 600) = sqrt(21.33..) = 4.61..
    assert_eq!(ideal_tile_rows(16, 600, 800), 5);
    // sqrt(9 / 4) = 1.5: a half rounds up
    assert_eq!(ideal_tile_rows(1, 4, 9), 2);
    // sqrt(1 / 5) = 0.44..
    assert_eq!(ideal_tile_rows(1, 5, 1), 0);
    assert_eq!(ideal_tile_rows(9, 1, 1), 3);
}

#[test]
fn ideal_rows_of_degenerate_images() {
    assert_eq!(ideal_tile_rows(6, 0, 10), 0);
    assert_eq!(ideal_tile_rows(6, 0, 0), 0);
    assert_eq!(ideal_tile_rows(6, 10, 0), 0);
    assert_eq!(ideal_tile_rows(0, 10, 10), 0);
}

#[test]
fn ideal_rows_at_the_limits() {
    assert_eq!(ideal_tile_rows(u32::MAX, 1, u32::MAX), u32::MAX as u64);
    assert_eq!(ideal_tile_rows(u32::MAX, u32::MAX, u32::MAX), 65536);
    assert_eq!(ideal_tile_rows(1, u32::MAX, 1), 0);
}

#[test]
fn nearest_factor_minimises_the_ratio() {
    // 3/1, 3/2, 4/3, 8/3, 16/3
    assert_eq!(nearest_factor(16, 3), 4);
    // 5/4 against 6/5
    assert_eq!(nearest_factor(12, 5), 6);
    // 3/1 against 7/3
    assert_eq!(nearest_factor(7, 3), 7);
    assert_eq!(nearest_factor(7, 2), 1);
    assert_eq!(nearest_factor(16, 1000), 16);
    assert_eq!(nearest_factor(16, 16), 16);
    assert_eq!(nearest_factor(16, 1), 1);
    assert_eq!(nearest_factor(1, 77), 1);
}

#[test]
fn nearest_factor_without_an_ideal_or_without_factors() {
    assert_eq!(nearest_factor(16, 0), 1);
    assert_eq!(nearest_factor(0, 5), 1);
    assert_eq!(nearest_factor(0, 0), 1);
}

#[test]
fn nearest_factor_with_a_huge_ideal() {
    assert_eq!(nearest_factor(6, u64::MAX), 6);
    assert_eq!(nearest_factor(u32::MAX, u64::MAX), u32::MAX);
}

#[test]
fn tiling_of_common_images() {
    assert_eq!(pick_tiling_dimensions(16, 800, 600), (4, 4));
    assert_eq!(pick_tiling_dimensions(16, 600, 800), (4, 4));
    assert_eq!(pick_tiling_dimensions(8, 800, 400), (4, 2));
    assert_eq!(pick_tiling_dimensions(12, 400, 300), (4, 3));
    assert_eq!(pick_tiling_dimensions(1, 800, 600), (1, 1));
    assert_eq!(pick_tiling_dimensions(7, 700, 100), (7, 1));
    assert_eq!(pick_tiling_dimensions(7, 100, 700), (1, 7));
}

#[test]
fn tiling_of_a_tall_image_with_few_tiles() {
    // The ideal is sqrt(2 * 800 / 100) = 4 rows; of the factors 1 and 2,
    // 2 is nearer.
    assert_eq!(pick_tiling_dimensions(2, 100, 800), (1, 2));
}

#[test]
fn tiling_of_degenerate_input() {
    assert_eq!(pick_tiling_dimensions(0, 800, 600), (0, 1));
    assert_eq!(pick_tiling_dimensions(4, 100, 1), (4, 1));
    assert_eq!(pick_tiling_dimensions(6, 0, 10), (6, 1));
    assert_eq!(pick_tiling_dimensions(6, 10, 0), (6, 1));
}

#[test]
fn tiling_always_multiplies_to_the_tile_count() {
    for n in 1u32..=48 {
        for (w, h) in [(800u32, 600u32), (600, 800), (1920, 1080), (100, 100), (1, 1000)] {
            let (x, y) = pick_tiling_dimensions(n, w, h);
            assert_eq!(x * y, n);
            assert_eq!(y, nearest_factor(n, ideal_tile_rows(n, w, h)));
        }
    }
}
