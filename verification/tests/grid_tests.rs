use raytracer::canvas::can_allocate;
use raytracer::grid::{TileGrid, TilingError};

#[test]
fn plan_of_an_even_grid() {
    assert_eq!(
        TileGrid::plan(16, 800, 600),
        Ok(TileGrid {
            width: 800,
            height: 600,
            tiles_x: 4,
            tiles_y: 4,
            tile_width: 200,
            tile_height: 150,
        })
    );
    assert_eq!(
        TileGrid::plan(8, 8, 4),
        Ok(TileGrid {
            width: 8,
            height: 4,
            tiles_x: 4,
            tiles_y: 2,
            tile_width: 2,
            tile_height: 2,
        })
    );
}

#[test]
fn plan_without_tiles() {
    assert_eq!(TileGrid::plan(0, 800, 600), Err(TilingError::NoTiles));
    assert_eq!(TileGrid::plan(0, 0, 0), Err(TilingError::NoTiles));
}

#[test]
fn plan_with_an_uneven_width() {
    assert_eq!(
        TileGrid::plan(16, 801, 600),
        Err(TilingError::WidthNotDivisible)
    );
}

#[test]
fn plan_with_an_uneven_height() {
    assert_eq!(
        TileGrid::plan(16, 800, 601),
        Err(TilingError::HeightNotDivisible)
    );
}

#[test]
fn plan_reports_the_width_first() {
    assert_eq!(
        TileGrid::plan(16, 801, 601),
        Err(TilingError::WidthNotDivisible)
    );
}

#[test]
fn plan_of_an_empty_image() {
    assert_eq!(
        TileGrid::plan(6, 0, 0),
        Ok(TileGrid {
            width: 0,
            height: 0,
            tiles_x: 6,
            tiles_y: 1,
            tile_width: 0,
            tile_height: 0,
        })
    );
}

#[test]
fn count_is_columns_times_rows() {
    let grid = TileGrid::plan(12, 400, 300).unwrap();
    assert_eq!((grid.tiles_x, grid.tiles_y), (4, 3));
    assert_eq!(grid.count(), 12);
}

#[test]
fn planned_grids_partition_the_image() {
    let mut planned = 0;
    for n in 0u32..=40 {
        for w in [0u32, 1, 6, 12, 30, 64, 120] {
            for h in [0u32, 1, 6, 12, 30, 64, 120] {
                if let Ok(grid) = TileGrid::plan(n, w, h) {
                    planned += 1;
                    assert_eq!(grid.tiles_x * grid.tiles_y, n);
                    assert_eq!(w % grid.tiles_x, 0);
                    assert_eq!(h % grid.tiles_y, 0);
                    assert_eq!(grid.tile_width, w / grid.tiles_x);
                    assert_eq!(grid.tile_height, h / grid.tiles_y);
                    assert!(can_allocate(grid.tile_width, grid.tile_height));
                    let tiles = grid.make_tiles(false);
                    assert_eq!(tiles.len() as u32, n);
                    let pixels: u64 = tiles
                        .iter()
                        .map(|t| t.pixels.width() as u64 * t.pixels.height() as u64)
                        .sum();
                    assert_eq!(pixels, w as u64 * h as u64);
                }
            }
        }
    }
    assert!(planned > 100);
}

#[test]
fn a_planned_grid_is_valid() {
    assert!(TileGrid::plan(16, 800, 600).unwrap().is_valid());
    assert!(TileGrid::plan(6, 0, 0).unwrap().is_valid());
}

#[test]
fn a_grid_that_does_not_fill_the_image_is_not_valid() {
    let good = TileGrid::plan(8, 8, 4).unwrap();
    assert!(!TileGrid { width: 9, ..good }.is_valid());
    assert!(!TileGrid { height: 5, ..good }.is_valid());
    assert!(!TileGrid { tiles_x: 0, ..good }.is_valid());
    assert!(!TileGrid { tiles_y: 0, ..good }.is_valid());
    assert!(!TileGrid { tile_width: 3, ..good }.is_valid());
    let huge = TileGrid {
        width: 0,
        height: 0,
        tiles_x: u32::MAX,
        tiles_y: 2,
        tile_width: 0,
        tile_height: 0,
    };
    assert!(!huge.is_valid());
}
