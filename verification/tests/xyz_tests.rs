use tilemachine::xyz::{
    compute_tile_grid, resolution_at_zoom, TileCoords, EQUATOR_LENGTH_NM, MAX_TILE_INDEX,
    MAX_ZOOM, ORIGIN_SHIFT_NM, TILE_SIZE,
};

const EARTH_RADIUS_M: f64 = 6378137.0;

fn frac_to_meters(num: i128, den: u64) -> f64 {
    num as f64 / den as f64 / 1.0e9
}

#[test]
fn test_resolution_at_zoom_zero_is_equator_over_tile_size() {
    let (num, den) = resolution_at_zoom(0);
    assert_eq!(num, EQUATOR_LENGTH_NM);
    assert_eq!(den, 256);
    let meters_per_pixel = num as f64 / den as f64 / 1.0e9;
    let expected = 2.0 * std::f64::consts::PI * EARTH_RADIUS_M / TILE_SIZE as f64;
    assert!((meters_per_pixel - expected).abs() < 1.0e-6);
}

#[test]
fn test_resolution_halves_per_zoom_level() {
    for zoom in 0..MAX_ZOOM {
        let (num_a, den_a) = resolution_at_zoom(zoom);
        let (num_b, den_b) = resolution_at_zoom(zoom + 1);
        assert_eq!(num_a, num_b);
        assert_eq!(den_b, 2 * den_a);
    }
}

#[test]
fn test_zoom_zero_tile_covers_whole_world() {
    let g = compute_tile_grid(&TileCoords { x: 0, y: 0, zoom: 0 });
    assert_eq!(g.den, 256);
    let origin_shift_m = ORIGIN_SHIFT_NM as f64 / 1.0e9;
    let expected = std::f64::consts::PI * EARTH_RADIUS_M;
    assert!((origin_shift_m - expected).abs() < 1.0e-6);
    assert!((frac_to_meters(g.xmin_num, g.den) + origin_shift_m).abs() < 1.0e-9);
    assert!((frac_to_meters(g.ymin_num, g.den) + origin_shift_m).abs() < 1.0e-9);
    assert!((frac_to_meters(g.xmax_num, g.den) - origin_shift_m).abs() < 1.0e-9);
    assert!((frac_to_meters(g.ymax_num, g.den) - origin_shift_m).abs() < 1.0e-9);
}

#[test]
fn test_zoom_one_row_zero_is_northern_half() {
    // Tile row 0 is the northernmost row, so at zoom 1 tile (0, 0) spans
    // the north-west quadrant: x in [-pi R, 0), y in (0, +pi R].
    let g = compute_tile_grid(&TileCoords { x: 0, y: 0, zoom: 1 });
    assert_eq!(g.den, 512);
    let origin_shift_m = ORIGIN_SHIFT_NM as f64 / 1.0e9;
    assert!((frac_to_meters(g.xmin_num, g.den) + origin_shift_m).abs() < 1.0e-9);
    assert!(frac_to_meters(g.xmax_num, g.den).abs() < 1.0e-9);
    assert!(frac_to_meters(g.ymin_num, g.den).abs() < 1.0e-9);
    assert!((frac_to_meters(g.ymax_num, g.den) - origin_shift_m).abs() < 1.0e-9);
}

#[test]
fn test_tile_grid_extent_spans_one_tile_of_pixels() {
    let g = compute_tile_grid(&TileCoords { x: 3, y: 5, zoom: 4 });
    // A tile is 256 pixels wide, each spanning the zoom level's resolution.
    let (num, den) = resolution_at_zoom(4);
    assert_eq!(g.den, den);
    assert_eq!(g.xmax_num - g.xmin_num, 256 * num as i128);
    assert_eq!(g.ymax_num - g.ymin_num, 256 * num as i128);
}

#[test]
fn test_adjacent_tiles_share_an_edge() {
    let a = compute_tile_grid(&TileCoords { x: 3, y: 5, zoom: 4 });
    let b = compute_tile_grid(&TileCoords { x: 4, y: 5, zoom: 4 });
    assert_eq!(a.xmax_num, b.xmin_num);
    // Row 6 lies south of row 5, so its ymax meets row 5's ymin.
    let c = compute_tile_grid(&TileCoords { x: 3, y: 6, zoom: 4 });
    assert_eq!(c.ymax_num, a.ymin_num);
}

#[test]
fn test_out_of_range_row_saturates() {
    // A row at or beyond 2^zoom projects like the southernmost row.
    let over = compute_tile_grid(&TileCoords { x: 0, y: 9, zoom: 3 });
    let south = compute_tile_grid(&TileCoords { x: 0, y: 100, zoom: 3 });
    assert_eq!(over.ymin_num, south.ymin_num);
    assert_eq!(over.ymax_num, south.ymax_num);
}

#[test]
fn test_extreme_address_stays_in_range() {
    let g = compute_tile_grid(&TileCoords {
        x: MAX_TILE_INDEX,
        y: MAX_TILE_INDEX,
        zoom: MAX_ZOOM,
    });
    assert!(g.xmin_num < g.xmax_num);
    assert!(g.ymin_num < g.ymax_num);
}
