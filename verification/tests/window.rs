use benilla_world::window::{outer_radius, StreamWindow, CHUNKS_PER_TILE, KEEP_BAND_CHUNKS};

/// A map tile's edge, in yards.
const TILE_SIZE: f32 = 533.333_33;
/// A chunk's edge, in yards: a sixteenth of a tile.
const CHUNK_SIZE: f32 = TILE_SIZE / 16.0;

/// The inner half-width `1 + trunc(farclip / CHUNK_SIZE)`, the floating-point rule the window
/// is built from.
fn inner_radius(farclip: f32) -> i32 {
    1 + (farclip / CHUNK_SIZE).trunc() as i32
}

/// The farthest a resident tile's corner can lie from the focus, in yards.
fn max_resident_reach_yd(farclip: f32) -> f32 {
    let half = outer_radius(inner_radius(farclip)) + KEEP_BAND_CHUNKS + CHUNKS_PER_TILE;
    half as f32 * CHUNK_SIZE * std::f32::consts::SQRT_2 + TILE_SIZE
}

/// The window on chunk `chunk` of `tile`.
fn at_chunk(farclip: f32, tile: (i32, i32), chunk: (i32, i32)) -> StreamWindow {
    StreamWindow::around(
        (tile.0 * CHUNKS_PER_TILE + chunk.0, tile.1 * CHUNKS_PER_TILE + chunk.1),
        inner_radius(farclip),
    )
}

#[test]
fn the_radii_are_the_references() {
    assert_eq!(inner_radius(777.0), 24);
    assert_eq!(outer_radius(24), 26);
    assert_eq!(inner_radius(350.0), 11);
    assert_eq!(outer_radius(11), 13);
    assert_eq!(inner_radius(177.0), 6);
    assert_eq!(outer_radius(6), 8);
    assert_eq!(inner_radius(CHUNK_SIZE * 3.0 - 0.01), 3);
    assert_eq!(inner_radius(CHUNK_SIZE * 3.0 + 0.01), 4);
}

#[test]
fn the_wanted_block_follows_the_focus_chunk() {
    let w = at_chunk(777.0, (32, 44), (7, 7));
    assert_eq!(w.focus, (32 * 16 + 7, 44 * 16 + 7));
    assert_eq!(w.focus_tile(), (32, 44));
    let tiles = w.wanted_tiles();
    assert_eq!(tiles.len(), 25);
    assert!(tiles.contains(&(30, 42)) && tiles.contains(&(34, 46)));

    let w = at_chunk(777.0, (32, 44), (0, 0));
    let tiles = w.wanted_tiles();
    assert_eq!(tiles.len(), 16);
    assert!(tiles.contains(&(30, 42)) && tiles.contains(&(33, 45)));
    assert!(!tiles.contains(&(34, 44)));
}

#[test]
fn a_shorter_view_distance_wants_fewer_tiles() {
    assert_eq!(at_chunk(350.0, (32, 44), (7, 7)).wanted_tiles().len(), 9);
    assert_eq!(at_chunk(350.0, (32, 44), (15, 15)).wanted_tiles().len(), 4);
}

#[test]
fn the_keep_band_is_one_chunk_of_hysteresis() {
    let w = at_chunk(777.0, (32, 44), (11, 11));
    assert!(w.wanted_tiles().contains(&(34, 46)));
    let w = at_chunk(777.0, (32, 44), (5, 5));
    assert!(!w.wanted_tiles().contains(&(34, 46)));
    assert!(w.keeps((34, 46)));
    let w = at_chunk(777.0, (32, 44), (4, 4));
    assert!(!w.keeps((34, 46)));
    for t in w.wanted_tiles() {
        assert!(w.keeps(t));
    }
}

#[test]
fn the_window_clamps_to_the_grid() {
    let w = at_chunk(777.0, (0, 63), (0, 15));
    let tiles = w.wanted_tiles();
    assert!(tiles
        .iter()
        .all(|&(x, y)| (0..64).contains(&x) && (0..64).contains(&y)));
    assert!(tiles.contains(&(0, 63)) && tiles.contains(&(1, 62)));
    assert!(w.keeps((0, 63)) && !w.keeps((-1, 63)) && !w.keeps((0, 64)));
}

#[test]
fn the_resident_reach_bounds_the_block() {
    let reach = max_resident_reach_yd(777.0);
    assert!((reach - (43.0 * CHUNK_SIZE * std::f32::consts::SQRT_2 + TILE_SIZE)).abs() < 0.01);
    assert!(max_resident_reach_yd(350.0) < reach);
    let w = at_chunk(777.0, (32, 44), (9, 9));
    let (fx, fy) = (w.focus.0 as f32, w.focus.1 as f32);
    let far = w
        .wanted_tiles()
        .into_iter()
        .map(|(tx, ty)| {
            let cx = ((tx + 1) * CHUNKS_PER_TILE) as f32 - fx;
            let cy = ((ty + 1) * CHUNKS_PER_TILE) as f32 - fy;
            (cx * cx + cy * cy).sqrt() * CHUNK_SIZE
        })
        .fold(0.0f32, f32::max);
    assert!(far < reach, "far corner {far} must sit inside the reach {reach}");
}

/// Every tile of the grid-order listing is distinct and in row order, x before y.
#[test]
fn wanted_tiles_come_in_grid_order() {
    let w = at_chunk(777.0, (32, 44), (7, 7));
    let tiles = w.wanted_tiles();
    assert_eq!(tiles[0], (30, 42));
    assert_eq!(tiles[1], (30, 43));
    assert_eq!(tiles[5], (31, 42));
    assert_eq!(*tiles.last().unwrap(), (34, 46));
    for pair in tiles.windows(2) {
        assert!(pair[0] < pair[1]);
    }
}

/// The range is the clamped chunk span divided into tiles.
#[test]
fn tile_range_reports_the_clamped_rectangle() {
    let w = at_chunk(777.0, (0, 63), (0, 15));
    assert_eq!(w.tile_range(0), ((0, 62), (1, 63)));
    assert_eq!(w.tile_range(KEEP_BAND_CHUNKS), ((0, 62), (1, 63)));
    let w = at_chunk(177.0, (10, 10), (8, 8));
    assert_eq!(w.outer, 8);
    assert_eq!(w.tile_range(0), ((10, 10), (11, 11)));
}

/// The focus tile truncates toward zero, as the chunk index is never negative on the grid.
#[test]
fn focus_tile_is_the_chunk_over_sixteen() {
    assert_eq!(StreamWindow::around((0, 0), 6).focus_tile(), (0, 0));
    assert_eq!(StreamWindow::around((15, 16), 6).focus_tile(), (0, 1));
    assert_eq!(StreamWindow::around((1023, 512), 6).focus_tile(), (63, 32));
}

/// The outer half-width never drops below its floor of eight chunks.
#[test]
fn outer_radius_has_a_floor() {
    assert_eq!(outer_radius(1), 8);
    assert_eq!(outer_radius(6), 8);
    assert_eq!(outer_radius(7), 9);
}
