use benilla_world::furnish::{
    cell_cap, cell_chunks, furnish_order, CELLS_PER_TILE, CELL_SPAWN_CAP, CHUNKS_PER_CELL,
};

#[test]
fn a_fresh_row_furnishes_in_under_half_a_second() {
    let row_cells: usize = 5 * 256;
    let frames = row_cells.div_ceil(CELL_SPAWN_CAP);
    assert!(
        frames <= 30,
        "a 5-tile row must land within ~half a second at 60 Hz, got {frames} frames"
    );
}

/// Four cells a frame while live, no cap otherwise.
#[test]
fn the_cell_cap_is_four_while_live() {
    assert_eq!(cell_cap(true), 4);
    assert_eq!(cell_cap(false), usize::MAX);
    assert_eq!(CELLS_PER_TILE * CHUNKS_PER_CELL, 256);
}

/// A cell's chunks are its 4 by 4 block of the tile's row-major chunk grid.
#[test]
fn a_cell_is_a_four_by_four_block() {
    assert_eq!(
        cell_chunks(0),
        vec![0, 1, 2, 3, 16, 17, 18, 19, 32, 33, 34, 35, 48, 49, 50, 51]
    );
    assert_eq!(cell_chunks(5)[0], 68);
    assert_eq!(*cell_chunks(15).last().unwrap(), 255);
    let mut all: Vec<usize> = (0..16).flat_map(cell_chunks).collect();
    all.sort_unstable();
    assert_eq!(all, (0..256).collect::<Vec<_>>());
}

/// Nearest the focus first, ties by tile key.
#[test]
fn tiles_furnish_nearest_first() {
    let pending = [(5, 5), (3, 3), (2, 4), (4, 4), (4, 3)];
    assert_eq!(
        furnish_order(&pending, (4, 4)),
        vec![(4, 4), (3, 3), (4, 3), (5, 5), (2, 4)]
    );
    assert!(furnish_order(&[], (0, 0)).is_empty());
}
