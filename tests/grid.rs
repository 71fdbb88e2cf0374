use sandfall::grid::{Grid, Handle, Rgba, BACKGROUND_SHADE, FIELD_HEIGHT, FIELD_WIDTH};

fn bg() -> Rgba {
    Rgba { r: 1, g: 2, b: 3, a: 4 }
}

fn red() -> Rgba {
    Rgba { r: 200, g: 0, b: 0, a: 255 }
}

fn blue() -> Rgba {
    Rgba { r: 0, g: 0, b: 200, a: 255 }
}

fn h(i: usize) -> Handle {
    Handle { index: i, generation: 0 }
}

fn pixel(g: &Grid, x: usize, y: usize) -> [u8; 4] {
    let o = g.texture_offset((x, y));
    let b = g.read_color_buffer();
    [b[o], b[o + 1], b[o + 2], b[o + 3]]
}

#[test]
fn new_grid_is_empty_and_painted_background() {
    let g = Grid::new(4, 3, bg());
    assert_eq!(g.read_color_buffer().len(), 4 * 3 * 4);
    for chunk in g.read_color_buffer().chunks(4) {
        assert_eq!(chunk, &[1, 2, 3, 4]);
    }
    for x in 0..4 {
        for y in 0..3 {
            assert_eq!(g.get(x, y), None);
        }
    }
}

#[test]
fn default_grid_size_and_background() {
    let g = Grid::default();
    assert_eq!(g.xsize(), FIELD_WIDTH);
    assert_eq!(g.ysize(), FIELD_HEIGHT);
    assert_eq!(g.xsize(), 200);
    let c = g.background_color();
    assert_eq!((c.r, c.g, c.b, c.a), (BACKGROUND_SHADE, BACKGROUND_SHADE, BACKGROUND_SHADE, 255));
    assert_eq!(BACKGROUND_SHADE, 28);
}

#[test]
fn texture_offset_is_row_major_and_flipped() {
    let g = Grid::new(4, 3, bg());
    // row 0 of the buffer is the highest y
    assert_eq!(g.texture_offset((0, 2)), 0);
    assert_eq!(g.texture_offset((1, 2)), 4);
    assert_eq!(g.texture_offset((0, 0)), (0 + (3 - 0 - 1) * 4) * 4);
    assert_eq!(g.texture_offset((3, 0)), 44);
    assert_eq!(g.grid_index((3, 2)), 2 * 4 + 3);
}

#[test]
fn wrap_xy_wraps_both_axes() {
    let g = Grid::new(4, 3, bg());
    assert_eq!(g.wrap_xy(-1, -1), (3, 2));
    assert_eq!(g.wrap_xy(4, 3), (0, 0));
    assert_eq!(g.wrap_xy(9, 7), (1, 1));
}

#[test]
fn set_get_and_remove_through_wraparound() {
    let mut g = Grid::new(4, 3, bg());
    g.set(-1, 5, h(7), red());
    assert_eq!(g.get(3, 2), Some(h(7)));
    assert_eq!(g.get(7, -1), Some(h(7)));
    assert_eq!(pixel(&g, 3, 2), [200, 0, 0, 255]);
    assert_eq!(g.remove(3, 2), Some(h(7)));
    assert_eq!(g.get(3, 2), None);
    assert_eq!(pixel(&g, 3, 2), [1, 2, 3, 4]);
    assert_eq!(g.remove(3, 2), None);
}

#[test]
fn copy_into_texture_paints_one_cell() {
    let mut g = Grid::new(2, 2, bg());
    g.copy_into_texture((1, 0), blue());
    assert_eq!(pixel(&g, 1, 0), [0, 0, 200, 255]);
    assert_eq!(pixel(&g, 0, 0), [1, 2, 3, 4]);
    assert_eq!(g.get(1, 0), None);
}

#[test]
fn swap_with_itself_changes_nothing() {
    let mut g = Grid::new(4, 3, bg());
    g.set(1, 1, h(1), red());
    let before: Vec<u8> = g.read_color_buffer().to_vec();
    g.swap(1, 1, 5, 4);
    assert_eq!(g.read_color_buffer(), &before[..]);
    assert_eq!(g.get(1, 1), Some(h(1)));
    g.swap(0, 0, 0, 0);
    assert_eq!(g.read_color_buffer(), &before[..]);
    assert_eq!(g.get(0, 0), None);
}

#[test]
fn swap_exchanges_occupants_and_colors() {
    let mut g = Grid::new(4, 3, bg());
    g.set(0, 0, h(1), red());
    g.set(2, 1, h(2), blue());
    g.swap(0, 0, 2, 1);
    assert_eq!(g.get(0, 0), Some(h(2)));
    assert_eq!(g.get(2, 1), Some(h(1)));
    assert_eq!(pixel(&g, 0, 0), [0, 0, 200, 255]);
    assert_eq!(pixel(&g, 2, 1), [200, 0, 0, 255]);
    // with an empty cell
    g.swap(2, 1, 3, 2);
    assert_eq!(g.get(2, 1), None);
    assert_eq!(pixel(&g, 2, 1), [1, 2, 3, 4]);
    assert_eq!(g.get(3, 2), Some(h(1)));
    assert_eq!(pixel(&g, 3, 2), [200, 0, 0, 255]);
}

#[test]
fn occupied_lists_cells_row_by_row() {
    let mut g = Grid::new(4, 3, bg());
    assert!(g.occupied().is_empty());
    g.set(2, 2, h(1), red());
    g.set(3, 0, h(2), red());
    g.set(0, 2, h(3), blue());
    g.set(1, 0, h(4), blue());
    assert_eq!(g.occupied(), vec![(1, 0, h(4)), (3, 0, h(2)), (0, 2, h(3)), (2, 2, h(1))]);
    g.remove(3, 0);
    assert_eq!(g.occupied(), vec![(1, 0, h(4)), (0, 2, h(3)), (2, 2, h(1))]);
}
