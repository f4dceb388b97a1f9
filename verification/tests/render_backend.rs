use zomboid_map::render_backend::CellColors;

#[test]
fn cell_colors_start_transparent() {
    let c = CellColors::new(3, 2);
    assert_eq!((c.width, c.height), (3, 2));
    assert_eq!(c.pixels, vec![[0u8, 0, 0, 0]; 6]);
    assert_eq!(c.as_bytes(), &[0u8; 24][..]);
}

#[test]
fn cell_colors_put_is_row_major() {
    let mut c = CellColors::new(3, 2);
    c.put(2, 1, [1, 2, 3, 4]);
    c.put(0, 0, [9, 8, 7, 6]);
    assert_eq!(c.pixels[5], [1, 2, 3, 4]);
    assert_eq!(c.pixels[0], [9, 8, 7, 6]);
    let bytes = c.as_bytes();
    assert_eq!(bytes.len(), 24);
    assert_eq!(&bytes[20..24], &[1, 2, 3, 4]);
    assert_eq!(&bytes[0..4], &[9, 8, 7, 6]);
    assert_eq!(&bytes[4..20], &[0u8; 16][..]);
}

#[test]
fn cell_colors_blit_copies_rows_at_the_offset() {
    let mut canvas = CellColors::new(4, 3);
    let mut tile = CellColors::new(2, 2);
    tile.put(0, 0, [1, 1, 1, 1]);
    tile.put(1, 0, [2, 2, 2, 2]);
    tile.put(0, 1, [3, 3, 3, 3]);
    tile.put(1, 1, [4, 4, 4, 4]);
    canvas.blit(&tile, 1, 1);
    let z = [0u8, 0, 0, 0];
    assert_eq!(
        canvas.pixels,
        vec![z, z, z, z, z, [1, 1, 1, 1], [2, 2, 2, 2], z, z, [3, 3, 3, 3], [4, 4, 4, 4], z]
    );
    assert_eq!((canvas.width, canvas.height), (4, 3));
}
