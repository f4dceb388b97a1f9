use zomboid_map::cell::{LotPackReader, starts_with_lotp};
use zomboid_map::{LotHeader, ZError};

fn put_u32(b: &mut Vec<u8>, v: u32) {
    b.extend_from_slice(&v.to_le_bytes());
}

fn put_i32(b: &mut Vec<u8>, v: i32) {
    b.extend_from_slice(&v.to_le_bytes());
}

fn header(min_layer: i32, max_layer: i32) -> LotHeader {
    let mut h = LotHeader::default();
    h.min_layer = min_layer;
    h.max_layer = max_layer;
    h.tiles = vec!["floor".to_string(), "wall".to_string()];
    h
}

/// A pack of one block and one layer: square (0, 0) holds tiles 10 and 11,
/// square (0, 2) holds tile 12, every other square is skipped.
fn sample_pack() -> Vec<u8> {
    let mut b = Vec::new();
    b.extend_from_slice(b"LOTP");
    put_u32(&mut b, 1);
    put_u32(&mut b, 1);
    put_u32(&mut b, 20);
    put_u32(&mut b, 0);
    // (0, 0): three entries: a room and two tiles
    put_i32(&mut b, 3);
    put_i32(&mut b, 99);
    put_i32(&mut b, 10);
    put_i32(&mut b, 11);
    // (0, 1): a single entry holds no tile
    put_i32(&mut b, 1);
    // (0, 2): a room and one tile
    put_i32(&mut b, 2);
    put_i32(&mut b, 99);
    put_i32(&mut b, 12);
    // (0, 3) and the 60 squares after it are skipped
    put_i32(&mut b, -1);
    put_i32(&mut b, 61);
    b
}

#[test]
fn lotpack_reads_square_stacks() {
    let data = sample_pack();
    let pack = LotPackReader::new().parse(&data, header(0, 1)).unwrap();
    assert_eq!(pack.get_block(0, 0, 0), &[10, 11]);
    assert_eq!(pack.get_block(0, 1, 0), &[] as &[i32]);
    assert_eq!(pack.get_block(0, 2, 0), &[12]);
    assert_eq!(pack.get_block(7, 7, 0), &[] as &[i32]);
    assert_eq!(pack.get_block(8, 0, 0), &[] as &[i32]);
    assert_eq!(pack.get_block(255, 255, 0), &[] as &[i32]);
    assert_eq!(pack.header.tiles.len(), 2);
}

#[test]
fn lotpack_layer_range_and_membership() {
    let data = sample_pack();
    let pack = LotPackReader::new().parse(&data, header(0, 1)).unwrap();
    assert_eq!(pack.layer_range(), (0, 1));
    assert!(pack.has_layer(0));
    assert!(!pack.has_layer(1));
    assert!(!pack.has_layer(-1));
}

#[test]
fn lotpack_negative_lowest_layer_shifts_the_index() {
    // two layers, -1 and 0: the first layer's squares come first
    let mut b = Vec::new();
    b.extend_from_slice(b"LOTP");
    put_u32(&mut b, 1);
    put_u32(&mut b, 1);
    put_u32(&mut b, 20);
    put_u32(&mut b, 0);
    // layer -1: all 64 squares skipped
    put_i32(&mut b, -1);
    put_i32(&mut b, 64);
    // layer 0, square (0, 0): one tile
    put_i32(&mut b, 2);
    put_i32(&mut b, 0);
    put_i32(&mut b, 42);
    put_i32(&mut b, -1);
    put_i32(&mut b, 63);
    let pack = LotPackReader::new().parse(&b, header(-1, 1)).unwrap();
    assert_eq!(pack.get_block(0, 0, -1), &[] as &[i32]);
    assert_eq!(pack.get_block(0, 0, 0), &[42]);
}

#[test]
fn lotpack_magic_is_recognised() {
    let mut data = sample_pack();
    assert!(starts_with_lotp(&data));
    data[3] = b'X';
    assert!(!starts_with_lotp(&data));
    assert!(!starts_with_lotp(b"LOT"));
}

#[test]
fn lotpack_truncated_is_a_slice_error() {
    let data = sample_pack();
    for cut in [8usize, 19, 30, data.len() - 4] {
        let r = LotPackReader::new().parse(&data[..cut], header(0, 1));
        assert!(matches!(r, Err(ZError::Slice)), "cut at {cut}");
    }
}

#[test]
fn lotpack_inverted_layers_are_invalid() {
    let data = sample_pack();
    assert!(matches!(LotPackReader::new().parse(&data, header(2, 1)), Err(ZError::InvalidData)));
}

#[test]
fn lotpack_overfull_square_is_invalid() {
    let mut b = Vec::new();
    b.extend_from_slice(b"LOTP");
    put_u32(&mut b, 1);
    put_u32(&mut b, 1);
    put_u32(&mut b, 20);
    put_u32(&mut b, 0);
    // a room and seventeen tiles: one more than a square holds
    put_i32(&mut b, 18);
    put_i32(&mut b, 0);
    for t in 0..17 {
        put_i32(&mut b, t);
    }
    put_i32(&mut b, -1);
    put_i32(&mut b, 63);
    assert!(matches!(LotPackReader::new().parse(&b, header(0, 1)), Err(ZError::InvalidData)));
}

#[test]
fn lotpack_reader_is_reusable_after_success() {
    let data = sample_pack();
    let mut reader = LotPackReader::new();
    let first = reader.parse(&data, header(0, 1)).unwrap();
    assert_eq!(first.get_block(0, 0, 0), &[10, 11]);
    // after a success the cursor is at 0, so the version is read from the
    // magic and the block count from the version field
    let second = reader.parse(&data, header(0, 1)).unwrap();
    assert_eq!(second.get_block(0, 0, 0), &[10, 11]);
}

#[test]
fn lotpack_positive_lowest_layer_reads_every_stored_layer() {
    // two layers, 2 and 3: layer 2 is z-level 0, layer 3 is z-level 1
    let mut b = Vec::new();
    b.extend_from_slice(b"LOTP");
    put_u32(&mut b, 1);
    put_u32(&mut b, 1);
    put_u32(&mut b, 20);
    put_u32(&mut b, 0);
    // layer 2, square (0, 0): tile 7, then the rest skipped
    put_i32(&mut b, 2);
    put_i32(&mut b, 0);
    put_i32(&mut b, 7);
    put_i32(&mut b, -1);
    put_i32(&mut b, 63);
    // layer 3, square (0, 0): tile 8, then the rest skipped
    put_i32(&mut b, 2);
    put_i32(&mut b, 0);
    put_i32(&mut b, 8);
    put_i32(&mut b, -1);
    put_i32(&mut b, 63);
    let pack = LotPackReader::new().parse(&b, header(2, 4)).unwrap();
    assert!(pack.has_layer(2) && pack.has_layer(3));
    assert_eq!(pack.get_block(0, 0, 2), &[7]);
    assert_eq!(pack.get_block(0, 0, 3), &[8]);
    assert_eq!(pack.get_block_checked(0, 0, 3), Some(&[8][..]));
    assert_eq!(pack.get_block_checked(0, 0, 4), None);
    assert_eq!(pack.get_block_checked(0, 0, 1), None);
}
