use zomboid_map::header::LotHeaderReader;
use zomboid_map::{Obj, Rect, ZError};

fn put_u32(b: &mut Vec<u8>, v: u32) {
    b.extend_from_slice(&v.to_le_bytes());
}

fn put_i32(b: &mut Vec<u8>, v: i32) {
    b.extend_from_slice(&v.to_le_bytes());
}

/// A header with two tiles, one kitchen of two rectangles and one object,
/// and one building of two rooms.
fn sample_header(magic: bool) -> Vec<u8> {
    let mut b = Vec::new();
    if magic {
        b.extend_from_slice(b"LOTH");
        put_u32(&mut b, 1);
    } else {
        put_u32(&mut b, 0);
    }
    put_u32(&mut b, 2);
    b.extend_from_slice(b"floor_1 \n");
    b.extend_from_slice(b"\twall\n");
    put_u32(&mut b, 300);
    put_u32(&mut b, 301);
    put_i32(&mut b, -1);
    put_i32(&mut b, 7);
    put_u32(&mut b, 1);
    b.extend_from_slice(b"kitchen\n");
    put_i32(&mut b, 0);
    put_u32(&mut b, 2);
    for v in [1, 2, 3, 4, -5, 10, 2, 2] {
        put_i32(&mut b, v);
    }
    put_i32(&mut b, 1);
    for v in [7, 8, 9] {
        put_i32(&mut b, v);
    }
    put_u32(&mut b, 1);
    put_u32(&mut b, 2);
    put_u32(&mut b, 0);
    put_u32(&mut b, 5);
    for i in 0..1024u32 {
        b.push((i % 251) as u8);
    }
    b
}

#[test]
fn header_reads_every_field() {
    let data = sample_header(true);
    let mut reader = LotHeaderReader::new();
    let h = reader.parse(&data).unwrap();
    assert_eq!(h.version, 1);
    assert_eq!(h.tiles, vec!["floor_1".to_string(), "wall".to_string()]);
    assert_eq!((h.width, h.height), (300, 301));
    assert_eq!((h.min_layer, h.max_layer), (-1, 8));
    assert_eq!(h.rooms.len(), 1);
    let room = &h.rooms[0];
    assert_eq!(room.id, 0);
    assert_eq!(room.name, "kitchen");
    assert_eq!(room.layer, 0);
    assert_eq!(room.area, 3 * 4 + 2 * 2);
    assert_eq!(room.rects, vec![Rect(1, 2, 3, 4), Rect(-5, 10, 2, 2)]);
    assert_eq!(room.objects, vec![Obj(7, 8, 9)]);
    assert_eq!((room.xmin, room.ymin, room.xmax, room.ymax), (-5, 0, 4, 12));
    assert_eq!(h.buildings.len(), 1);
    assert_eq!(h.buildings[0].id, 0);
    assert_eq!(h.buildings[0].rooms, vec![0, 5]);
    assert_eq!(h.zpop.len(), 32);
    for (i, chunk) in h.zpop.iter().enumerate() {
        assert_eq!(chunk.len(), 32);
        assert_eq!(chunk[0], ((32 * i) % 251) as u8);
    }
}

#[test]
fn header_without_magic_starts_with_the_version() {
    let data = sample_header(false);
    let h = LotHeaderReader::new().parse(&data).unwrap();
    assert_eq!(h.version, 0);
    assert_eq!(h.tiles.len(), 2);
    assert_eq!((h.min_layer, h.max_layer), (-1, 8));
}

#[test]
fn header_reader_is_reusable_after_success() {
    let data = sample_header(true);
    let mut reader = LotHeaderReader::new();
    let first = reader.parse(&data).unwrap();
    let second = reader.parse(&data).unwrap();
    assert_eq!(first.tiles, second.tiles);
    assert_eq!(first.rooms.len(), second.rooms.len());
    assert_eq!(second.buildings[0].rooms, vec![0, 5]);
}

#[test]
fn header_truncated_is_a_slice_error() {
    let data = sample_header(true);
    for cut in [0usize, 3, 7, 30, data.len() - 1] {
        let r = LotHeaderReader::new().parse(&data[..cut]);
        assert!(matches!(r, Err(ZError::Slice)), "cut at {cut}");
    }
}

#[test]
fn header_top_layer_overflow_is_invalid() {
    let mut data = sample_header(true);
    // the highest layer sits after magic, version, count, two tile lines,
    // width, height and the lowest layer
    let at = 4 + 4 + 4 + 9 + 6 + 4 + 4 + 4;
    data[at..at + 4].copy_from_slice(&i32::MAX.to_le_bytes());
    assert!(matches!(LotHeaderReader::new().parse(&data), Err(ZError::InvalidData)));
}

#[test]
fn header_negative_object_count_is_invalid() {
    let mut b = Vec::new();
    b.extend_from_slice(b"LOTH");
    put_u32(&mut b, 1);
    put_u32(&mut b, 0);
    put_u32(&mut b, 10);
    put_u32(&mut b, 10);
    put_i32(&mut b, 0);
    put_i32(&mut b, 0);
    put_u32(&mut b, 1);
    b.extend_from_slice(b"hall\n");
    put_i32(&mut b, 0);
    put_u32(&mut b, 0);
    put_i32(&mut b, -1);
    assert!(matches!(LotHeaderReader::new().parse(&b), Err(ZError::InvalidData)));
}

#[test]
fn header_room_area_overflow_is_invalid() {
    let mut b = Vec::new();
    b.extend_from_slice(b"LOTH");
    put_u32(&mut b, 1);
    put_u32(&mut b, 0);
    put_u32(&mut b, 10);
    put_u32(&mut b, 10);
    put_i32(&mut b, 0);
    put_i32(&mut b, 0);
    put_u32(&mut b, 1);
    b.extend_from_slice(b"hall\n");
    put_i32(&mut b, 0);
    put_u32(&mut b, 1);
    for v in [0, 0, 65536, 65536] {
        put_i32(&mut b, v);
    }
    assert!(matches!(LotHeaderReader::new().parse(&b), Err(ZError::InvalidData)));
}

#[test]
fn header_unnamed_room_is_the_default_room() {
    let mut b = Vec::new();
    b.extend_from_slice(b"LOTH");
    put_u32(&mut b, 1);
    put_u32(&mut b, 0);
    put_u32(&mut b, 10);
    put_u32(&mut b, 10);
    put_i32(&mut b, 0);
    put_i32(&mut b, 0);
    // one room whose name line is not UTF-8: nothing is consumed for it, so
    // the same bytes are then read as the building count (zero) and zpop
    put_u32(&mut b, 1);
    b.extend_from_slice(&[0, 0, 0, 0, 0xc0, b'\n']);
    for i in 0..1022u32 {
        b.push(i as u8);
    }
    let h = LotHeaderReader::new().parse(&b).unwrap();
    assert_eq!(h.rooms.len(), 1);
    assert_eq!(h.rooms[0].name, "");
    assert_eq!(h.rooms[0].id, 0);
    assert!(h.rooms[0].rects.is_empty());
    assert!(h.buildings.is_empty());
    assert_eq!(h.zpop[0][0], 0xc0);
    assert_eq!(h.zpop[0][1], b'\n');
}
