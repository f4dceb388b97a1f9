use std::io::Cursor;

use image::{ImageFormat, Rgba, RgbaImage};
use zomboid_map::texture::{Sprite, SpriteTable, blend_sprite, decode_image};
use zomboid_map::ZError;

fn put_u32(b: &mut Vec<u8>, v: u32) {
    b.extend_from_slice(&v.to_le_bytes());
}

fn put_bytes(b: &mut Vec<u8>, s: &[u8]) {
    put_u32(b, s.len() as u32);
    b.extend_from_slice(s);
}

/// A 4 × 2 PNG whose pixel (x, y) is (x, y, 10 x + y, 255).
fn page_png() -> Vec<u8> {
    let img = RgbaImage::from_fn(4, 2, |x, y| Rgba([x as u8, y as u8, (10 * x + y) as u8, 255]));
    let mut out = Cursor::new(Vec::new());
    img.write_to(&mut out, ImageFormat::Png).unwrap();
    out.into_inner()
}

/// A version 1 pack of one page holding the given records.
fn pack(records: &[(&str, [i32; 8])], image: &[u8]) -> Vec<u8> {
    let mut b = Vec::new();
    b.extend_from_slice(b"PZPK");
    put_u32(&mut b, 1);
    put_u32(&mut b, 1);
    put_bytes(&mut b, b"page0");
    put_u32(&mut b, records.len() as u32);
    put_u32(&mut b, 1);
    for (name, fields) in records {
        put_bytes(&mut b, name.as_bytes());
        for v in fields {
            b.extend_from_slice(&v.to_le_bytes());
        }
    }
    put_bytes(&mut b, image);
    b
}

#[test]
fn decode_image_gives_rgba_rows() {
    let (w, h, px) = decode_image(&page_png()).unwrap();
    assert_eq!((w, h, px.len()), (4, 2, 32));
    assert_eq!(&px[4 * 5..4 * 6], &[1, 1, 11, 255]);
    assert!(decode_image(b"not an image").is_none());
}

#[test]
fn load_pack_cuts_sprites_from_the_page() {
    let data = pack(&[("a", [1, 0, 2, 2, 10, 20, 8, 4]), ("b", [3, 1, 5, 5, 0, 0, 0, 0])], &page_png());
    let mut t = SpriteTable::new();
    t.load_pack(&data).unwrap();
    assert_eq!(t.len(), 2);
    let a = t.get("a").unwrap();
    assert_eq!((a.width, a.height, a.ox, a.oy), (2, 2, 10 - 4, 20 - 4));
    assert_eq!(a.pixels, vec![1, 0, 10, 255, 2, 0, 20, 255, 1, 1, 11, 255, 2, 1, 21, 255]);
    // clamped to the page: one pixel
    let b = t.get("b").unwrap();
    assert_eq!((b.width, b.height), (1, 1));
    assert_eq!(b.pixels, vec![3, 1, 31, 255]);
    assert!(t.get("c").is_none());
}

#[test]
fn load_pack_later_records_win() {
    let data = pack(&[("a", [0, 0, 1, 1, 0, 0, 0, 0]), ("a", [3, 0, 1, 1, 0, 0, 0, 0])], &page_png());
    let mut t = SpriteTable::new();
    t.load_pack(&data).unwrap();
    assert_eq!(t.len(), 1);
    assert_eq!(t.get("a").unwrap().pixels, vec![3, 0, 30, 255]);
}

#[test]
fn load_pack_bad_image_is_an_image_error() {
    let data = pack(&[("a", [0, 0, 1, 1, 0, 0, 0, 0])], b"garbage");
    let mut t = SpriteTable::new();
    assert!(matches!(t.load_pack(&data), Err(ZError::Image)));
    assert!(t.is_empty());
}

#[test]
fn load_pack_offset_overflow_keeps_earlier_sprites() {
    let data = pack(&[("a", [0, 0, 1, 1, 0, 0, 0, 0]), ("b", [0, 0, 1, 1, i32::MAX, 0, -4, 0])], &page_png());
    let mut t = SpriteTable::new();
    assert!(matches!(t.load_pack(&data), Err(ZError::InvalidData)));
    assert_eq!(t.len(), 1);
    assert!(t.get("a").is_some());
}

#[test]
fn sprite_table_insert_replaces() {
    let mut t = SpriteTable::new();
    assert!(t.is_empty());
    t.insert("x".to_string(), Sprite { width: 1, height: 1, pixels: vec![1, 2, 3, 4], ox: 0, oy: 0 });
    t.insert("x".to_string(), Sprite { width: 1, height: 1, pixels: vec![5, 6, 7, 8], ox: -1, oy: -2 });
    assert_eq!(t.len(), 1);
    let s = t.get("x").unwrap();
    assert_eq!((s.pixels.clone(), s.ox, s.oy), (vec![5, 6, 7, 8], -1, -2));
}

#[test]
fn blend_places_each_sub_sprite_at_its_offset() {
    let mut t = SpriteTable::new();
    t.insert("a".to_string(), Sprite { width: 1, height: 1, pixels: vec![255, 0, 0, 255], ox: -1, oy: -2 });
    t.insert("b".to_string(), Sprite { width: 2, height: 1, pixels: vec![0, 255, 0, 255, 0, 0, 255, 255], ox: 0, oy: -1 });
    let s = blend_sprite(&t, &["a", "missing", "b"]).unwrap();
    assert_eq!((s.width, s.height, s.ox, s.oy), (4, 2, -2, -2));
    let mut want = vec![0u8; 4 * 4 * 2];
    want[4..8].copy_from_slice(&[255, 0, 0, 255]);
    want[24..28].copy_from_slice(&[0, 255, 0, 255]);
    want[28..32].copy_from_slice(&[0, 0, 255, 255]);
    assert_eq!(s.pixels, want);
}

#[test]
fn blend_of_nothing_found_is_none() {
    let mut t = SpriteTable::new();
    t.insert("a".to_string(), Sprite { width: 1, height: 1, pixels: vec![1, 2, 3, 4], ox: 0, oy: 0 });
    assert!(blend_sprite(&t, &[]).is_none());
    assert!(blend_sprite(&t, &["x", "y"]).is_none());
}

#[test]
fn blend_of_one_sprite_keeps_its_pixels() {
    let mut t = SpriteTable::new();
    t.insert("a".to_string(), Sprite { width: 2, height: 1, pixels: vec![9, 9, 9, 255, 7, 7, 7, 255], ox: -1, oy: -1 });
    let s = blend_sprite(&t, &["a"]).unwrap();
    assert_eq!((s.width, s.height, s.ox, s.oy), (2, 1, -1, -1));
    assert_eq!(s.pixels, vec![9, 9, 9, 255, 7, 7, 7, 255]);
}
