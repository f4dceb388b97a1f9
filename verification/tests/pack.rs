use zomboid_map::pack::{SubSprite, blend_layout, read_pack_header, read_pack_page};
use zomboid_map::ZError;

fn put_u32(b: &mut Vec<u8>, v: u32) {
    b.extend_from_slice(&v.to_le_bytes());
}

fn put_i32(b: &mut Vec<u8>, v: i32) {
    b.extend_from_slice(&v.to_le_bytes());
}

fn put_bytes(b: &mut Vec<u8>, s: &[u8]) {
    put_u32(b, s.len() as u32);
    b.extend_from_slice(s);
}

/// One page with two textures; the page image is `image`.
fn page(b: &mut Vec<u8>, version: u32, image: &[u8]) {
    put_bytes(b, b"page0");
    put_u32(b, 2);
    put_u32(b, 1);
    put_bytes(b, b"tree_01");
    for v in [0, 0, 64, 128, 10, 20, 128, 256] {
        put_i32(b, v);
    }
    put_bytes(b, b"bush");
    for v in [64, 0, 32, 32, -3, 5, 31, 40] {
        put_i32(b, v);
    }
    if version == 1 {
        put_bytes(b, image);
    } else {
        b.extend_from_slice(image);
        b.extend_from_slice(&[0xEF, 0xBE, 0xAD, 0xDE]);
    }
}

#[test]
fn pack_version_one_reads_pages() {
    let mut b = Vec::new();
    b.extend_from_slice(b"PZPK");
    put_u32(&mut b, 1);
    put_u32(&mut b, 1);
    page(&mut b, 1, b"\x89PNG-data");
    let (version, pages, pos) = read_pack_header(&b).unwrap();
    assert_eq!((version, pages, pos), (1, 1, 12));
    let (p, next) = read_pack_page(&b, pos, version).unwrap();
    assert_eq!(next, b.len());
    assert_eq!(p.metas.len(), 2);
    assert_eq!(p.metas[0].name, "tree_01");
    assert_eq!((p.metas[0].x, p.metas[0].y, p.metas[0].w, p.metas[0].h), (0, 0, 64, 128));
    assert_eq!(p.metas[1].name, "bush");
    assert_eq!(&b[p.png_start..p.png_end], b"\x89PNG-data");
}

#[test]
fn pack_version_zero_runs_to_the_terminator() {
    let mut b = Vec::new();
    put_u32(&mut b, 1);
    page(&mut b, 0, b"image-bytes");
    let (version, pages, pos) = read_pack_header(&b).unwrap();
    assert_eq!((version, pages, pos), (0, 1, 4));
    let (p, next) = read_pack_page(&b, pos, version).unwrap();
    assert_eq!(next, b.len());
    // the image runs up to and including the terminator
    assert_eq!(&b[p.png_start..p.png_end - 4], b"image-bytes");
    assert_eq!(&b[p.png_end - 4..p.png_end], &[0xEF, 0xBE, 0xAD, 0xDE]);
}

#[test]
fn pack_missing_terminator_is_invalid() {
    let mut b = Vec::new();
    put_u32(&mut b, 1);
    page(&mut b, 0, b"image-bytes");
    b.truncate(b.len() - 1);
    let (version, _, pos) = read_pack_header(&b).unwrap();
    assert!(matches!(read_pack_page(&b, pos, version), Err(ZError::InvalidData)));
}

#[test]
fn pack_unknown_version_is_invalid() {
    let mut b = Vec::new();
    b.extend_from_slice(b"PZPK");
    put_u32(&mut b, 7);
    put_u32(&mut b, 1);
    page(&mut b, 1, b"img");
    let (version, _, pos) = read_pack_header(&b).unwrap();
    assert_eq!(version, 7);
    assert!(matches!(read_pack_page(&b, pos, version), Err(ZError::InvalidData)));
}

#[test]
fn pack_bad_texture_name_is_a_utf8_error() {
    let mut b = Vec::new();
    b.extend_from_slice(b"PZPK");
    put_u32(&mut b, 1);
    put_u32(&mut b, 1);
    put_bytes(&mut b, b"page0");
    put_u32(&mut b, 1);
    put_u32(&mut b, 1);
    put_bytes(&mut b, &[0xff, 0xfe]);
    for v in [0, 0, 1, 1, 0, 0, 1, 1] {
        put_i32(&mut b, v);
    }
    let (version, _, pos) = read_pack_header(&b).unwrap();
    assert!(matches!(read_pack_page(&b, pos, version), Err(ZError::Utf8)));
}

#[test]
fn pack_truncated_is_a_slice_error() {
    assert!(matches!(read_pack_header(&[0x50, 0x5a]), Err(ZError::Slice)));
    assert!(matches!(read_pack_header(b"PZPK\x01\x00\x00\x00"), Err(ZError::Slice)));
    let mut b = Vec::new();
    b.extend_from_slice(b"PZPK");
    put_u32(&mut b, 1);
    put_u32(&mut b, 1);
    page(&mut b, 1, b"img");
    let (version, _, pos) = read_pack_header(&b).unwrap();
    let cut = &b[..b.len() - 1];
    assert!(matches!(read_pack_page(cut, pos, version), Err(ZError::Slice)));
}

#[test]
fn sprite_offset_is_relative_to_the_bottom_centre() {
    let mut b = Vec::new();
    b.extend_from_slice(b"PZPK");
    put_u32(&mut b, 1);
    put_u32(&mut b, 1);
    page(&mut b, 1, b"img");
    let (version, _, pos) = read_pack_header(&b).unwrap();
    let (p, _) = read_pack_page(&b, pos, version).unwrap();
    // ox - ow / 2, oy - oh
    assert_eq!(p.metas[0].sprite_offset(), (10 - 64, 20 - 256));
    // an odd width rounds the half down
    assert_eq!(p.metas[1].sprite_offset(), (-3 - 15, 5 - 40));
}

#[test]
fn blend_layout_anchors_at_the_bottom_centre() {
    let subs = [
        SubSprite { width: 64, height: 128, ox: -32, oy: -128 },
        SubSprite { width: 100, height: 50, ox: -10, oy: -40 },
    ];
    let layout = blend_layout(&subs).unwrap();
    // left 32, up 128, right 90, down 10
    assert_eq!((layout.width, layout.height), (180, 138));
    assert_eq!((layout.ox, layout.oy), (-90, -128));
    assert_eq!(layout.positions, vec![(58, 0), (80, 88)]);
    for (s, p) in subs.iter().zip(layout.positions.iter()) {
        assert_eq!(p.0 + layout.ox, s.ox);
        assert_eq!(p.1 + layout.oy, s.oy);
    }
}

#[test]
fn blend_layout_of_nothing_is_none() {
    assert!(blend_layout(&[]).is_none());
}

#[test]
fn blend_layout_of_degenerate_sprites_is_one_pixel() {
    let subs = [SubSprite { width: 0, height: 0, ox: 0, oy: 0 }];
    let layout = blend_layout(&subs).unwrap();
    assert_eq!((layout.width, layout.height, layout.ox, layout.oy), (1, 1, 0, 0));
    assert_eq!(layout.positions, vec![(0, 0)]);
}

#[test]
fn blend_layout_overflow_is_none() {
    let subs = [SubSprite { width: 10, height: 10, ox: i32::MIN, oy: 0 }];
    assert!(blend_layout(&subs).is_none());
    let subs = [SubSprite { width: 10, height: 10, ox: i32::MAX - 5, oy: 0 }];
    assert!(blend_layout(&subs).is_none());
}
