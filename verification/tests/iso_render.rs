use zomboid_map::cell::{LotPack, LotPackReader};
use zomboid_map::iso_render::{Draw, N, TilePixels, compose_tile, draw_sprites, has_opaque, project, render_iso_viewport, viewport_draws};
use zomboid_map::texture::{Sprite, SpriteTable};
use zomboid_map::LotHeader;

fn put_u32(b: &mut Vec<u8>, v: u32) {
    b.extend_from_slice(&v.to_le_bytes());
}

fn put_i32(b: &mut Vec<u8>, v: i32) {
    b.extend_from_slice(&v.to_le_bytes());
}

/// One layer: square (0, 0) holds tiles 10 and 11, square (0, 2) tile 12.
fn sample_pack() -> LotPack {
    let mut b = Vec::new();
    b.extend_from_slice(b"LOTP");
    put_u32(&mut b, 1);
    put_u32(&mut b, 1);
    put_u32(&mut b, 20);
    put_u32(&mut b, 0);
    for v in [3, 99, 10, 11, 1, 2, 99, 12, -1, 61] {
        put_i32(&mut b, v);
    }
    let mut h = LotHeader::default();
    h.min_layer = 0;
    h.max_layer = 1;
    LotPackReader::new().parse(&b, h).unwrap()
}

#[test]
fn project_moves_along_the_diagonals() {
    assert_eq!(project(0, 0, 0), (0, 0));
    assert_eq!(project(1, 0, 0), (64, 32));
    assert_eq!(project(0, 1, 0), (-64, 32));
    assert_eq!(project(0, 0, 1), (0, -192));
    assert_eq!(project(N / 2, N / 2, 0), (0, 8192));
    assert_eq!(project(3, 5, 2), (-128, 256 - 384));
}

#[test]
fn viewport_draws_in_painters_order() {
    let pack = sample_pack();
    let draws = viewport_draws(&pack, -200, -100, 400, 300, 0).unwrap();
    assert_eq!(
        draws,
        vec![
            Draw { tid: 10, x: 200, y: 132 },
            Draw { tid: 11, x: 200, y: 132 },
            Draw { tid: 12, x: 72, y: 196 },
        ]
    );
}

#[test]
fn viewport_far_away_draws_nothing() {
    let pack = sample_pack();
    let draws = viewport_draws(&pack, 100_000, 100_000, 64, 64, 0).unwrap();
    assert!(draws.is_empty());
}

#[test]
fn viewport_overflow_is_none() {
    let pack = sample_pack();
    assert!(viewport_draws(&pack, i32::MAX - 10, 0, 64, 64, 0).is_none());
    assert!(viewport_draws(&pack, 0, i32::MIN + 5, 64, 64, 0).is_none());
}

#[test]
fn viewport_anchors_go_down_the_screen() {
    let pack = sample_pack();
    for (cx, cy) in [(-200, -100), (-500, -300), (-64, 0)] {
        let draws = viewport_draws(&pack, cx, cy, 800, 600, 0).unwrap();
        assert!(!draws.is_empty());
        for pair in draws.windows(2) {
            assert!(pair[0].y <= pair[1].y);
        }
    }
}

#[test]
fn distinct_squares_have_distinct_anchors() {
    let mut seen = std::collections::HashSet::new();
    for sx in 0..16 {
        for sy in 0..16 {
            assert!(seen.insert(project(sx, sy, 3)));
        }
    }
}

fn pixel(px: &[u8], w: u32, x: u32, y: u32) -> [u8; 4] {
    let i = 4 * (y * w + x) as usize;
    [px[i], px[i + 1], px[i + 2], px[i + 3]]
}

fn dot(rgba: [u8; 4], ox: i32, oy: i32) -> Sprite {
    Sprite { width: 1, height: 1, pixels: rgba.to_vec(), ox, oy }
}

/// Tiles 10 and 11 have one-pixel sprites, tile 12 none.
fn sample_sprites() -> SpriteTable {
    let mut t = SpriteTable::new();
    t.insert("t10".to_string(), dot([255, 0, 0, 255], 0, 0));
    t.insert("t11".to_string(), dot([0, 255, 0, 255], 1, 0));
    t
}

fn tile_names() -> Vec<String> {
    (0..13).map(|i| format!("t{i}")).collect()
}

#[test]
fn render_viewport_draws_each_sprite_at_its_offset() {
    let mut pack = sample_pack();
    pack.header.tiles = tile_names();
    let px = render_iso_viewport(&pack, &sample_sprites(), -200, -100, 400, 300, 0).unwrap();
    assert_eq!(px.len(), 4 * 400 * 300);
    assert_eq!(pixel(&px, 400, 200, 132), [255, 0, 0, 255]);
    assert_eq!(pixel(&px, 400, 201, 132), [0, 255, 0, 255]);
    let lit = px.chunks(4).filter(|p| p[3] != 0).count();
    assert_eq!(lit, 2);
}

#[test]
fn render_viewport_without_sprites_is_transparent() {
    let pack = sample_pack();
    let px = render_iso_viewport(&pack, &sample_sprites(), -200, -100, 400, 300, 0).unwrap();
    assert!(px.iter().all(|&b| b == 0));
}

#[test]
fn render_viewport_overflow_is_none() {
    let pack = sample_pack();
    assert!(render_iso_viewport(&pack, &sample_sprites(), i32::MAX - 10, 0, 64, 64, 0).is_none());
}

#[test]
fn draw_sprites_paints_in_order() {
    let draws = vec![Draw { tid: 0, x: 1, y: 1 }, Draw { tid: 1, x: 0, y: 1 }, Draw { tid: 5, x: 0, y: 0 }];
    let names = vec!["t10".to_string(), "t11".to_string()];
    let out = draw_sprites(vec![0; 4 * 3 * 2], 3, 2, &draws, &names, &sample_sprites()).unwrap();
    // The second sprite lands on the first one's pixel and covers it.
    assert_eq!(pixel(&out, 3, 1, 1), [0, 255, 0, 255]);
    assert_eq!(out.chunks(4).filter(|p| p[3] != 0).count(), 1);
}

#[test]
fn draw_sprites_position_overflow_is_none() {
    let draws = vec![Draw { tid: 0, x: i32::MAX, y: 0 }];
    let names = vec!["t11".to_string()];
    assert!(draw_sprites(vec![0; 4], 1, 1, &draws, &names, &sample_sprites()).is_none());
}

#[test]
fn compose_tile_draws_stored_layers_of_loaded_cells() {
    let mut pack = sample_pack();
    pack.header.tiles = tile_names();
    let sprites = sample_sprites();
    let cells = vec![(0u32, 0u32), (1, 0)];
    let packs = vec![Some(&pack), None];
    match compose_tile(&cells, &packs, &vec![0, 3], &sprites, -200, -100, 400, 300) {
        TilePixels::Drawn(px) => {
            assert_eq!(pixel(&px, 400, 200, 132), [255, 0, 0, 255]);
            assert_eq!(pixel(&px, 400, 201, 132), [0, 255, 0, 255]);
            assert_eq!(px.chunks(4).filter(|p| p[3] != 0).count(), 2);
        },
        _ => panic!("expected pixels"),
    }
}

#[test]
fn compose_tile_with_nothing_to_draw_is_empty() {
    let mut pack = sample_pack();
    pack.header.tiles = tile_names();
    let sprites = sample_sprites();
    // No cells; only a layer the cell does not store; no cell loaded.
    assert!(matches!(compose_tile(&vec![], &vec![], &vec![0], &sprites, 0, 0, 8, 8), TilePixels::Empty));
    assert!(matches!(compose_tile(&vec![(0, 0)], &vec![Some(&pack)], &vec![1], &sprites, -200, -100, 400, 300), TilePixels::Empty));
    assert!(matches!(compose_tile(&vec![(0, 0)], &vec![None], &vec![0], &sprites, -200, -100, 400, 300), TilePixels::Empty));
}

#[test]
fn compose_tile_of_transparent_sprites_is_empty() {
    let mut pack = sample_pack();
    pack.header.tiles = tile_names();
    let mut sprites = SpriteTable::new();
    sprites.insert("t10".to_string(), dot([9, 9, 9, 0], 0, 0));
    assert!(matches!(compose_tile(&vec![(0, 0)], &vec![Some(&pack)], &vec![0], &sprites, -200, -100, 400, 300), TilePixels::Empty));
}

#[test]
fn compose_tile_overflow_is_reported() {
    let pack = sample_pack();
    let r = compose_tile(&vec![(0, 0)], &vec![Some(&pack)], &vec![0], &sample_sprites(), i32::MAX - 10, 0, 64, 64);
    assert!(matches!(r, TilePixels::Overflow));
}

#[test]
fn has_opaque_reads_alpha_only() {
    assert!(!has_opaque(&vec![255, 255, 255, 0, 1, 2, 3, 0]));
    assert!(has_opaque(&vec![0, 0, 0, 0, 0, 0, 0, 1]));
    assert!(!has_opaque(&vec![]));
}
