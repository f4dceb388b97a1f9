use zomboid_map::dzi::{Dzi, ParentTile};

#[test]
fn dzi_max_level_is_the_ceiling_log2() {
    assert_eq!(Dzi::new(0, 0, 256).max_level, 0);
    assert_eq!(Dzi::new(1, 1, 256).max_level, 0);
    assert_eq!(Dzi::new(2, 1, 256).max_level, 1);
    assert_eq!(Dzi::new(1000, 700, 256).max_level, 10);
    assert_eq!(Dzi::new(1024, 1024, 256).max_level, 10);
    assert_eq!(Dzi::new(1025, 3, 256).max_level, 11);
    assert_eq!(Dzi::new(u32::MAX, 1, 256).max_level, 32);
    let d = Dzi::new(10, 20, 256);
    assert_eq!((d.width, d.height, d.tile_size, d.overlap), (10, 20, 256, 0));
}

#[test]
fn dzi_levels_halve_down_to_one_pixel() {
    let d = Dzi::new(1000, 700, 256);
    assert_eq!(d.level_dims(10), (1000, 700));
    assert_eq!(d.level_dims(9), (500, 350));
    assert_eq!(d.level_dims(8), (250, 175));
    assert_eq!(d.level_dims(7), (125, 88));
    assert_eq!(d.level_dims(1), (2, 2));
    assert_eq!(d.level_dims(0), (1, 1));
    for level in 0..d.max_level {
        let (w, h) = d.level_dims(level + 1);
        assert_eq!(d.level_dims(level), (w.div_ceil(2).max(1), h.div_ceil(2).max(1)));
    }
}

#[test]
fn dzi_empty_image_is_one_pixel() {
    let d = Dzi::new(0, 0, 256);
    assert_eq!(d.level_dims(0), (1, 1));
}

#[test]
fn dzi_level_grid_counts_tiles() {
    let d = Dzi::new(1000, 700, 256);
    assert_eq!(d.level_grid(10), (4, 3));
    assert_eq!(d.level_grid(9), (2, 2));
    assert_eq!(d.level_grid(8), (1, 1));
    assert_eq!(d.level_grid(0), (1, 1));
}

#[test]
fn dzi_descriptor_xml_is_exact() {
    let d = Dzi::new(1000, 700, 256);
    assert_eq!(
        d.descriptor_xml(),
        "<?xml version=\"1.0\" encoding=\"UTF-8\"?>\n<Image xmlns=\"http://schemas.microsoft.com/deepzoom/2008\" Format=\"png\" Overlap=\"0\" TileSize=\"256\">\n  <Size Width=\"1000\" Height=\"700\"/>\n</Image>\n"
    );
}

#[test]
fn dzi_downscale_plan_covers_two_by_two_parents() {
    let d = Dzi::new(1000, 700, 256);
    // level 9 is 500 x 350: tile (0, 0) is 256 x 256 and reads parents
    // (0..=1, 0..=1) of level 10
    let p = d.downscale_plan(9, 0, 0).unwrap();
    assert_eq!((p.width, p.height, p.parent_level), (256, 256, 10));
    assert_eq!(
        p.parents,
        vec![
            ParentTile { col: 0, row: 0, dx: 0, dy: 0 },
            ParentTile { col: 0, row: 1, dx: 0, dy: 256 },
            ParentTile { col: 1, row: 0, dx: 256, dy: 0 },
            ParentTile { col: 1, row: 1, dx: 256, dy: 256 },
        ]
    );
    // tile (1, 1) is 244 x 94: parents (2..=3, 2..=2)
    let p = d.downscale_plan(9, 1, 1).unwrap();
    assert_eq!((p.width, p.height), (244, 94));
    assert_eq!(
        p.parents,
        vec![
            ParentTile { col: 2, row: 2, dx: 0, dy: 0 },
            ParentTile { col: 3, row: 2, dx: 256, dy: 0 },
        ]
    );
}

#[test]
fn dzi_downscale_plan_of_an_empty_tile_is_none() {
    let d = Dzi::new(512, 512, 256);
    // level 8 is 256 x 256: tile (1, 0) starts at the edge
    assert!(d.downscale_plan(8, 1, 0).is_none());
}

#[test]
fn dzi_tiles_read_at_most_four_parents() {
    let d = Dzi::new(1000, 700, 256);
    for level in 0..d.max_level {
        let (cols, rows) = d.level_grid(level);
        for col in 0..cols {
            for row in 0..rows {
                let p = d.downscale_plan(level, col, row).unwrap();
                assert!(!p.parents.is_empty() && p.parents.len() <= 4);
            }
        }
    }
}

fn png(w: u32, h: u32, c: [u8; 4]) -> Vec<u8> {
    let img = image::RgbaImage::from_pixel(w, h, image::Rgba(c));
    let mut out = std::io::Cursor::new(Vec::new());
    img.write_to(&mut out, image::ImageFormat::Png).unwrap();
    out.into_inner()
}

#[test]
fn downscale_pixels_shrinks_the_parents() {
    // 8 x 8 image, tiles of 4: level 3 is full size, level 2 is 4 x 4
    let d = Dzi::new(8, 8, 4);
    let plan = d.downscale_plan(2, 0, 0).unwrap();
    assert_eq!(plan.parents.len(), 4);
    let red = [255u8, 0, 0, 255];
    let files: Vec<Option<Vec<u8>>> = (0..4).map(|_| Some(png(4, 4, red))).collect();
    let (w, h, px) = zomboid_map::dzi::downscale_pixels(&plan, &files).unwrap();
    assert_eq!((w, h, px.len()), (4, 4, 64));
    for p in px.chunks(4) {
        assert_eq!(p, &red);
    }
}

#[test]
fn downscale_pixels_without_parents_is_none() {
    let d = Dzi::new(8, 8, 4);
    let plan = d.downscale_plan(2, 0, 0).unwrap();
    let files: Vec<Option<Vec<u8>>> = vec![None, Some(b"not a png".to_vec()), None, None];
    assert!(zomboid_map::dzi::downscale_pixels(&plan, &files).is_none());
}
