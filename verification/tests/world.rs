use zomboid_map::world::{World, cell_file_names, parse_cell_name};

#[test]
fn parses_cell_names() {
    assert_eq!(parse_cell_name("world_27_32.lotpack"), Some((27, 32)));
    assert_eq!(parse_cell_name("27_32.lotheader"), None);
    assert_eq!(parse_cell_name("world_x_y.lotpack"), None);
}

#[test]
fn cell_names_follow_u32_parsing() {
    assert_eq!(parse_cell_name("world_+1_2.lotpack"), Some((1, 2)));
    assert_eq!(parse_cell_name("world_007_0.lotpack"), Some((7, 0)));
    assert_eq!(parse_cell_name("world_4294967295_1.lotpack"), Some((u32::MAX, 1)));
    assert_eq!(parse_cell_name("world_4294967296_1.lotpack"), None);
    assert_eq!(parse_cell_name("world_-1_2.lotpack"), None);
    assert_eq!(parse_cell_name("world_+_2.lotpack"), None);
    assert_eq!(parse_cell_name("world__2.lotpack"), None);
    assert_eq!(parse_cell_name("world_1_2_3.lotpack"), None);
    assert_eq!(parse_cell_name("world_12.lotpack"), None);
    assert_eq!(parse_cell_name("world_1_2.lotpack2"), None);
    assert_eq!(parse_cell_name("world_.lotpack"), None);
    assert_eq!(parse_cell_name(""), None);
}

#[test]
fn cell_file_names_round_trip() {
    let (header, pack) = cell_file_names(27, 32);
    assert_eq!(header, "27_32.lotheader");
    assert_eq!(pack, "world_27_32.lotpack");
    for (x, y) in [(0usize, 0usize), (9, 10), (61, 3), (4294967295, 12)] {
        let (_, pack) = cell_file_names(x, y);
        assert_eq!(parse_cell_name(&pack), Some((x as u32, y as u32)));
    }
}

fn sample_world() -> World {
    World::from_cells(&[(27, 32), (28, 32), (27, 33)], vec![0, 1]).unwrap()
}

#[test]
fn world_bounds_enclose_every_cell() {
    let w = sample_world();
    assert_eq!(w.cell_count(), 3);
    assert_eq!(w.cell_bounds(), ((27, 32), (28, 33)));
    // squares x in [6912, 7423], y in [8192, 8703]
    // screen x from (6912 - 8703) * 64 to (7423 - 8192) * 64
    // screen y from (6912 + 8192) * 32 - 192 to (7423 + 8703) * 32
    assert_eq!(w.width(), ((7423 - 8192) * 64 - (6912 - 8703) * 64 + 2048) as u32);
    assert_eq!(w.height(), ((7423 + 8703) * 32 - ((6912 + 8192) * 32 - 192) + 2048) as u32);
}

#[test]
fn world_duplicate_cells_count_once() {
    let w = World::from_cells(&[(1, 1), (1, 1), (2, 1)], vec![0]).unwrap();
    assert_eq!(w.cell_count(), 2);
}

#[test]
fn world_overflow_is_none() {
    assert!(World::from_cells(&[(0, 0), (200_000, 0)], vec![0]).is_none());
}

#[test]
fn overlapping_cells_are_back_to_front() {
    let w = sample_world();
    let (ox, oy) = (
        (6912 - 8703) * 64 - 1024,
        (6912 + 8192) * 32 - 192 - 1024,
    );
    // the whole plane as one tile
    let cells = w.overlapping_cells(ox, oy, w.width(), w.height()).unwrap();
    assert_eq!(cells, vec![(27, 32), (27, 33), (28, 32)]);
    // a small tile far to the left of every cell
    let cells = w.overlapping_cells(ox - 100_000, oy, 64, 64).unwrap();
    assert!(cells.is_empty());
}

#[test]
fn tile_view_clips_edge_tiles() {
    let w = sample_world();
    let width = w.width();
    let height = w.height();
    let t = w.tile_view(0, 0, 1024).unwrap();
    assert_eq!(t, ((6912 - 8703) * 64 - 1024, (6912 + 8192) * 32 - 192 - 1024, 1024, 1024));
    let cols = width / 1024;
    let rows = height / 1024;
    let t = w.tile_view(cols, rows, 1024);
    if width % 1024 == 0 || height % 1024 == 0 {
        assert!(t.is_none());
    } else {
        let (_, _, tw, th) = t.unwrap();
        assert_eq!((tw, th), (width % 1024, height % 1024));
    }
    assert!(w.tile_view(0, 0, 0).is_none());
}
