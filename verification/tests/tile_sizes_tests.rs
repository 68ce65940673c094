use tile_render::error::Error;
use tile_render::tile::RenderHints;
use tile_render::tile::TileSizes;

#[test]
fn accepts_descending_divisible_list() {
    let t = TileSizes::new(&[64, 16, 4]).unwrap();
    assert_eq!(t.len(), 3);
    assert_eq!(t.last(), 4);
    assert_eq!(t.get(0), Some(64));
    assert_eq!(t.get(1), Some(16));
    assert_eq!(t.get(2), Some(4));
    assert_eq!(t.get(3), None);
    assert_eq!(t.iter(), &[64, 16, 4]);
}

#[test]
fn accepts_single_size() {
    let t = TileSizes::new(&[8]).unwrap();
    assert_eq!(t.len(), 1);
    assert_eq!(t.last(), 8);
}

#[test]
fn rejects_empty_list() {
    assert_eq!(TileSizes::new(&[]).unwrap_err(), Error::EmptyTileSizes);
}

#[test]
fn rejects_non_descending_pair() {
    assert_eq!(TileSizes::new(&[4, 4]).unwrap_err(), Error::BadTileOrder(4, 4));
    assert_eq!(TileSizes::new(&[8, 16]).unwrap_err(), Error::BadTileOrder(8, 16));
}

#[test]
fn rejects_non_divisible_pair() {
    assert_eq!(TileSizes::new(&[12, 5]).unwrap_err(), Error::BadTileSize(12, 5));
}

#[test]
fn rejects_zero_sizes() {
    assert_eq!(TileSizes::new(&[4, 0]).unwrap_err(), Error::BadTileSize(4, 0));
    assert_eq!(TileSizes::new(&[0]).unwrap_err(), Error::BadTileSize(0, 0));
    assert_eq!(TileSizes::new(&[0, 0]).unwrap_err(), Error::BadTileOrder(0, 0));
}

#[test]
fn reports_first_violation() {
    assert_eq!(TileSizes::new(&[64, 16, 16, 5]).unwrap_err(), Error::BadTileOrder(16, 16));
    assert_eq!(TileSizes::new(&[64, 18, 9]).unwrap_err(), Error::BadTileSize(64, 18));
}

#[test]
fn pixel_offset_wraps_within_root_tile() {
    let t = TileSizes::new(&[16, 4]).unwrap();
    assert_eq!(t.pixel_offset(0, 0), 0);
    assert_eq!(t.pixel_offset(3, 2), 3 + 2 * 16);
    assert_eq!(t.pixel_offset(17, 1), 1 + 1 * 16);
    assert_eq!(t.pixel_offset(35, 33), 3 + 1 * 16);
}

struct DemoHints;

impl RenderHints for DemoHints {
    fn tile_sizes_3d() -> TileSizes {
        TileSizes::new(&[32, 8]).unwrap()
    }

    fn tile_sizes_2d() -> TileSizes {
        TileSizes::new(&[64, 16, 4]).unwrap()
    }
}

#[test]
fn render_hints_defaults() {
    assert_eq!(DemoHints::tile_sizes_2d().len(), 3);
    assert_eq!(DemoHints::tile_sizes_3d().last(), 8);
    assert!(DemoHints::simplify_tree_during_meshing(5));
}
