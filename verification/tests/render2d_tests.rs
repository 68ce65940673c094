use tile_render::config::{ImageRenderConfig, ThreadCount, View2};
use tile_render::handle::Shape;
use tile_render::render2d::{render_bits, render_debug, render_sdf, Rgb};
use tile_render::shape::Expr;
use tile_render::tile::TileSizes;

fn disk(radius_sq: i64) -> Expr {
    Expr::Sub(
        Box::new(Expr::Add(
            Box::new(Expr::Mul(Box::new(Expr::X), Box::new(Expr::X))),
            Box::new(Expr::Mul(Box::new(Expr::Y), Box::new(Expr::Y))),
        )),
        Box::new(Expr::Const(radius_sq)),
    )
}

fn identity_cfg(n: usize, tiles: &[usize], threads: ThreadCount) -> ImageRenderConfig {
    ImageRenderConfig {
        image_size: n,
        tile_sizes: TileSizes::new(tiles).unwrap(),
        view: View2 { sx: 1, sy: 1, ox: 0, oy: 0 },
        threads,
    }
}

/// With the identity view, pixel `(px, py)` of an `n`-wide image has the
/// integer world coordinates `(2 px + 1 - n, 2 py + 1 - n)`.
fn world(n: usize, p: usize) -> i64 {
    2 * p as i64 + 1 - n as i64
}

#[test]
fn unit_disk_bit_mask_64() {
    // Shape x^2 + y^2 - 1 on [-1, 1]^2, written in 1/64 world units:
    // the mask is exactly the set of pixel centers inside the unit disk.
    let n = 64usize;
    let cfg = identity_cfg(n, &[64, 16, 4], ThreadCount::One);
    let img = render_bits(Shape::new(disk(64 * 64)), &cfg);
    assert_eq!(img.len(), n * n);
    for py in 0..n {
        for px in 0..n {
            let wx = world(n, px);
            let wy = world(n, py);
            let expect = wx * wx + wy * wy <= 64 * 64;
            assert_eq!(img[py * n + px], expect, "pixel ({px},{py})");
        }
    }
}

#[test]
fn unit_disk_debug_levels_64() {
    let n = 64usize;
    let cfg = identity_cfg(n, &[64, 16, 4], ThreadCount::One);
    let img = render_debug(Shape::new(disk(64 * 64)), &cfg);
    // The central quarter tiles are wholly inside and fill at the 16
    // level (code 2*1+1); the outermost corners resolve as outside at
    // the deepest 4-pixel level (code 2*2+2).
    assert_eq!(img[31 * n + 31], 3);
    assert_eq!(img[32 * n + 32], 3);
    assert_eq!(img[0], 6);
    assert_eq!(img[n - 1], 6);
    assert_eq!(img[(n - 1) * n], 6);
    assert_eq!(img[n * n - 1], 6);
}

#[test]
fn half_plane_bit_mask_8() {
    // Shape x on an 8x8 image: pixels whose center x is at most zero
    // are set.  With the identity view centers sit at odd coordinates,
    // so that is exactly the left half.
    let n = 8usize;
    let cfg = identity_cfg(n, &[8], ThreadCount::One);
    let img = render_bits(Shape::new(Expr::X), &cfg);
    for py in 0..n {
        for px in 0..n {
            assert_eq!(img[py * n + px], world(n, px) <= 0, "pixel ({px},{py})");
        }
    }
}

#[test]
fn empty_shape_never_descends() {
    // The constant 1 is positive everywhere: every pixel stays empty and
    // the recursion resolves everything at the root tile.
    let n = 16usize;
    let cfg = identity_cfg(n, &[16, 4], ThreadCount::One);
    let bits = render_bits(Shape::new(Expr::Const(1)), &cfg);
    assert!(bits.iter().all(|&b| !b));
    let cfg = identity_cfg(n, &[16, 4], ThreadCount::One);
    let debug = render_debug(Shape::new(Expr::Const(1)), &cfg);
    assert!(debug.iter().all(|&c| c == 2), "outside fill at root level everywhere");
}

#[test]
fn inside_only_shape_fills_at_root() {
    let n = 16usize;
    let cfg = identity_cfg(n, &[16, 4], ThreadCount::One);
    let bits = render_bits(Shape::new(Expr::Const(-1)), &cfg);
    assert!(bits.iter().all(|&b| b));
    let cfg = identity_cfg(n, &[16, 4], ThreadCount::One);
    let debug = render_debug(Shape::new(Expr::Const(-1)), &cfg);
    assert!(debug.iter().all(|&c| c == 1), "inside fill at root level everywhere");
}

#[test]
fn thread_count_never_changes_the_image() {
    let n = 64usize;
    let one = render_bits(
        Shape::new(disk(64 * 64)),
        &identity_cfg(n, &[64, 16, 4], ThreadCount::One),
    );
    for units in [2usize, 3, 5, 16] {
        let many = render_bits(
            Shape::new(disk(64 * 64)),
            &identity_cfg(n, &[64, 16, 4], ThreadCount::Many(units)),
        );
        assert_eq!(one, many, "units = {units}");
    }
    // Even the tile hierarchy is irrelevant to the output.
    let other_tiles = render_bits(
        Shape::new(disk(64 * 64)),
        &identity_cfg(n, &[16, 8, 2], ThreadCount::Many(3)),
    );
    assert_eq!(one, other_tiles);
}

#[test]
fn sdf_ramp_colors() {
    // Shape x on a 2x2 image: centers at world -1 and 1.
    let n = 2usize;
    let cfg = identity_cfg(n, &[2], ThreadCount::One);
    let img = render_sdf(Shape::new(Expr::X), &cfg);
    assert_eq!(img[0], Rgb { r: 0, g: 254, b: 0 });
    assert_eq!(img[1], Rgb { r: 254, g: 0, b: 0 });
    assert_eq!(img[2], Rgb { r: 0, g: 254, b: 0 });
    assert_eq!(img[3], Rgb { r: 254, g: 0, b: 0 });
}

#[test]
fn partial_root_tiles_clip_to_the_image() {
    // 12 pixels wide with 8-pixel root tiles: the grid is padded to 16
    // but the image keeps only the real pixels.
    let n = 12usize;
    let cfg = identity_cfg(n, &[8, 4], ThreadCount::Many(2));
    let img = render_bits(Shape::new(disk(100)), &cfg);
    assert_eq!(img.len(), n * n);
    for py in 0..n {
        for px in 0..n {
            let wx = world(n, px);
            let wy = world(n, py);
            assert_eq!(img[py * n + px], wx * wx + wy * wy <= 100, "pixel ({px},{py})");
        }
    }
}

#[test]
fn union_of_half_planes_simplifies_mid_render() {
    // min(x, y) is negative in the union of two half planes; deciding
    // tiles exercise the per-tile simplification path.
    let n = 32usize;
    let cfg = identity_cfg(n, &[32, 8, 2], ThreadCount::One);
    let shape = Expr::Min(Box::new(Expr::X), Box::new(Expr::Y));
    let img = render_bits(Shape::new(shape), &cfg);
    for py in 0..n {
        for px in 0..n {
            let expect = world(n, px).min(world(n, py)) <= 0;
            assert_eq!(img[py * n + px], expect, "pixel ({px},{py})");
        }
    }
}

#[test]
fn degenerate_image_sizes() {
    let empty = render_bits(Shape::new(disk(100)), &identity_cfg(0, &[8], ThreadCount::Many(4)));
    assert!(empty.is_empty());
    let single = render_bits(Shape::new(disk(100)), &identity_cfg(1, &[8], ThreadCount::One));
    // The lone center sits at world (0, 0), inside the disk.
    assert_eq!(single, vec![true]);
}

#[test]
fn offset_and_scaled_view() {
    // Scale 3 with offset (10, -4): pixel (px, py) of a 4-wide image has
    // world coordinates (10 + 3 (2 px - 3), -4 + 3 (2 py - 3)).
    let n = 4usize;
    let cfg = ImageRenderConfig {
        image_size: n,
        tile_sizes: TileSizes::new(&[4, 2]).unwrap(),
        view: View2 { sx: 3, sy: 3, ox: 10, oy: -4 },
        threads: ThreadCount::Many(2),
    };
    let img = render_bits(Shape::new(Expr::Sub(Box::new(Expr::X), Box::new(Expr::Y))), &cfg);
    for py in 0..n {
        for px in 0..n {
            let wx = 10 + 3 * (2 * px as i64 - 3);
            let wy = -4 + 3 * (2 * py as i64 - 3);
            assert_eq!(img[py * n + px], wx - wy <= 0, "pixel ({px},{py})");
        }
    }
}

#[test]
fn debug_and_sdf_images_are_deterministic_across_thread_counts() {
    let n = 64usize;
    let dbg_one = render_debug(
        Shape::new(disk(64 * 64)),
        &identity_cfg(n, &[64, 16, 4], ThreadCount::One),
    );
    let sdf_one = render_sdf(
        Shape::new(disk(64 * 64)),
        &identity_cfg(n, &[64, 16, 4], ThreadCount::One),
    );
    for units in [2usize, 5, 16] {
        let dbg_many = render_debug(
            Shape::new(disk(64 * 64)),
            &identity_cfg(n, &[64, 16, 4], ThreadCount::Many(units)),
        );
        assert_eq!(dbg_one, dbg_many, "debug, units = {units}");
        let sdf_many = render_sdf(
            Shape::new(disk(64 * 64)),
            &identity_cfg(n, &[64, 16, 4], ThreadCount::Many(units)),
        );
        assert_eq!(sdf_one, sdf_many, "sdf, units = {units}");
    }
    // The distance field is tile-independent too (it never prunes).
    let sdf_other = render_sdf(
        Shape::new(disk(64 * 64)),
        &identity_cfg(n, &[16, 8, 2], ThreadCount::Many(3)),
    );
    assert_eq!(sdf_one, sdf_other);
}
