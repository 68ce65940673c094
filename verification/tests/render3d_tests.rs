use tile_render::config::{ThreadCount, View3, VoxelRenderConfig};
use tile_render::render2d::Rgb;
use tile_render::render3d::render_shaded;
use tile_render::handle::Shape;
use tile_render::render3d::render_heightmap;
use tile_render::shape::Expr;
use tile_render::tile::TileSizes;

fn sphere(radius_sq: i64) -> Expr {
    let xx = Expr::Mul(Box::new(Expr::X), Box::new(Expr::X));
    let yy = Expr::Mul(Box::new(Expr::Y), Box::new(Expr::Y));
    let zz = Expr::Mul(Box::new(Expr::Z), Box::new(Expr::Z));
    Expr::Sub(
        Box::new(Expr::Add(Box::new(Expr::Add(Box::new(xx), Box::new(yy))), Box::new(zz))),
        Box::new(Expr::Const(radius_sq)),
    )
}

fn identity_cfg(n: usize, tiles: &[usize], threads: ThreadCount) -> VoxelRenderConfig {
    VoxelRenderConfig {
        voxel_size: n,
        tile_sizes: TileSizes::new(tiles).unwrap(),
        view: View3 { sx: 1, sy: 1, sz: 1, ox: 0, oy: 0, oz: 0 },
        threads,
    }
}

fn world(n: usize, p: usize) -> i64 {
    2 * p as i64 + 1 - n as i64
}

/// The expected height: one plus the highest voxel whose center is in
/// the sphere, or zero when the column misses it, computed directly.
fn expected_sphere_height(n: usize, radius_sq: i64, px: usize, py: usize) -> usize {
    let wx = world(n, px);
    let wy = world(n, py);
    for pz in (0..n).rev() {
        let wz = world(n, pz);
        if wx * wx + wy * wy + wz * wz <= radius_sq {
            return pz + 1;
        }
    }
    0
}

#[test]
fn sphere_heightmap_32() {
    // Shape x^2 + y^2 + z^2 - 1 in 1/32 world units over a 32^3 volume.
    let n = 32usize;
    let cfg = identity_cfg(n, &[32, 8], ThreadCount::One);
    let img = render_heightmap(Shape::new(sphere(32 * 32)), &cfg);
    assert_eq!(img.len(), n * n);
    for py in 0..n {
        for px in 0..n {
            assert_eq!(
                img[py * n + px],
                expected_sphere_height(n, 32 * 32, px, py),
                "column ({px},{py})"
            );
        }
    }
}

#[test]
fn sphere_heightmap_independent_of_thread_count() {
    let n = 32usize;
    let one = render_heightmap(
        Shape::new(sphere(32 * 32)),
        &identity_cfg(n, &[32, 8], ThreadCount::One),
    );
    for units in [2usize, 4, 9] {
        let many = render_heightmap(
            Shape::new(sphere(32 * 32)),
            &identity_cfg(n, &[32, 8], ThreadCount::Many(units)),
        );
        assert_eq!(one, many, "units = {units}");
    }
    let other_tiles = render_heightmap(
        Shape::new(sphere(32 * 32)),
        &identity_cfg(n, &[16, 4], ThreadCount::Many(3)),
    );
    assert_eq!(one, other_tiles);
}

#[test]
fn empty_volume_has_zero_heights() {
    let n = 16usize;
    let cfg = identity_cfg(n, &[16, 4], ThreadCount::One);
    let img = render_heightmap(Shape::new(Expr::Const(1)), &cfg);
    assert!(img.iter().all(|&h| h == 0));
}

#[test]
fn full_volume_tops_out() {
    let n = 16usize;
    let cfg = identity_cfg(n, &[16, 4], ThreadCount::One);
    let img = render_heightmap(Shape::new(Expr::Const(-1)), &cfg);
    assert!(img.iter().all(|&h| h == n));
}

#[test]
fn half_space_heightmap() {
    // Shape z: filled for world z at most zero, so every column stops at
    // the voxel plane just below the center.
    let n = 8usize;
    let cfg = identity_cfg(n, &[8, 2], ThreadCount::One);
    let img = render_heightmap(Shape::new(Expr::Z), &cfg);
    // Highest voxel with 2 pz + 1 - 8 <= 0 is pz = 3, so height is 4.
    assert!(img.iter().all(|&h| h == 4));
}

#[test]
fn shaded_half_space_points_up() {
    // The gradient of the shape z is (0, 0, 1) everywhere, so every hit
    // pixel gets the flat upward normal color.
    let n = 8usize;
    let cfg = identity_cfg(n, &[8, 2], ThreadCount::One);
    let img = render_shaded(Shape::new(Expr::Z), &cfg);
    assert_eq!(img.len(), n * n);
    assert!(img.iter().all(|&c| c == Rgb { r: 128, g: 128, b: 255 }));
}

#[test]
fn shaded_empty_volume_is_black() {
    let n = 8usize;
    let cfg = identity_cfg(n, &[8, 2], ThreadCount::One);
    let img = render_shaded(Shape::new(Expr::Const(1)), &cfg);
    assert!(img.iter().all(|&c| c == Rgb { r: 0, g: 0, b: 0 }));
}

#[test]
fn shaded_sphere_normals_follow_position() {
    let n = 32usize;
    let cfg = identity_cfg(n, &[32, 8], ThreadCount::One);
    let img = render_shaded(Shape::new(sphere(32 * 32)), &cfg);
    // Near the center of the sphere's silhouette the surface faces the
    // viewer: the z channel dominates.
    let c = img[16 * n + 16];
    assert!(c.b > 200, "center normal should point at the viewer: {c:?}");
    // On the left edge of the silhouette the x component is negative.
    let (mut px, py) = (0, 16);
    while img[py * n + px] == (Rgb { r: 0, g: 0, b: 0 }) {
        px += 1;
    }
    assert!(img[py * n + px].r < 128, "left edge points left");
}

#[test]
fn heightmap_clips_at_the_configured_depth() {
    // 12 voxels deep with 8-voxel root tiles: the grid is padded to 16,
    // but voxels above the configured depth never contribute a height.
    let n = 12usize;
    let cfg = identity_cfg(n, &[8, 2], ThreadCount::Many(2));
    let img = render_heightmap(Shape::new(Expr::Const(-1)), &cfg);
    assert!(img.iter().all(|&h| h == n));

    let cfg = identity_cfg(n, &[8, 2], ThreadCount::One);
    let img = render_heightmap(Shape::new(sphere(12 * 12)), &cfg);
    for py in 0..n {
        for px in 0..n {
            assert_eq!(
                img[py * n + px],
                expected_sphere_height(n, 12 * 12, px, py),
                "column ({px},{py})"
            );
        }
    }
}
