use vstd::prelude::*;
use crate::interval::{clamp64, clamp_to_i64};
use crate::tile::TileSizes;

verus! {

/// How many work units the top-level tile grid is split into.  Workers
/// never steal from one another, and the output never depends on the
/// count; a front end that wants one unit per core resolves that count
/// before building the configuration.
#[derive(Debug, Clone, Copy, PartialEq, Eq, Structural)]
pub enum ThreadCount {
    /// Render in a single unit, on the calling thread.
    One,
    /// Split the root tiles into this many units; zero means one.
    Many(usize),
}

impl ThreadCount {
    /// The number of work units this setting asks for, at least one.
    pub fn units(self) -> (n: usize)
        ensures
            n == self.units_spec(),
            n >= 1,
    {
        match self {
            ThreadCount::One => 1,
            ThreadCount::Many(m) => if m == 0 {
                1
            } else {
                m
            },
        }
    }

    pub open spec fn units_spec(self) -> int {
        match self {
            ThreadCount::One => 1,
            ThreadCount::Many(m) => if m == 0 {
                1int
            } else {
                m as int
            },
        }
    }
}

/// An affine 2D view: pixel `p` of an `n`-wide axis maps to the world
/// coordinate `o + s * (2p + 1 - n)`, so `s` is half the world width of
/// one pixel and `o` is the world coordinate of the image center.
#[derive(Debug, Clone, Copy, PartialEq, Eq, Structural)]
pub struct View2 {
    /// Half-pixel world step along `x`; positive.
    pub sx: i64,
    /// Half-pixel world step along `y`; positive.
    pub sy: i64,
    /// World `x` of the image center.
    pub ox: i64,
    /// World `y` of the image center.
    pub oy: i64,
}

impl View2 {
    pub open spec fn wf(self) -> bool {
        1 <= self.sx && 1 <= self.sy
    }
}

/// An affine 3D view: the 2D view plus the `z` axis.
#[derive(Debug, Clone, Copy, PartialEq, Eq, Structural)]
pub struct View3 {
    /// Half-voxel world step along `x`; positive.
    pub sx: i64,
    /// Half-voxel world step along `y`; positive.
    pub sy: i64,
    /// Half-voxel world step along `z`; positive.
    pub sz: i64,
    /// World `x` of the volume center.
    pub ox: i64,
    /// World `y` of the volume center.
    pub oy: i64,
    /// World `z` of the volume center.
    pub oz: i64,
}

impl View3 {
    pub open spec fn wf(self) -> bool {
        1 <= self.sx && 1 <= self.sy && 1 <= self.sz
    }
}

/// The world coordinate of grid index `p` on an `n`-wide axis with step
/// `s` and offset `o`: `o + s * (2p + 1 - n)`, clamped to the scalar
/// range.
pub open spec fn world_of(s: int, o: int, n: int, p: int) -> int {
    clamp64(o + s * (2 * p + 1 - n))
}

/// Computes [`world_of`] for machine-sized inputs.
pub fn world_coord(s: i64, o: i64, n: usize, p: usize) -> (w: i64)
    requires
        n <= 0x7fff_ffff,
        p <= 0xffff_ffff,
    ensures
        w as int == world_of(s as int, o as int, n as int, p as int),
{
    let t: i128 = 2 * (p as i128) + 1 - (n as i128);
    proof {
        crate::interval::lemma_mul_in_box(
            s as int,
            -0x8000_0000_0000_0000,
            0x7fff_ffff_ffff_ffff,
            t as int,
            -0x10_0000_0000,
            0x10_0000_0000,
        );
    }
    clamp_to_i64((s as i128) * t + (o as i128))
}

/// For a non-negative step, the world coordinate grows with the grid
/// index.
pub proof fn lemma_world_mono(s: int, o: int, n: int, p1: int, p2: int)
    requires
        0 <= s,
        p1 <= p2,
    ensures
        world_of(s, o, n, p1) <= world_of(s, o, n, p2),
{
    assert(s * (2 * p1 + 1 - n) <= s * (2 * p2 + 1 - n)) by (nonlinear_arith)
        requires
            0 <= s,
            p1 <= p2,
    ;
}

/// Settings for one 2D render: a square image of `image_size` pixels a
/// side, the checked tile-size list, the view, and the work-unit count.
#[derive(Debug)]
pub struct ImageRenderConfig {
    /// Output image edge length, in pixels.
    pub image_size: usize,
    /// The hierarchical tile sizes, largest first.
    pub tile_sizes: TileSizes,
    /// Pixel-to-world transform.
    pub view: View2,
    /// How many work units to split the root tiles into.
    pub threads: ThreadCount,
}

impl ImageRenderConfig {
    /// Machine-size limits: image and root tiles small enough that all
    /// index arithmetic fits on any target, and a positive view scale.
    pub open spec fn wf(self) -> bool {
        &&& self.image_size <= 0x7fff
        &&& self.tile_sizes@[0] <= 0x7fff
        &&& self.view.wf()
    }
}

/// Settings for one 3D render: a cubic volume of `voxel_size` voxels an
/// edge.
#[derive(Debug)]
pub struct VoxelRenderConfig {
    /// Output volume edge length, in voxels.
    pub voxel_size: usize,
    /// The hierarchical tile sizes, largest first.
    pub tile_sizes: TileSizes,
    /// Voxel-to-world transform.
    pub view: View3,
    /// How many work units to split the root tiles into.
    pub threads: ThreadCount,
}

impl VoxelRenderConfig {
    /// Machine-size limits, as for the 2D configuration.
    pub open spec fn wf(self) -> bool {
        &&& self.voxel_size <= 0x7fff
        &&& self.tile_sizes@[0] <= 0x7fff
        &&& self.view.wf()
    }
}

} // verus!
